# Verified run model of a deck-building roguelike

A Verus library for the out-of-combat side of a deck-building roguelike run and for
the card piles of a fight. Every executable function carries a contract that Verus
proves; there are no trusted items.

Layout of `src/`:

- `rng.rs`: the seeded random streams (splitmix64), with uniform draws, fixed-point
  fractions over `UNIT`, a clamped bell-shaped draw and a shuffle. Every draw is stated
  exactly as a function of the stream's state (`raw_value`, `gaussian_value`,
  `shuffled`), so everything drawn from a stream is determined by the seed.
- `content.rs`: the content tables (cards, characters, acts, fights, events, relics,
  potions), their validity check and lookups by name.
- `state.rs`: cards, the act map, rewards, the fight's piles, phases, actions and the
  `Game` itself.
- `game.rs`: the game invariant, a new run per character and ascension, getters.
- `relics.rs`: the relic bags: filling, rolling a rarity, pulling a relic (it leaves
  every bag), losing a relic.
- `map.rs`: map generation (paths, room placement, layout), proved to give a map whose
  edges each climb one floor, whose nodes come by floor and lane with the ancient node
  alone on floor 0 of a standard act (an event in lane 3), with fights on the first
  floor, rest sites below the boss and treasures seven floors below it, no early rest
  sites or elites, and that ends at the boss in lane 3 (and a second boss).
- `act.rs`: starting an act: health, fight bags, elites, bosses, events and the map.
- `deck.rs`: gaining gold, adding cards with the relics that react to it, upgrading
  and transforming cards.
- `rewards.rs`: card, potion and relic rewards and the relics that alter them.
- `encounters.rs`: drawing fights from bags without repeats.
- `rooms.rs`: leaving rooms, resting, the ancients that open an act.
- `events.rs`: which events may come up, drawing the next one, and the small choices
  some events make (the card to turn, the dishes of the conveyor).
- `crystal.rs`: the Crystal Sphere: laying out the buried items, clearing cells and
  what the finished sphere gives.
- `obtain.rs`: obtaining a relic: it leaves the bags and joins the relics held; many
  relics act at once (health, energy, gold, potion slots, cards for the deck, offers
  of relics, potions or cards, changes to the deck or to the starter relic, the
  Golden Compass's map, the Fur Coat's marked fights, the Dusty Tome's card, the
  Preserved Fog's removals with a Folly queued on the run queue). Relics whose effect
  is a transform or enchant screen of the deck, or a transform drawn from a stream the
  model lacks, do nothing here.
- `fight_rewards.rs`: the rewards of a won fight: gold, a potion by chance, a card
  reward, an elite's relic, then what the relics add.
- `screens.rs`: taking gold, cards, relics, potions and removals from a reward
  screen, rerolling its cards, and the options of a rest site (rest, smith, lift,
  kindle, cook, hatch, dig).
- `piles.rs`: the fight's card piles: drawing, shuffling (exactly as the shuffle
  stream orders them, or, while a step is simulated, the discard sorted by name,
  appended and turned over), moving cards.
- `expect.rs`: the bookkeeping of a simulated step (scripted choices, counters).
- `laws.rs`: properties that relate several operations.

The tests under `tests/` build a small content set by hand and run the library.
