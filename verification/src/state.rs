use vstd::prelude::*;
use crate::content::{Id, CardDef, CardRarity};
use crate::rng::Rng;

verus! {

/// A card in the deck or in a combat pile.
#[derive(Clone, Copy, Debug, PartialEq, Eq, Structural)]
pub struct Card {
    pub id: Id,
    pub upgrades: u8,
    /// A number unique within the run, 0 until the card is given one.
    pub instance: u32,
    /// Flags that the card has gained on top of those of its definition.
    pub flags: u16,
}

impl Card {
    pub open spec fn spec_flags(self, def: CardDef) -> u16 {
        def.flags[if self.upgrades > 0 { 1int } else { 0int }] | self.flags
    }

    /// The card's flags: those of its (upgraded) definition and its own.
    pub fn flags(&self, def: &CardDef) -> (flags: u16)
        ensures
            flags == self.spec_flags(*def),
    {
        let level: usize = if self.upgrades > 0 { 1 } else { 0 };
        def.flags[level] | self.flags
    }

    /// A fresh card of the given kind.
    pub fn of(id: Id, upgrades: u8) -> (card: Card)
        ensures
            card == (Card { id, upgrades, instance: 0, flags: 0 }),
    {
        Card { id, upgrades, instance: 0, flags: 0 }
    }
}

#[derive(Clone, Copy, Debug, PartialEq, Eq, Structural)]
pub enum Room {
    Combat,
    Elite,
    Boss,
    Rest,
    Shop,
    Treasure,
    Unknown,
    Event,
}

pub struct MapNode {
    pub floor: u8,
    pub lane: u8,
    pub room: Room,
    /// Indices of the nodes that this node leads to.
    pub next: Vec<usize>,
}

pub struct ActMap {
    pub nodes: Vec<MapNode>,
    /// The node the player stands on, if any.
    pub current: Option<usize>,
}

impl ActMap {
    /// Every edge and the current position index a node of the map.
    pub open spec fn wf(&self) -> bool {
        &&& forall|i: int, j: int|
            0 <= i < self.nodes@.len() && 0 <= j < self.nodes@[i].next@.len()
                ==> #[trigger] self.nodes@[i].next@[j] < self.nodes@.len()
        &&& self.current matches Some(c) ==> c < self.nodes@.len()
    }

    pub fn empty() -> (map: ActMap)
        ensures
            map.nodes@.len() == 0,
            map.current is None,
            map.wf(),
    {
        ActMap { nodes: Vec::new(), current: None }
    }
}

/// A card reward still to be rolled.
#[derive(Clone, Copy, Debug, PartialEq, Eq, Structural)]
pub enum CardReward {
    /// The character's cards, with the odds of a room.
    Standard(Room),
    /// Cards of one rarity from a character's cards.
    Fixed(Id, CardRarity),
    /// One card from each of three other characters.
    Kaleidoscope,
    /// Cards of one rarity, from the Crystal Sphere.
    Crystal(CardRarity),
}

/// The Crystal Sphere: an 11 by 11 grid of hidden cells over buried items.
pub struct CrystalSphere {
    /// The item under each cell (column times 11 plus row), if any.
    pub cells: Vec<Option<usize>>,
    /// Whether each cell has been cleared.
    pub clear: Vec<bool>,
    /// Each item: column, row, width, height, kind.
    pub items: Vec<(u8, u8, u8, u8, u8)>,
    /// The items fully uncovered, in the order they were.
    pub revealed: Vec<usize>,
    /// How many clearings are left.
    pub remaining: u8,
    /// Whether a clearing takes the cells around it too.
    pub big: bool,
}

pub struct Rewards {
    pub gold: i32,
    pub cards: Vec<Card>,
    /// Card rewards still to be offered after `cards`.
    pub card_rewards: Vec<CardReward>,
    pub relics: Vec<Id>,
    pub potions: Vec<Id>,
    pub removals: u8,
}

impl Rewards {
    pub fn empty() -> (rewards: Rewards)
        ensures
            rewards.gold == 0,
            rewards.cards@.len() == 0,
            rewards.card_rewards@.len() == 0,
            rewards.relics@.len() == 0,
            rewards.potions@.len() == 0,
            rewards.removals == 0,
    {
        Rewards {
            gold: 0,
            cards: Vec::new(),
            card_rewards: Vec::new(),
            relics: Vec::new(),
            potions: Vec::new(),
            removals: 0,
        }
    }
}

/// The card piles and counters of a fight.
pub struct Combat {
    pub draw: Vec<Card>,
    pub hand: Vec<Card>,
    pub discard: Vec<Card>,
    pub exhaust: Vec<Card>,
    pub offer: Vec<Card>,
    /// How many cards at the end of `draw` (its top) are known to the player.
    pub known_draw_top: usize,
    /// How many cards at the start of `draw` (its bottom) are known to the player.
    pub known_draw_bottom: usize,
    pub energy: u8,
    pub turn: u16,
}

#[derive(Clone, Copy, Debug, PartialEq, Eq, Structural)]
pub enum Pile {
    Draw,
    Hand,
    Discard,
    Exhaust,
    Offer,
}

pub enum Phase {
    /// Choosing the next room on the map.
    OnMap,
    Combat(Combat),
    Rewards(Rewards),
    Rest,
    /// Cards left to remove, the tag they must carry (0 for any), whether skipping is allowed.
    RemoveCards(u8, u16, bool),
    /// Cards left to upgrade, whether skipping is allowed.
    UpgradeCards(u8, bool),
    /// Cards offered, how many may still be taken, whether skipping is allowed.
    ChooseCards(Vec<Card>, u8, bool),
    ChooseBundles(Vec<Vec<Card>>),
    Won,
    Dead,
}

#[derive(Clone, Copy, Debug, PartialEq, Eq, Structural)]
pub enum Action {
    Play { hand: usize, target: Option<usize> },
    Potion { slot: usize, target: Option<usize> },
    DiscardPotion(usize),
    Choose(usize),
    Done,
    EndTurn,
    Path(usize),
    RewardGold,
    RewardCard(usize),
    RewardRelic(usize),
    RewardPotion(usize),
    RewardRemove,
    Rest,
    Smith(usize),
    Lift,
    Kindle,
    RemoveCard(usize),
    Cancel,
    Leave,
}

/// What an event option asks of the run.
#[derive(Clone, Copy, Debug, PartialEq, Eq, Structural)]
pub enum Requirement {
    Always,
    /// At least this much gold.
    Gold(i32),
    /// More hp than this.
    Hp(i16),
    /// A deck that is not empty.
    Deck,
}

#[derive(Clone, Copy, Debug, PartialEq, Eq, Structural)]
pub enum Error {
    InvalidContent,
    CombatActive,
    InvalidAction,
}

/// What a simulated step may branch on, and what it observed.
pub struct Expectation {
    /// The branch to take at each choice point, in order.
    pub choices: Vec<usize>,
    /// How many of `choices` have been used.
    pub used: usize,
    /// The number of branches at the first choice point past `choices`.
    pub next: Option<usize>,
    /// Whether the step did something that cannot be enumerated.
    pub unknown: bool,
    pub discarded: i16,
    pub drawn: i16,
}

/// The seeded random streams of a run, one per purpose.
pub struct Rngs {
    pub up_front: Rng,
    pub shuffle: Rng,
    pub rewards: Rng,
    pub niche: Rng,
    pub unknown_map_point: Rng,
    pub combat_potion_generation: Rng,
    pub combat_energy_costs: Rng,
}

impl Rngs {
    /// The streams of a run with seed `seed`: each seeded from `seed` with its own
    /// number mixed in, nothing drawn yet.
    pub open spec fn seeded(seed: u64) -> Rngs {
        Rngs {
            up_front: Rng::seeded(seed),
            shuffle: Rng::seeded(seed ^ 1u64),
            rewards: Rng::seeded(seed ^ 2u64),
            niche: Rng::seeded(seed ^ 3u64),
            unknown_map_point: Rng::seeded(seed ^ 4u64),
            combat_potion_generation: Rng::seeded(seed ^ 5u64),
            combat_energy_costs: Rng::seeded(seed ^ 6u64),
        }
    }

    pub fn from_seed(seed: u64) -> (rngs: Rngs)
        ensures
            rngs == Rngs::seeded(seed),
            rngs.positions() == seq![0u64, 0, 0, 0, 0, 0, 0],
    {
        Rngs {
            up_front: Rng::from_seed(seed),
            shuffle: Rng::from_seed(seed ^ 1),
            rewards: Rng::from_seed(seed ^ 2),
            niche: Rng::from_seed(seed ^ 3),
            unknown_map_point: Rng::from_seed(seed ^ 4),
            combat_potion_generation: Rng::from_seed(seed ^ 5),
            combat_energy_costs: Rng::from_seed(seed ^ 6),
        }
    }

    pub open spec fn positions(&self) -> Seq<u64> {
        seq![
            self.up_front.count,
            self.shuffle.count,
            self.rewards.count,
            self.niche.count,
            self.unknown_map_point.count,
            self.combat_potion_generation.count,
            self.combat_energy_costs.count,
        ]
    }

    /// How many values each stream has drawn.
    pub fn get_positions(&self) -> (positions: Vec<u64>)
        ensures
            positions@ == self.positions(),
    {
        vec![
            self.up_front.count,
            self.shuffle.count,
            self.rewards.count,
            self.niche.count,
            self.unknown_map_point.count,
            self.combat_potion_generation.count,
            self.combat_energy_costs.count,
        ]
    }
}

/// The lasting state of a run.
pub struct Run {
    pub ascension: u8,
    pub character: Id,
    pub hp: i16,
    pub max_hp: i16,
    pub gold: i32,
    pub deck: Vec<Card>,
    pub relics: Vec<Id>,
    pub potions: Vec<Option<Id>>,
    pub act: u8,
    pub floor: u8,
    pub energy: u8,
    pub draw: u8,
    pub orb_slots: u8,
    pub card_shop_removals: u8,
}

/// An effect that waits until the current screen of the run is finished.
pub enum RunEffect {
    /// Cards (by name) to add to the deck, and how many.
    AddCard(String, u8),
}

pub struct Game {
    pub run: Run,
    pub map: ActMap,
    pub phase: Phase,
    /// The content index of the current act.
    pub act: Id,
    pub room: Room,
    /// The phase to return to once the current choice is finished.
    pub resume: Option<Phase>,
    pub rngs: Rngs,
    pub next_card: u32,
    pub rarity_offset: i32,
    pub potion_odds: i32,
    pub bosses: [Option<Id>; 2],
    pub bosses_visited: u8,
    pub encounters: Vec<Id>,
    pub elites: Vec<Id>,
    pub weak_encounters_left: u8,
    pub regular_encounters_left: u8,
    pub elite_encounters_left: u8,
    pub last_encounter: Option<Id>,
    pub last_elite: Option<Id>,
    pub events: Vec<Id>,
    pub visited_events: Vec<Id>,
    pub seed: u32,
    pub unknown_odds: [i32; 4],
    pub replacing_potion: bool,
    pub pending_potion: Option<Id>,
    pub relic_deques: [Vec<Id>; 4],
    pub shared_relic_deques: [Vec<Id>; 4],
    /// Floor and lane of the treasure that the spoils map leads to.
    pub spoils: Option<(u8, u8)>,
    pub rerolled_cards: bool,
    pub winged_boots: u8,
    pub rest_used: u8,
    pub girya: u8,
    pub pumpkin_candle: u8,
    pub cooking: bool,
    pub paels_tooth: bool,
    pub paels_cards: Vec<Card>,
    pub reward_gold_parts: Vec<i32>,
    pub melted_relics: Vec<usize>,
    /// Indices of the relics made of wax (they melt later).
    pub wax_relics: Vec<usize>,
    /// Cards added since the last heal of the Book of Five Rings.
    pub book_of_five_rings: u8,
    /// Combats won while holding the Lasting Candy.
    pub lasting_candy: u8,
    /// Card rewards upgraded by the Silver Crucible so far.
    pub silver_crucible: u8,
    /// Whether the player lost hp in the current combat.
    pub damage_taken: bool,
    /// Fights won since Wongo's Mystery Ticket was bought, until it pays out.
    pub wongo_combats: Option<u8>,
    /// Whether the Maw Bank has stopped paying.
    pub maw_bank: bool,
    /// The random stream of the current event, seeded from its name.
    pub event_rng: Option<Rng>,
    /// Scratch values of the current event.
    pub event_data: [i64; 4],
    /// Card instances (or relic indices) that the current event set aside.
    pub event_cards: Vec<u32>,
    /// The Crystal Sphere being dug, if any.
    pub crystal: Option<CrystalSphere>,
    /// The relics that the Toy Box offered.
    pub toy_box_offers: Vec<Id>,
    /// Whether a curse waits until the reward screen is finished.
    pub pending_curse: bool,
    /// The act whose map the Golden Compass replaced, if any.
    pub golden_compass: Option<u8>,
    /// Effects that wait until the current screen of the run is finished.
    pub run_queue: Vec<RunEffect>,
    /// Lanes and floors of the fights that the Fur Coat marked.
    pub fur_coat: Vec<(u8, u8)>,
    /// The act whose fights the Fur Coat marked, if any.
    pub fur_coat_act: Option<u8>,
    pub expectation: Option<Expectation>,
}

} // verus!
