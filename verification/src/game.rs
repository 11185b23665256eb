use vstd::prelude::*;
use crate::content::{Id, Content, CardType, ids_below, first_named, same_name};
use crate::rng::Rng;
use crate::relics::{of_rarity, bags_of};
use crate::state::{Card, ActMap, Phase, Room, Rewards, Combat, Run, Game, Rngs, Error, Requirement};

verus! {

/// Every card in `cards` names a card definition.
pub open spec fn cards_valid(cards: Seq<Card>, content: &Content) -> bool {
    forall|i: int| 0 <= i < cards.len() ==> (#[trigger] cards[i]).id < content.cards@.len()
}

/// Every potion slot is empty or holds a potion of the content.
pub open spec fn slots_valid(slots: Seq<Option<Id>>, content: &Content) -> bool {
    forall|i: int| 0 <= i < slots.len() ==> (#[trigger] slots[i] matches Some(p) ==> p
        < content.potions@.len())
}

pub open spec fn phase_wf(phase: Phase, content: &Content) -> bool {
    match phase {
        Phase::Combat(c) => {
            &&& c.wf()
            &&& cards_valid(c.draw@, content)
            &&& cards_valid(c.hand@, content)
            &&& cards_valid(c.discard@, content)
            &&& cards_valid(c.exhaust@, content)
            &&& cards_valid(c.offer@, content)
        },
        Phase::Rewards(r) => {
            &&& cards_valid(r.cards@, content)
            &&& forall|i: int| 0 <= i < r.card_rewards@.len() ==> (#[trigger] r.card_rewards@[i] matches
                crate::state::CardReward::Fixed(c, _) ==> c < content.characters@.len())
            &&& ids_below(r.relics@, content.relics@.len() as int)
            &&& ids_below(r.potions@, content.potions@.len() as int)
        },
        Phase::ChooseCards(cards, _, _) => cards_valid(cards@, content),
        Phase::ChooseBundles(bundles) => forall|i: int|
            0 <= i < bundles@.len() ==> cards_valid(#[trigger] bundles@[i]@, content),
        _ => true,
    }
}

/// The relic bags hold relics of the content.
pub open spec fn deques_valid(deques: [Vec<Id>; 4], content: &Content) -> bool {
    forall|r: int| 0 <= r < 4 ==> ids_below(#[trigger] deques@[r]@, content.relics@.len() as int)
}

/// The number after the highest instance number among the first `i` cards of `deck`
/// once they are numbered: 1 for none; each card raises it to one above its own number
/// (saturating at `u32::MAX`), and an unnumbered card takes the current value as its
/// number.
pub open spec fn next_number(deck: Seq<Card>, i: int) -> u32
    decreases i,
{
    if i <= 0 {
        1
    } else {
        let before = next_number(deck, i - 1);
        let own = if deck[i - 1].instance == 0 { before } else { deck[i - 1].instance };
        let after = if own == u32::MAX { u32::MAX } else { (own + 1) as u32 };
        if after > before { after } else { before }
    }
}

/// Card `i` of `deck` once numbered: an unnumbered card takes `next_number(deck, i)`.
pub open spec fn numbered(deck: Seq<Card>, i: int) -> Card {
    if deck[i].instance == 0 {
        Card { instance: next_number(deck, i), ..deck[i] }
    } else {
        deck[i]
    }
}

/// Everything of a new run with seed `seed` but the run's own record, the card
/// numbering, the relic bags and the random streams: no map, no fight bags, bosses or
/// events yet, the rarity and potion odds at their start, and no pending choice.
pub open spec fn fresh(game: Game, seed: u64) -> bool {
    &&& game.map.nodes@.len() == 0
    &&& game.map.current is None
    &&& game.phase is OnMap
    &&& game.act == 0
    &&& game.room == Room::Combat
    &&& game.resume is None
    &&& game.rarity_offset == -500
    &&& game.potion_odds == 40
    &&& game.bosses@ == seq![None::<Id>, None]
    &&& game.bosses_visited == 0
    &&& game.encounters@.len() == 0
    &&& game.elites@.len() == 0
    &&& game.weak_encounters_left == 0
    &&& game.regular_encounters_left == 0
    &&& game.elite_encounters_left == 0
    &&& game.last_encounter is None
    &&& game.last_elite is None
    &&& game.events@.len() == 0
    &&& game.visited_events@.len() == 0
    &&& game.seed == seed as u32
    &&& game.unknown_odds@ == seq![1000i32, -10000i32, 200i32, 300i32]
    &&& !game.replacing_potion
    &&& game.pending_potion is None
    &&& game.spoils is None
    &&& !game.rerolled_cards
    &&& game.winged_boots == 0
    &&& game.rest_used == 0
    &&& game.girya == 0
    &&& game.pumpkin_candle == 0
    &&& !game.cooking
    &&& !game.paels_tooth
    &&& game.paels_cards@.len() == 0
    &&& game.reward_gold_parts@.len() == 0
    &&& game.melted_relics@.len() == 0
    &&& game.wax_relics@.len() == 0
    &&& game.book_of_five_rings == 0
    &&& game.lasting_candy == 0
    &&& game.silver_crucible == 0
    &&& !game.damage_taken
    &&& game.wongo_combats is None
    &&& !game.maw_bank
    &&& game.event_rng is None
    &&& game.event_data@ == seq![0i64, 0, 0, 0]
    &&& game.event_cards@.len() == 0
    &&& game.crystal is None
    &&& game.toy_box_offers@.len() == 0
    &&& !game.pending_curse
    &&& game.golden_compass is None
    &&& game.run_queue@.len() == 0
    &&& game.fur_coat@.len() == 0
    &&& game.fur_coat_act is None
    &&& game.expectation is None
}

impl Game {
    /// The invariant that the constructors establish and every step keeps.
    pub open spec fn wf(&self, content: &Content) -> bool {
        &&& content.wf()
        &&& self.run.character < content.characters@.len()
        &&& self.act < content.acts@.len()
        &&& 0 <= self.run.max_hp
        &&& self.run.hp <= self.run.max_hp
        &&& cards_valid(self.run.deck@, content)
        &&& cards_valid(self.paels_cards@, content)
        &&& ids_below(self.run.relics@, content.relics@.len() as int)
        &&& slots_valid(self.run.potions@, content)
        &&& self.pending_potion matches Some(p) ==> p < content.potions@.len()
        &&& deques_valid(self.relic_deques, content)
        &&& deques_valid(self.shared_relic_deques, content)
        &&& self.map.wf()
        &&& ids_below(self.encounters@, content.encounters@.len() as int)
        &&& ids_below(self.elites@, content.encounters@.len() as int)
        &&& ids_below(self.events@, content.events@.len() as int)
        &&& ids_below(self.visited_events@, content.events@.len() as int)
        &&& phase_wf(self.phase, content)
        &&& self.resume matches Some(p) ==> phase_wf(p, content)
        &&& -500 <= self.rarity_offset <= 4000
        &&& self.last_encounter matches Some(p) ==> p < content.encounters@.len()
        &&& self.last_elite matches Some(p) ==> p < content.encounters@.len()
    }

    /// A fresh run with the given deck. Each card without an instance number gets one
    /// above the highest number so far (see `numbered`), and `next_card` is left one
    /// above the highest number in the deck (see `next_number`).
    fn new(seed: u64, hp: i16, gold: i32, deck: Vec<Card>) -> (game: Game)
        ensures
            game.run.hp == hp,
            game.run.max_hp == hp,
            game.run.gold == gold,
            game.run.ascension == 0,
            game.run.character == 0,
            game.run.act == 0,
            game.run.floor == 0,
            game.run.energy == 3,
            game.run.draw == 5,
            game.run.relics@.len() == 0,
            game.run.potions@ == seq![None::<Id>, None, None],
            game.run.deck@.len() == deck@.len(),
            forall|i: int| 0 <= i < deck@.len() ==> #[trigger] game.run.deck@[i] == numbered(deck@, i),
            game.next_card == next_number(deck@, deck@.len() as int),
            forall|i: int|
                0 <= i < deck@.len() ==> {
                    let c = #[trigger] game.run.deck@[i];
                    &&& c.id == deck@[i].id
                    &&& c.upgrades == deck@[i].upgrades
                    &&& c.flags == deck@[i].flags
                    &&& c.instance != 0
                    &&& deck@[i].instance != 0 ==> c.instance == deck@[i].instance
                },
            forall|i: int|
                0 <= i < deck@.len() ==> (#[trigger] game.run.deck@[i]).instance < game.next_card
                    || game.next_card == u32::MAX,
            game.next_card >= 1,
            (forall|k: int| 0 <= k < deck@.len() ==> (#[trigger] deck@[k]).instance == 0) && deck@.len() < u32::MAX
                ==> game.next_card == deck@.len() + 1 && forall|k: int| 0 <= k < deck@.len() ==> (#[trigger] game.run.deck@[k]).instance == k + 1,
            fresh(game, seed),
            game.rngs == Rngs::seeded(seed),
            game.run.orb_slots == 0,
            game.run.card_shop_removals == 0,
            game.rarity_offset == -500,
            game.last_encounter is None,
            game.last_elite is None,
            game.phase is OnMap,
            game.map.nodes@.len() == 0,
            game.map.current is None,
            game.resume is None,
            game.act == 0,
            game.rngs.positions() == seq![0u64, 0, 0, 0, 0, 0, 0],
            game.seed == seed as u32,
            game.encounters@.len() == 0,
            game.elites@.len() == 0,
            game.events@.len() == 0,
            game.visited_events@.len() == 0,
            game.pending_potion is None,
            game.expectation is None,
            game.paels_cards@.len() == 0,
            forall|r: int| 0 <= r < 4 ==> (#[trigger] game.relic_deques@[r])@.len() == 0,
            forall|r: int| 0 <= r < 4 ==> (#[trigger] game.shared_relic_deques@[r])@.len() == 0,
    {
        let mut deck = deck;
        let ghost given = deck@;
        let mut next_card: u32 = 1;
        let mut i: usize = 0;
        while i < deck.len()
            invariant
                i <= deck@.len(),
                deck@.len() == given.len(),
                next_card >= 1,
                next_card == next_number(given, i as int),
                forall|k: int| 0 <= k < i ==> #[trigger] deck@[k] == numbered(given, k),
                forall|k: int|
                    0 <= k < given.len() ==> {
                        let c = #[trigger] deck@[k];
                        &&& c.id == given[k].id
                        &&& c.upgrades == given[k].upgrades
                        &&& c.flags == given[k].flags
                        &&& k >= i ==> c == given[k]
                        &&& k < i ==> c.instance != 0
                        &&& given[k].instance != 0 ==> c.instance == given[k].instance
                    },
                forall|k: int|
                    0 <= k < i ==> (#[trigger] deck@[k]).instance < next_card || next_card
                        == u32::MAX,
                (forall|k: int| 0 <= k < given.len() ==> (#[trigger] given[k]).instance == 0) && given.len()
                    < u32::MAX ==> next_card == i + 1 && forall|k: int| 0 <= k < i ==> (#[trigger] deck@[k]).instance == k + 1,
            decreases given.len() - i,
        {
            let mut card = deck[i];
            if card.instance == 0 {
                card.instance = next_card;
            }
            let after = card.instance.saturating_add(1);
            if after > next_card {
                next_card = after;
            }
            deck.set(i, card);
            i = i + 1;
        }
        Game {
            run: Run {
                ascension: 0,
                character: 0,
                hp,
                max_hp: hp,
                gold,
                deck,
                relics: Vec::new(),
                potions: vec![None, None, None],
                act: 0,
                floor: 0,
                energy: 3,
                draw: 5,
                orb_slots: 0,
                card_shop_removals: 0,
            },
            map: ActMap::empty(),
            phase: Phase::OnMap,
            act: 0,
            room: Room::Combat,
            resume: None,
            rngs: Rngs::from_seed(seed),
            next_card,
            rarity_offset: -500,
            potion_odds: 40,
            bosses: [None, None],
            bosses_visited: 0,
            encounters: Vec::new(),
            elites: Vec::new(),
            weak_encounters_left: 0,
            regular_encounters_left: 0,
            elite_encounters_left: 0,
            last_encounter: None,
            last_elite: None,
            events: Vec::new(),
            visited_events: Vec::new(),
            seed: seed as u32,
            unknown_odds: [1000, -10_000, 200, 300],
            replacing_potion: false,
            pending_potion: None,
            relic_deques: [Vec::new(), Vec::new(), Vec::new(), Vec::new()],
            shared_relic_deques: [Vec::new(), Vec::new(), Vec::new(), Vec::new()],
            spoils: None,
            rerolled_cards: false,
            winged_boots: 0,
            rest_used: 0,
            girya: 0,
            pumpkin_candle: 0,
            cooking: false,
            paels_tooth: false,
            paels_cards: Vec::new(),
            reward_gold_parts: Vec::new(),
            melted_relics: Vec::new(),
            wax_relics: Vec::new(),
            book_of_five_rings: 0,
            lasting_candy: 0,
            silver_crucible: 0,
            damage_taken: false,
            wongo_combats: None,
            maw_bank: false,
            event_rng: None,
            event_data: [0, 0, 0, 0],
            event_cards: Vec::new(),
            crystal: None,
            toy_box_offers: Vec::new(),
            pending_curse: false,
            golden_compass: None,
            run_queue: Vec::new(),
            fur_coat: Vec::new(),
            fur_coat_act: None,
            expectation: None,
        }
    }

    pub fn run(&self) -> (run: &Run)
        ensures
            run == &self.run,
    {
        &self.run
    }

    pub fn combat(&self) -> (combat: Option<&Combat>)
        ensures
            match self.phase {
                Phase::Combat(c) => combat == Some(&c),
                _ => combat is None,
            },
    {
        match &self.phase {
            Phase::Combat(combat) => Some(combat),
            _ => None,
        }
    }

    pub fn map(&self) -> (map: &ActMap)
        ensures
            map == &self.map,
    {
        &self.map
    }

    pub fn phase(&self) -> (phase: &Phase)
        ensures
            phase == &self.phase,
    {
        &self.phase
    }

    pub open spec fn in_combat(&self) -> bool {
        self.phase is Combat
    }

    /// Whether the run holds a relic named `wanted` that has not been melted.
    pub open spec fn spec_has_relic(&self, content: &Content, wanted: Seq<char>) -> bool {
        exists|i: int|
            0 <= i < self.run.relics@.len() && !self.melted_relics@.contains(i as usize)
                && content.relics@[self.run.relics@[i] as int].id@ == wanted
    }

    pub fn has_relic(&self, content: &Content, wanted: &str) -> (has: bool)
        requires
            ids_below(self.run.relics@, content.relics@.len() as int),
        ensures
            has == self.spec_has_relic(content, wanted@),
    {
        let mut i: usize = 0;
        while i < self.run.relics.len()
            invariant
                i <= self.run.relics@.len(),
                ids_below(self.run.relics@, content.relics@.len() as int),
                forall|k: int|
                    0 <= k < i ==> !(!self.melted_relics@.contains(k as usize)
                        && content.relics@[self.run.relics@[k] as int].id@ == wanted@),
            decreases self.run.relics@.len() - i,
        {
            let id = self.run.relics[i];
            if !contains_usize(&self.melted_relics, i) && same_name(
                &content.relics[id as usize].id,
                wanted,
            ) {
                return true;
            }
            i = i + 1;
        }
        false
    }
}

impl Game {
    pub fn new_character(content: &Content, seed: u64, character: Id) -> (result: Result<Game, Error>)
        ensures
            result is Ok <==> content.wf() && character < content.characters@.len(),
            result matches Ok(g) ==> Game::started(g, content, seed, character, 0),
            result matches Err(e) ==> e == Error::InvalidContent,
    {
        Self::new_character_ascension(content, seed, character, 0)
    }

    /// `game` is the run that `new_character_ascension` starts for these inputs.
    pub open spec fn started(game: Game, content: &Content, seed: u64, character: Id, ascension: u8) -> bool {
        let def = content.characters@[character as int];
        &&& game.wf(content)
        &&& game.run.ascension == if ascension < 10 { ascension } else { 10 }
        &&& game.run.character == character
        &&& game.run.hp == def.hp
        &&& game.run.max_hp == def.hp
        &&& game.run.gold == def.gold
        &&& game.run.energy == def.energy
        &&& game.run.draw == def.draw
        &&& game.run.orb_slots == def.orb_slots
        &&& game.run.act == 0
        &&& game.run.floor == 0
        &&& game.run.relics@ == def.relics@
        &&& game.run.potions@.len() == if ascension >= 4 { 2int } else { 3 }
        &&& forall|i: int| 0 <= i < game.run.potions@.len() ==> game.run.potions@[i] is None
        &&& game.run.deck@.len() == def.deck@.len() + if ascension >= 5 { 1int } else { 0 }
        &&& forall|i: int|
            0 <= i < def.deck@.len() ==> {
                let c = #[trigger] game.run.deck@[i];
                &&& c.id == def.deck@[i].0
                &&& c.upgrades == def.deck@[i].1
                &&& c.flags == 0
                &&& c.instance != 0
                &&& def.deck@.len() + 1 < u32::MAX ==> c.instance == i + 1
            }
        &&& def.deck@.len() + 1 < u32::MAX ==> game.next_card == game.run.deck@.len() + 1
        &&& ascension >= 5 ==> {
            let c = game.run.deck@[def.deck@.len() as int];
            &&& first_named(content.card_names(), "CARD.ASCENDERS_BANE"@, Some(c.id))
            &&& c.upgrades == 0
            &&& c.flags == 0
            &&& def.deck@.len() + 1 < u32::MAX ==> c.instance == def.deck@.len() + 1
        }
        &&& forall|r: int|
            0 <= r < 4 ==> (#[trigger] game.shared_relic_deques@[r])@.to_multiset()
                == of_rarity(content.acts@[0].relics@, content, r as u8).to_multiset()
        &&& forall|r: int|
            0 <= r < 4 ==> (#[trigger] game.relic_deques@[r])@.to_multiset() == of_rarity(
                content.acts@[0].relics@ + def.relic_pool@,
                content,
                r as u8,
            ).to_multiset()
        &&& game.run.card_shop_removals == 0
        &&& fresh(game, seed)
        &&& ({
            let shared = bags_of(content.acts@[0].relics@, content, Rng::seeded(seed));
            let own = bags_of(content.acts@[0].relics@ + def.relic_pool@, content, shared.1);
            &&& forall|r: int| 0 <= r < 4 ==> (#[trigger] game.shared_relic_deques@[r])@ == shared.0[r]
            &&& forall|r: int| 0 <= r < 4 ==> (#[trigger] game.relic_deques@[r])@ == own.0[r]
            &&& game.rngs == (Rngs { up_front: own.1, ..Rngs::seeded(seed) })
        })
    }

    /// Starts a run for a character: its stats, starting deck (each card numbered)
    /// and relics, relic bags shuffled from the first act's relics and its own, and
    /// the ascension's handicaps (one potion slot fewer from 4, an Ascender's Bane
    /// from 5). Fails with `InvalidContent` when the content is not valid, the
    /// character does not exist, or the bane card is needed and missing.
    pub fn new_character_ascension(
        content: &Content,
        seed: u64,
        character: Id,
        ascension: u8,
    ) -> (result: Result<Game, Error>)
        ensures
            result is Ok <==> content.wf() && character < content.characters@.len() && (ascension
                < 5 || exists|b: Id|
                first_named(content.card_names(), "CARD.ASCENDERS_BANE"@, Some(b))),
            result matches Err(e) ==> e == Error::InvalidContent,
            result matches Ok(g) ==> Game::started(g, content, seed, character, ascension),
    {
        if !content.validate() {
            return Err(Error::InvalidContent);
        }
        if character as usize >= content.characters.len() {
            return Err(Error::InvalidContent);
        }
        let def = &content.characters[character as usize];
        assert(def.wf(content));
        let mut deck: Vec<Card> = Vec::new();
        let mut i: usize = 0;
        while i < def.deck.len()
            invariant
                i <= def.deck@.len(),
                deck@.len() == i,
                forall|k: int|
                    0 <= k < i ==> #[trigger] deck@[k] == (Card { id: def.deck@[k].0, upgrades: def.deck@[k].1, instance: 0, flags: 0 }),
            decreases def.deck@.len() - i,
        {
            let (id, upgrades) = def.deck[i];
            deck.push(Card::of(id, upgrades));
            i = i + 1;
        }
        let mut game = Self::new(seed, def.hp, def.gold, deck);
        game.run.ascension = if ascension < 10 { ascension } else { 10 };
        game.run.character = character;
        game.run.energy = def.energy;
        game.run.draw = def.draw;
        game.run.orb_slots = def.orb_slots;
        game.run.relics = def.relics.clone();
        game.populate_relics(content, &def.relic_pool);
        if ascension >= 4 {
            game.run.potions.pop();
        }
        if ascension >= 5 {
            match content.card_id("CARD.ASCENDERS_BANE") {
                Some(bane) => {
                    let card = Card { id: bane, upgrades: 0, instance: game.next_card, flags: 0 };
                    game.run.deck.push(card);
                    game.next_card = game.next_card.saturating_add(1);
                },
                None => {
                    return Err(Error::InvalidContent);
                },
            }
        }
        Ok(game)
    }
}

/// Whether `values` holds `value`.
pub fn contains_usize(values: &Vec<usize>, value: usize) -> (found: bool)
    ensures
        found == values@.contains(value),
{
    let mut i: usize = 0;
    while i < values.len()
        invariant
            i <= values@.len(),
            forall|k: int| 0 <= k < i ==> values@[k] != value,
        decreases values@.len() - i,
    {
        if values[i] == value {
            return true;
        }
        i = i + 1;
    }
    false
}

/// Whether `values` holds `value`.
pub fn contains_id(values: &Vec<Id>, value: Id) -> (found: bool)
    ensures
        found == values@.contains(value),
{
    let mut i: usize = 0;
    while i < values.len()
        invariant
            i <= values@.len(),
            forall|k: int| 0 <= k < i ==> values@[k] != value,
        decreases values@.len() - i,
    {
        if values[i] == value {
            return true;
        }
        i = i + 1;
    }
    false
}


impl Game {
    /// Whether the run meets `requirement`.
    pub fn requirement(&self, requirement: Requirement) -> (met: bool)
        ensures
            met == match requirement {
                Requirement::Always => true,
                Requirement::Gold(gold) => self.run.gold >= gold,
                Requirement::Hp(hp) => self.run.hp > hp,
                Requirement::Deck => self.run.deck@.len() > 0,
            },
    {
        match requirement {
            Requirement::Always => true,
            Requirement::Gold(gold) => self.run.gold >= gold,
            Requirement::Hp(hp) => self.run.hp > hp,
            Requirement::Deck => self.run.deck.len() > 0,
        }
    }
}

} // verus!
