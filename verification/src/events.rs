use vstd::prelude::*;
use crate::act::deck_has_named;
use crate::content::{Content, Id, CardRarity, ids_below, same_name, ETERNAL, STRIKE_TAG, DEFEND_TAG, PERFECT_FIT,
    SOULS_POWER, SPIRAL};
use crate::game::{cards_valid, contains_id, contains_usize, slots_valid};
use crate::state::{Card, Game, Rngs};
use crate::rng::UNIT;

verus! {

/// Whether `card` can never leave the deck.
pub open spec fn eternal(content: &Content, card: Card) -> bool {
    card.spec_flags(content.cards@[card.id as int]) & ETERNAL != 0
}

/// How many of the first `n` cards of `deck` can leave it.
pub open spec fn removable_count(content: &Content, deck: Seq<Card>, n: int) -> nat
    decreases n,
{
    if n <= 0 {
        0
    } else {
        removable_count(content, deck, n - 1) + if !eternal(content, deck[n - 1]) { 1nat } else { 0 }
    }
}

/// How many of the first `n` cards of `deck` are basic cards tagged `tag` that can
/// leave the deck.
pub open spec fn basic_tag_count(content: &Content, deck: Seq<Card>, tag: u16, n: int) -> nat
    decreases n,
{
    if n <= 0 {
        0
    } else {
        let def = content.cards@[deck[n - 1].id as int];
        basic_tag_count(content, deck, tag, n - 1) + if def.rarity == CardRarity::Basic && def.tags & tag != 0
            && !eternal(content, deck[n - 1]) {
            1nat
        } else {
            0
        }
    }
}

/// How many of the first `n` potion slots hold a potion.
pub open spec fn potions_held(slots: Seq<Option<Id>>, n: int) -> nat
    decreases n,
{
    if n <= 0 {
        0
    } else {
        potions_held(slots, n - 1) + if slots[n - 1] is Some { 1nat } else { 0 }
    }
}

/// Whether a slot holds a potion named `name`.
pub open spec fn holds_potion(content: &Content, slots: Seq<Option<Id>>, name: Seq<char>) -> bool {
    exists|i: int| 0 <= i < slots.len() && (#[trigger] slots[i] matches Some(p) && content.potions@[p as int].id@ == name)
}

/// Whether some card of `deck` can take the enchantment `bit`.
pub open spec fn takes_enchantment(content: &Content, deck: Seq<Card>, bit: u8) -> bool {
    exists|i: int| 0 <= i < deck.len() && content.cards@[(#[trigger] deck[i]).id as int].enchantable & bit != 0
}

/// Whether some basic card of `deck` can leave it.
pub open spec fn basic_removable(content: &Content, deck: Seq<Card>) -> bool {
    exists|i: int| 0 <= i < deck.len() && content.cards@[(#[trigger] deck[i]).id as int].rarity == CardRarity::Basic
        && !eternal(content, deck[i])
}

/// Relics that no trade takes.
pub open spec fn untradable_name(name: Seq<char>) -> bool {
    ||| name == "RELIC.ALCHEMICAL_COFFER"@
    ||| name == "RELIC.ASTROLABE"@
    ||| name == "RELIC.BIG_MUSHROOM"@
    ||| name == "RELIC.CALLING_BELL"@
    ||| name == "RELIC.CAULDRON"@
    ||| name == "RELIC.DOLLYS_MIRROR"@
    ||| name == "RELIC.ELECTRIC_SHRYMP"@
    ||| name == "RELIC.EMPTY_CAGE"@
    ||| name == "RELIC.GNARLED_HAMMER"@
    ||| name == "RELIC.JEWELRY_BOX"@
    ||| name == "RELIC.LEES_WAFFLE"@
    ||| name == "RELIC.MANGO"@
    ||| name == "RELIC.OLD_COIN"@
    ||| name == "RELIC.ORRERY"@
    ||| name == "RELIC.PANDORAS_BOX"@
    ||| name == "RELIC.PEAR"@
    ||| name == "RELIC.POTION_BELT"@
    ||| name == "RELIC.ROYAL_STAMP"@
    ||| name == "RELIC.SAND_CASTLE"@
    ||| name == "RELIC.STRAWBERRY"@
    ||| name == "RELIC.WAR_PAINT"@
    ||| name == "RELIC.WHETSTONE"@
}

/// Whether relic `i` of the run can be traded away: held, of a rarity group, not one
/// whose effect was used up on pickup, and not a Maw Bank that stopped paying.
pub open spec fn tradable(g: Game, content: &Content, i: int) -> bool {
    let def = content.relics@[g.run.relics@[i] as int];
    &&& !g.melted_relics@.contains(i as usize)
    &&& def.grouped
    &&& !untradable_name(def.id@)
    &&& (def.id@ != "RELIC.MAW_BANK"@ || !g.maw_bank)
}

/// The indices of the tradable relics among the first `n`, in order.
pub open spec fn tradable_indices(g: Game, content: &Content, n: int) -> Seq<usize>
    decreases n,
{
    if n <= 0 {
        seq![]
    } else if tradable(g, content, n - 1) {
        tradable_indices(g, content, n - 1).push((n - 1) as usize)
    } else {
        tradable_indices(g, content, n - 1)
    }
}

/// The floor counted over the whole run (17 per act).
pub open spec fn total_floor(g: Game) -> int {
    (if g.run.act > 0 { g.run.act - 1 } else { 0int }) * 17 + g.run.floor
}

/// Whether event `id` may happen now.
pub open spec fn event_allowed_spec(g: Game, content: &Content, id: Id) -> bool {
    let name = content.events@[id as int].id@;
    let deck = g.run.deck@;
    let gold = g.run.gold;
    let act = g.run.act;
    let potions = potions_held(g.run.potions@, g.run.potions@.len() as int);
    let tradables = tradable_indices(g, content, g.run.relics@.len() as int).len();
    if name == "EVENT.AMALGAMATOR"@ {
        basic_tag_count(content, deck, STRIKE_TAG, deck.len() as int) >= 2 && basic_tag_count(
            content,
            deck,
            DEFEND_TAG,
            deck.len() as int,
        ) >= 2
    } else if name == "EVENT.BRAIN_LEECH"@ || name == "EVENT.ROOM_FULL_OF_CHEESE"@ {
        act < 3
    } else if name == "EVENT.BYRDONIS_NEST"@ {
        !g.spec_has_relic(content, "RELIC.BYRDPIP"@) && !g.spec_has_relic(content, "RELIC.PAELS_LEGION"@)
            && !deck_has_named(deck, content, "CARD.BYRDONIS_EGG"@)
    } else if name == "EVENT.COLOSSAL_FLOWER"@ {
        g.run.hp >= 19
    } else if name == "EVENT.CRYSTAL_SPHERE"@ {
        act > 1 && gold >= 100
    } else if name == "EVENT.DOLL_ROOM"@ {
        act == 2
    } else if name == "EVENT.ENDLESS_CONVEYOR"@ {
        gold >= 120
    } else if name == "EVENT.FAKE_MERCHANT"@ {
        act > 1 && (gold >= 100 || holds_potion(content, g.run.potions@, "POTION.FOUL_POTION"@))
    } else if name == "EVENT.FIELD_OF_MAN_SIZED_HOLES"@ {
        takes_enchantment(content, deck, PERFECT_FIT)
    } else if name == "EVENT.GRAVE_OF_THE_FORGOTTEN"@ {
        takes_enchantment(content, deck, SOULS_POWER)
    } else if name == "EVENT.LUMINOUS_CHOIR"@ {
        gold >= 149 && exists|r: int| 0 <= r < 4 && (#[trigger] g.relic_deques@[r])@.len() > 0
    } else if name == "EVENT.MORPHIC_GROVE"@ {
        gold >= 100 && removable_count(content, deck, deck.len() as int) >= 2
    } else if name == "EVENT.POTION_COURIER"@ || name == "EVENT.SYMBIOTE"@ {
        act > 1
    } else if name == "EVENT.PUNCH_OFF"@ {
        total_floor(g) >= 6
    } else if name == "EVENT.RANWID_THE_ELDER"@ {
        act > 1 && gold >= 100 && potions > 0 && tradables > 0
    } else if name == "EVENT.RELIC_TRADER"@ {
        act > 1 && tradables >= 5
    } else if name == "EVENT.ROUND_TEA_PARTY"@ {
        g.run.hp >= 12
    } else if name == "EVENT.SLIPPERY_BRIDGE"@ {
        total_floor(g) > 6 && removable_count(content, deck, deck.len() as int) > 0
    } else if name == "EVENT.SPIRALING_WHIRLPOOL"@ {
        takes_enchantment(content, deck, SPIRAL)
    } else if name == "EVENT.STONE_OF_ALL_TIME"@ {
        act == 2 && potions > 0
    } else if name == "EVENT.TEA_MASTER"@ {
        act < 3 && gold >= 150
    } else if name == "EVENT.THE_FUTURE_OF_POTIONS"@ {
        potions >= 2
    } else if name == "EVENT.THE_LEGENDS_WERE_TRUE"@ {
        act == 1 && deck.len() > 0 && g.run.hp >= 10
    } else if name == "EVENT.TRASH_HEAP"@ {
        g.run.hp > 5
    } else if name == "EVENT.UNREST_SITE"@ {
        g.run.hp * 10 <= g.run.max_hp * 7
    } else if name == "EVENT.WAR_HISTORIAN_REPY"@ {
        false
    } else if name == "EVENT.WATERLOGGED_SCRIPTORIUM"@ {
        gold >= 55
    } else if name == "EVENT.WELCOME_TO_WONGOS"@ {
        act == 2 && gold >= 100
    } else if name == "EVENT.WHISPERING_HOLLOW"@ {
        gold >= 44
    } else if name == "EVENT.WOOD_CARVINGS"@ {
        basic_removable(content, deck)
    } else if name == "EVENT.ZEN_WEAVER"@ {
        gold >= 50
    } else {
        true
    }
}

/// Whether `name` is one of the relics that no trade takes.
fn is_untradable(name: &String) -> (untradable: bool)
    ensures
        untradable == untradable_name(name@),
{
    same_name(name, "RELIC.ALCHEMICAL_COFFER") || same_name(name, "RELIC.ASTROLABE") || same_name(
        name,
        "RELIC.BIG_MUSHROOM",
    ) || same_name(name, "RELIC.CALLING_BELL") || same_name(name, "RELIC.CAULDRON") || same_name(
        name,
        "RELIC.DOLLYS_MIRROR",
    ) || same_name(name, "RELIC.ELECTRIC_SHRYMP") || same_name(name, "RELIC.EMPTY_CAGE") || same_name(
        name,
        "RELIC.GNARLED_HAMMER",
    ) || same_name(name, "RELIC.JEWELRY_BOX") || same_name(name, "RELIC.LEES_WAFFLE") || same_name(
        name,
        "RELIC.MANGO",
    ) || same_name(name, "RELIC.OLD_COIN") || same_name(name, "RELIC.ORRERY") || same_name(
        name,
        "RELIC.PANDORAS_BOX",
    ) || same_name(name, "RELIC.PEAR") || same_name(name, "RELIC.POTION_BELT") || same_name(
        name,
        "RELIC.ROYAL_STAMP",
    ) || same_name(name, "RELIC.SAND_CASTLE") || same_name(name, "RELIC.STRAWBERRY") || same_name(
        name,
        "RELIC.WAR_PAINT",
    ) || same_name(name, "RELIC.WHETSTONE")
}

impl Game {
    /// The indices of the relics that a trade could take (see `tradable`).
    pub fn tradable_relics(&self, content: &Content) -> (indices: Vec<usize>)
        requires
            ids_below(self.run.relics@, content.relics@.len() as int),
        ensures
            indices@ == tradable_indices(*self, content, self.run.relics@.len() as int),
    {
        let mut indices: Vec<usize> = Vec::new();
        let mut i: usize = 0;
        while i < self.run.relics.len()
            invariant
                i <= self.run.relics@.len(),
                ids_below(self.run.relics@, content.relics@.len() as int),
                indices@ == tradable_indices(*self, content, i as int),
            decreases self.run.relics@.len() - i,
        {
            let def = &content.relics[self.run.relics[i] as usize];
            if !contains_usize(&self.melted_relics, i) && def.grouped && !is_untradable(&def.id) && (!same_name(
                &def.id,
                "RELIC.MAW_BANK",
            ) || !self.maw_bank) {
                indices.push(i);
            }
            i = i + 1;
        }
        indices
    }

    /// How many cards of the deck can leave it.
    fn count_removable(&self, content: &Content) -> (count: usize)
        requires
            cards_valid(self.run.deck@, content),
        ensures
            count == removable_count(content, self.run.deck@, self.run.deck@.len() as int),
    {
        let mut count: usize = 0;
        let mut i: usize = 0;
        while i < self.run.deck.len()
            invariant
                i <= self.run.deck@.len(),
                count <= i,
                cards_valid(self.run.deck@, content),
                count == removable_count(content, self.run.deck@, i as int),
            decreases self.run.deck@.len() - i,
        {
            let card = self.run.deck[i];
            if card.flags(&content.cards[card.id as usize]) & ETERNAL == 0 {
                count = count + 1;
            }
            i = i + 1;
        }
        count
    }

    /// How many basic cards tagged `tag` can leave the deck.
    fn count_basic_tagged(&self, content: &Content, tag: u16) -> (count: usize)
        requires
            cards_valid(self.run.deck@, content),
        ensures
            count == basic_tag_count(content, self.run.deck@, tag, self.run.deck@.len() as int),
    {
        let mut count: usize = 0;
        let mut i: usize = 0;
        while i < self.run.deck.len()
            invariant
                i <= self.run.deck@.len(),
                count <= i,
                cards_valid(self.run.deck@, content),
                count == basic_tag_count(content, self.run.deck@, tag, i as int),
            decreases self.run.deck@.len() - i,
        {
            let card = self.run.deck[i];
            let def = &content.cards[card.id as usize];
            if def.rarity == CardRarity::Basic && def.tags & tag != 0 && card.flags(def) & ETERNAL == 0 {
                count = count + 1;
            }
            i = i + 1;
        }
        count
    }

    /// How many potion slots hold a potion.
    fn count_potions(&self) -> (count: usize)
        ensures
            count == potions_held(self.run.potions@, self.run.potions@.len() as int),
    {
        let mut count: usize = 0;
        let mut i: usize = 0;
        while i < self.run.potions.len()
            invariant
                i <= self.run.potions@.len(),
                count <= i,
                count == potions_held(self.run.potions@, i as int),
            decreases self.run.potions@.len() - i,
        {
            if self.run.potions[i].is_some() {
                count = count + 1;
            }
            i = i + 1;
        }
        count
    }

    /// Whether some slot holds a potion named `name`.
    fn has_potion(&self, content: &Content, name: &str) -> (has: bool)
        requires
            slots_valid(self.run.potions@, content),
        ensures
            has == holds_potion(content, self.run.potions@, name@),
    {
        let mut i: usize = 0;
        while i < self.run.potions.len()
            invariant
                i <= self.run.potions@.len(),
                slots_valid(self.run.potions@, content),
                forall|k: int| 0 <= k < i ==> !(#[trigger] self.run.potions@[k] matches Some(p)
                    && content.potions@[p as int].id@ == name@),
            decreases self.run.potions@.len() - i,
        {
            match self.run.potions[i] {
                Some(p) => {
                    if same_name(&content.potions[p as usize].id, name) {
                        return true;
                    }
                },
                None => {},
            }
            i = i + 1;
        }
        false
    }

    /// Whether some card of the deck can take the enchantment `bit`.
    fn any_enchantable(&self, content: &Content, bit: u8) -> (any: bool)
        requires
            cards_valid(self.run.deck@, content),
        ensures
            any == takes_enchantment(content, self.run.deck@, bit),
    {
        let mut i: usize = 0;
        while i < self.run.deck.len()
            invariant
                i <= self.run.deck@.len(),
                cards_valid(self.run.deck@, content),
                forall|k: int| 0 <= k < i ==> content.cards@[(#[trigger] self.run.deck@[k]).id as int].enchantable & bit == 0,
            decreases self.run.deck@.len() - i,
        {
            if content.cards[self.run.deck[i].id as usize].enchantable & bit != 0 {
                return true;
            }
            i = i + 1;
        }
        false
    }

    /// Whether some basic card of the deck can leave it.
    fn any_basic_removable(&self, content: &Content) -> (any: bool)
        requires
            cards_valid(self.run.deck@, content),
        ensures
            any == basic_removable(content, self.run.deck@),
    {
        let mut i: usize = 0;
        while i < self.run.deck.len()
            invariant
                i <= self.run.deck@.len(),
                cards_valid(self.run.deck@, content),
                forall|k: int| 0 <= k < i ==> !(content.cards@[(#[trigger] self.run.deck@[k]).id as int].rarity
                    == CardRarity::Basic && !eternal(content, self.run.deck@[k])),
            decreases self.run.deck@.len() - i,
        {
            let card = self.run.deck[i];
            let def = &content.cards[card.id as usize];
            if def.rarity == CardRarity::Basic && card.flags(def) & ETERNAL == 0 {
                return true;
            }
            i = i + 1;
        }
        false
    }

    /// Whether event `id` may happen now (see `event_allowed_spec`).
    pub fn event_allowed(&self, content: &Content, id: Id) -> (allowed: bool)
        requires
            self.wf(content),
            id < content.events@.len(),
        ensures
            allowed == event_allowed_spec(*self, content, id),
    {
        let name = &content.events[id as usize].id;
        let gold = self.run.gold;
        let act = self.run.act;
        if same_name(name, "EVENT.AMALGAMATOR") {
            self.count_basic_tagged(content, STRIKE_TAG) >= 2 && self.count_basic_tagged(content, DEFEND_TAG) >= 2
        } else if same_name(name, "EVENT.BRAIN_LEECH") || same_name(name, "EVENT.ROOM_FULL_OF_CHEESE") {
            act < 3
        } else if same_name(name, "EVENT.BYRDONIS_NEST") {
            !self.has_relic(content, "RELIC.BYRDPIP") && !self.has_relic(content, "RELIC.PAELS_LEGION")
                && !self.deck_has(content, "CARD.BYRDONIS_EGG")
        } else if same_name(name, "EVENT.COLOSSAL_FLOWER") {
            self.run.hp >= 19
        } else if same_name(name, "EVENT.CRYSTAL_SPHERE") {
            act > 1 && gold >= 100
        } else if same_name(name, "EVENT.DOLL_ROOM") {
            act == 2
        } else if same_name(name, "EVENT.ENDLESS_CONVEYOR") {
            gold >= 120
        } else if same_name(name, "EVENT.FAKE_MERCHANT") {
            act > 1 && (gold >= 100 || self.has_potion(content, "POTION.FOUL_POTION"))
        } else if same_name(name, "EVENT.FIELD_OF_MAN_SIZED_HOLES") {
            self.any_enchantable(content, PERFECT_FIT)
        } else if same_name(name, "EVENT.GRAVE_OF_THE_FORGOTTEN") {
            self.any_enchantable(content, SOULS_POWER)
        } else if same_name(name, "EVENT.LUMINOUS_CHOIR") {
            let any_bag = self.relic_deques[0].len() > 0 || self.relic_deques[1].len() > 0
                || self.relic_deques[2].len() > 0 || self.relic_deques[3].len() > 0;
            proof {
                if any_bag {
                    if self.relic_deques[0].len() > 0 {
                        assert(self.relic_deques@[0]@.len() > 0);
                    } else if self.relic_deques[1].len() > 0 {
                        assert(self.relic_deques@[1]@.len() > 0);
                    } else if self.relic_deques[2].len() > 0 {
                        assert(self.relic_deques@[2]@.len() > 0);
                    } else {
                        assert(self.relic_deques@[3]@.len() > 0);
                    }
                }
            }
            gold >= 149 && any_bag
        } else if same_name(name, "EVENT.MORPHIC_GROVE") {
            gold >= 100 && self.count_removable(content) >= 2
        } else if same_name(name, "EVENT.POTION_COURIER") || same_name(name, "EVENT.SYMBIOTE") {
            act > 1
        } else if same_name(name, "EVENT.PUNCH_OFF") {
            let past: u16 = if act > 0 {
                (act - 1) as u16
            } else {
                0
            };
            past * 17 + self.run.floor as u16 >= 6
        } else if same_name(name, "EVENT.RANWID_THE_ELDER") {
            act > 1 && gold >= 100 && self.count_potions() > 0 && self.tradable_relics(content).len() > 0
        } else if same_name(name, "EVENT.RELIC_TRADER") {
            act > 1 && self.tradable_relics(content).len() >= 5
        } else if same_name(name, "EVENT.ROUND_TEA_PARTY") {
            self.run.hp >= 12
        } else if same_name(name, "EVENT.SLIPPERY_BRIDGE") {
            let past: u16 = if act > 0 {
                (act - 1) as u16
            } else {
                0
            };
            past * 17 + self.run.floor as u16 > 6 && self.count_removable(content) > 0
        } else if same_name(name, "EVENT.SPIRALING_WHIRLPOOL") {
            self.any_enchantable(content, SPIRAL)
        } else if same_name(name, "EVENT.STONE_OF_ALL_TIME") {
            act == 2 && self.count_potions() > 0
        } else if same_name(name, "EVENT.TEA_MASTER") {
            act < 3 && gold >= 150
        } else if same_name(name, "EVENT.THE_FUTURE_OF_POTIONS") {
            self.count_potions() >= 2
        } else if same_name(name, "EVENT.THE_LEGENDS_WERE_TRUE") {
            act == 1 && self.run.deck.len() > 0 && self.run.hp >= 10
        } else if same_name(name, "EVENT.TRASH_HEAP") {
            self.run.hp > 5
        } else if same_name(name, "EVENT.UNREST_SITE") {
            self.run.hp as i32 * 10 <= self.run.max_hp as i32 * 7
        } else if same_name(name, "EVENT.WAR_HISTORIAN_REPY") {
            false
        } else if same_name(name, "EVENT.WATERLOGGED_SCRIPTORIUM") {
            gold >= 55
        } else if same_name(name, "EVENT.WELCOME_TO_WONGOS") {
            act == 2 && gold >= 100
        } else if same_name(name, "EVENT.WHISPERING_HOLLOW") {
            gold >= 44
        } else if same_name(name, "EVENT.WOOD_CARVINGS") {
            self.any_basic_removable(content)
        } else if same_name(name, "EVENT.ZEN_WEAVER") {
            gold >= 50
        } else {
            true
        }
    }
}


/// Which events may happen depends on neither the event deck nor the random streams.
pub proof fn lemma_allowed_ignores_deck(a: Game, b: Game, content: &Content, id: Id)
    requires
        a.run == b.run,
        a.relic_deques == b.relic_deques,
        a.melted_relics == b.melted_relics,
        a.maw_bank == b.maw_bank,
    ensures
        event_allowed_spec(a, content, id) == event_allowed_spec(b, content, id),
{
    crate::deck::lemma_same_relics(a, b, content);
    assert(tradable_indices(a, content, a.run.relics@.len() as int) == tradable_indices(b, content, b.run.relics@.len() as int)) by {
        lemma_tradable_same(a, b, content, a.run.relics@.len() as int);
    }
}

proof fn lemma_tradable_same(a: Game, b: Game, content: &Content, n: int)
    requires
        a.run == b.run,
        a.melted_relics == b.melted_relics,
        a.maw_bank == b.maw_bank,
    ensures
        tradable_indices(a, content, n) == tradable_indices(b, content, n),
    decreases n,
{
    if n > 0 {
        lemma_tradable_same(a, b, content, n - 1);
    }
}

/// Turning the deck keeps its events.
pub proof fn lemma_turned_keeps(deck: Seq<Id>, k: int)
    requires
        0 <= k <= deck.len(),
    ensures
        turned(deck, k).to_multiset() == deck.to_multiset(),
{
    vstd::seq_lib::lemma_multiset_commutative(deck.subrange(k, deck.len() as int), deck.subrange(0, k));
    vstd::seq_lib::lemma_multiset_commutative(deck.subrange(0, k), deck.subrange(k, deck.len() as int));
    assert(deck.subrange(0, k) + deck.subrange(k, deck.len() as int) =~= deck);
    broadcast use vstd::multiset::group_multiset_axioms;
    assert(turned(deck, k).to_multiset() =~= deck.to_multiset());
}

/// The event deck turned by `k`: the first `k` events moved to the back.
pub open spec fn turned(deck: Seq<Id>, k: int) -> Seq<Id> {
    deck.subrange(k, deck.len() as int) + deck.subrange(0, k)
}

/// The first position from `j` on of `deck` holding an event that may happen in `g`
/// (and, with `unseen`, that the run has not seen), or -1 when there is none.
pub open spec fn first_event_from(g: Game, content: &Content, deck: Seq<Id>, unseen: bool, j: int) -> int
    decreases deck.len() - j,
{
    if j < 0 || j >= deck.len() {
        -1
    } else if event_allowed_spec(g, content, deck[j]) && (!unseen || !g.visited_events@.contains(deck[j])) {
        j
    } else {
        first_event_from(g, content, deck, unseen, j + 1)
    }
}

/// The position of the event that comes up from `deck`: the first one that may happen
/// and was not seen, else the first one that may happen; -1 when none may.
pub open spec fn event_position(g: Game, content: &Content, deck: Seq<Id>) -> int {
    let fresh = first_event_from(g, content, deck, true, 0);
    if fresh >= 0 {
        fresh
    } else {
        first_event_from(g, content, deck, false, 0)
    }
}

/// The event deck that `g` deals from: its own, or `pool` shuffled with the up-front
/// stream when it is empty.
pub open spec fn dealt_events(g: Game, pool: Seq<Id>) -> Seq<Id> {
    if g.events@.len() == 0 {
        crate::rng::shuffled(g.rngs.up_front, pool).0
    } else {
        g.events@
    }
}

/// Positions before `j` that do not match leave the first match where it is.
proof fn lemma_first_event_skips(g: Game, content: &Content, deck: Seq<Id>, unseen: bool, j: int)
    requires
        0 <= j <= deck.len(),
        forall|i: int| 0 <= i < j ==> !(event_allowed_spec(g, content, #[trigger] deck[i]) && (!unseen
            || !g.visited_events@.contains(deck[i]))),
    ensures
        first_event_from(g, content, deck, unseen, 0) == first_event_from(g, content, deck, unseen, j),
    decreases j,
{
    if j > 0 {
        lemma_first_event_skips(g, content, deck, unseen, j - 1);
        assert(!(event_allowed_spec(g, content, deck[j - 1]) && (!unseen || !g.visited_events@.contains(deck[j - 1]))));
    }
}

impl Game {
    /// The next event from the event deck (dealt from `pool` and shuffled when empty):
    /// the deck turns one event at a time until an event that may happen comes up,
    /// preferring one not seen yet in the run; it is marked seen.
    pub fn next_event(&mut self, content: &Content, pool: &Vec<Id>) -> (event: Option<Id>)
        requires
            old(self).wf(content),
            ids_below(pool@, content.events@.len() as int),
        ensures
            final(self).wf(content),
            old(self).events@.len() == 0 ==> final(self).events@.to_multiset() == pool@.to_multiset(),
            old(self).events@.len() > 0 ==> exists|k: int| 0 <= k <= old(self).events@.len() && final(self).events@ == turned(old(self).events@, k),
            ({
                let deck = dealt_events(*old(self), pool@);
                let at = event_position(*old(self), content, deck);
                &&& at >= 0 ==> at < deck.len() && event == Some(deck[at]) && final(self).events@ == turned(deck, at + 1)
                &&& at < 0 ==> event is None && final(self).events@ == deck
                &&& final(self).rngs == if old(self).events@.len() == 0 {
                    Rngs { up_front: crate::rng::shuffled(old(self).rngs.up_front, pool@).1, ..old(self).rngs }
                } else {
                    old(self).rngs
                }
            }),
            match event {
                Some(id) => {
                    &&& final(self).events@.contains(id)
                    &&& event_allowed_spec(*old(self), content, id)
                    &&& final(self).visited_events@ == old(self).visited_events@.push(id)
                    &&& (exists|i: int| 0 <= i < final(self).events@.len() && event_allowed_spec(*old(self), content, #[trigger] final(self).events@[i])
                        && !old(self).visited_events@.contains(final(self).events@[i])) ==> !old(self).visited_events@.contains(id)
                },
                None => {
                    &&& forall|i: int| 0 <= i < final(self).events@.len() ==> !event_allowed_spec(*old(self), content, #[trigger] final(self).events@[i])
                    &&& final(self).visited_events == old(self).visited_events
                },
            },
            *final(self) == (Game {
                events: final(self).events,
                visited_events: final(self).visited_events,
                rngs: final(self).rngs,
                ..*old(self)
            }),
    {
        broadcast use vstd::seq_lib::group_to_multiset_ensures;

        let ghost g0 = *self;
        if self.events.len() == 0 {
            self.events = pool.clone();
            self.rngs.up_front.shuffle(&mut self.events);
            proof {
                crate::content::lemma_perm_ids_below(self.events@, pool@, content.events@.len() as int);
            }
        }
        let ghost deck = self.events@;
        let ghost rngs_dealt = self.rngs;
        proof {
            assert(self.rngs == if g0.events@.len() == 0 {
                Rngs { up_front: crate::rng::shuffled(g0.rngs.up_front, pool@).1, ..g0.rngs }
            } else {
                g0.rngs
            });
        }
        let n = self.events.len();
        proof {
            assert(turned(deck, 0) =~= deck);
        }
        let mut j: usize = 0;
        while j < n
            invariant
                j <= n,
                n == deck.len(),
                self.events@ == turned(deck, j as int),
                self.wf(content),
                ids_below(deck, content.events@.len() as int),
                self.visited_events == g0.visited_events,
                *self == (Game { events: self.events, rngs: self.rngs, ..g0 }),
                forall|i: int| 0 <= i < j ==> !(event_allowed_spec(g0, content, #[trigger] deck[i]) && !g0.visited_events@.contains(deck[i])),
                g0.events@.len() > 0 ==> deck == g0.events@,
                g0.events@.len() == 0 ==> deck.to_multiset() == pool@.to_multiset(),
                g0 == *old(self),
                deck == dealt_events(g0, pool@),
                self.rngs == rngs_dealt,
                rngs_dealt == if g0.events@.len() == 0 {
                    Rngs { up_front: crate::rng::shuffled(g0.rngs.up_front, pool@).1, ..g0.rngs }
                } else {
                    g0.rngs
                },
            decreases n - j,
        {
            let id = self.events.remove(0);
            self.events.push(id);
            proof {
                assert(id == deck[j as int]);
                assert(self.events@ =~= turned(deck, j + 1));
                lemma_allowed_ignores_deck(*self, g0, content, id);
            }
            if self.event_allowed(content, id) && !contains_id(&self.visited_events, id) {
                self.visited_events.push(id);
                proof {
                    lemma_first_event_skips(g0, content, deck, true, j as int);
                    assert(first_event_from(g0, content, deck, true, j as int) == j);
                    assert(self.events@.contains(self.events@[n - 1]));
                    lemma_turned_keeps(deck, j + 1);
                    if g0.events@.len() > 0 {
                        assert(self.events@ == turned(g0.events@, j + 1));
                    }
                }
                return Some(id);
            }
            j = j + 1;
        }
        proof {
            assert(self.events@ =~= deck);
            lemma_first_event_skips(g0, content, deck, true, n as int);
            assert(first_event_from(g0, content, deck, true, 0) == -1);
        }
        let mut j: usize = 0;
        while j < n
            invariant
                j <= n,
                n == deck.len(),
                self.events@ == turned(deck, j as int),
                self.wf(content),
                ids_below(deck, content.events@.len() as int),
                self.visited_events == g0.visited_events,
                *self == (Game { events: self.events, rngs: self.rngs, ..g0 }),
                forall|i: int| 0 <= i < n ==> !(event_allowed_spec(g0, content, #[trigger] deck[i]) && !g0.visited_events@.contains(deck[i])),
                forall|i: int| 0 <= i < j ==> !event_allowed_spec(g0, content, #[trigger] deck[i]),
                g0.events@.len() > 0 ==> deck == g0.events@,
                g0.events@.len() == 0 ==> deck.to_multiset() == pool@.to_multiset(),
                g0 == *old(self),
                deck == dealt_events(g0, pool@),
                self.rngs == rngs_dealt,
                rngs_dealt == if g0.events@.len() == 0 {
                    Rngs { up_front: crate::rng::shuffled(g0.rngs.up_front, pool@).1, ..g0.rngs }
                } else {
                    g0.rngs
                },
                first_event_from(g0, content, deck, true, 0) == -1,
            decreases n - j,
        {
            let id = self.events.remove(0);
            self.events.push(id);
            proof {
                assert(id == deck[j as int]);
                assert(self.events@ =~= turned(deck, j + 1));
                lemma_allowed_ignores_deck(*self, g0, content, id);
            }
            if self.event_allowed(content, id) {
                self.visited_events.push(id);
                proof {
                    lemma_first_event_skips(g0, content, deck, false, j as int);
                    assert(first_event_from(g0, content, deck, false, j as int) == j);
                    assert(self.events@.contains(self.events@[n - 1]));
                    lemma_turned_keeps(deck, j + 1);
                    if g0.events@.len() > 0 {
                        assert(self.events@ == turned(g0.events@, j + 1));
                    }
                }
                return Some(id);
            }
            j = j + 1;
        }
        proof {
            assert(self.events@ =~= deck);
            if g0.events@.len() > 0 {
                assert(self.events@ == turned(g0.events@, 0));
            }
            lemma_first_event_skips(g0, content, deck, false, n as int);
        }
        None
    }
}


/// A card the Slippery Bridge would rather take: one that can leave the deck, that the
/// event has not set aside, and that is not a basic card (or, after a first pick, not
/// a copy of `previous`).
pub open spec fn slippery_preferred(g: Game, content: &Content, card: Card, previous: Option<Id>) -> bool {
    &&& !eternal(content, card)
    &&& !g.event_cards@.contains(card.instance)
    &&& match previous {
        None => content.cards@[card.id as int].rarity != CardRarity::Basic,
        Some(id) => card.id != id,
    }
}

/// The instances of the first `n` deck cards that the Slippery Bridge prefers, in order.
pub open spec fn preferred_instances(g: Game, content: &Content, previous: Option<Id>, n: int) -> Seq<u32>
    decreases n,
{
    if n <= 0 {
        seq![]
    } else if slippery_preferred(g, content, g.run.deck@[n - 1], previous) {
        preferred_instances(g, content, previous, n - 1).push(g.run.deck@[n - 1].instance)
    } else {
        preferred_instances(g, content, previous, n - 1)
    }
}

/// The instances of the first `n` deck cards that can leave the deck, in order.
pub open spec fn leaving_instances(g: Game, content: &Content, n: int) -> Seq<u32>
    decreases n,
{
    if n <= 0 {
        seq![]
    } else if !eternal(content, g.run.deck@[n - 1]) {
        leaving_instances(g, content, n - 1).push(g.run.deck@[n - 1].instance)
    } else {
        leaving_instances(g, content, n - 1)
    }
}

/// The instance that the Slippery Bridge takes: one of the preferred cards (else of
/// those that can leave the deck) picked by the next draw of the event's stream.
pub open spec fn slippery_pick(g: Game, content: &Content, previous: Option<Id>) -> u32 {
    let n = g.run.deck@.len() as int;
    let preferred = preferred_instances(g, content, previous, n);
    let cards = if preferred.len() > 0 { preferred } else { leaving_instances(g, content, n) };
    cards[(crate::rng::raw_value(g.event_rng->0) % (cards.len() as u64)) as int]
}

impl Game {
    /// Picks the card the Slippery Bridge takes (by instance, into the event's second
    /// value): a random preferred card, else any card that can leave the deck.
    pub fn pick_slippery_card(&mut self, content: &Content, previous: Option<Id>)
        requires
            old(self).wf(content),
            removable_count(content, old(self).run.deck@, old(self).run.deck@.len() as int) > 0 ==> old(self).event_rng is Some,
        ensures
            final(self).wf(content),
            removable_count(content, old(self).run.deck@, old(self).run.deck@.len() as int) == 0 ==> *final(self) == *old(self),
            removable_count(content, old(self).run.deck@, old(self).run.deck@.len() as int) > 0 ==> exists|i: int| {
                &&& 0 <= i < old(self).run.deck@.len()
                &&& final(self).event_data@[1] == (#[trigger] old(self).run.deck@[i]).instance
                &&& !eternal(content, old(self).run.deck@[i])
                &&& (exists|k: int| 0 <= k < old(self).run.deck@.len() && slippery_preferred(*old(self), content, #[trigger] old(self).run.deck@[k], previous))
                    ==> slippery_preferred(*old(self), content, old(self).run.deck@[i], previous)
                &&& final(self).event_data@ == old(self).event_data@.update(1, final(self).event_data@[1])
                &&& final(self).event_rng is Some
                &&& final(self).event_rng->0.count >= old(self).event_rng->0.count
            },
            removable_count(content, old(self).run.deck@, old(self).run.deck@.len() as int) > 0 ==> final(self).event_data@[1]
                == slippery_pick(*old(self), content, previous) && final(self).event_rng == Some(
                crate::rng::next_rng(old(self).event_rng->0),
            ),
            *final(self) == (Game { event_data: final(self).event_data, event_rng: final(self).event_rng, ..*old(self) }),
    {
        let mut cards: Vec<u32> = Vec::new();
        let ghost mut picked: Seq<int> = seq![];
        let mut i: usize = 0;
        while i < self.run.deck.len()
            invariant
                i <= self.run.deck@.len(),
                self.wf(content),
                cards@.len() == picked.len(),
                forall|k: int| 0 <= k < picked.len() ==> 0 <= #[trigger] picked[k] < i && cards@[k] == self.run.deck@[picked[k]].instance
                    && slippery_preferred(*self, content, self.run.deck@[picked[k]], previous),
                cards@.len() == 0 ==> forall|k: int| 0 <= k < i ==> !slippery_preferred(*self, content, #[trigger] self.run.deck@[k], previous),
                cards@ == preferred_instances(*old(self), content, previous, i as int),
                *self == *old(self),
            decreases self.run.deck@.len() - i,
        {
            let card = self.run.deck[i];
            let def = &content.cards[card.id as usize];
            let wanted = match previous {
                None => def.rarity != CardRarity::Basic,
                Some(id) => card.id != id,
            };
            if card.flags(def) & ETERNAL == 0 && !contains_u32(&self.event_cards, card.instance) && wanted {
                cards.push(card.instance);
                proof {
                    picked = picked.push(i as int);
                }
            }
            i = i + 1;
        }
        let preferred = cards.len() > 0;
        proof {
            if preferred {
                lemma_removable_positive(content, self.run.deck@, self.run.deck@.len() as int, picked[0]);
            }
        }
        if !preferred {
            let mut i: usize = 0;
            while i < self.run.deck.len()
                invariant
                    i <= self.run.deck@.len(),
                    self.wf(content),
                    cards@.len() == picked.len(),
                    forall|k: int| 0 <= k < picked.len() ==> 0 <= #[trigger] picked[k] < i && cards@[k] == self.run.deck@[picked[k]].instance
                        && !eternal(content, self.run.deck@[picked[k]]),
                    cards@.len() == 0 ==> removable_count(content, self.run.deck@, i as int) == 0,
                    cards@ == leaving_instances(*old(self), content, i as int),
                    *self == *old(self),
                decreases self.run.deck@.len() - i,
            {
                let card = self.run.deck[i];
                if card.flags(&content.cards[card.id as usize]) & ETERNAL == 0 {
                    cards.push(card.instance);
                    proof {
                        picked = picked.push(i as int);
                    }
                }
                i = i + 1;
            }
            proof {
                if cards.len() > 0 {
                    lemma_removable_positive(content, self.run.deck@, self.run.deck@.len() as int, picked[0]);
                }
            }
        }
        if cards.len() > 0 {
            let mut rng = match self.event_rng {
                Some(r) => r,
                None => {
                    return;
                },
            };
            let index = rng.index(cards.len());
            self.event_rng = Some(rng);
            self.event_data[1] = cards[index] as i64;
            proof {
                let d = picked[index as int];
                assert(self.event_data@[1] == old(self).run.deck@[d].instance);
                assert(self.event_data@ =~= old(self).event_data@.update(1, self.event_data@[1]));
            }
        }
    }
}

/// A card that can leave the deck is counted.
proof fn lemma_removable_positive(content: &Content, deck: Seq<Card>, n: int, k: int)
    requires
        0 <= k < n <= deck.len(),
        !eternal(content, deck[k]),
    ensures
        removable_count(content, deck, n) > 0,
    decreases n,
{
    if k < n - 1 {
        lemma_removable_positive(content, deck, n - 1, k);
    }
}

/// Whether `values` holds `value`.
fn contains_u32(values: &Vec<u32>, value: u32) -> (found: bool)
    ensures
        found == values@.contains(value),
{
    let mut i: usize = 0;
    while i < values.len()
        invariant
            i <= values@.len(),
            forall|k: int| 0 <= k < i ==> values@[k] != value,
        decreases values@.len() - i,
    {
        if values[i] == value {
            return true;
        }
        i = i + 1;
    }
    false
}


/// `dishes` without dish `served`.
pub open spec fn without_dish(dishes: Seq<(i64, u32)>, served: i64) -> Seq<(i64, u32)>
    decreases dishes.len(),
{
    if dishes.len() == 0 {
        seq![]
    } else if dishes.last().0 == served {
        without_dish(dishes.drop_last(), served)
    } else {
        without_dish(dishes.drop_last(), served).push(dishes.last())
    }
}

/// The dishes the Endless Conveyor could serve, with their weights: the staples, a
/// potion while a slot is free, a healing dish while hurt, a golden dish after the
/// first.
pub open spec fn conveyor_menu(g: Game, count: i64) -> Seq<(i64, u32)> {
    let staples = seq![(1i64, 6u32), (2i64, 3u32), (3i64, 3u32), (4i64, 3u32)];
    let with_potion = if exists|i: int| 0 <= i < g.run.potions@.len() && (#[trigger] g.run.potions@[i]) is None {
        staples.push((5i64, 3u32))
    } else {
        staples
    };
    let with_heal = if g.run.hp != g.run.max_hp { with_potion.push((6i64, 6u32)) } else { with_potion };
    if count > 1 { with_heal.push((7i64, 1u32)) } else { with_heal }
}

/// The total weight of `dishes` from entry `k` on.
pub open spec fn dish_weight(dishes: Seq<(i64, u32)>, k: int) -> int
    decreases dishes.len() - k,
{
    if k < 0 || k >= dishes.len() {
        0
    } else {
        dishes[k].1 + dish_weight(dishes, k + 1)
    }
}

/// The dish that a roll of `roll / UNIT` picks by weight, searching from entry `k`
/// with `before` the weight of the entries passed.
pub open spec fn dish_for(dishes: Seq<(i64, u32)>, roll: int, k: int, before: int) -> i64
    decreases dishes.len() - k,
{
    if k < 0 || k >= dishes.len() {
        0
    } else if roll * (before + dish_weight(dishes, k)) < (before + dishes[k].1) * UNIT {
        dishes[k].0
    } else {
        dish_for(dishes, roll, k + 1, before + dishes[k].1)
    }
}

impl Game {
    /// Serves the Endless Conveyor's next dish (kept in the event's first and third
    /// values, the count of dishes in the second): every fifth is the special dish 8,
    /// the others are drawn by weight from the event's stream, never the dish just
    /// served.
    pub fn roll_conveyor(&mut self)
        requires
            old(self).event_data@[1] < i64::MAX,
            (old(self).event_data@[1] + 1) % 5 != 0 ==> old(self).event_rng is Some,
        ensures
            final(self).event_data@[1] == old(self).event_data@[1] + 1,
            final(self).event_data@[1] % 5 == 0 ==> final(self).event_data@ == old(self).event_data@.update(1, final(self).event_data@[1]).update(0, 8).update(2, 8)
                && final(self).event_rng == old(self).event_rng,
            final(self).event_data@[1] % 5 != 0 ==> {
                let dishes = without_dish(conveyor_menu(*old(self), final(self).event_data@[1]), old(self).event_data@[2]);
                &&& final(self).event_data@[0] == dish_for(
                    dishes,
                    (crate::rng::raw_value(old(self).event_rng->0) % (UNIT as u64)) as int,
                    0,
                    0,
                )
                &&& final(self).event_data@ == old(self).event_data@.update(1, final(self).event_data@[1]).update(0, final(self).event_data@[0]).update(2, final(self).event_data@[0])
                &&& final(self).event_rng == Some(crate::rng::next_rng(old(self).event_rng->0))
            },
            *final(self) == (Game { event_data: final(self).event_data, event_rng: final(self).event_rng, ..*old(self) }),
    {
        self.event_data[1] = self.event_data[1] + 1;
        if self.event_data[1] % 5 == 0 {
            self.event_data[0] = 8;
            self.event_data[2] = 8;
            proof {
                assert(self.event_data@ =~= old(self).event_data@.update(1, self.event_data@[1]).update(0, 8).update(2, 8));
            }
            return;
        }
        let mut free_slot = false;
        let mut i: usize = 0;
        while i < self.run.potions.len()
            invariant
                i <= self.run.potions@.len(),
                free_slot == exists|k: int| 0 <= k < i && (#[trigger] self.run.potions@[k]) is None,
            decreases self.run.potions@.len() - i,
        {
            if self.run.potions[i].is_none() {
                free_slot = true;
            }
            i = i + 1;
        }
        let mut all: Vec<(i64, u32)> = vec![(1, 6), (2, 3), (3, 3), (4, 3)];
        if free_slot {
            all.push((5, 3));
        }
        if self.run.hp != self.run.max_hp {
            all.push((6, 6));
        }
        if self.event_data[1] > 1 {
            all.push((7, 1));
        }
        assert(all@ == conveyor_menu(*old(self), self.event_data@[1]));
        let served = self.event_data[2];
        let mut dishes: Vec<(i64, u32)> = Vec::new();
        let mut k: usize = 0;
        while k < all.len()
            invariant
                k <= all@.len(),
                all@.len() <= 7,
                forall|j: int| 0 <= j < all@.len() ==> (#[trigger] all@[j]).1 <= 6 && all@[j].1 >= 1,
                dishes@ == without_dish(all@.take(k as int), served),
                dishes@.len() <= k,
                forall|j: int| 0 <= j < dishes@.len() ==> (#[trigger] dishes@[j]).1 <= 6 && dishes@[j].1 >= 1,
            decreases all@.len() - k,
        {
            proof {
                assert(all@.take(k + 1).drop_last() =~= all@.take(k as int));
            }
            if all[k].0 != served {
                dishes.push(all[k]);
            }
            k = k + 1;
        }
        proof {
            assert(all@.take(all@.len() as int) =~= all@);
        }
        let mut weight: u32 = 0;
        let mut k: usize = dishes.len();
        while k > 0
            invariant
                k <= dishes@.len(),
                dishes@.len() <= 7,
                forall|j: int| 0 <= j < dishes@.len() ==> (#[trigger] dishes@[j]).1 <= 6 && dishes@[j].1 >= 1,
                weight == dish_weight(dishes@, k as int),
                weight <= 6 * (dishes@.len() - k),
            decreases k,
        {
            k = k - 1;
            weight = weight + dishes[k].1;
        }
        let mut rng = match self.event_rng {
            Some(r) => r,
            None => {
                return;
            },
        };
        let roll = rng.unit();
        self.event_rng = Some(rng);
        assert(roll as u64 * weight as u64 <= 0x0100_0000 * 42) by (nonlinear_arith)
            requires
                roll < 0x0100_0000,
                weight <= 42,
        ;
        let scaled: u64 = roll as u64 * weight as u64;
        let mut passed: u32 = 0;
        let mut k: usize = 0;
        let mut chosen: i64 = 0;
        while k < dishes.len()
            invariant_except_break
                k <= dishes@.len(),
                dishes@.len() <= 7,
                forall|j: int| 0 <= j < dishes@.len() ==> (#[trigger] dishes@[j]).1 <= 6 && dishes@[j].1 >= 1,
                weight == dish_weight(dishes@, 0),
                passed + dish_weight(dishes@, k as int) == weight,
                passed <= 6 * k,
                scaled == roll * weight,
                roll < UNIT,
                dish_for(dishes@, roll as int, 0, 0) == dish_for(dishes@, roll as int, k as int, passed as int),
                chosen == 0,
            ensures
                chosen == dish_for(dishes@, roll as int, 0, 0),
            decreases dishes@.len() - k,
        {
            let (dish, w) = dishes[k];
            if scaled < (passed as u64 + w as u64) * 0x0100_0000 {
                chosen = dish;
                break;
            }
            passed = passed + w;
            k = k + 1;
        }
        self.event_data[0] = chosen;
        self.event_data[2] = chosen;
        proof {
            assert(self.event_data@ =~= old(self).event_data@.update(1, self.event_data@[1]).update(0, chosen).update(2, chosen));
            assert(0 <= roll < UNIT && self.event_data@[0] == dish_for(dishes@, roll as int, 0, 0));
        }
    }
}

} // verus!
