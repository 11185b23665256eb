use vstd::prelude::*;
use crate::content::{Id, Content, CardType, CardRarity, ids_below, same_name, first_named, STRIKE_TAG, DEFEND_TAG, ETERNAL, NO_GENERATE};
use crate::expect::{clamp_i16, saturating_add_i16};
use crate::deck::{gold_gain_applied, randomly_upgraded, named_added, card_added, sort_card_ids};
use crate::rewards::name_before;
use crate::game::cards_valid;
use crate::relics::{energy_relic, lemma_filter_ids_below, without_relic, relic_pulled, relic_rarity_rolled};
use crate::rewards::{card_reward_rolled, cards_rolled, reward_cards_rolled, fixed_drawn};
use crate::state::{Card, CardReward, Phase, Room, Rewards, Rngs, Run, Game, MapNode, RunEffect};
use vstd::string::StringExecFns;
use crate::rng::Rng;
use crate::map::map_shaped;
use crate::act::golden_layout;

verus! {

/// `after` is `before` holding relic `id` as its last relic, with every copy of the
/// relic gone from both sets of bags.
pub open spec fn taken_in(before: Game, after: Game, id: Id) -> bool {
    &&& after.run.relics@ == before.run.relics@.push(id)
    &&& forall|r: int|
        0 <= r < 4 ==> (#[trigger] after.relic_deques@[r])@ == without_relic(before.relic_deques@[r]@, id)
    &&& forall|r: int|
        0 <= r < 4 ==> (#[trigger] after.shared_relic_deques@[r])@ == without_relic(before.shared_relic_deques@[r]@, id)
    &&& after == (Game {
        run: Run { relics: after.run.relics, ..before.run },
        relic_deques: after.relic_deques,
        shared_relic_deques: after.shared_relic_deques,
        ..before
    })
}

/// `after` is `before` once relic `id` was obtained (see `Game::obtain_relic`).
pub open spec fn relic_obtained(before: Game, after: Game, content: &Content, id: Id) -> bool {
    exists|mid: Game|
        #[trigger] taken_in(before, mid, id) && mid.wf(content) && relic_effect(
            mid,
            after,
            content,
            content.relics@[id as int].id@,
        )
}

/// The max hp (and hp) that a fruit-like relic gives at once.
pub open spec fn growth_of(name: Seq<char>) -> int {
    if name == "RELIC.STRAWBERRY"@ {
        7
    } else if name == "RELIC.PEAR"@ {
        10
    } else if name == "RELIC.MANGO"@ {
        14
    } else if name == "RELIC.FAKE_MANGO"@ {
        3
    } else if name == "RELIC.BIG_MUSHROOM"@ {
        20
    } else if name == "RELIC.NUTRITIOUS_OYSTER"@ {
        11
    } else if name == "RELIC.LOOMING_FRUIT"@ {
        31
    } else {
        0
    }
}

/// The gold that a relic gives at once.
pub open spec fn windfall_of(name: Seq<char>) -> i32 {
    if name == "RELIC.OLD_COIN"@ {
        300
    } else if name == "RELIC.GOLDEN_PEARL"@ {
        150
    } else if name == "RELIC.SIGNET_RING"@ {
        999
    } else {
        0
    }
}

/// The cards a relic lets the player remove at once, and the hp it costs.
pub open spec fn removals_of(name: Seq<char>) -> (u8, i16) {
    if name == "RELIC.EMPTY_CAGE"@ {
        (2, 0)
    } else if name == "RELIC.PRECISE_SCISSORS"@ {
        (1, 0)
    } else if name == "RELIC.BIIIG_HUG"@ {
        (4, 0)
    } else if name == "RELIC.PRECARIOUS_SHEARS"@ {
        (2, 16)
    } else if name == "RELIC.PRESERVED_FOG"@ {
        (3, 0)
    } else {
        (0, 0)
    }
}

/// `after` is the run queue `before` with one Folly card added at its end.
pub open spec fn folly_queued(before: Seq<RunEffect>, after: Seq<RunEffect>) -> bool {
    &&& after.len() == before.len() + 1
    &&& after.drop_last() == before
    &&& after.last() matches RunEffect::AddCard(name, count) && name@ == "CARD.FOLLY"@ && count == 1
}

/// The cards a relic lets the player upgrade at once.
pub open spec fn smiths_of(name: Seq<char>) -> u8 {
    if name == "RELIC.POMANDER"@ {
        1
    } else if name == "RELIC.YUMMY_COOKIE"@ {
        4
    } else {
        0
    }
}

/// The random upgrades a relic makes: how many, of which card type, and the hp it
/// costs first.
pub open spec fn upgrades_of(name: Seq<char>) -> (usize, Option<CardType>, i16) {
    if name == "RELIC.FRAGRANT_MUSHROOM"@ {
        (3, None, 15)
    } else if name == "RELIC.SAND_CASTLE"@ {
        (6, None, 0)
    } else if name == "RELIC.WAR_PAINT"@ {
        (2, Some(CardType::Skill), 0)
    } else if name == "RELIC.WHETSTONE"@ {
        (2, Some(CardType::Attack), 0)
    } else {
        (0, None, 0)
    }
}

/// The card a relic adds to the deck, and how many copies.
pub open spec fn gift_of(name: Seq<char>) -> (Seq<char>, u8) {
    if name == "RELIC.NEOWS_TORMENT"@ {
        ("CARD.NEOWS_FURY"@, 1)
    } else if name == "RELIC.JEWELRY_BOX"@ {
        ("CARD.APOTHEOSIS"@, 1)
    } else if name == "RELIC.PAELS_HORN"@ {
        ("CARD.RELAX"@, 2)
    } else if name == "RELIC.STORYBOOK"@ {
        ("CARD.BRIGHTEST_FLAME"@, 1)
    } else if name == "RELIC.TANXS_WHISTLE"@ {
        ("CARD.WHISTLE"@, 1)
    } else {
        (seq![], 0)
    }
}

/// `hp` after losing `loss`, held at zero.
pub open spec fn hp_after_loss(hp: i16, loss: i16) -> i16 {
    if hp - loss > 0 {
        (hp - loss) as i16
    } else {
        0
    }
}

/// `g` with `loss` hp lost (held at zero).
pub open spec fn hurt(g: Game, loss: i16) -> Game {
    Game { run: Run { hp: hp_after_loss(g.run.hp, loss), ..g.run }, ..g }
}

/// `g` with one more energy per turn (held at the largest).
pub open spec fn energized(g: Game) -> Game {
    Game {
        run: Run { energy: if g.run.energy < u8::MAX { (g.run.energy + 1) as u8 } else { g.run.energy }, ..g.run },
        ..g
    }
}

/// `g` with its max hp lowered by `loss` (to at least one) and its hp held below it.
pub open spec fn shrunk(g: Game, loss: i16) -> Game {
    let max_hp: i16 = if g.run.max_hp - loss > 1 {
        (g.run.max_hp - loss) as i16
    } else {
        1
    };
    Game { run: Run { max_hp, hp: if g.run.hp < max_hp { g.run.hp } else { max_hp }, ..g.run }, ..g }
}

/// `after` is `before` once `n` cards named `name` entered the deck one by one.
pub open spec fn named_added_times(before: Game, after: Game, content: &Content, name: Seq<char>, n: nat) -> bool
    decreases n,
{
    if n == 0 {
        after == before
    } else {
        exists|mid: Game|
            named_added_times(before, mid, content, name, (n - 1) as nat) && #[trigger] named_added(
                mid,
                after,
                content,
                name,
            )
    }
}

/// Whether the relic named `name` changes the run's numbers or the phase at once.
pub open spec fn plain_relic(name: Seq<char>) -> bool {
    ||| growth_of(name) != 0
    ||| name == "RELIC.LEES_WAFFLE"@
    ||| name == "RELIC.FAKE_LEES_WAFFLE"@
    ||| energy_relic(name)
    ||| windfall_of(name) != 0
    ||| name == "RELIC.SILKEN_TRESS"@
    ||| name == "RELIC.POTION_BELT"@
    ||| name == "RELIC.WONGOS_MYSTERY_TICKET"@
    ||| name == "RELIC.PUMPKIN_CANDLE"@
    ||| removals_of(name).0 != 0
    ||| smiths_of(name) != 0
}

/// What obtaining a plain relic named `name` does to `before`.
pub open spec fn plain_effect(before: Game, after: Game, content: &Content, name: Seq<char>) -> bool {
    let b = before;
    if growth_of(name) != 0 {
        after == (Game {
            run: Run {
                max_hp: clamp_i16(b.run.max_hp + growth_of(name)),
                hp: clamp_i16(b.run.hp + growth_of(name)),
                ..b.run
            },
            ..b
        })
    } else if name == "RELIC.LEES_WAFFLE"@ {
        after == (Game {
            run: Run { max_hp: clamp_i16(b.run.max_hp + 7), hp: clamp_i16(b.run.max_hp + 7), ..b.run },
            ..b
        })
    } else if name == "RELIC.FAKE_LEES_WAFFLE"@ {
        after == (Game {
            run: Run {
                hp: if b.run.hp + b.run.max_hp / 10 < b.run.max_hp {
                    (b.run.hp + b.run.max_hp / 10) as i16
                } else {
                    b.run.max_hp
                },
                ..b.run
            },
            ..b
        })
    } else if energy_relic(name) {
        after == energized(b)
    } else if windfall_of(name) != 0 {
        gold_gain_applied(b, after, content, windfall_of(name))
    } else if name == "RELIC.SILKEN_TRESS"@ {
        after == (Game { run: Run { gold: 0, ..b.run }, ..b })
    } else if name == "RELIC.POTION_BELT"@ {
        &&& after.run.potions@ == b.run.potions@ + seq![None, None]
        &&& after == (Game { run: Run { potions: after.run.potions, ..b.run }, ..b })
    } else if name == "RELIC.WONGOS_MYSTERY_TICKET"@ {
        after == (Game { wongo_combats: Some(0), ..b })
    } else if name == "RELIC.PUMPKIN_CANDLE"@ {
        after == (Game { pumpkin_candle: 5, ..b })
    } else if removals_of(name).0 != 0 {
        let h = hurt(b, removals_of(name).1);
        &&& after == (Game { phase: Phase::RemoveCards(removals_of(name).0, 0, false), run_queue: after.run_queue, ..h })
        &&& name == "RELIC.PRESERVED_FOG"@ ==> folly_queued(b.run_queue@, after.run_queue@)
        &&& name != "RELIC.PRESERVED_FOG"@ ==> after.run_queue == b.run_queue
    } else if smiths_of(name) != 0 {
        after == (Game { phase: Phase::UpgradeCards(smiths_of(name), false), ..b })
    } else {
        after == before
    }
}

/// What obtaining a relic named `name` that changes the deck or offers something does
/// to `before`.
pub open spec fn gift_effect(before: Game, after: Game, content: &Content, name: Seq<char>) -> bool {
    let b = before;
    if upgrades_of(name).0 != 0 {
        randomly_upgraded(hurt(b, upgrades_of(name).2), after, content, upgrades_of(name).0, upgrades_of(name).1)
    } else if gift_of(name).1 != 0 {
        named_added_times(b, after, content, gift_of(name).0, gift_of(name).1 as nat)
    } else if name == "RELIC.DISTINGUISHED_CAPE"@ {
        named_added_times(shrunk(b, 9), after, content, "CARD.APPARITION"@, 3)
    } else if name == "RELIC.CURSED_PEARL"@ {
        exists|mid: Game|
            #[trigger] gold_gain_applied(b, mid, content, 333) && named_added_times(mid, after, content, "CARD.GREED"@, 1)
    } else if name == "RELIC.BLOOD_SOAKED_ROSE"@ {
        named_added_times(energized(b), after, content, "CARD.ENTHRALLED"@, 1)
    } else {
        offer_effect(b, after, content, name)
    }
}

/// What obtaining the relic named `name` does to `before` (the game that already
/// holds it), giving `after`.
pub open spec fn relic_effect(before: Game, after: Game, content: &Content, name: Seq<char>) -> bool {
    if plain_relic(name) {
        plain_effect(before, after, content, name)
    } else {
        gift_effect(before, after, content, name)
    }
}

/// The max hp (and hp) that the relic named `name` gives at once.
fn growth_of_name(name: &String) -> (n: i16)
    ensures
        n == growth_of(name@),
{
    if same_name(name, "RELIC.STRAWBERRY") {
        7
    } else if same_name(name, "RELIC.PEAR") {
        10
    } else if same_name(name, "RELIC.MANGO") {
        14
    } else if same_name(name, "RELIC.FAKE_MANGO") {
        3
    } else if same_name(name, "RELIC.BIG_MUSHROOM") {
        20
    } else if same_name(name, "RELIC.NUTRITIOUS_OYSTER") {
        11
    } else if same_name(name, "RELIC.LOOMING_FRUIT") {
        31
    } else {
        0
    }
}

fn windfall_of_name(name: &String) -> (gold: i32)
    ensures
        gold == windfall_of(name@),
{
    if same_name(name, "RELIC.OLD_COIN") {
        300
    } else if same_name(name, "RELIC.GOLDEN_PEARL") {
        150
    } else if same_name(name, "RELIC.SIGNET_RING") {
        999
    } else {
        0
    }
}

fn removals_of_name(name: &String) -> (removals: (u8, i16))
    ensures
        removals == removals_of(name@),
{
    if same_name(name, "RELIC.EMPTY_CAGE") {
        (2, 0)
    } else if same_name(name, "RELIC.PRECISE_SCISSORS") {
        (1, 0)
    } else if same_name(name, "RELIC.BIIIG_HUG") {
        (4, 0)
    } else if same_name(name, "RELIC.PRECARIOUS_SHEARS") {
        (2, 16)
    } else if same_name(name, "RELIC.PRESERVED_FOG") {
        (3, 0)
    } else {
        (0, 0)
    }
}

fn smiths_of_name(name: &String) -> (smiths: u8)
    ensures
        smiths == smiths_of(name@),
{
    if same_name(name, "RELIC.POMANDER") {
        1
    } else if same_name(name, "RELIC.YUMMY_COOKIE") {
        4
    } else {
        0
    }
}

fn upgrades_of_name(name: &String) -> (upgrades: (usize, Option<CardType>, i16))
    ensures
        upgrades == upgrades_of(name@),
{
    if same_name(name, "RELIC.FRAGRANT_MUSHROOM") {
        (3, None, 15)
    } else if same_name(name, "RELIC.SAND_CASTLE") {
        (6, None, 0)
    } else if same_name(name, "RELIC.WAR_PAINT") {
        (2, Some(CardType::Skill), 0)
    } else if same_name(name, "RELIC.WHETSTONE") {
        (2, Some(CardType::Attack), 0)
    } else {
        (0, None, 0)
    }
}

fn gift_of_name(name: &String) -> (gift: (&'static str, u8))
    ensures
        gift.0@ == gift_of(name@).0,
        gift.1 == gift_of(name@).1,
{
    if same_name(name, "RELIC.NEOWS_TORMENT") {
        ("CARD.NEOWS_FURY", 1)
    } else if same_name(name, "RELIC.JEWELRY_BOX") {
        ("CARD.APOTHEOSIS", 1)
    } else if same_name(name, "RELIC.PAELS_HORN") {
        ("CARD.RELAX", 2)
    } else if same_name(name, "RELIC.STORYBOOK") {
        ("CARD.BRIGHTEST_FLAME", 1)
    } else if same_name(name, "RELIC.TANXS_WHISTLE") {
        ("CARD.WHISTLE", 1)
    } else {
        proof {
            reveal_strlit("");
        }
        ("", 0)
    }
}

fn is_energy_relic(name: &String) -> (costly: bool)
    ensures
        costly == energy_relic(name@),
{
    same_name(name, "RELIC.BLESSED_ANTLER") || same_name(name, "RELIC.ECTOPLASM") || same_name(
        name,
        "RELIC.PHILOSOPHERS_STONE",
    ) || same_name(name, "RELIC.PRISMATIC_GEM") || same_name(name, "RELIC.SOZU") || same_name(
        name,
        "RELIC.SPIKED_GAUNTLETS",
    ) || same_name(name, "RELIC.VELVET_CHOKER") || same_name(name, "RELIC.WHISPERING_EARRING")
}

impl Game {
    /// Adds `n` copies of the first card named `name`, one by one.
    fn add_named_cards(&mut self, content: &Content, name: &str, n: u8)
        requires
            old(self).wf(content),
        ensures
            final(self).wf(content),
            named_added_times(*old(self), *final(self), content, name@, n as nat),
    {
        let mut k: u8 = 0;
        while k < n
            invariant
                k <= n,
                self.wf(content),
                named_added_times(*old(self), *self, content, name@, k as nat),
            decreases n - k,
        {
            let ghost prev = *self;
            self.add_named_card(content, name);
            assert(named_added_times(*old(self), *self, content, name@, (k + 1) as nat)) by {
                assert(named_added_times(*old(self), prev, content, name@, k as nat));
                assert(named_added(prev, *self, content, name@));
            }
            k = k + 1;
        }
    }

    /// Loses `loss` hp, held at zero.
    fn lose_hp(&mut self, content: &Content, loss: i16)
        requires
            old(self).wf(content),
            0 <= loss,
        ensures
            final(self).wf(content),
            *final(self) == hurt(*old(self), loss),
    {
        let hp: i32 = self.run.hp as i32 - loss as i32;
        self.run.hp = if hp > 0 {
            hp as i16
        } else {
            0
        };
    }

    /// Gains one energy per turn, held at the largest.
    fn gain_energy(&mut self, content: &Content)
        requires
            old(self).wf(content),
        ensures
            final(self).wf(content),
            *final(self) == energized(*old(self)),
    {
        if self.run.energy < u8::MAX {
            self.run.energy = self.run.energy + 1;
        }
    }

    /// What obtaining the plain relic named `name` does.
    fn plain_effect_of(&mut self, content: &Content, name: &String)
        requires
            old(self).wf(content),
            plain_relic(name@),
        ensures
            final(self).wf(content),
            plain_effect(*old(self), *final(self), content, name@),
    {
        let growth = growth_of_name(name);
        if growth != 0 {
            self.run.max_hp = saturating_add_i16(self.run.max_hp, growth);
            self.run.hp = saturating_add_i16(self.run.hp, growth);
            return;
        }
        if same_name(name, "RELIC.LEES_WAFFLE") {
            self.run.max_hp = saturating_add_i16(self.run.max_hp, 7);
            self.run.hp = self.run.max_hp;
            return;
        }
        if same_name(name, "RELIC.FAKE_LEES_WAFFLE") {
            let healed: i32 = self.run.hp as i32 + (self.run.max_hp / 10) as i32;
            self.run.hp = if healed < self.run.max_hp as i32 {
                healed as i16
            } else {
                self.run.max_hp
            };
            return;
        }
        if is_energy_relic(name) {
            self.gain_energy(content);
            return;
        }
        let gold = windfall_of_name(name);
        if gold != 0 {
            self.gain_gold(content, gold);
            return;
        }
        if same_name(name, "RELIC.SILKEN_TRESS") {
            self.run.gold = 0;
            return;
        }
        if same_name(name, "RELIC.POTION_BELT") {
            self.run.potions.push(None);
            self.run.potions.push(None);
            assert(self.run.potions@ =~= old(self).run.potions@ + seq![None, None]);
            return;
        }
        if same_name(name, "RELIC.WONGOS_MYSTERY_TICKET") {
            self.wongo_combats = Some(0);
            return;
        }
        if same_name(name, "RELIC.PUMPKIN_CANDLE") {
            self.pumpkin_candle = 5;
            return;
        }
        let (removals, loss) = removals_of_name(name);
        if removals != 0 {
            self.lose_hp(content, loss);
            if same_name(name, "RELIC.PRESERVED_FOG") {
                let ghost queued = self.run_queue@;
                self.run_queue.push(RunEffect::AddCard(String::from_str("CARD.FOLLY"), 1));
                proof {
                    reveal_strlit("CARD.FOLLY");
                    assert(self.run_queue@.drop_last() =~= queued);
                }
            }
            self.phase = Phase::RemoveCards(removals, 0, false);
            return;
        }
        let smiths = smiths_of_name(name);
        if smiths != 0 {
            self.phase = Phase::UpgradeCards(smiths, false);
            return;
        }
    }

    /// What obtaining relic `id`, not a plain one, does.
    fn gift_effect_of(&mut self, content: &Content, id: Id)
        requires
            old(self).wf(content),
            id < content.relics@.len(),
            !plain_relic(content.relics@[id as int].id@),
            needs_act(content.relics@[id as int].id@) ==> old(self).run.act >= 1,
        ensures
            final(self).wf(content),
            gift_effect(*old(self), *final(self), content, content.relics@[id as int].id@),
    {
        let name = &content.relics[id as usize].id;
        let (count, card_type, loss) = upgrades_of_name(name);
        if count != 0 {
            self.lose_hp(content, loss);
            self.upgrade_random(content, count, card_type);
            return;
        }
        let (card, copies) = gift_of_name(name);
        if copies != 0 {
            self.add_named_cards(content, card, copies);
            return;
        }
        if same_name(name, "RELIC.DISTINGUISHED_CAPE") {
            self.run.max_hp = if self.run.max_hp > 10 {
                self.run.max_hp - 9
            } else {
                1
            };
            if self.run.hp > self.run.max_hp {
                self.run.hp = self.run.max_hp;
            }
            self.add_named_cards(content, "CARD.APPARITION", 3);
            return;
        }
        if same_name(name, "RELIC.CURSED_PEARL") {
            self.gain_gold(content, 333);
            let ghost mid = *self;
            self.add_named_cards(content, "CARD.GREED", 1);
            assert(gold_gain_applied(*old(self), mid, content, 333));
            return;
        }
        if same_name(name, "RELIC.BLOOD_SOAKED_ROSE") {
            self.gain_energy(content);
            self.add_named_cards(content, "CARD.ENTHRALLED", 1);
            return;
        }
        self.offer_effect_of(content, id);
    }

    /// Whether the relic named `name` is a plain one.
    fn is_plain_relic(name: &String) -> (plain: bool)
        ensures
            plain == plain_relic(name@),
    {
        growth_of_name(name) != 0 || same_name(name, "RELIC.LEES_WAFFLE") || same_name(name, "RELIC.FAKE_LEES_WAFFLE")
            || is_energy_relic(name) || windfall_of_name(name) != 0 || same_name(name, "RELIC.SILKEN_TRESS")
            || same_name(name, "RELIC.POTION_BELT") || same_name(name, "RELIC.WONGOS_MYSTERY_TICKET")
            || same_name(name, "RELIC.PUMPKIN_CANDLE") || removals_of_name(name).0 != 0 || smiths_of_name(name) != 0
    }

    /// What obtaining relic `id` does once the game holds it.
    fn relic_effect_of(&mut self, content: &Content, id: Id)
        requires
            old(self).wf(content),
            id < content.relics@.len(),
            needs_act(content.relics@[id as int].id@) ==> old(self).run.act >= 1,
        ensures
            final(self).wf(content),
            relic_effect(*old(self), *final(self), content, content.relics@[id as int].id@),
    {
        let name = &content.relics[id as usize].id;
        if Self::is_plain_relic(name) {
            self.plain_effect_of(content, name);
        } else {
            self.gift_effect_of(content, id);
        }
    }

    /// Takes relic `id` in: it leaves every relic bag, joins the relics held, and
    /// acts at once (see `relic_effect`).
    pub fn obtain_relic(&mut self, content: &Content, id: Id)
        requires
            old(self).wf(content),
            id < content.relics@.len(),
            needs_act(content.relics@[id as int].id@) ==> old(self).run.act >= 1,
        ensures
            final(self).wf(content),
            relic_obtained(*old(self), *final(self), content, id),
    {
        self.remove_relic_from_bags(id);
        self.run.relics.push(id);
        let ghost mid = *self;
        proof {
            assert forall|r: int| 0 <= r < 4 implies ids_below(
                #[trigger] mid.relic_deques@[r]@,
                content.relics@.len() as int,
            ) by {
                lemma_filter_ids_below(old(self).relic_deques@[r]@, id, content.relics@.len() as int);
            }
            assert forall|r: int| 0 <= r < 4 implies ids_below(
                #[trigger] mid.shared_relic_deques@[r]@,
                content.relics@.len() as int,
            ) by {
                lemma_filter_ids_below(old(self).shared_relic_deques@[r]@, id, content.relics@.len() as int);
            }
            assert(ids_below(mid.run.relics@, content.relics@.len() as int)) by {
                assert forall|k: int| 0 <= k < mid.run.relics@.len() implies (#[trigger] mid.run.relics@[k])
                    < content.relics@.len() by {
                    if k < old(self).run.relics@.len() {
                        assert(mid.run.relics@[k] == old(self).run.relics@[k]);
                    }
                }
            }
        }
        assert(taken_in(*old(self), mid, id));
        self.relic_effect_of(content, id);
    }
}

/// The relic `o` as a list of zero or one relics.
pub open spec fn opt_ids(o: Option<Id>) -> Seq<Id> {
    match o {
        Some(x) => seq![x],
        None => seq![],
    }
}

/// A reward screen with no gold and no removal that offers `cards` (with
/// `card_rewards` still to roll), `relics` and `potions`.
pub open spec fn offer_screen(
    phase: Phase,
    cards: Seq<Card>,
    card_rewards: Seq<CardReward>,
    relics: Seq<Id>,
    potions: Seq<Id>,
) -> bool {
    phase matches Phase::Rewards(r) && r.gold == 0 && r.cards@ == cards && r.card_rewards@
        == card_rewards && r.relics@ == relics && r.potions@ == potions && r.removals == 0
}

/// Whether potion `p` belongs to the potions that `g` can be offered: the character's
/// or the act's.
pub open spec fn potion_source(g: Game, content: &Content, p: Id) -> bool {
    ||| content.characters@[g.run.character as int].potion_pool@.contains(p)
    ||| content.acts@[g.act as int].potions@.contains(p)
}

/// Each of `ids` is a potion that `g` can be offered.
pub open spec fn potions_from(g: Game, content: &Content, ids: Seq<Id>) -> bool {
    forall|k: int| 0 <= k < ids.len() ==> potion_source(g, content, #[trigger] ids[k])
}

/// Potions as filled slots.
pub open spec fn as_slots(ids: Seq<Id>) -> Seq<Option<Id>> {
    ids.map_values(|p: Id| Some(p))
}

/// The cards of `deck` that are not quests.
pub open spec fn non_quest(content: &Content, deck: Seq<Card>) -> Seq<Card> {
    deck.filter(|c: Card| content.cards@[c.id as int].card_type != CardType::Quest)
}

/// The rare cards of `pool`.
pub open spec fn rares_of(content: &Content, pool: Seq<Id>) -> Seq<Id> {
    pool.filter(|id: Id| content.cards@[id as int].rarity == CardRarity::Rare)
}

/// `g` once its reward stream drew.
pub open spec fn reward_drawn(g: Game, after: Game) -> bool {
    after == (Game { rngs: Rngs { rewards: after.rngs.rewards, ..g.rngs }, ..g })
}

/// The reward a card-offering relic rolls first, and the rewards it offers.
pub open spec fn card_offer_of(g: Game, name: Seq<char>) -> (CardReward, Seq<CardReward>) {
    if name == "RELIC.ORRERY"@ {
        (
            CardReward::Standard(Room::Combat),
            seq![
                CardReward::Standard(Room::Combat),
                CardReward::Standard(Room::Combat),
                CardReward::Standard(Room::Combat),
                CardReward::Standard(Room::Combat),
            ],
        )
    } else if name == "RELIC.KALEIDOSCOPE"@ {
        (CardReward::Kaleidoscope, seq![CardReward::Kaleidoscope])
    } else {
        let c = g.run.character;
        (
            CardReward::Fixed(c, CardRarity::Common),
            seq![
                CardReward::Fixed(c, CardRarity::Common),
                CardReward::Fixed(c, CardRarity::Uncommon),
                CardReward::Fixed(c, CardRarity::Uncommon),
                CardReward::Fixed(c, CardRarity::Rare),
            ],
        )
    }
}

/// The relics whose effect rolls a card reward and a first card offer.
pub open spec fn card_offering(name: Seq<char>) -> bool {
    name == "RELIC.ORRERY"@ || name == "RELIC.KALEIDOSCOPE"@ || name == "RELIC.GLASS_EYE"@
}

/// The relics whose effect rolls cards as a reward does, which takes a started act.
pub open spec fn needs_act(name: Seq<char>) -> bool {
    card_offering(name) || name == "RELIC.LEAD_PAPERWEIGHT"@ || name == "RELIC.LOST_COFFER"@ || name
        == "RELIC.SEA_GLASS"@
}

/// What obtaining the relic named `name` does when it offers relics, potions or cards,
/// or changes the deck in place; nothing for any other relic.
/// The Calling Bell: the bell's curse joins the deck, and a common, an uncommon and a
/// rare relic are offered.
pub open spec fn bell_effect(b: Game, after: Game, content: &Content) -> bool {
    exists|m0: Game, m1: Game, m2: Game, m3: Game, o0: Option<Id>, o1: Option<Id>, o2: Option<Id>|
        #![trigger named_added_times(b, m0, content, "CARD.CURSE_OF_THE_BELL"@, 1), relic_pulled(m0, m1, content, false, 0, false, false, o0), relic_pulled(m1, m2, content, false, 1, false, false, o1), relic_pulled(m2, m3, content, false, 2, false, false, o2)]
        {
            &&& named_added_times(b, m0, content, "CARD.CURSE_OF_THE_BELL"@, 1)
            &&& relic_pulled(m0, m1, content, false, 0, false, false, o0)
            &&& relic_pulled(m1, m2, content, false, 1, false, false, o1)
            &&& relic_pulled(m2, m3, content, false, 2, false, false, o2)
            &&& after == (Game { phase: after.phase, ..m3 })
            &&& offer_screen(after.phase, seq![], seq![], opt_ids(o0) + opt_ids(o1) + opt_ids(o2), seq![])
        }
}

/// The Small Capsule: one relic of a rolled rarity is offered.
pub open spec fn capsule_effect(b: Game, after: Game, content: &Content) -> bool {
    exists|m1: Game, m2: Game, rarity: usize, o: Option<Id>|
        #![trigger relic_rarity_rolled(b, m1, rarity), relic_pulled(m1, m2, content, false, rarity, false, false, o)]
        {
            &&& relic_rarity_rolled(b, m1, rarity)
            &&& relic_pulled(m1, m2, content, false, rarity, false, false, o)
            &&& after == (Game { phase: after.phase, ..m2 })
            &&& offer_screen(after.phase, seq![], seq![], opt_ids(o), seq![])
        }
}

/// The Cauldron: up to five potions are offered.
pub open spec fn cauldron_effect(b: Game, after: Game, content: &Content) -> bool {
    &&& after == (Game { phase: after.phase, rngs: Rngs { rewards: after.rngs.rewards, ..b.rngs }, ..b })
    &&& after.phase matches Phase::Rewards(r) && r.gold == 0 && r.cards@.len() == 0
        && r.card_rewards@.len() == 0 && r.relics@.len() == 0 && r.removals == 0
        && r.potions@.len() <= 5 && potions_from(b, content, r.potions@)
}

/// The Alchemical Coffer: four more potion slots, filled with random potions (left
/// empty with the Sozu).
pub open spec fn coffer_effect(b: Game, after: Game, content: &Content) -> bool {
    &&& after == (Game {
        run: Run { potions: after.run.potions, ..b.run },
        rngs: Rngs { combat_potion_generation: after.rngs.combat_potion_generation, ..b.rngs },
        ..b
    })
    &&& exists|chosen: Seq<Id>|
        {
            &&& chosen.len() <= 4
            &&& #[trigger] potions_from(b, content, chosen)
            &&& after.run.potions@ == b.run.potions@ + if b.spec_has_relic(content, "RELIC.SOZU"@) {
                seq![None::<Id>, None, None, None].take(chosen.len() as int)
            } else {
                as_slots(chosen)
            }
        }
}

/// Dolly's Mirror: the player chooses a card of the deck (not a quest) to copy.
pub open spec fn mirror_effect(b: Game, after: Game, content: &Content) -> bool {
    &&& after == (Game { phase: after.phase, ..b })
    &&& after.phase matches Phase::ChooseCards(cards, 1, false) && cards@ == non_quest(content, b.run.deck@)
}

/// The Arcane Scroll: a random rare card of the character joins the deck.
pub open spec fn scroll_effect(b: Game, after: Game, content: &Content) -> bool {
    let rares = rares_of(content, content.characters@[b.run.character as int].cards@);
    &&& rares.len() == 0 ==> after == b
    &&& rares.len() > 0 ==> exists|mid: Game, i: Id|
        #![trigger reward_drawn(b, mid), rares.contains(i)]
        {
            &&& reward_drawn(b, mid)
            &&& rares.contains(i)
            &&& card_added(mid, after, content, Card { id: i, upgrades: 0, instance: 0, flags: 0 })
        }
}

/// The Orrery, the Kaleidoscope and the Glass Eye: a rolled card reward is offered,
/// with more to roll.
pub open spec fn card_offer_effect(b: Game, after: Game, content: &Content, name: Seq<char>) -> bool {
    exists|mid: Game, cards: Seq<Card>|
        #[trigger] card_reward_rolled(b, mid, content, card_offer_of(b, name).0, cards) && after == (Game {
            phase: after.phase,
            ..mid
        }) && offer_screen(after.phase, cards, card_offer_of(b, name).1, seq![], seq![])
}

/// What obtaining the relic named `name` does when it offers relics, potions or cards;
/// nothing for any other relic.
pub open spec fn offer_effect(before: Game, after: Game, content: &Content, name: Seq<char>) -> bool {
    if name == "RELIC.CALLING_BELL"@ {
        bell_effect(before, after, content)
    } else if name == "RELIC.SMALL_CAPSULE"@ {
        capsule_effect(before, after, content)
    } else if name == "RELIC.CAULDRON"@ {
        cauldron_effect(before, after, content)
    } else if name == "RELIC.ALCHEMICAL_COFFER"@ {
        coffer_effect(before, after, content)
    } else if name == "RELIC.DOLLYS_MIRROR"@ {
        mirror_effect(before, after, content)
    } else if name == "RELIC.ARCANE_SCROLL"@ {
        scroll_effect(before, after, content)
    } else if card_offering(name) {
        card_offer_effect(before, after, content, name)
    } else {
        swap_effect(before, after, content, name)
    }
}

/// A potion of the pool that `Game::potion_pool` builds comes from the character's
/// potions or the act's.
proof fn lemma_pool_source(pool: Seq<Id>, own: Seq<Id>, shared: Seq<Id>, p: Id)
    requires
        pool.len() == own.len() + shared.len(),
        pool.take(own.len() as int).to_multiset() == own.to_multiset(),
        pool.skip(own.len() as int).to_multiset() == shared.to_multiset(),
        pool.contains(p),
    ensures
        own.contains(p) || shared.contains(p),
{
    broadcast use vstd::seq_lib::group_to_multiset_ensures;

    let k = choose|k: int| 0 <= k < pool.len() && pool[k] == p;
    if k < own.len() {
        assert(pool.take(own.len() as int)[k] == p);
        assert(pool.take(own.len() as int).contains(p));
        assert(pool.take(own.len() as int).to_multiset().count(p) > 0);
        assert(own.to_multiset().count(p) > 0);
    } else {
        assert(pool.skip(own.len() as int)[k - own.len()] == p);
        assert(pool.skip(own.len() as int).contains(p));
        assert(pool.skip(own.len() as int).to_multiset().count(p) > 0);
        assert(shared.to_multiset().count(p) > 0);
    }
}

impl Game {
    /// The potions that `g` can be offered, for the offering relics.
    pub(crate) fn offer_pool(&self, content: &Content) -> (pool: Vec<Id>)
        requires
            self.wf(content),
        ensures
            ids_below(pool@, content.potions@.len() as int),
            forall|p: Id| pool@.contains(p) ==> potion_source(*self, content, p),
    {
        let pool = self.potion_pool(content);
        proof {
            let own = content.characters@[self.run.character as int].potion_pool@;
            let shared = content.acts@[self.act as int].potions@;
            assert forall|p: Id| pool@.contains(p) implies potion_source(*self, content, p) by {
                lemma_pool_source(pool@, own, shared, p);
            }
        }
        pool
    }

    /// The cards of the deck that are not quests.
    fn non_quest_cards(&self, content: &Content) -> (cards: Vec<Card>)
        requires
            self.wf(content),
        ensures
            cards@ == non_quest(content, self.run.deck@),
            cards_valid(cards@, content),
    {
        let mut cards: Vec<Card> = Vec::new();
        let mut i: usize = 0;
        while i < self.run.deck.len()
            invariant
                i <= self.run.deck@.len(),
                self.wf(content),
                cards@ == non_quest(content, self.run.deck@.take(i as int)),
                cards_valid(cards@, content),
            decreases self.run.deck@.len() - i,
        {
            proof {
                reveal_with_fuel(Seq::<_>::filter, 1);
                assert(self.run.deck@.take(i + 1).drop_last() =~= self.run.deck@.take(i as int));
            }
            let card = self.run.deck[i];
            if content.cards[card.id as usize].card_type != CardType::Quest {
                cards.push(card);
            }
            i = i + 1;
        }
        proof {
            assert(self.run.deck@.take(self.run.deck@.len() as int) =~= self.run.deck@);
        }
        cards
    }

    /// The rare cards of the character.
    fn character_rares(&self, content: &Content) -> (rares: Vec<Id>)
        requires
            self.wf(content),
        ensures
            rares@ == rares_of(content, content.characters@[self.run.character as int].cards@),
            ids_below(rares@, content.cards@.len() as int),
    {
        let def = &content.characters[self.run.character as usize];
        assert(def.wf(content));
        let mut rares: Vec<Id> = Vec::new();
        let mut i: usize = 0;
        while i < def.cards.len()
            invariant
                i <= def.cards@.len(),
                *def == content.characters@[self.run.character as int],
                ids_below(def.cards@, content.cards@.len() as int),
                rares@ == rares_of(content, def.cards@.take(i as int)),
                ids_below(rares@, content.cards@.len() as int),
            decreases def.cards@.len() - i,
        {
            proof {
                reveal_with_fuel(Seq::<_>::filter, 1);
                assert(def.cards@.take(i + 1).drop_last() =~= def.cards@.take(i as int));
            }
            let id = def.cards[i];
            if content.cards[id as usize].rarity == CardRarity::Rare {
                rares.push(id);
            }
            i = i + 1;
        }
        proof {
            assert(def.cards@.take(def.cards@.len() as int) =~= def.cards@);
        }
        rares
    }

    /// The Calling Bell's effect.
    fn ring_bell(&mut self, content: &Content)
        requires
            old(self).wf(content),
        ensures
            final(self).wf(content),
            bell_effect(*old(self), *final(self), content),
    {
        self.add_named_cards(content, "CARD.CURSE_OF_THE_BELL", 1);
        let ghost m0 = *self;
        let o0 = self.pull_relic(content, false, 0, false, false);
        let ghost m1 = *self;
        let o1 = self.pull_relic(content, false, 1, false, false);
        let ghost m2 = *self;
        let o2 = self.pull_relic(content, false, 2, false, false);
        let ghost m3 = *self;
        let mut relics: Vec<Id> = Vec::new();
        if let Some(x) = o0 {
            relics.push(x);
        }
        if let Some(x) = o1 {
            relics.push(x);
        }
        if let Some(x) = o2 {
            relics.push(x);
        }
        assert(relics@ =~= opt_ids(o0) + opt_ids(o1) + opt_ids(o2));
        self.phase = Phase::Rewards(Rewards {
            gold: 0,
            cards: Vec::new(),
            card_rewards: Vec::new(),
            relics,
            potions: Vec::new(),
            removals: 0,
        });
        assert(named_added_times(*old(self), m0, content, "CARD.CURSE_OF_THE_BELL"@, 1));
        assert(relic_pulled(m0, m1, content, false, 0, false, false, o0));
        assert(relic_pulled(m1, m2, content, false, 1, false, false, o1));
        assert(relic_pulled(m2, m3, content, false, 2, false, false, o2));
    }

    /// The Small Capsule's effect.
    fn open_capsule(&mut self, content: &Content)
        requires
            old(self).wf(content),
        ensures
            final(self).wf(content),
            capsule_effect(*old(self), *final(self), content),
    {
        let rarity = self.roll_relic_rarity();
        let ghost m1 = *self;
        let o = self.pull_relic(content, false, rarity, false, false);
        let ghost m2 = *self;
        let mut relics: Vec<Id> = Vec::new();
        if let Some(x) = o {
            relics.push(x);
        }
        assert(relics@ =~= opt_ids(o));
        self.phase = Phase::Rewards(Rewards {
            gold: 0,
            cards: Vec::new(),
            card_rewards: Vec::new(),
            relics,
            potions: Vec::new(),
            removals: 0,
        });
        assert(relic_rarity_rolled(*old(self), m1, rarity));
        assert(relic_pulled(m1, m2, content, false, rarity, false, false, o));
    }

    /// The Cauldron's effect.
    fn brew_cauldron(&mut self, content: &Content)
        requires
            old(self).wf(content),
        ensures
            final(self).wf(content),
            cauldron_effect(*old(self), *final(self), content),
    {
        let pool = self.offer_pool(content);
        let mut potions: Vec<Id> = Vec::new();
        let mut n: usize = 0;
        while n < 5
            invariant
                n <= 5,
                potions@.len() <= n,
                self.wf(content),
                reward_drawn(*old(self), *self),
                ids_below(pool@, content.potions@.len() as int),
                forall|p: Id| pool@.contains(p) ==> potion_source(*old(self), content, p),
                ids_below(potions@, content.potions@.len() as int),
                potions_from(*old(self), content, potions@),
            decreases 5 - n,
        {
            let more = self.reward_potions(content, &pool, 1);
            let mut k: usize = 0;
            while k < more.len()
                invariant
                    k <= more@.len() <= 1,
                    potions@.len() <= n + k,
                    forall|j: int| 0 <= j < more@.len() ==> pool@.contains(#[trigger] more@[j]),
                    ids_below(pool@, content.potions@.len() as int),
                    forall|p: Id| pool@.contains(p) ==> potion_source(*old(self), content, p),
                    ids_below(potions@, content.potions@.len() as int),
                    potions_from(*old(self), content, potions@),
                decreases more@.len() - k,
            {
                let p = more[k];
                assert(pool@.contains(p));
                potions.push(p);
                k = k + 1;
            }
            n = n + 1;
        }
        self.phase = Phase::Rewards(Rewards {
            gold: 0,
            cards: Vec::new(),
            card_rewards: Vec::new(),
            relics: Vec::new(),
            potions,
            removals: 0,
        });
    }

    /// The Alchemical Coffer's effect.
    fn fill_coffer(&mut self, content: &Content)
        requires
            old(self).wf(content),
        ensures
            final(self).wf(content),
            coffer_effect(*old(self), *final(self), content),
    {
        let pool = self.offer_pool(content);
        let sozu = self.has_relic(content, "RELIC.SOZU");
        let chosen = self.random_potions(content, &pool, 4, false, false);
        let ghost g1 = *self;
        let ghost slots = self.run.potions@;
        let mut k: usize = 0;
        while k < chosen.len()
            invariant
                k <= chosen@.len() <= 4,
                self.wf(content),
                self.run.potions@ == slots + if sozu {
                    seq![None::<Id>, None, None, None].take(k as int)
                } else {
                    as_slots(chosen@.take(k as int))
                },
                forall|j: int| 0 <= j < chosen@.len() ==> pool@.contains(#[trigger] chosen@[j]),
                ids_below(pool@, content.potions@.len() as int),
                *self == (Game { run: Run { potions: self.run.potions, ..g1.run }, ..g1 }),
            decreases chosen@.len() - k,
        {
            let ghost before = self.run.potions@;
            if sozu {
                self.run.potions.push(None);
                assert(seq![None::<Id>, None, None, None].take(k + 1) =~= seq![None::<Id>, None, None, None].take(
                    k as int,
                ).push(None));
            } else {
                assert(pool@.contains(chosen@[k as int]));
                self.run.potions.push(Some(chosen[k]));
                assert(as_slots(chosen@.take(k + 1)) =~= as_slots(chosen@.take(k as int)).push(
                    Some(chosen@[k as int]),
                ));
            }
            k = k + 1;
        }
        proof {
            assert(chosen@.take(chosen@.len() as int) =~= chosen@);
            assert(potions_from(*old(self), content, chosen@));
        }
    }

    /// The Arcane Scroll's effect.
    fn read_scroll(&mut self, content: &Content)
        requires
            old(self).wf(content),
        ensures
            final(self).wf(content),
            scroll_effect(*old(self), *final(self), content),
    {
        let rares = self.character_rares(content);
        if rares.len() > 0 {
            let index = self.rngs.rewards.index(rares.len());
            let ghost mid = *self;
            let pick = rares[index];
            assert(rares@.contains(pick));
            self.add_card(content, Card::of(pick, 0));
            assert(reward_drawn(*old(self), mid));
        }
    }

    /// The effect of a relic that offers a card reward (see `card_offer_of`).
    fn offer_cards(&mut self, content: &Content, name: &String)
        requires
            old(self).wf(content),
            old(self).run.act >= 1,
            card_offering(name@),
        ensures
            final(self).wf(content),
            card_offer_effect(*old(self), *final(self), content, name@),
    {
        let orrery = same_name(name, "RELIC.ORRERY");
        let kaleidoscope = same_name(name, "RELIC.KALEIDOSCOPE");
        let c = self.run.character;
        let (reward, rewards): (CardReward, Vec<CardReward>) = if orrery {
            (
                CardReward::Standard(Room::Combat),
                vec![
                    CardReward::Standard(Room::Combat),
                    CardReward::Standard(Room::Combat),
                    CardReward::Standard(Room::Combat),
                    CardReward::Standard(Room::Combat),
                ],
            )
        } else if kaleidoscope {
            (CardReward::Kaleidoscope, vec![CardReward::Kaleidoscope])
        } else {
            (
                CardReward::Fixed(c, CardRarity::Common),
                vec![
                    CardReward::Fixed(c, CardRarity::Common),
                    CardReward::Fixed(c, CardRarity::Uncommon),
                    CardReward::Fixed(c, CardRarity::Uncommon),
                    CardReward::Fixed(c, CardRarity::Rare),
                ],
            )
        };
        assert(reward == card_offer_of(*old(self), name@).0);
        assert(rewards@ =~= card_offer_of(*old(self), name@).1);
        let cards = self.make_card_reward(content, reward);
        let ghost mid = *self;
        self.phase = Phase::Rewards(Rewards {
            gold: 0,
            cards,
            card_rewards: rewards,
            relics: Vec::new(),
            potions: Vec::new(),
            removals: 0,
        });
        assert(card_reward_rolled(*old(self), mid, content, card_offer_of(*old(self), name@).0, cards@));
    }

    /// What obtaining relic `id` does when it offers relics, potions or cards.
    fn offer_effect_of(&mut self, content: &Content, id: Id)
        requires
            old(self).wf(content),
            id < content.relics@.len(),
            needs_act(content.relics@[id as int].id@) ==> old(self).run.act >= 1,
        ensures
            final(self).wf(content),
            offer_effect(*old(self), *final(self), content, content.relics@[id as int].id@),
    {
        let name = &content.relics[id as usize].id;
        if same_name(name, "RELIC.CALLING_BELL") {
            self.ring_bell(content);
        } else if same_name(name, "RELIC.SMALL_CAPSULE") {
            self.open_capsule(content);
        } else if same_name(name, "RELIC.CAULDRON") {
            self.brew_cauldron(content);
        } else if same_name(name, "RELIC.ALCHEMICAL_COFFER") {
            self.fill_coffer(content);
        } else if same_name(name, "RELIC.DOLLYS_MIRROR") {
            let cards = self.non_quest_cards(content);
            self.phase = Phase::ChooseCards(cards, 1, false);
        } else if same_name(name, "RELIC.ARCANE_SCROLL") {
            self.read_scroll(content);
        } else if same_name(name, "RELIC.ORRERY") || same_name(name, "RELIC.KALEIDOSCOPE") || same_name(
            name,
            "RELIC.GLASS_EYE",
        ) {
            self.offer_cards(content, name);
        } else {
            self.swap_effect_of(content, id);
        }
    }
}

/// The first index from `k` on at which `names` holds `name`, or -1.
pub open spec fn first_name_at(names: Seq<Seq<char>>, name: Seq<char>, k: int) -> int
    decreases names.len() - k,
{
    if k < 0 || k >= names.len() {
        -1
    } else if names[k] == name {
        k
    } else {
        first_name_at(names, name, k + 1)
    }
}

/// The first index from `k` on of a relic of `relics` named `name`, or -1.
pub open spec fn first_relic_named(content: &Content, relics: Seq<Id>, name: Seq<char>, k: int) -> int
    decreases relics.len() - k,
{
    if k < 0 || k >= relics.len() {
        -1
    } else if content.relics@[relics[k] as int].id@ == name {
        k
    } else {
        first_relic_named(content, relics, name, k + 1)
    }
}

/// The first index from `k` on of a card of `deck` named `name`, or -1.
pub open spec fn first_card_named(content: &Content, deck: Seq<Card>, name: Seq<char>, k: int) -> int
    decreases deck.len() - k,
{
    if k < 0 || k >= deck.len() {
        -1
    } else if content.cards@[deck[k].id as int].id@ == name {
        k
    } else {
        first_card_named(content, deck, name, k + 1)
    }
}

/// The starter relics that the Touch of Orobas upgrades, and what they become.
pub open spec fn orobas_pair(j: int) -> (Seq<char>, Seq<char>) {
    if j == 0 {
        ("RELIC.BURNING_BLOOD"@, "RELIC.BLACK_BLOOD"@)
    } else if j == 1 {
        ("RELIC.RING_OF_THE_SNAKE"@, "RELIC.RING_OF_THE_DRAKE"@)
    } else if j == 2 {
        ("RELIC.DIVINE_RIGHT"@, "RELIC.DIVINE_DESTINY"@)
    } else if j == 3 {
        ("RELIC.BOUND_PHYLACTERY"@, "RELIC.PHYLACTERY_UNBOUND"@)
    } else {
        ("RELIC.CRACKED_CORE"@, "RELIC.INFUSED_CORE"@)
    }
}

/// The starter cards that the Archaic Tooth upgrades, and what they become.
pub open spec fn tooth_pair(j: int) -> (Seq<char>, Seq<char>) {
    if j == 0 {
        ("CARD.BASH"@, "CARD.BREAK"@)
    } else if j == 1 {
        ("CARD.NEUTRALIZE"@, "CARD.SUPPRESS"@)
    } else if j == 2 {
        ("CARD.UNLEASH"@, "CARD.PROTECTOR"@)
    } else if j == 3 {
        ("CARD.FALLING_STAR"@, "CARD.METEOR_SHOWER"@)
    } else {
        ("CARD.DUALCAST"@, "CARD.QUADCAST"@)
    }
}

/// The relics once the first pair from `j` on whose starter relic is held (and whose
/// replacement exists) swapped it.
pub open spec fn orobas_relics(content: &Content, relics: Seq<Id>, j: int) -> Seq<Id>
    decreases 5 - j,
{
    if j < 0 || j >= 5 {
        relics
    } else {
        let i = first_relic_named(content, relics, orobas_pair(j).0, 0);
        let t = first_name_at(content.relic_names(), orobas_pair(j).1, 0);
        if i >= 0 && t >= 0 {
            relics.update(i, t as Id)
        } else {
            orobas_relics(content, relics, j + 1)
        }
    }
}

/// The deck once the first pair from `j` on whose starter card is in it (and whose
/// replacement exists) turned that card, unupgraded, into its replacement.
pub open spec fn tooth_deck(content: &Content, deck: Seq<Card>, j: int) -> Seq<Card>
    decreases 5 - j,
{
    if j < 0 || j >= 5 {
        deck
    } else {
        let i = first_card_named(content, deck, tooth_pair(j).0, 0);
        let t = first_name_at(content.card_names(), tooth_pair(j).1, 0);
        if i >= 0 && t >= 0 {
            deck.update(i, Card { id: t as Id, upgrades: 0, ..deck[i] })
        } else {
            tooth_deck(content, deck, j + 1)
        }
    }
}

/// `card` as the Byrdpip leaves it: a Byrdonis egg hatches into `swoop`.
pub open spec fn byrd_hatched(content: &Content, card: Card, swoop: Id) -> Card {
    if content.cards@[card.id as int].id@ == "CARD.BYRDONIS_EGG"@ {
        Card { id: swoop, ..card }
    } else {
        card
    }
}

/// Whether `card` is a basic card with the tag `tag`.
pub open spec fn basic_tagged(content: &Content, card: Card, tag: u16) -> bool {
    content.cards@[card.id as int].rarity == CardRarity::Basic && content.cards@[card.id as int].tags & tag
        != 0
}

/// The index below `n` of the last basic card of `deck` with the tag `tag`, or -1.
pub open spec fn last_tagged(content: &Content, deck: Seq<Card>, tag: u16, n: int) -> int
    decreases n,
{
    if n <= 0 {
        -1
    } else if basic_tagged(content, deck[n - 1], tag) {
        n - 1
    } else {
        last_tagged(content, deck, tag, n - 1)
    }
}

/// `deck` with the card at `i` (if any) upgraded once.
pub open spec fn upgraded_at_index(deck: Seq<Card>, i: int) -> Seq<Card> {
    if 0 <= i < deck.len() {
        deck.update(i, Card { upgrades: 1, ..deck[i] })
    } else {
        deck
    }
}

/// The deck once Neow's Talisman upgraded its last basic strike, then its last basic
/// defend.
pub open spec fn talisman_deck(content: &Content, deck: Seq<Card>) -> Seq<Card> {
    let d1 = upgraded_at_index(deck, last_tagged(content, deck, STRIKE_TAG, deck.len() as int));
    upgraded_at_index(d1, last_tagged(content, d1, DEFEND_TAG, d1.len() as int))
}

/// `after` is `before` with the deck `deck`.
pub open spec fn with_deck(before: Game, after: Game, deck: Seq<Card>) -> bool {
    &&& after.run.deck@ == deck
    &&& after == (Game { run: Run { deck: after.run.deck, ..before.run }, ..before })
}

/// The Byrdpip: every Byrdonis egg of the deck hatches into a Byrd Swoop.
pub open spec fn byrd_effect(b: Game, after: Game, content: &Content) -> bool {
    let swoop = first_name_at(content.card_names(), "CARD.BYRD_SWOOP"@, 0);
    &&& swoop < 0 ==> after == b
    &&& swoop >= 0 ==> with_deck(b, after, b.run.deck@.map_values(|c: Card| byrd_hatched(content, c, swoop as Id)))
}

/// What obtaining the relic named `name` does when it changes the deck or the relics
/// in place; nothing for any other relic.
pub open spec fn swap_effect(before: Game, after: Game, content: &Content, name: Seq<char>) -> bool {
    let b = before;
    if name == "RELIC.BYRDPIP"@ {
        byrd_effect(b, after, content)
    } else if name == "RELIC.NEOWS_TALISMAN"@ {
        with_deck(b, after, talisman_deck(content, b.run.deck@))
    } else if name == "RELIC.ARCHAIC_TOOTH"@ {
        with_deck(b, after, tooth_deck(content, b.run.deck@, 0))
    } else if name == "RELIC.TOUCH_OF_OROBAS"@ {
        orobas_effect(b, after, content)
    } else {
        more_effect(b, after, content, name)
    }
}

/// The Touch of Orobas: the first starter relic held that has an upgraded form
/// becomes it.
pub open spec fn orobas_effect(b: Game, after: Game, content: &Content) -> bool {
    &&& after.run.relics@ == orobas_relics(content, b.run.relics@, 0)
    &&& after == (Game { run: Run { relics: after.run.relics, ..b.run }, ..b })
}

/// The index that `first_named` finds is the first from any index up to it.
proof fn lemma_first_name_at(names: Seq<Seq<char>>, name: Seq<char>, id: Option<Id>, k: int)
    requires
        first_named(names, name, id),
        0 <= k,
        id matches Some(i) ==> k <= i,
    ensures
        first_name_at(names, name, k) == match id {
            Some(i) => i as int,
            None => -1,
        },
    decreases names.len() - k,
{
    if k < names.len() {
        match id {
            Some(i) => {
                if k < i {
                    lemma_first_name_at(names, name, id, k + 1);
                }
            },
            None => {
                lemma_first_name_at(names, name, id, k + 1);
            },
        }
    }
}

impl Game {
    /// The index of the first relic held named `name`.
    fn find_relic(&self, content: &Content, name: &str) -> (index: Option<usize>)
        requires
            self.wf(content),
        ensures
            index matches Some(i) ==> i < self.run.relics@.len(),
            match index {
                Some(i) => i == first_relic_named(content, self.run.relics@, name@, 0),
                None => first_relic_named(content, self.run.relics@, name@, 0) == -1,
            },
    {
        let mut i: usize = self.run.relics.len();
        let mut found: Option<usize> = None;
        while i > 0
            invariant
                i <= self.run.relics@.len(),
                self.wf(content),
                found matches Some(f) ==> f < self.run.relics@.len(),
                match found {
                    Some(f) => f == first_relic_named(content, self.run.relics@, name@, i as int),
                    None => first_relic_named(content, self.run.relics@, name@, i as int) == -1,
                },
            decreases i,
        {
            i = i - 1;
            if same_name(&content.relics[self.run.relics[i] as usize].id, name) {
                found = Some(i);
            }
        }
        found
    }

    /// The index of the first card of the deck named `name`.
    fn find_card(&self, content: &Content, name: &str) -> (index: Option<usize>)
        requires
            self.wf(content),
        ensures
            index matches Some(i) ==> i < self.run.deck@.len(),
            match index {
                Some(i) => i == first_card_named(content, self.run.deck@, name@, 0),
                None => first_card_named(content, self.run.deck@, name@, 0) == -1,
            },
    {
        let mut i: usize = self.run.deck.len();
        let mut found: Option<usize> = None;
        while i > 0
            invariant
                i <= self.run.deck@.len(),
                self.wf(content),
                found matches Some(f) ==> f < self.run.deck@.len(),
                match found {
                    Some(f) => f == first_card_named(content, self.run.deck@, name@, i as int),
                    None => first_card_named(content, self.run.deck@, name@, i as int) == -1,
                },
            decreases i,
        {
            i = i - 1;
            if same_name(&content.cards[self.run.deck[i].id as usize].id, name) {
                found = Some(i);
            }
        }
        found
    }

    /// The index of the last basic card of the deck with the tag `tag`.
    fn last_basic(&self, content: &Content, tag: u16) -> (index: Option<usize>)
        requires
            self.wf(content),
        ensures
            index matches Some(i) ==> i < self.run.deck@.len(),
            match index {
                Some(i) => i == last_tagged(content, self.run.deck@, tag, self.run.deck@.len() as int),
                None => last_tagged(content, self.run.deck@, tag, self.run.deck@.len() as int) == -1,
            },
    {
        let mut i: usize = self.run.deck.len();
        while i > 0
            invariant
                i <= self.run.deck@.len(),
                self.wf(content),
                last_tagged(content, self.run.deck@, tag, self.run.deck@.len() as int) == last_tagged(
                    content,
                    self.run.deck@,
                    tag,
                    i as int,
                ),
            decreases i,
        {
            let def = &content.cards[self.run.deck[i - 1].id as usize];
            if def.rarity == CardRarity::Basic && def.tags & tag != 0 {
                return Some(i - 1);
            }
            i = i - 1;
        }
        None
    }

    /// Upgrades the card at `index` once, if there is one.
    fn upgrade_at(&mut self, content: &Content, index: Option<usize>)
        requires
            old(self).wf(content),
            index matches Some(i) ==> i < old(self).run.deck@.len(),
        ensures
            final(self).wf(content),
            with_deck(*old(self), *final(self), upgraded_at_index(old(self).run.deck@, match index {
                Some(i) => i as int,
                None => -1,
            })),
    {
        if let Some(i) = index {
            let mut card = self.run.deck[i];
            card.upgrades = 1;
            self.run.deck.set(i, card);
            proof {
                assert(cards_valid(self.run.deck@, content)) by {
                    assert forall|k: int| 0 <= k < self.run.deck@.len() implies (#[trigger] self.run.deck@[k]).id
                        < content.cards@.len() by {
                        assert(self.run.deck@[k].id == old(self).run.deck@[k].id);
                    }
                }
            }
        }
    }

    /// The Byrdpip's effect: every Byrdonis egg of the deck hatches.
    fn hatch_byrds(&mut self, content: &Content)
        requires
            old(self).wf(content),
        ensures
            final(self).wf(content),
            byrd_effect(*old(self), *final(self), content),
    {
        let found = content.card_id("CARD.BYRD_SWOOP");
        proof {
            lemma_first_name_at(content.card_names(), "CARD.BYRD_SWOOP"@, found, 0);
        }
        if let Some(swoop) = found {
            let ghost deck0 = self.run.deck@;
            let mut i: usize = 0;
            while i < self.run.deck.len()
                invariant
                    i <= self.run.deck@.len(),
                    self.run.deck@.len() == deck0.len(),
                    swoop < content.cards@.len(),
                    forall|k: int| 0 <= k < i ==> #[trigger] self.run.deck@[k] == byrd_hatched(content, deck0[k], swoop),
                    forall|k: int| i <= k < deck0.len() ==> #[trigger] self.run.deck@[k] == deck0[k],
                    self.wf(content),
                    *self == (Game { run: Run { deck: self.run.deck, ..old(self).run }, ..*old(self) }),
                    deck0 == old(self).run.deck@,
                decreases deck0.len() - i,
            {
                let card = self.run.deck[i];
                if same_name(&content.cards[card.id as usize].id, "CARD.BYRDONIS_EGG") {
                    let mut hatched = card;
                    hatched.id = swoop;
                    self.run.deck.set(i, hatched);
                }
                proof {
                    assert(cards_valid(self.run.deck@, content)) by {
                        assert forall|k: int| 0 <= k < self.run.deck@.len() implies (#[trigger] self.run.deck@[k]).id
                            < content.cards@.len() by {
                            if k != i {
                                assert(self.run.deck@[k] == byrd_hatched(content, deck0[k], swoop) || self.run.deck@[k]
                                    == deck0[k]);
                            }
                        }
                    }
                }
                i = i + 1;
            }
            assert(self.run.deck@ =~= deck0.map_values(|c: Card| byrd_hatched(content, c, swoop)));
        }
    }

    /// Neow's Talisman's effect: the last basic strike and the last basic defend are
    /// upgraded.
    fn upgrade_talisman_cards(&mut self, content: &Content)
        requires
            old(self).wf(content),
        ensures
            final(self).wf(content),
            with_deck(*old(self), *final(self), talisman_deck(content, old(self).run.deck@)),
    {
        let strike = self.last_basic(content, STRIKE_TAG);
        self.upgrade_at(content, strike);
        let defend = self.last_basic(content, DEFEND_TAG);
        self.upgrade_at(content, defend);
    }

    /// The Touch of Orobas's effect: the first starter relic held that has an upgraded
    /// form becomes it.
    fn touch_orobas(&mut self, content: &Content)
        requires
            old(self).wf(content),
        ensures
            final(self).wf(content),
            orobas_effect(*old(self), *final(self), content),
    {
        let pairs: [(&str, &str); 5] = [
            ("RELIC.BURNING_BLOOD", "RELIC.BLACK_BLOOD"),
            ("RELIC.RING_OF_THE_SNAKE", "RELIC.RING_OF_THE_DRAKE"),
            ("RELIC.DIVINE_RIGHT", "RELIC.DIVINE_DESTINY"),
            ("RELIC.BOUND_PHYLACTERY", "RELIC.PHYLACTERY_UNBOUND"),
            ("RELIC.CRACKED_CORE", "RELIC.INFUSED_CORE"),
        ];
        let ghost r0 = self.run.relics@;
        let mut j: usize = 0;
        while j < 5
            invariant
                j <= 5,
                pairs@.len() == 5,
                forall|k: int| 0 <= k < 5 ==> (#[trigger] pairs@[k]).0@ == orobas_pair(k).0 && pairs@[k].1@ == orobas_pair(k).1,
                *self == *old(self),
                self.wf(content),
                r0 == old(self).run.relics@,
                orobas_relics(content, r0, 0) == orobas_relics(content, r0, j as int),
            decreases 5 - j,
        {
            let (from, to) = pairs[j];
            let index = self.find_relic(content, from);
            let found = content.relic_id(to);
            proof {
                lemma_first_name_at(content.relic_names(), to@, found, 0);
            }
            if let Some(i) = index {
                if let Some(t) = found {
                    self.run.relics.set(i, t);
                    proof {
                        assert(ids_below(self.run.relics@, content.relics@.len() as int)) by {
                            assert forall|k: int| 0 <= k < self.run.relics@.len() implies (#[trigger] self.run.relics@[k])
                                < content.relics@.len() by {
                                if k != i {
                                    assert(self.run.relics@[k] == r0[k]);
                                }
                            }
                        }
                    }
                    return;
                }
            }
            j = j + 1;
        }
    }

    /// The Archaic Tooth's effect: the first starter card of the deck that has an
    /// ancient form becomes it, unupgraded.
    fn bite_archaic_tooth(&mut self, content: &Content)
        requires
            old(self).wf(content),
        ensures
            final(self).wf(content),
            with_deck(*old(self), *final(self), tooth_deck(content, old(self).run.deck@, 0)),
    {
        let pairs: [(&str, &str); 5] = [
            ("CARD.BASH", "CARD.BREAK"),
            ("CARD.NEUTRALIZE", "CARD.SUPPRESS"),
            ("CARD.UNLEASH", "CARD.PROTECTOR"),
            ("CARD.FALLING_STAR", "CARD.METEOR_SHOWER"),
            ("CARD.DUALCAST", "CARD.QUADCAST"),
        ];
        let ghost d0 = self.run.deck@;
        let mut j: usize = 0;
        while j < 5
            invariant
                j <= 5,
                pairs@.len() == 5,
                forall|k: int| 0 <= k < 5 ==> (#[trigger] pairs@[k]).0@ == tooth_pair(k).0 && pairs@[k].1@ == tooth_pair(k).1,
                *self == *old(self),
                self.wf(content),
                d0 == old(self).run.deck@,
                tooth_deck(content, d0, 0) == tooth_deck(content, d0, j as int),
            decreases 5 - j,
        {
            let (from, to) = pairs[j];
            let index = self.find_card(content, from);
            let found = content.card_id(to);
            proof {
                lemma_first_name_at(content.card_names(), to@, found, 0);
            }
            if let Some(i) = index {
                if let Some(t) = found {
                    let mut card = self.run.deck[i];
                    card.id = t;
                    card.upgrades = 0;
                    self.run.deck.set(i, card);
                    proof {
                        assert(cards_valid(self.run.deck@, content)) by {
                            assert forall|k: int| 0 <= k < self.run.deck@.len() implies (#[trigger] self.run.deck@[k]).id
                                < content.cards@.len() by {
                                if k != i {
                                    assert(self.run.deck@[k] == d0[k]);
                                }
                            }
                        }
                    }
                    return;
                }
            }
            j = j + 1;
        }
    }

    /// What obtaining relic `id` does when it changes the deck or the relics in place.
    fn swap_effect_of(&mut self, content: &Content, id: Id)
        requires
            old(self).wf(content),
            id < content.relics@.len(),
            needs_act(content.relics@[id as int].id@) ==> old(self).run.act >= 1,
        ensures
            final(self).wf(content),
            swap_effect(*old(self), *final(self), content, content.relics@[id as int].id@),
    {
        let name = &content.relics[id as usize].id;
        if same_name(name, "RELIC.BYRDPIP") {
            self.hatch_byrds(content);
        } else if same_name(name, "RELIC.NEOWS_TALISMAN") {
            self.upgrade_talisman_cards(content);
        } else if same_name(name, "RELIC.ARCHAIC_TOOTH") {
            self.bite_archaic_tooth(content);
        } else if same_name(name, "RELIC.TOUCH_OF_OROBAS") {
            self.touch_orobas(content);
        } else {
            self.more_effect_of(content, id);
        }
    }
}

/// The first empty slot of `slots` from `k` on, or -1.
pub open spec fn first_empty(slots: Seq<Option<Id>>, k: int) -> int
    decreases slots.len() - k,
{
    if k < 0 || k >= slots.len() {
        -1
    } else if slots[k] is None {
        k
    } else {
        first_empty(slots, k + 1)
    }
}

/// `slots` with potion `p` in the first empty slot (unchanged when all are full).
pub open spec fn placed(slots: Seq<Option<Id>>, p: Id) -> Seq<Option<Id>> {
    let i = first_empty(slots, 0);
    if i >= 0 {
        slots.update(i, Some(p))
    } else {
        slots
    }
}

/// `slots` with `potions` placed one after the other.
pub open spec fn filled(slots: Seq<Option<Id>>, potions: Seq<Id>) -> Seq<Option<Id>>
    decreases potions.len(),
{
    if potions.len() == 0 {
        slots
    } else {
        placed(filled(slots, potions.drop_last()), potions.last())
    }
}

/// The Phial Holster: one more potion slot, and two random different potions go into
/// the empty slots (none with the Sozu).
pub open spec fn holster_effect(b: Game, after: Game, content: &Content) -> bool {
    &&& after == (Game {
        run: Run { potions: after.run.potions, ..b.run },
        rngs: Rngs { combat_potion_generation: after.rngs.combat_potion_generation, ..b.rngs },
        ..b
    })
    &&& exists|chosen: Seq<Id>|
        {
            &&& chosen.len() <= 2
            &&& chosen.no_duplicates()
            &&& #[trigger] potions_from(b, content, chosen)
            &&& after.run.potions@ == if b.spec_has_relic(content, "RELIC.SOZU"@) {
                b.run.potions@.push(None)
            } else {
                filled(b.run.potions@.push(None), chosen)
            }
        }
}

/// Fresh unupgraded cards of the given ids.
pub open spec fn fresh_cards(ids: Seq<Id>) -> Seq<Card> {
    ids.map_values(|id: Id| Card { id, upgrades: 0, instance: 0, flags: 0 })
}

/// `picks` are drawn from `pool` without putting any back.
pub open spec fn drawn_from(picks: Seq<Id>, pool: Seq<Id>) -> bool {
    picks.to_multiset().subset_of(pool.to_multiset())
}

/// The Hefty Tablet: three random rares of the character to choose one from (all of
/// them when fewer), and an Injury joins the deck.
pub open spec fn tablet_effect(b: Game, after: Game, content: &Content) -> bool {
    let rares = rares_of(content, content.characters@[b.run.character as int].cards@);
    exists|mid: Game, m2: Game, picks: Seq<Id>|
        #![trigger reward_drawn(b, mid), drawn_from(picks, rares), named_added_times(mid, m2, content, "CARD.INJURY"@, 1)]
        {
            &&& reward_drawn(b, mid)
            &&& drawn_from(picks, rares)
            &&& picks.len() == if rares.len() < 3 { rares.len() } else { 3 }
            &&& named_added_times(mid, m2, content, "CARD.INJURY"@, 1)
            &&& after == (Game { phase: after.phase, ..m2 })
            &&& after.phase matches Phase::ChooseCards(cards, 1, true) && cards@ == fresh_cards(picks)
        }
}

/// The Lead Paperweight: two colorless cards to choose one from, then back to the map.
pub open spec fn paperweight_effect(b: Game, after: Game, content: &Content) -> bool {
    exists|mid: Game, cards: Seq<Card>|
        {
            &&& #[trigger] cards_rolled(b, mid, content, content.colorless@, 2, cards)
            &&& after == (Game { phase: after.phase, resume: Some(Phase::OnMap), ..mid })
            &&& after.phase matches Phase::ChooseCards(chosen, 1, true) && chosen@ == cards
        }
}

/// `after` is `before` once the reward stream drew `potions` (at most `count`
/// different ones that `before` can be offered).
pub open spec fn potions_drawn(before: Game, after: Game, content: &Content, count: int, potions: Seq<Id>) -> bool {
    &&& potions.len() <= count
    &&& potions.no_duplicates()
    &&& potions_from(before, content, potions)
    &&& reward_drawn(before, after)
}

/// The Lost Coffer: a card reward of the character's cards and a potion are offered.
pub open spec fn lost_coffer_effect(b: Game, after: Game, content: &Content) -> bool {
    exists|m1: Game, cards: Seq<Card>, m2: Game, potions: Seq<Id>|
        #![trigger reward_cards_rolled(b, m1, content, content.characters@[b.run.character as int].cards@, 3, cards), potions_drawn(m1, m2, content, 1, potions)]
        {
            &&& reward_cards_rolled(b, m1, content, content.characters@[b.run.character as int].cards@, 3, cards)
            &&& potions_drawn(m1, m2, content, 1, potions)
            &&& after == (Game { phase: after.phase, ..m2 })
            &&& offer_screen(after.phase, cards, seq![], seq![], potions)
        }
}

/// `after` is `before` once `n` relics were rolled and pulled from the character's
/// bags, giving `relics` (a bag that runs dry gives none).
pub open spec fn relics_rolled(before: Game, after: Game, content: &Content, n: nat, relics: Seq<Id>) -> bool
    decreases n,
{
    if n == 0 {
        after == before && relics.len() == 0
    } else {
        exists|mid: Game, m2: Game, rarity: usize, o: Option<Id>|
            #![trigger relic_rarity_rolled(mid, m2, rarity), relic_pulled(m2, after, content, false, rarity, false, false, o)]
            {
                let prefix = relics.take(relics.len() - opt_ids(o).len());
                &&& relics.len() >= opt_ids(o).len()
                &&& relics_rolled(before, mid, content, (n - 1) as nat, prefix)
                &&& relic_rarity_rolled(mid, m2, rarity)
                &&& relic_pulled(m2, after, content, false, rarity, false, false, o)
                &&& relics == prefix + opt_ids(o)
            }
    }
}

/// One more relic rolled and pulled extends the relics rolled so far.
proof fn lemma_relics_rolled_step(
    before: Game,
    mid: Game,
    m2: Game,
    after: Game,
    content: &Content,
    n: nat,
    prefix: Seq<Id>,
    rarity: usize,
    o: Option<Id>,
)
    requires
        relics_rolled(before, mid, content, n, prefix),
        relic_rarity_rolled(mid, m2, rarity),
        relic_pulled(m2, after, content, false, rarity, false, false, o),
    ensures
        relics_rolled(before, after, content, n + 1, prefix + opt_ids(o)),
{
    let relics = prefix + opt_ids(o);
    assert(relics.take(relics.len() - opt_ids(o).len()) =~= prefix);
}

/// The Toy Box: four rolled relics are offered, and remembered.
pub open spec fn toy_box_effect(b: Game, after: Game, content: &Content) -> bool {
    exists|mid: Game, relics: Seq<Id>|
        #[trigger] relics_rolled(b, mid, content, 4, relics) && after == (Game {
            phase: after.phase,
            toy_box_offers: after.toy_box_offers,
            ..mid
        }) && after.toy_box_offers@ == relics && offer_screen(after.phase, seq![], seq![], relics, seq![])
}

/// The relics that Neow's Bones may offer.
pub open spec fn bones_names() -> Seq<Seq<char>> {
    seq![
        "RELIC.CURSED_PEARL"@,
        "RELIC.HEFTY_TABLET"@,
        "RELIC.LARGE_CAPSULE"@,
        "RELIC.LEAFY_POULTICE"@,
        "RELIC.PRECARIOUS_SHEARS"@,
        "RELIC.SILKEN_TRESS"@,
        "RELIC.SILVER_CRUCIBLE"@,
        "RELIC.ARCANE_SCROLL"@,
        "RELIC.BOOMING_CONCH"@,
        "RELIC.FISHING_ROD"@,
        "RELIC.GOLDEN_PEARL"@,
        "RELIC.KALEIDOSCOPE"@,
        "RELIC.LEAD_PAPERWEIGHT"@,
        "RELIC.LOST_COFFER"@,
        "RELIC.NEOWS_TORMENT"@,
        "RELIC.NEW_LEAF"@,
        "RELIC.PHIAL_HOLSTER"@,
        "RELIC.PRECISE_SCISSORS"@,
        "RELIC.SCROLL_BOXES"@,
        "RELIC.WINGED_BOOTS"@,
        "RELIC.LAVA_ROCK"@,
        "RELIC.NEOWS_TALISMAN"@,
        "RELIC.NUTRITIOUS_OYSTER"@,
        "RELIC.POMANDER"@,
        "RELIC.SMALL_CAPSULE"@,
        "RELIC.STONE_HUMIDIFIER"@,
    ]
}

/// Neow's Bones: two relics of its list are offered, and a curse waits for the end
/// of the reward screen.
pub open spec fn bones_effect(b: Game, after: Game, content: &Content) -> bool {
    &&& after == (Game {
        phase: after.phase,
        rngs: Rngs { rewards: after.rngs.rewards, ..b.rngs },
        pending_curse: true,
        ..b
    })
    &&& after.phase matches Phase::Rewards(r) && r.gold == 0 && r.cards@.len() == 0
        && r.card_rewards@.len() == 0 && r.potions@.len() == 0 && r.removals == 0
        && r.relics@.len() <= 2 && forall|k: int| 0 <= k < r.relics@.len() ==> bones_names().contains(
        content.relics@[#[trigger] r.relics@[k] as int].id@,
    ) && r.relics@[k] < content.relics@.len()
}

/// What obtaining the relic named `name` does for the remaining offering relics;
/// nothing for any other relic.
pub open spec fn more_effect(before: Game, after: Game, content: &Content, name: Seq<char>) -> bool {
    if name == "RELIC.PHIAL_HOLSTER"@ {
        holster_effect(before, after, content)
    } else if name == "RELIC.HEFTY_TABLET"@ {
        tablet_effect(before, after, content)
    } else if name == "RELIC.LEAD_PAPERWEIGHT"@ {
        paperweight_effect(before, after, content)
    } else if name == "RELIC.LOST_COFFER"@ {
        lost_coffer_effect(before, after, content)
    } else if name == "RELIC.TOY_BOX"@ {
        toy_box_effect(before, after, content)
    } else if name == "RELIC.NEOWS_BONES"@ {
        bones_effect(before, after, content)
    } else {
        keep_effect(before, after, content, name)
    }
}

/// The index of the first empty slot of `slots`.
pub(crate) fn find_empty(slots: &Vec<Option<Id>>) -> (index: Option<usize>)
    ensures
        index matches Some(i) ==> i < slots@.len(),
        match index {
            Some(i) => i == first_empty(slots@, 0),
            None => first_empty(slots@, 0) == -1,
        },
{
    let mut i: usize = slots.len();
    let mut found: Option<usize> = None;
    while i > 0
        invariant
            i <= slots@.len(),
            found matches Some(f) ==> f < slots@.len(),
            match found {
                Some(f) => f == first_empty(slots@, i as int),
                None => first_empty(slots@, i as int) == -1,
            },
        decreases i,
    {
        i = i - 1;
        if slots[i].is_none() {
            found = Some(i);
        }
    }
    found
}

impl Game {
    /// The Phial Holster's effect.
    fn fill_holster(&mut self, content: &Content)
        requires
            old(self).wf(content),
        ensures
            final(self).wf(content),
            holster_effect(*old(self), *final(self), content),
    {
        let pool = self.offer_pool(content);
        let chosen = self.random_potions(content, &pool, 2, false, true);
        let ghost g1 = *self;
        self.run.potions.push(None);
        let ghost slots1 = self.run.potions@;
        proof {
            assert forall|k: int| 0 <= k < chosen@.len() implies potion_source(*old(self), content, #[trigger] chosen@[k]) by {
                assert(pool@.contains(chosen@[k]));
            }
            assert(potions_from(*old(self), content, chosen@));
        }
        proof {
            crate::deck::lemma_same_relics(*old(self), *self, content);
        }
        if !self.has_relic(content, "RELIC.SOZU") {
            let mut j: usize = 0;
            while j < chosen.len()
                invariant
                    j <= chosen@.len(),
                    self.wf(content),
                    self.run.potions@ == filled(slots1, chosen@.take(j as int)),
                    forall|k: int| 0 <= k < chosen@.len() ==> pool@.contains(#[trigger] chosen@[k]),
                    ids_below(pool@, content.potions@.len() as int),
                    *self == (Game { run: Run { potions: self.run.potions, ..g1.run }, ..g1 }),
                decreases chosen@.len() - j,
            {
                let p = chosen[j];
                assert(pool@.contains(p));
                let slot = find_empty(&self.run.potions);
                if let Some(i) = slot {
                    self.run.potions.set(i, Some(p));
                }
                assert(chosen@.take(j + 1).drop_last() =~= chosen@.take(j as int));
                j = j + 1;
            }
            assert(chosen@.take(chosen@.len() as int) =~= chosen@);
        }
    }

    /// The Hefty Tablet's effect.
    #[verifier::spinoff_prover]
    #[verifier::rlimit(30)]
    fn read_tablet(&mut self, content: &Content)
        requires
            old(self).wf(content),
        ensures
            final(self).wf(content),
            tablet_effect(*old(self), *final(self), content),
    {
        broadcast use vstd::seq_lib::group_to_multiset_ensures;
        broadcast use vstd::multiset::group_multiset_axioms;

        let mut pool = self.character_rares(content);
        let ghost rares = pool@;
        let take: usize = if pool.len() < 3 {
            pool.len()
        } else {
            3
        };
        let mut picks: Vec<Id> = Vec::new();
        let mut cards: Vec<Card> = Vec::new();
        let mut n: usize = 0;
        while n < take
            invariant
                n <= take <= 3,
                take <= rares.len(),
                picks@.len() == n,
                pool@.len() + n == rares.len(),
                picks@.to_multiset().add(pool@.to_multiset()) == rares.to_multiset(),
                cards@ == fresh_cards(picks@),
                ids_below(pool@, content.cards@.len() as int),
                ids_below(picks@, content.cards@.len() as int),
                reward_drawn(*old(self), *self),
                self.wf(content),
            decreases take - n,
        {
            let index = self.rngs.rewards.index(pool.len());
            let ghost before = pool@;
            let id = pool.remove(index);
            let ghost picked = picks@;
            picks.push(id);
            cards.push(Card::of(id, 0));
            proof {
                assert(pool@ == before.remove(index as int));
                assert(id == before[index as int]);
                assert(picks@ == picked.push(id));
                before.to_multiset_ensures();
                picked.to_multiset_ensures();
                assert(before.contains(id));
                assert(before.to_multiset().count(id) > 0);
                assert(picks@.to_multiset().add(pool@.to_multiset()) =~= picked.to_multiset().add(
                    before.to_multiset(),
                ));
                assert(cards@ =~= fresh_cards(picks@));
            }
            n = n + 1;
        }
        proof {
            assert(picks@.to_multiset().subset_of(rares.to_multiset()));
        }
        let ghost mid = *self;
        self.add_named_cards(content, "CARD.INJURY", 1);
        self.phase = Phase::ChooseCards(cards, 1, true);
        proof {
            assert(cards_valid(fresh_cards(picks@), content));
            assert(drawn_from(picks@, rares));
            assert(reward_drawn(*old(self), mid));
        }
    }

    /// The Lead Paperweight's effect.
    fn weigh_paper(&mut self, content: &Content)
        requires
            old(self).wf(content),
            old(self).run.act >= 1,
        ensures
            final(self).wf(content),
            paperweight_effect(*old(self), *final(self), content),
    {
        let cards = self.card_rewards(content, &content.colorless, 2, Room::Combat);
        let ghost mid = *self;
        proof {
            assert(cards_valid(cards@, content)) by {
                assert forall|k: int| 0 <= k < cards@.len() implies (#[trigger] cards@[k]).id < content.cards@.len() by {
                    assert(content.colorless@.contains(cards@[k].id));
                }
            }
        }
        self.resume = Some(Phase::OnMap);
        self.phase = Phase::ChooseCards(cards, 1, true);
        assert(cards_rolled(*old(self), mid, content, content.colorless@, 2, cards@));
    }

    /// The Lost Coffer's effect.
    fn open_lost_coffer(&mut self, content: &Content)
        requires
            old(self).wf(content),
            old(self).run.act >= 1,
        ensures
            final(self).wf(content),
            lost_coffer_effect(*old(self), *final(self), content),
    {
        let def = &content.characters[self.run.character as usize];
        assert(def.wf(content));
        let cards = self.reward_cards(content, &def.cards, 3, Room::Combat);
        let ghost m1 = *self;
        let pool = self.offer_pool(content);
        let potions = self.reward_potions(content, &pool, 1);
        let ghost m2 = *self;
        proof {
            assert forall|k: int| 0 <= k < potions@.len() implies potion_source(m1, content, #[trigger] potions@[k]) by {
                assert(pool@.contains(potions@[k]));
            }
            assert(ids_below(potions@, content.potions@.len() as int)) by {
                assert forall|k: int| 0 <= k < potions@.len() implies (#[trigger] potions@[k]) < content.potions@.len() by {
                    assert(pool@.contains(potions@[k]));
                }
            }
        }
        self.phase = Phase::Rewards(Rewards {
            gold: 0,
            cards,
            card_rewards: Vec::new(),
            relics: Vec::new(),
            potions,
            removals: 0,
        });
        assert(reward_cards_rolled(*old(self), m1, content, content.characters@[old(self).run.character as int].cards@, 3, cards@));
        assert(potions_drawn(m1, m2, content, 1, potions@));
    }

    /// The Toy Box's effect.
    fn open_toy_box(&mut self, content: &Content)
        requires
            old(self).wf(content),
        ensures
            final(self).wf(content),
            toy_box_effect(*old(self), *final(self), content),
    {
        let mut relics: Vec<Id> = Vec::new();
        let mut n: usize = 0;
        while n < 4
            invariant
                n <= 4,
                self.wf(content),
                relics_rolled(*old(self), *self, content, n as nat, relics@),
                ids_below(relics@, content.relics@.len() as int),
            decreases 4 - n,
        {
            let ghost mid = *self;
            let ghost prefix = relics@;
            let rarity = self.roll_relic_rarity();
            let ghost m2 = *self;
            let o = self.pull_relic(content, false, rarity, false, false);
            if let Some(x) = o {
                relics.push(x);
            }
            proof {
                assert(relics@ =~= prefix + opt_ids(o));
                assert(relic_rarity_rolled(mid, m2, rarity));
                assert(relic_pulled(m2, *self, content, false, rarity, false, false, o));
                lemma_relics_rolled_step(*old(self), mid, m2, *self, content, n as nat, prefix, rarity, o);
            }
            n = n + 1;
        }
        let ghost mid = *self;
        let ghost offered = relics@;
        self.toy_box_offers = relics.clone();
        self.phase = Phase::Rewards(Rewards {
            gold: 0,
            cards: Vec::new(),
            card_rewards: Vec::new(),
            relics,
            potions: Vec::new(),
            removals: 0,
        });
        assert(relics_rolled(*old(self), mid, content, 4, offered));
    }

    /// Neow's Bones' effect.
    fn offer_bones(&mut self, content: &Content)
        requires
            old(self).wf(content),
        ensures
            final(self).wf(content),
            bones_effect(*old(self), *final(self), content),
    {
        broadcast use vstd::seq_lib::group_to_multiset_ensures;

        let names: [&str; 26] = [
            "RELIC.CURSED_PEARL",
            "RELIC.HEFTY_TABLET",
            "RELIC.LARGE_CAPSULE",
            "RELIC.LEAFY_POULTICE",
            "RELIC.PRECARIOUS_SHEARS",
            "RELIC.SILKEN_TRESS",
            "RELIC.SILVER_CRUCIBLE",
            "RELIC.ARCANE_SCROLL",
            "RELIC.BOOMING_CONCH",
            "RELIC.FISHING_ROD",
            "RELIC.GOLDEN_PEARL",
            "RELIC.KALEIDOSCOPE",
            "RELIC.LEAD_PAPERWEIGHT",
            "RELIC.LOST_COFFER",
            "RELIC.NEOWS_TORMENT",
            "RELIC.NEW_LEAF",
            "RELIC.PHIAL_HOLSTER",
            "RELIC.PRECISE_SCISSORS",
            "RELIC.SCROLL_BOXES",
            "RELIC.WINGED_BOOTS",
            "RELIC.LAVA_ROCK",
            "RELIC.NEOWS_TALISMAN",
            "RELIC.NUTRITIOUS_OYSTER",
            "RELIC.POMANDER",
            "RELIC.SMALL_CAPSULE",
            "RELIC.STONE_HUMIDIFIER",
        ];
        let mut relics: Vec<Id> = Vec::new();
        let mut j: usize = 0;
        while j < 26
            invariant
                j <= 26,
                names@.len() == 26,
                forall|k: int| 0 <= k < 26 ==> (#[trigger] names@[k])@ == bones_names()[k],
                content.wf(),
                forall|k: int| 0 <= k < relics@.len() ==> bones_names().contains(
                    content.relics@[#[trigger] relics@[k] as int].id@,
                ) && relics@[k] < content.relics@.len(),
            decreases 26 - j,
        {
            let found = content.relic_id(names[j]);
            if let Some(id) = found {
                proof {
                    assert(bones_names()[j as int] == names@[j as int]@);
                    assert(content.relic_names()[id as int] == content.relics@[id as int].id@);
                    assert(bones_names().contains(content.relics@[id as int].id@));
                }
                relics.push(id);
            }
            j = j + 1;
        }
        let ghost listed = relics@;
        self.rngs.rewards.shuffle(&mut relics);
        proof {
            assert forall|k: int| 0 <= k < relics@.len() implies bones_names().contains(
                content.relics@[#[trigger] relics@[k] as int].id@,
            ) && relics@[k] < content.relics@.len() by {
                assert(relics@.contains(relics@[k]));
                assert(relics@.to_multiset().count(relics@[k]) > 0);
                assert(listed.contains(relics@[k]));
            }
        }
        relics.truncate(2);
        self.pending_curse = true;
        self.phase = Phase::Rewards(Rewards {
            gold: 0,
            cards: Vec::new(),
            card_rewards: Vec::new(),
            relics,
            potions: Vec::new(),
            removals: 0,
        });
    }

    /// What obtaining relic `id` does for the remaining offering relics.
    fn more_effect_of(&mut self, content: &Content, id: Id)
        requires
            old(self).wf(content),
            id < content.relics@.len(),
            needs_act(content.relics@[id as int].id@) ==> old(self).run.act >= 1,
        ensures
            final(self).wf(content),
            more_effect(*old(self), *final(self), content, content.relics@[id as int].id@),
    {
        let name = &content.relics[id as usize].id;
        if same_name(name, "RELIC.PHIAL_HOLSTER") {
            self.fill_holster(content);
        } else if same_name(name, "RELIC.HEFTY_TABLET") {
            self.read_tablet(content);
        } else if same_name(name, "RELIC.LEAD_PAPERWEIGHT") {
            self.weigh_paper(content);
        } else if same_name(name, "RELIC.LOST_COFFER") {
            self.open_lost_coffer(content);
        } else if same_name(name, "RELIC.TOY_BOX") {
            self.open_toy_box(content);
        } else if same_name(name, "RELIC.NEOWS_BONES") {
            self.offer_bones(content);
        } else {
            self.keep_effect_of(content, id);
        }
    }
}

/// Whether card `id` is a curse that random generation can add: not eternal, not kept
/// from generation, and not the Ascender's Bane.
pub open spec fn generated_curse(content: &Content, id: int) -> bool {
    let d = content.cards@[id];
    &&& d.card_type == CardType::Curse
    &&& d.id@ != "CARD.ASCENDERS_BANE"@
    &&& d.flags[0] & ETERNAL == 0
    &&& d.flags[0] & NO_GENERATE == 0
}

/// The ids below `n` of the curses that random generation can add.
pub open spec fn generated_curses(content: &Content, n: int) -> Seq<Id>
    decreases n,
{
    if n <= 0 {
        seq![]
    } else if generated_curse(content, n - 1) {
        generated_curses(content, n - 1).push((n - 1) as Id)
    } else {
        generated_curses(content, n - 1)
    }
}

/// `g` once its niche stream drew.
pub open spec fn niche_drawn(g: Game, after: Game) -> bool {
    after == (Game { rngs: Rngs { niche: after.rngs.niche, ..g.rngs }, ..g })
}

/// `after` is `before` once the cards `ids` joined the deck one after the other, each
/// after a draw of the niche stream.
pub open spec fn drawn_cards_added(before: Game, after: Game, content: &Content, ids: Seq<Id>) -> bool
    decreases ids.len(),
{
    if ids.len() == 0 {
        after == before
    } else {
        exists|mid: Game, m2: Game|
            #![trigger niche_drawn(mid, m2), card_added(m2, after, content, Card { id: ids.last(), upgrades: 0, instance: 0, flags: 0 })]
            {
                &&& drawn_cards_added(before, mid, content, ids.drop_last())
                &&& niche_drawn(mid, m2)
                &&& card_added(m2, after, content, Card { id: ids.last(), upgrades: 0, instance: 0, flags: 0 })
            }
    }
}

/// The Sere Talon: two random curses join the deck (all of them when fewer), then
/// three Wishes.
pub open spec fn talon_effect(b: Game, after: Game, content: &Content) -> bool {
    let curses = generated_curses(content, content.cards@.len() as int);
    exists|mid: Game, picks: Seq<Id>|
        #![trigger drawn_cards_added(b, mid, content, picks)]
        {
            &&& drawn_from(picks, curses)
            &&& picks.len() == if curses.len() < 2 { curses.len() } else { 2 }
            &&& drawn_cards_added(b, mid, content, picks)
            &&& named_added_times(mid, after, content, "CARD.WISH"@, 3)
        }
}

/// Whether Pael's Tooth takes `card`: unupgraded, not eternal, and not a status, curse
/// or quest.
pub open spec fn toothable(content: &Content, card: Card) -> bool {
    let d = content.cards@[card.id as int];
    &&& card.upgrades == 0
    &&& card.spec_flags(d) & ETERNAL == 0
    &&& d.card_type != CardType::Status && d.card_type != CardType::Curse && d.card_type != CardType::Quest
}

/// The cards of `deck` that Pael's Tooth takes.
pub open spec fn tooth_taken(content: &Content, deck: Seq<Card>) -> Seq<Card> {
    deck.filter(|c: Card| toothable(content, c))
}

/// The cards of `deck` that Pael's Tooth leaves.
pub open spec fn tooth_left(content: &Content, deck: Seq<Card>) -> Seq<Card> {
    deck.filter(|c: Card| !toothable(content, c))
}

/// Pael's Tooth: with at most five cards it can take, it takes them all into its
/// keeping; with more, the player chooses five.
pub open spec fn paels_tooth_effect(b: Game, after: Game, content: &Content) -> bool {
    let taken = tooth_taken(content, b.run.deck@);
    &&& taken.len() <= 5 ==> {
        &&& after.run.deck@ == tooth_left(content, b.run.deck@)
        &&& after.paels_cards@.to_multiset() == b.paels_cards@.to_multiset().add(taken.to_multiset())
        &&& after == (Game {
            run: Run { deck: after.run.deck, ..b.run },
            paels_cards: after.paels_cards,
            paels_tooth: false,
            ..b
        })
    }
    &&& taken.len() > 5 ==> after == (Game { paels_tooth: true, phase: Phase::RemoveCards(5, 0, false), ..b })
}

/// Whether character `c` is another character than `me` with cards of its own.
pub open spec fn sea_character(content: &Content, me: Id, c: int) -> bool {
    &&& c != me
    &&& 0 <= c < content.characters@.len()
    &&& content.characters@[c].cards@.len() > 0
}

/// The characters below `n` other than `me` that have cards of their own.
pub open spec fn sea_characters(content: &Content, me: Id, n: int) -> Seq<Id>
    decreases n,
{
    if n <= 0 {
        seq![]
    } else if sea_character(content, me, n - 1) {
        sea_characters(content, me, n - 1).push((n - 1) as Id)
    } else {
        sea_characters(content, me, n - 1)
    }
}

/// `after` is `g` once the event's stream drew, or the reward stream when there is no
/// event stream.
pub open spec fn event_or_reward_drawn(g: Game, after: Game) -> bool {
    if g.event_rng is Some {
        after == (Game { event_rng: after.event_rng, ..g }) && after.event_rng is Some
    } else {
        reward_drawn(g, after)
    }
}

/// The Sea Glass: another character with cards is picked at random (the player's own
/// when there is none), and five of its common, five uncommon and five rare cards are
/// offered, to take any of.
pub open spec fn sea_glass_effect(b: Game, after: Game, content: &Content) -> bool {
    let others = sea_characters(content, b.run.character, content.characters@.len() as int);
    exists|m0: Game, c: Id, m1: Game, m2: Game, m3: Game, cs: Seq<Card>, cu: Seq<Card>, cr: Seq<Card>|
        #![trigger fixed_drawn(m0, m1, content, content.characters@[c as int].cards@, CardRarity::Common, 5, cs), fixed_drawn(m1, m2, content, content.characters@[c as int].cards@, CardRarity::Uncommon, 5, cu), fixed_drawn(m2, m3, content, content.characters@[c as int].cards@, CardRarity::Rare, 5, cr)]
        {
            &&& others.len() == 0 ==> m0 == b && c == b.run.character
            &&& others.len() > 0 ==> others.contains(c) && event_or_reward_drawn(b, m0)
            &&& fixed_drawn(m0, m1, content, content.characters@[c as int].cards@, CardRarity::Common, 5, cs)
            &&& fixed_drawn(m1, m2, content, content.characters@[c as int].cards@, CardRarity::Uncommon, 5, cu)
            &&& fixed_drawn(m2, m3, content, content.characters@[c as int].cards@, CardRarity::Rare, 5, cr)
            &&& after == (Game { phase: after.phase, ..m3 })
            &&& after.phase matches Phase::ChooseCards(cards, 15, true) && cards@ == cs + cu + cr
        }
}

/// The Golden Compass: the act's map is replaced by the compass's single lane
/// (see `Game::golden_map`), and the act is remembered.
pub open spec fn compass_effect(b: Game, after: Game) -> bool {
    &&& after == (Game { golden_compass: Some(b.run.act), map: after.map, ..b })
    &&& map_shaped(&after.map)
    &&& golden_layout(&after.map, b.run.ascension >= 10 && b.run.act == 3)
}

/// The lanes and floors of the fights (plain and elite) of `nodes`, in map order.
pub open spec fn fight_marks(nodes: Seq<MapNode>) -> Seq<(u8, u8)>
    decreases nodes.len(),
{
    if nodes.len() == 0 {
        seq![]
    } else {
        let rest = fight_marks(nodes.drop_last());
        let n = nodes.last();
        if n.room == Room::Combat || n.room == Room::Elite {
            rest.push((n.lane, n.floor))
        } else {
            rest
        }
    }
}

/// The Fur Coat: up to seven of the map's fights, picked in a shuffled order with a
/// stream seeded from the run's seed and the relic's name, are marked for this act.
pub open spec fn fur_coat_effect(b: Game, after: Game) -> bool {
    let fights = fight_marks(b.map.nodes@);
    &&& after == (Game { fur_coat: after.fur_coat, fur_coat_act: Some(b.run.act), ..b })
    &&& after.fur_coat@.len() == if fights.len() < 7 { fights.len() } else { 7 }
    &&& after.fur_coat@.no_duplicates() || !fights.no_duplicates()
    &&& forall|k: int| 0 <= k < after.fur_coat@.len() ==> fights.contains(#[trigger] after.fur_coat@[k])
}

/// The ancient cards that the Dusty Tome never gives (their own ancients replace basics).
pub open spec fn tome_excluded(name: Seq<char>) -> bool {
    name == "CARD.BREAK"@ || name == "CARD.SUPPRESS"@ || name == "CARD.PROTECTOR"@
        || name == "CARD.METEOR_SHOWER"@ || name == "CARD.QUADCAST"@
}

/// A card the Dusty Tome may give: an ancient card not excluded.
pub open spec fn tome_card(content: &Content, id: Id) -> bool {
    content.cards@[id as int].rarity == CardRarity::Ancient && !tome_excluded(content.cards@[id as int].id@)
}

/// The cards of `ids` that the Dusty Tome may give, in order.
pub open spec fn tome_pool(content: &Content, ids: Seq<Id>) -> Seq<Id> {
    ids.filter(|id: Id| tome_card(content, id))
}

/// `after` is `g` once the rewards stream moved on.
pub open spec fn rewards_drawn(g: Game, after: Game) -> bool {
    after == (Game { rngs: Rngs { rewards: after.rngs.rewards, ..g.rngs }, ..g })
}

/// The Dusty Tome: an upgraded ancient card of the character, drawn with the rewards
/// stream, joins the deck; nothing when the character has none.
pub open spec fn tome_effect(b: Game, after: Game, content: &Content) -> bool {
    let pool = tome_pool(content, content.characters@[b.run.character as int].cards@);
    &&& pool.len() == 0 ==> after == b
    &&& pool.len() > 0 ==> exists|m: Game, id: Id|
        #![trigger rewards_drawn(b, m), pool.contains(id)]
        {
            &&& rewards_drawn(b, m)
            &&& pool.contains(id)
            &&& card_added(m, after, content, Card { id, upgrades: 1, instance: 0, flags: 0 })
        }
}

/// What obtaining the Sere Talon, Pael's Tooth, the Sea Glass, the Golden Compass, the
/// Fur Coat or the Dusty Tome does; nothing for any other relic.
pub open spec fn keep_effect(before: Game, after: Game, content: &Content, name: Seq<char>) -> bool {
    if name == "RELIC.SERE_TALON"@ {
        talon_effect(before, after, content)
    } else if name == "RELIC.PAELS_TOOTH"@ {
        paels_tooth_effect(before, after, content)
    } else if name == "RELIC.SEA_GLASS"@ {
        sea_glass_effect(before, after, content)
    } else if name == "RELIC.GOLDEN_COMPASS"@ {
        compass_effect(before, after)
    } else if name == "RELIC.FUR_COAT"@ {
        fur_coat_effect(before, after)
    } else if name == "RELIC.DUSTY_TOME"@ {
        tome_effect(before, after, content)
    } else {
        after == before
    }
}

/// Every character that `sea_characters` lists is a character of the content.
proof fn lemma_sea_characters_below(content: &Content, me: Id, n: int, k: int)
    requires
        0 <= k < sea_characters(content, me, n).len(),
        content.characters@.len() <= u16::MAX,
    ensures
        sea_character(content, me, sea_characters(content, me, n)[k] as int),
        sea_characters(content, me, n)[k] < content.characters@.len(),
    decreases n,
{
    if n > 0 {
        let rest = sea_characters(content, me, n - 1);
        if sea_character(content, me, n - 1) {
            if k < rest.len() {
                lemma_sea_characters_below(content, me, n - 1, k);
            }
        } else {
            lemma_sea_characters_below(content, me, n - 1, k);
        }
    }
}

/// The Byrdpip rolls no cards, so obtaining it takes no started act.
pub proof fn lemma_byrdpip_needs_no_act()
    ensures
        !needs_act("RELIC.BYRDPIP"@),
{
    reveal_strlit("RELIC.BYRDPIP");
    reveal_strlit("RELIC.ORRERY");
    reveal_strlit("RELIC.KALEIDOSCOPE");
    reveal_strlit("RELIC.GLASS_EYE");
    reveal_strlit("RELIC.LEAD_PAPERWEIGHT");
    reveal_strlit("RELIC.LOST_COFFER");
    reveal_strlit("RELIC.SEA_GLASS");
    assert("RELIC.BYRDPIP"@.len() == 13);
    assert("RELIC.ORRERY"@.len() == 12);
    assert("RELIC.KALEIDOSCOPE"@.len() == 18);
    assert("RELIC.GLASS_EYE"@.len() == 15);
    assert("RELIC.LEAD_PAPERWEIGHT"@.len() == 22);
    assert("RELIC.LOST_COFFER"@.len() == 17);
    assert("RELIC.SEA_GLASS"@.len() == 15);
}

/// `cards` stably ordered by name.
fn sort_cards_by_name(content: &Content, cards: Vec<Card>) -> (sorted: Vec<Card>)
    requires
        cards_valid(cards@, content),
    ensures
        sorted@.to_multiset() == cards@.to_multiset(),
        cards_valid(sorted@, content),
{
    broadcast use vstd::seq_lib::group_to_multiset_ensures;

    let mut out: Vec<Card> = Vec::new();
    let mut i: usize = 0;
    while i < cards.len()
        invariant
            i <= cards@.len(),
            cards_valid(cards@, content),
            cards_valid(out@, content),
            out@.to_multiset() == cards@.take(i as int).to_multiset(),
        decreases cards@.len() - i,
    {
        let x = cards[i];
        let mut at: usize = out.len();
        while at > 0 && name_before(&content.cards[x.id as usize].id, &content.cards[out[at - 1].id as usize].id)
            invariant
                at <= out@.len(),
                x.id < content.cards@.len(),
                cards_valid(out@, content),
            decreases at,
        {
            at = at - 1;
        }
        let ghost before = out@;
        out.insert(at, x);
        proof {
            vstd::seq_lib::to_multiset_insert(before, at as int, x);
            assert(cards@.take(i + 1) =~= cards@.take(i as int).push(x));
            vstd::seq_lib::to_multiset_build(cards@.take(i as int), x);
            assert forall|k: int| 0 <= k < out@.len() implies (#[trigger] out@[k]).id < content.cards@.len() by {
                if k < at {
                    assert(out@[k] == before[k]);
                } else if k > at {
                    assert(out@[k] == before[k - 1]);
                }
            }
        }
        i = i + 1;
    }
    proof {
        assert(cards@.take(cards@.len() as int) =~= cards@);
    }
    out
}

impl Game {
    /// The curses that random generation can add, by name.
    pub(crate) fn generated_curse_pool(&self, content: &Content) -> (curses: Vec<Id>)
        requires
            self.wf(content),
        ensures
            curses@.to_multiset() == generated_curses(content, content.cards@.len() as int).to_multiset(),
            ids_below(curses@, content.cards@.len() as int),
    {
        let mut curses: Vec<Id> = Vec::new();
        let mut i: usize = 0;
        while i < content.cards.len()
            invariant
                i <= content.cards@.len(),
                content.wf(),
                curses@ == generated_curses(content, i as int),
                ids_below(curses@, content.cards@.len() as int),
            decreases content.cards@.len() - i,
        {
            let d = &content.cards[i];
            if d.card_type == CardType::Curse && !same_name(&d.id, "CARD.ASCENDERS_BANE") && d.flags[0] & ETERNAL
                == 0 && d.flags[0] & NO_GENERATE == 0 {
                curses.push(i as Id);
            }
            i = i + 1;
        }
        sort_card_ids(content, curses)
    }

    /// The Sere Talon's effect.
    fn grip_talon(&mut self, content: &Content)
        requires
            old(self).wf(content),
        ensures
            final(self).wf(content),
            talon_effect(*old(self), *final(self), content),
    {
        broadcast use vstd::seq_lib::group_to_multiset_ensures;
        broadcast use vstd::multiset::group_multiset_axioms;

        let mut pool = self.generated_curse_pool(content);
        let ghost curses = generated_curses(content, content.cards@.len() as int);
        proof {
            vstd::seq_lib::to_multiset_len(pool@);
            vstd::seq_lib::to_multiset_len(curses);
        }
        let take: usize = if pool.len() < 2 {
            pool.len()
        } else {
            2
        };
        let mut picks: Vec<Id> = Vec::new();
        let mut n: usize = 0;
        while n < take
            invariant
                n <= take <= 2,
                take == if curses.len() < 2 { curses.len() } else { 2 },
                pool@.len() + n == curses.len(),
                picks@.len() == n,
                picks@.to_multiset().add(pool@.to_multiset()) == curses.to_multiset(),
                ids_below(pool@, content.cards@.len() as int),
                self.wf(content),
                drawn_cards_added(*old(self), *self, content, picks@),
            decreases take - n,
        {
            let ghost mid = *self;
            let index = self.rngs.niche.index(pool.len());
            let ghost m2 = *self;
            let ghost before = pool@;
            let ghost picked = picks@;
            let id = pool.remove(index);
            picks.push(id);
            self.add_card(content, Card::of(id, 0));
            proof {
                assert(pool@ == before.remove(index as int));
                assert(id == before[index as int]);
                before.to_multiset_ensures();
                picked.to_multiset_ensures();
                assert(before.contains(id));
                assert(before.to_multiset().count(id) > 0);
                assert(picks@.to_multiset().add(pool@.to_multiset()) =~= picked.to_multiset().add(
                    before.to_multiset(),
                ));
                assert(picks@.drop_last() =~= picked);
                assert(niche_drawn(mid, m2));
                assert(drawn_cards_added(*old(self), mid, content, picks@.drop_last()));
            }
            n = n + 1;
        }
        proof {
            assert(picks@.to_multiset().subset_of(curses.to_multiset()));
        }
        let ghost mid = *self;
        self.add_named_cards(content, "CARD.WISH", 3);
        assert(drawn_cards_added(*old(self), mid, content, picks@));
    }

    /// Pael's Tooth's effect.
    fn bite_paels_tooth(&mut self, content: &Content)
        requires
            old(self).wf(content),
        ensures
            final(self).wf(content),
            paels_tooth_effect(*old(self), *final(self), content),
    {
        broadcast use vstd::seq_lib::group_to_multiset_ensures;

        let ghost deck0 = self.run.deck@;
        let mut kept: Vec<Card> = Vec::new();
        let mut taken: Vec<Card> = Vec::new();
        let mut i: usize = 0;
        while i < self.run.deck.len()
            invariant
                i <= deck0.len(),
                self.run.deck@ == deck0,
                self.wf(content),
                kept@ == tooth_left(content, deck0.take(i as int)),
                taken@ == tooth_taken(content, deck0.take(i as int)),
                cards_valid(kept@, content),
                cards_valid(taken@, content),
            decreases deck0.len() - i,
        {
            proof {
                reveal_with_fuel(Seq::<_>::filter, 1);
                assert(deck0.take(i + 1).drop_last() =~= deck0.take(i as int));
            }
            let card = self.run.deck[i];
            let def = &content.cards[card.id as usize];
            let t = def.card_type;
            if card.upgrades == 0 && card.flags(def) & ETERNAL == 0 && t != CardType::Status && t != CardType::Curse
                && t != CardType::Quest {
                taken.push(card);
            } else {
                kept.push(card);
            }
            i = i + 1;
        }
        proof {
            assert(deck0.take(deck0.len() as int) =~= deck0);
        }
        if taken.len() <= 5 {
            let ghost paels0 = self.paels_cards@;
            let mut paels: Vec<Card> = Vec::new();
            let mut k: usize = 0;
            while k < self.paels_cards.len()
                invariant
                    k <= self.paels_cards@.len(),
                    self.wf(content),
                    paels@ == self.paels_cards@.take(k as int),
                decreases self.paels_cards@.len() - k,
            {
                paels.push(self.paels_cards[k]);
                proof {
                    assert(self.paels_cards@.take(k + 1) =~= self.paels_cards@.take(k as int).push(self.paels_cards@[k as int]));
                }
                k = k + 1;
            }
            proof {
                assert(self.paels_cards@.take(self.paels_cards@.len() as int) =~= self.paels_cards@);
            }
            let mut j: usize = taken.len();
            proof {
                assert(taken@.take(taken@.len() as int) =~= taken@);
                assert(paels@ == paels0);
            }
            while j > 0
                invariant
                    j <= taken@.len(),
                    cards_valid(taken@, content),
                    cards_valid(paels@, content),
                    paels@.to_multiset().add(taken@.take(j as int).to_multiset()) == paels0.to_multiset().add(
                        taken@.to_multiset(),
                    ),
                decreases j,
            {
                let ghost before = paels@;
                let x = taken[j - 1];
                paels.push(x);
                proof {
                    assert(taken@.take(j as int) =~= taken@.take(j - 1).push(x));
                    vstd::seq_lib::to_multiset_build(taken@.take(j - 1), x);
                    vstd::seq_lib::to_multiset_build(before, x);
                    assert(paels@.to_multiset().add(taken@.take(j - 1).to_multiset()) =~= before.to_multiset().add(
                        taken@.take(j as int).to_multiset(),
                    ));
                    assert(cards_valid(paels@, content)) by {
                        assert forall|q: int| 0 <= q < paels@.len() implies (#[trigger] paels@[q]).id < content.cards@.len() by {
                            if q < before.len() {
                                assert(paels@[q] == before[q]);
                            }
                        }
                    }
                }
                j = j - 1;
            }
            proof {
                assert(taken@.take(0) =~= Seq::<Card>::empty());
                assert(paels@.to_multiset().add(Seq::<Card>::empty().to_multiset()) =~= paels@.to_multiset());
            }
            self.paels_cards = sort_cards_by_name(content, paels);
            self.run.deck = kept;
            self.paels_tooth = false;
        } else {
            self.paels_tooth = true;
            self.phase = Phase::RemoveCards(5, 0, false);
        }
    }

    /// The Sea Glass's effect.
    #[verifier::spinoff_prover]
    #[verifier::rlimit(30)]
    fn gaze_sea_glass(&mut self, content: &Content)
        requires
            old(self).wf(content),
            old(self).run.act >= 1,
        ensures
            final(self).wf(content),
            sea_glass_effect(*old(self), *final(self), content),
    {
        let me = self.run.character;
        let mut others: Vec<Id> = Vec::new();
        let mut i: usize = 0;
        while i < content.characters.len()
            invariant
                i <= content.characters@.len(),
                content.wf(),
                others@ == sea_characters(content, me, i as int),
            decreases content.characters@.len() - i,
        {
            if i as Id != me && content.characters[i].cards.len() > 0 {
                others.push(i as Id);
            }
            i = i + 1;
        }
        let ghost all = others@;
        proof {
            assert forall|k: int| 0 <= k < all.len() implies (#[trigger] all[k]) < content.characters@.len() by {
                lemma_sea_characters_below(content, me, content.characters@.len() as int, k);
            }
        }
        let c = if others.len() == 0 {
            me
        } else {
            let choice = match self.event_rng {
                Some(r) => {
                    let mut rng = r;
                    let v = rng.index(others.len());
                    self.event_rng = Some(rng);
                    v
                },
                None => self.rngs.rewards.index(others.len()),
            };
            others[choice]
        };
        proof {
            if others@.len() > 0 {
                assert(others@.contains(c));
            }
        }
        let ghost m0 = *self;
        let def = &content.characters[c as usize];
        assert(def.wf(content));
        let mut cards = self.fixed_cards(content, &def.cards, CardRarity::Common, 5);
        let ghost m1 = *self;
        let ghost cs = cards@;
        let more = self.fixed_cards(content, &def.cards, CardRarity::Uncommon, 5);
        let ghost m2 = *self;
        let rare = self.fixed_cards(content, &def.cards, CardRarity::Rare, 5);
        let ghost m3 = *self;
        let ghost cu = more@;
        let ghost cr = rare@;
        let mut k: usize = 0;
        while k < more.len()
            invariant
                k <= more@.len(),
                cards@ == cs + more@.take(k as int),
            decreases more@.len() - k,
        {
            cards.push(more[k]);
            proof {
                assert(more@.take(k + 1) =~= more@.take(k as int).push(more@[k as int]));
            }
            k = k + 1;
        }
        let mut k: usize = 0;
        while k < rare.len()
            invariant
                k <= rare@.len(),
                cards@ == cs + cu + rare@.take(k as int),
                more@ == cu,
            decreases rare@.len() - k,
        {
            cards.push(rare[k]);
            proof {
                assert(rare@.take(k + 1) =~= rare@.take(k as int).push(rare@[k as int]));
            }
            k = k + 1;
        }
        proof {
            assert(more@.take(more@.len() as int) =~= more@);
            assert(rare@.take(rare@.len() as int) =~= rare@);
            assert(cards@ =~= cs + cu + cr);
            assert(cards_valid(cards@, content)) by {
                assert forall|q: int| 0 <= q < cards@.len() implies (#[trigger] cards@[q]).id < content.cards@.len() by {
                    if q < cs.len() {
                        assert(def.cards@.contains(cs[q].id));
                    } else if q < cs.len() + cu.len() {
                        assert(cards@[q] == cu[q - cs.len()]);
                        assert(def.cards@.contains(cu[q - cs.len()].id));
                    } else {
                        assert(cards@[q] == cr[q - cs.len() - cu.len()]);
                        assert(def.cards@.contains(cr[q - cs.len() - cu.len()].id));
                    }
                }
            }
        }
        self.phase = Phase::ChooseCards(cards, 15, true);
        assert(fixed_drawn(m0, m1, content, content.characters@[c as int].cards@, CardRarity::Common, 5, cs));
        assert(fixed_drawn(m1, m2, content, content.characters@[c as int].cards@, CardRarity::Uncommon, 5, cu));
        assert(fixed_drawn(m2, m3, content, content.characters@[c as int].cards@, CardRarity::Rare, 5, cr));
    }

    /// Marks up to seven fights of the map for the Fur Coat (see `fur_coat_effect`).
    fn mark_fur_coat(&mut self)
        ensures
            fur_coat_effect(*old(self), *final(self)),
    {
        let mut fights: Vec<(u8, u8)> = Vec::new();
        let mut i: usize = 0;
        while i < self.map.nodes.len()
            invariant
                i <= self.map.nodes@.len(),
                fights@ == fight_marks(self.map.nodes@.take(i as int)),
            decreases self.map.nodes@.len() - i,
        {
            proof {
                assert(self.map.nodes@.take(i + 1).drop_last() =~= self.map.nodes@.take(i as int));
            }
            let node = &self.map.nodes[i];
            if node.room == Room::Combat || node.room == Room::Elite {
                fights.push((node.lane, node.floor));
            }
            i = i + 1;
        }
        proof {
            assert(self.map.nodes@.take(self.map.nodes@.len() as int) =~= self.map.nodes@);
        }
        let ghost all = fights@;
        let mut name: Vec<u8> = Vec::new();
        crate::act::push_text(&mut name, "FUR_COAT");
        let mut rng = Rng::from_seed(self.seed.wrapping_add(crate::act::name_hash(&name)) as u64);
        rng.shuffle(&mut fights);
        let ghost shuffled = fights@;
        fights.truncate(7);
        proof {
            broadcast use vstd::seq_lib::group_to_multiset_ensures;
            assert forall|k: int| 0 <= k < fights@.len() implies all.contains(#[trigger] fights@[k]) by {
                assert(shuffled[k] == fights@[k]);
                assert(shuffled.contains(shuffled[k]));
                assert(shuffled.to_multiset().count(shuffled[k]) > 0);
            }
            if all.no_duplicates() {
                all.lemma_multiset_has_no_duplicates();
                shuffled.lemma_multiset_has_no_duplicates_conv();
                assert forall|a: int, b: int| 0 <= a < fights@.len() && 0 <= b < fights@.len() && a != b
                    implies fights@[a] != fights@[b] by {
                    assert(shuffled[a] == fights@[a] && shuffled[b] == fights@[b]);
                }
            }
        }
        self.fur_coat = fights;
        self.fur_coat_act = Some(self.run.act);
    }

    /// Gives the Dusty Tome's card (see `tome_effect`).
    fn open_dusty_tome(&mut self, content: &Content)
        requires
            old(self).wf(content),
        ensures
            final(self).wf(content),
            tome_effect(*old(self), *final(self), content),
    {
        let def = &content.characters[self.run.character as usize];
        assert(def.wf(content));
        let ghost cards = def.cards@;
        let mut pool: Vec<Id> = Vec::new();
        let mut i: usize = 0;
        while i < def.cards.len()
            invariant
                i <= cards.len(),
                cards == def.cards@,
                ids_below(cards, content.cards@.len() as int),
                pool@ == tome_pool(content, cards.take(i as int)),
                ids_below(pool@, content.cards@.len() as int),
            decreases cards.len() - i,
        {
            proof {
                reveal_with_fuel(Seq::<_>::filter, 1);
                assert(cards.take(i + 1).drop_last() =~= cards.take(i as int));
            }
            let id = def.cards[i];
            let card_def = &content.cards[id as usize];
            if card_def.rarity == CardRarity::Ancient && !(same_name(&card_def.id, "CARD.BREAK")
                || same_name(&card_def.id, "CARD.SUPPRESS") || same_name(&card_def.id, "CARD.PROTECTOR")
                || same_name(&card_def.id, "CARD.METEOR_SHOWER") || same_name(&card_def.id, "CARD.QUADCAST")) {
                pool.push(id);
            }
            i = i + 1;
        }
        proof {
            assert(cards.take(cards.len() as int) =~= cards);
        }
        if pool.len() > 0 {
            let ghost g0 = *self;
            let index = self.rngs.rewards.index(pool.len());
            let id = pool[index];
            proof {
                assert(pool@.contains(pool@[index as int]));
                assert(rewards_drawn(g0, *self));
            }
            self.add_card(content, Card { id, upgrades: 1, instance: 0, flags: 0 });
        }
    }

    /// What obtaining the Sere Talon, Pael's Tooth, the Sea Glass, the Golden Compass,
    /// the Fur Coat or the Dusty Tome does.
    fn keep_effect_of(&mut self, content: &Content, id: Id)
        requires
            old(self).wf(content),
            id < content.relics@.len(),
            needs_act(content.relics@[id as int].id@) ==> old(self).run.act >= 1,
        ensures
            final(self).wf(content),
            keep_effect(*old(self), *final(self), content, content.relics@[id as int].id@),
    {
        let name = &content.relics[id as usize].id;
        if same_name(name, "RELIC.SERE_TALON") {
            self.grip_talon(content);
        } else if same_name(name, "RELIC.PAELS_TOOTH") {
            self.bite_paels_tooth(content);
        } else if same_name(name, "RELIC.SEA_GLASS") {
            self.gaze_sea_glass(content);
        } else if same_name(name, "RELIC.GOLDEN_COMPASS") {
            self.golden_compass = Some(self.run.act);
            self.map = self.golden_map();
        } else if same_name(name, "RELIC.FUR_COAT") {
            self.mark_fur_coat();
        } else if same_name(name, "RELIC.DUSTY_TOME") {
            self.open_dusty_tome(content);
        }
    }
}

} // verus!
