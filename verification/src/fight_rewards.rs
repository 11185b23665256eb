use vstd::prelude::*;
use crate::content::{Id, Content, ids_below};
use crate::game::cards_valid;
use crate::obtain::{opt_ids, potions_drawn, potion_source, reward_drawn};
use crate::relics::{relic_pulled, relic_rarity_rolled};
use crate::rewards::{combat_rewards_modified, reward_cards_rolled, standard_base};
use crate::rng::{UNIT, next_rng, raw_value};
use crate::state::{Card, Phase, Rewards, Rngs, Room, Game};

verus! {

/// Whether a potion is offered after a fight, for a roll of `roll / UNIT`: always with
/// the White Beast Statue, else below the potion odds (an eighth more after an elite).
pub open spec fn potion_rolled(g: Game, content: &Content, roll: u32) -> bool {
    ||| g.spec_has_relic(content, "RELIC.WHITE_BEAST_STATUE"@)
    ||| roll * 800 < (g.potion_odds * 8 + if g.room == Room::Elite { 100int } else { 0 }) * UNIT
}

/// The roll (over `UNIT`) that the next draw from `g`'s reward stream gives.
pub open spec fn next_reward_roll(g: Game) -> u32 {
    (raw_value(g.rngs.rewards) % (UNIT as u64)) as u32
}

/// `after` is `before` once the next draw of the reward stream decided whether a potion
/// is offered; the potion odds fall by ten when one is, and rise by ten when none is.
pub open spec fn potion_chance_rolled(before: Game, after: Game, content: &Content, potion: bool) -> bool {
    &&& potion == potion_rolled(before, content, next_reward_roll(before))
    &&& after == (Game {
        rngs: Rngs { rewards: next_rng(before.rngs.rewards), ..before.rngs },
        potion_odds: (before.potion_odds + if potion { -10int } else { 10 }) as i32,
        ..before
    })
}

/// The least and the most gold a fight in `g`'s room gives (a quarter less from
/// ascension three on).
pub open spec fn gold_bounds(g: Game) -> (int, int) {
    let (min, max) = match g.room {
        Room::Elite => (35int, 45int),
        Room::Boss => (100, 100),
        _ => (10, 20),
    };
    if g.run.ascension >= 3 {
        (min * 3 / 4, max * 3 / 4)
    } else {
        (min, max)
    }
}

/// `after` is `before` once the next draw of the reward stream drew `gold`, uniformly
/// within the room's bounds.
pub open spec fn fight_gold_rolled(before: Game, after: Game, gold: i32) -> bool {
    let (min, max) = gold_bounds(before);
    &&& gold == min + (raw_value(before.rngs.rewards) % ((max - min + 1) as u64)) as int
    &&& min <= gold <= max
    &&& reward_drawn(before, after)
    &&& after.rngs.rewards == next_rng(before.rngs.rewards)
}

/// `after` is `before` once the potion of the fight was drawn (when one is offered).
pub open spec fn fight_potion_drawn(before: Game, after: Game, content: &Content, potion: bool, potions: Seq<Id>) -> bool {
    &&& potion ==> potions_drawn(before, after, content, 1, potions)
    &&& !potion ==> after == before && potions.len() == 0
}

/// `after` is `before` once the relic of an elite fight was rolled and pulled; no relic
/// after another fight.
pub open spec fn elite_relic_rolled(before: Game, after: Game, content: &Content, relics: Seq<Id>) -> bool {
    if before.room == Room::Elite {
        exists|mid: Game, rarity: usize, o: Option<Id>|
            #![trigger relic_rarity_rolled(before, mid, rarity), relic_pulled(mid, after, content, false, rarity, false, false, o)]
            {
                &&& relic_rarity_rolled(before, mid, rarity)
                &&& relic_pulled(mid, after, content, false, rarity, false, false, o)
                &&& relics == opt_ids(o)
            }
    } else {
        after == before && relics.len() == 0
    }
}

/// The sum of `parts`.
pub open spec fn parts_sum(parts: Seq<i32>) -> int
    decreases parts.len(),
{
    if parts.len() == 0 {
        0
    } else {
        parts_sum(parts.drop_last()) + parts.last()
    }
}

/// The rewards of a fight before the relics act on them: the rolled gold plus the gold
/// parts waiting, the rolled cards, the elite's relic and the potion.
pub open spec fn plain_loot(r0: Rewards, gold: int, cards: Seq<Card>, relics: Seq<Id>, potions: Seq<Id>) -> bool {
    &&& r0.gold == gold
    &&& r0.cards@ == cards
    &&& r0.card_rewards@.len() == 0
    &&& r0.relics@ == relics
    &&& r0.potions@ == potions
    &&& r0.removals == 0
}

/// `after` is `before` once the rewards `result` of the fight just won were rolled (see
/// `Game::rewards`): after the last boss only what the relics add; else gold, a
/// potion by chance, a card reward and, after an elite, a relic, then what the relics
/// add.
pub open spec fn fight_rewards_rolled(before: Game, after: Game, content: &Content, result: Rewards) -> bool {
    if before.room == Room::Boss && before.run.act == 3 {
        exists|r0: Rewards|
            #[trigger] combat_rewards_modified(before, after, content, r0, result) && plain_loot(r0, 0, seq![], seq![], seq![])
    } else {
        exists|
            m2: Game,
            m3: Game,
            m4: Game,
            m5: Game,
            m7: Game,
            potion: bool,
            gold: i32,
            potions: Seq<Id>,
            cards: Seq<Card>,
            relics: Seq<Id>,
            r0: Rewards,
        |
            #![trigger potion_chance_rolled(before, m2, content, potion), fight_gold_rolled(m2, m3, gold), fight_potion_drawn(m3, m4, content, potion, potions), reward_cards_rolled(m4, m5, content, standard_base(m4, content), 3, cards), elite_relic_rolled(m5, m7, content, relics), combat_rewards_modified(m7, after, content, r0, result)]
            {
                &&& potion_chance_rolled(before, m2, content, potion)
                &&& fight_gold_rolled(m2, m3, gold)
                &&& fight_potion_drawn(m3, m4, content, potion, potions)
                &&& reward_cards_rolled(m4, m5, content, standard_base(m4, content), 3, cards)
                &&& elite_relic_rolled(m5, m7, content, relics)
                &&& plain_loot(r0, gold + parts_sum(before.reward_gold_parts@), cards, relics, potions)
                &&& combat_rewards_modified(m7, after, content, r0, result)
            }
    }
}

/// Witnesses of `fight_rewards_rolled` after a fight that is not the last boss.
proof fn lemma_fight_rewards(
    before: Game,
    after: Game,
    content: &Content,
    result: Rewards,
    m2: Game,
    m3: Game,
    m4: Game,
    m5: Game,
    m7: Game,
    potion: bool,
    gold: i32,
    potions: Seq<Id>,
    cards: Seq<Card>,
    relics: Seq<Id>,
    r0: Rewards,
)
    requires
        !(before.room == Room::Boss && before.run.act == 3),
        potion_chance_rolled(before, m2, content, potion),
        fight_gold_rolled(m2, m3, gold),
        fight_potion_drawn(m3, m4, content, potion, potions),
        reward_cards_rolled(m4, m5, content, standard_base(m4, content), 3, cards),
        elite_relic_rolled(m5, m7, content, relics),
        plain_loot(r0, gold + parts_sum(before.reward_gold_parts@), cards, relics, potions),
        combat_rewards_modified(m7, after, content, r0, result),
    ensures
        fight_rewards_rolled(before, after, content, result),
{
}

impl Game {
    /// Decides whether the fight offers a potion (see `potion_chance_rolled`).
    fn roll_potion_chance(&mut self, content: &Content) -> (potion: bool)
        requires
            old(self).wf(content),
            i32::MIN + 10 <= old(self).potion_odds <= i32::MAX - 10,
        ensures
            final(self).wf(content),
            potion_chance_rolled(*old(self), *final(self), content, potion),
    {
        let statue = self.has_relic(content, "RELIC.WHITE_BEAST_STATUE");
        let roll = self.rngs.rewards.unit();
        let elite: i64 = if self.room == Room::Elite {
            100
        } else {
            0
        };
        let bar: i64 = (self.potion_odds as i64 * 8 + elite) * 0x0100_0000i64;
        let potion = statue || (roll as i64) * 800 < bar;
        self.potion_odds = if potion {
            self.potion_odds - 10
        } else {
            self.potion_odds + 10
        };
        assert(potion == potion_rolled(*old(self), content, roll));
        potion
    }

    /// Draws the gold of the fight (see `fight_gold_rolled`).
    fn roll_fight_gold(&mut self) -> (gold: i32)
        ensures
            fight_gold_rolled(*old(self), *final(self), gold),
    {
        let (mut min, mut max): (i32, i32) = match self.room {
            Room::Elite => (35, 45),
            Room::Boss => (100, 100),
            _ => (10, 20),
        };
        if self.run.ascension >= 3 {
            min = min * 3 / 4;
            max = max * 3 / 4;
        }
        min + self.rngs.rewards.below((max - min + 1) as u32) as i32
    }

    /// Rolls and pulls the relic of an elite fight (see `elite_relic_rolled`).
    fn roll_elite_relic(&mut self, content: &Content) -> (relics: Vec<Id>)
        requires
            old(self).wf(content),
        ensures
            final(self).wf(content),
            elite_relic_rolled(*old(self), *final(self), content, relics@),
            ids_below(relics@, content.relics@.len() as int),
    {
        let mut relics: Vec<Id> = Vec::new();
        if self.room == Room::Elite {
            let rarity = self.roll_relic_rarity();
            let ghost mid = *self;
            let o = self.pull_relic(content, false, rarity, false, false);
            if let Some(x) = o {
                relics.push(x);
            }
            assert(relics@ =~= opt_ids(o));
            assert(relic_rarity_rolled(*old(self), mid, rarity));
            assert(relic_pulled(mid, *self, content, false, rarity, false, false, o));
        }
        relics
    }

    /// The sum of the gold parts waiting.
    fn gold_parts_sum(&self) -> (sum: i128)
        ensures
            sum == parts_sum(self.reward_gold_parts@),
    {
        let parts = &self.reward_gold_parts;
        let n = parts.len();
        let mut sum: i128 = 0;
        let mut i: usize = 0;
        while i < n
            invariant
                i <= n,
                n == parts@.len(),
                sum == parts_sum(parts@.take(i as int)),
                -(i as int) * 0x8000_0000 <= sum <= (i as int) * 0x8000_0000,
            decreases n - i,
        {
            proof {
                assert(parts@.take(i + 1).drop_last() =~= parts@.take(i as int));
                assert((i as int) * 0x8000_0000 <= 0x1_0000_0000_0000_0000 * 0x8000_0000) by (nonlinear_arith)
                    requires
                        i <= usize::MAX,
                        usize::MAX < 0x1_0000_0000_0000_0000,
                ;
            }
            sum = sum + parts[i] as i128;
            i = i + 1;
        }
        proof {
            assert(parts@.take(parts@.len() as int) =~= parts@);
        }
        sum
    }

    /// Rolls the rewards of the fight just won (see `fight_rewards_rolled`).
    #[verifier::spinoff_prover]
    #[verifier::rlimit(40)]
    pub fn rewards(&mut self, content: &Content) -> (result: Rewards)
        requires
            old(self).wf(content),
            old(self).run.act >= 1,
            i32::MIN + 10 <= old(self).potion_odds <= i32::MAX - 10,
            i32::MIN <= parts_sum(old(self).reward_gold_parts@),
            parts_sum(old(self).reward_gold_parts@) + 100 + 15 * old(self).run.relics@.len() <= i32::MAX,
            100 + 15 * old(self).run.relics@.len() <= i32::MAX,
        ensures
            final(self).wf(content),
            fight_rewards_rolled(*old(self), *final(self), content, result),
            cards_valid(result.cards@, content),
            ids_below(result.relics@, content.relics@.len() as int),
            ids_below(result.potions@, content.potions@.len() as int),
    {
        if self.room == Room::Boss && self.run.act == 3 {
            let mut rewards = Rewards {
                gold: 0,
                cards: Vec::new(),
                card_rewards: Vec::new(),
                relics: Vec::new(),
                potions: Vec::new(),
                removals: 0,
            };
            let ghost r0 = rewards;
            self.modify_combat_rewards(content, &mut rewards);
            assert(combat_rewards_modified(*old(self), *self, content, r0, rewards));
            return rewards;
        }
        let parts = self.gold_parts_sum();
        let pool = self.offer_pool(content);
        let potion = self.roll_potion_chance(content);
        let ghost m2 = *self;
        let gold = self.roll_fight_gold();
        let ghost m3 = *self;
        let potions = if potion {
            self.reward_potions(content, &pool, 1)
        } else {
            Vec::new()
        };
        let ghost m4 = *self;
        proof {
            if potion {
                assert forall|k: int| 0 <= k < potions@.len() implies potion_source(m3, content, #[trigger] potions@[k]) by {
                    assert(pool@.contains(potions@[k]));
                }
                assert(potions_drawn(m3, m4, content, 1, potions@));
            }
            assert(ids_below(potions@, content.potions@.len() as int)) by {
                assert forall|k: int| 0 <= k < potions@.len() implies (#[trigger] potions@[k]) < content.potions@.len() by {
                    assert(pool@.contains(potions@[k]));
                }
            }
        }
        let def = &content.characters[self.run.character as usize];
        assert(def.wf(content));
        let act = &content.acts[self.act as usize];
        assert(act.wf(content));
        let base = if def.cards.len() == 0 {
            &act.cards
        } else {
            &def.cards
        };
        let cards = self.reward_cards(content, base, 3, self.room);
        let ghost m5 = *self;
        let relics = self.roll_elite_relic(content);
        let ghost m7 = *self;
        let ghost cards_v = cards@;
        let ghost relics_v = relics@;
        let ghost potions_v = potions@;
        let mut rewards = Rewards {
            gold: (gold as i128 + parts) as i32,
            cards,
            card_rewards: Vec::new(),
            relics,
            potions,
            removals: 0,
        };
        let ghost r0 = rewards;
        self.modify_combat_rewards(content, &mut rewards);
        proof {
            lemma_fight_rewards(
                *old(self),
                *self,
                content,
                rewards,
                m2,
                m3,
                m4,
                m5,
                m7,
                potion,
                gold,
                potions_v,
                cards_v,
                relics_v,
                r0,
            );
        }
        rewards
    }
}

} // verus!
