use vstd::prelude::*;
use crate::act::act_begun;
use crate::content::{Content, Id, first_named};
use crate::state::{Game, Phase, Room, Rewards, Rngs, Run};
use crate::content::ids_below;
use crate::rng::{next_rng, raw_value};
use crate::expect::{clamp_i16, saturating_add_i16};
use crate::game::{cards_valid, contains_usize};
use crate::rewards::relic_count;

verus! {

/// The name of the act that follows act number `act` after its boss, if any.
pub open spec fn act_after(act: u8) -> Option<Seq<char>> {
    if act == 1 {
        Some("ACT.THE_HIVE"@)
    } else if act == 2 {
        Some("ACT.THE_GLORY"@)
    } else {
        None
    }
}

impl Game {
    /// Leaves the current room: back to the map, or after a boss on to the next act
    /// (the run is won when there is none).
    pub fn leave_room(&mut self, content: &Content)
        requires
            old(self).wf(content),
            !old(self).in_combat(),
        ensures
            final(self).wf(content),
            old(self).room != Room::Boss ==> *final(self) == (Game { phase: Phase::OnMap, ..*old(self) }),
            old(self).room == Room::Boss && act_after(old(self).run.act) is None ==> *final(self) == (Game {
                phase: Phase::Won,
                ..*old(self)
            }),
            old(self).room == Room::Boss && act_after(old(self).run.act) is Some ==> exists|next: Option<Id>|
                {
                    &&& first_named(content.act_names(), act_after(old(self).run.act)->0, next)
                    &&& next matches Some(n) ==> act_begun(*old(self), *final(self), content, n)
                    &&& next is None ==> *final(self) == (Game { phase: Phase::Won, ..*old(self) })
                },
    {
        if self.room == Room::Boss {
            let next = if self.run.act == 1 {
                content.act_id("ACT.THE_HIVE")
            } else if self.run.act == 2 {
                content.act_id("ACT.THE_GLORY")
            } else {
                None
            };
            let ghost before = *self;
            match next {
                Some(n) => {
                    let begun = self.begin_act(content, n);
                    assert(begun is Ok);
                },
                None => {
                    self.phase = Phase::Won;
                },
            }
            proof {
                if act_after(before.run.act) is Some {
                    assert(first_named(content.act_names(), act_after(before.run.act)->0, next));
                    assert(next matches Some(n) ==> act_begun(before, *self, content, n));
                }
            }
        } else {
            self.phase = Phase::OnMap;
        }
    }

    /// Marks the rest option `option` as used and says where the rest site leads: it
    /// stays open with the Miniature Tent, else back to the map.
    pub fn rest_destination(&mut self, content: &Content, option: u8) -> (next: Phase)
        requires
            old(self).wf(content),
        ensures
            final(self).wf(content),
            *final(self) == (Game { rest_used: old(self).rest_used | option, ..*old(self) }),
            next == if old(self).spec_has_relic(content, "RELIC.MINIATURE_TENT"@) {
                Phase::Rest
            } else {
                Phase::OnMap
            },
    {
        let tent = self.has_relic(content, "RELIC.MINIATURE_TENT");
        self.rest_used = self.rest_used | option;
        if tent {
            Phase::Rest
        } else {
            Phase::OnMap
        }
    }
}


/// The hp a rest restores: three tenths of max hp, 15 more with the Regal Pillow.
pub open spec fn rest_amount(g: Game, content: &Content) -> int {
    g.run.max_hp * 3 / 10 + if g.spec_has_relic(content, "RELIC.REGAL_PILLOW"@) { 15int } else { 0 }
}

/// Hp and max hp after resting: healed up to max hp, then five more of both with the
/// Stone Humidifier.
pub open spec fn rested(g: Game, content: &Content) -> (i16, i16) {
    let healed = if g.run.hp + rest_amount(g, content) < g.run.max_hp {
        g.run.hp + rest_amount(g, content)
    } else {
        g.run.max_hp as int
    };
    if g.spec_has_relic(content, "RELIC.STONE_HUMIDIFIER"@) {
        (clamp_i16(healed + 5), clamp_i16(g.run.max_hp + 5))
    } else {
        (healed as i16, g.run.max_hp)
    }
}

/// `after` is `before` once it rested, offering `rewards` (see `Game::rest_heal`).
pub open spec fn rest_heal_done(before: Game, after: Game, content: &Content, rewards: Rewards) -> bool {
    &&& (after.run.hp, after.run.max_hp) == rested(before, content)
    &&& rewards.gold == 0
    &&& rewards.card_rewards@.len() == 0
    &&& rewards.relics@.len() == 0
    &&& rewards.removals == 0
    &&& cards_valid(rewards.cards@, content)
    &&& ids_below(rewards.potions@, content.potions@.len() as int)
    &&& !before.spec_has_relic(content, "RELIC.DREAM_CATCHER"@) ==> rewards.cards@.len() == 0
    &&& rewards.potions@.len() <= 2 * relic_count(before, content, "RELIC.TINY_MAILBOX"@, before.run.relics@.len() as int)
    &&& after == (Game {
        run: Run { hp: after.run.hp, max_hp: after.run.max_hp, ..before.run },
        rngs: Rngs { rewards: after.rngs.rewards, ..before.rngs },
        rarity_offset: after.rarity_offset,
        silver_crucible: after.silver_crucible,
        ..before
    })
}

impl Game {
    /// Rests: heals (see `rested`) and returns what the rest offers: a card reward
    /// from the character's cards with the Dream Catcher, two potions for each Tiny
    /// Mailbox.
    #[verifier::spinoff_prover]
    #[verifier::rlimit(40)]
    pub fn rest_heal(&mut self, content: &Content) -> (rewards: Rewards)
        requires
            old(self).wf(content),
            old(self).run.act >= 1,
        ensures
            final(self).wf(content),
            rest_heal_done(*old(self), *final(self), content, rewards),
    {
        let ghost g0 = *self;
        let pillow = self.has_relic(content, "RELIC.REGAL_PILLOW");
        let humidifier = self.has_relic(content, "RELIC.STONE_HUMIDIFIER");
        let heal: i32 = self.run.max_hp as i32 * 3 / 10 + if pillow {
            15
        } else {
            0
        };
        let healed: i32 = self.run.hp as i32 + heal;
        self.run.hp = if healed < self.run.max_hp as i32 {
            healed as i16
        } else {
            self.run.max_hp
        };
        if humidifier {
            self.run.max_hp = saturating_add_i16(self.run.max_hp, 5);
            self.run.hp = saturating_add_i16(self.run.hp, 5);
        }
        let ghost g1 = *self;
        proof {
            crate::deck::lemma_same_relics(g0, g1, content);
            assert((g1.run.hp, g1.run.max_hp) == rested(g0, content));
        }
        let mut rewards = Rewards::empty();
        let relics = self.run.relics.clone();
        let mut index: usize = 0;
        while index < relics.len()
            invariant
                index <= relics@.len(),
                relics@ == g0.run.relics@,
                self.wf(content),
                self.run.act >= 1,
                (self.run.hp, self.run.max_hp) == rested(g0, content),
                rewards.gold == 0,
                rewards.card_rewards@.len() == 0,
                rewards.relics@.len() == 0,
                rewards.removals == 0,
                cards_valid(rewards.cards@, content),
                ids_below(rewards.potions@, content.potions@.len() as int),
                rewards.cards@.len() > 0 ==> exists|i: int| 0 <= i < index && !g0.melted_relics@.contains(i as usize)
                    && content.relics@[g0.run.relics@[i] as int].id@ == "RELIC.DREAM_CATCHER"@,
                rewards.potions@.len() <= 2 * relic_count(g0, content, "RELIC.TINY_MAILBOX"@, index as int),
                *self == (Game {
                    run: Run { hp: self.run.hp, max_hp: self.run.max_hp, ..g0.run },
                    rngs: Rngs { rewards: self.rngs.rewards, ..g0.rngs },
                    rarity_offset: self.rarity_offset,
                    silver_crucible: self.silver_crucible,
                    ..g0
                }),
            decreases relics@.len() - index,
        {
            if !contains_usize(&self.melted_relics, index) {
                let name = &content.relics[relics[index] as usize].id;
                if crate::content::same_name(name, "RELIC.DREAM_CATCHER") {
                    let character = &content.characters[self.run.character as usize];
                    assert(character.wf(content));
                    rewards.cards = self.reward_cards(content, &character.cards, 3, Room::Combat);
                } else if crate::content::same_name(name, "RELIC.TINY_MAILBOX") {
                    let pool = self.potion_pool(content);
                    let mut first = self.reward_potions(content, &pool, 1);
                    let mut second = self.reward_potions(content, &pool, 1);
                    let ghost before = rewards.potions@;
                    rewards.potions.append(&mut first);
                    rewards.potions.append(&mut second);
                    proof {
                        assert forall|k: int| 0 <= k < rewards.potions@.len() implies (#[trigger] rewards.potions@[k])
                            < content.potions@.len() by {
                            if k >= before.len() {
                                let p = rewards.potions@[k];
                                assert(pool@.contains(p));
                            }
                        }
                    }
                }
            }
            index = index + 1;
        }
        proof {
            crate::rewards::lemma_relic_count(g0, content, "RELIC.TINY_MAILBOX"@, g0.run.relics@.len() as int);
        }
        rewards
    }
}


/// The ancients that may greet act `act`, with their weights (`darv_seen`: Darv was
/// met already).
pub open spec fn ancient_table(act: u8, darv_seen: bool) -> Seq<(Seq<char>, u32)> {
    if act == 1 {
        seq![("EVENT.NEOW"@, 1u32)]
    } else if act == 2 {
        seq![("EVENT.OROBAS"@, 7u32), ("EVENT.PAEL"@, 7u32), ("EVENT.TEZCATARA"@, 7u32), ("EVENT.DARV"@, 3u32)]
    } else if act == 3 && darv_seen {
        seq![("EVENT.NONUPEIPE"@, 1u32), ("EVENT.TANX"@, 1u32), ("EVENT.VAKUU"@, 1u32)]
    } else if act == 3 {
        seq![("EVENT.NONUPEIPE"@, 13u32), ("EVENT.TANX"@, 13u32), ("EVENT.VAKUU"@, 13u32), ("EVENT.DARV"@, 3u32)]
    } else {
        seq![]
    }
}

/// The sum of the weights of `table` from entry `k` on.
pub open spec fn weight_from(table: Seq<(Seq<char>, u32)>, k: int) -> int
    decreases table.len() - k,
{
    if k < 0 || k >= table.len() {
        0
    } else {
        table[k].1 + weight_from(table, k + 1)
    }
}

/// The first event named `name`, if any.
pub open spec fn named_event(content: &Content, name: Seq<char>) -> Option<Id> {
    if exists|i: Id| first_named(content.event_names(), name, Some(i)) {
        Some(choose|i: Id| first_named(content.event_names(), name, Some(i)))
    } else {
        None
    }
}

/// The event that `roll` picks from `table` (from entry `k` on): the entry whose
/// weight band holds the roll; when no event has that entry's name, the roll moves on
/// to the next entry unchanged.
pub open spec fn ancient_pick(content: &Content, table: Seq<(Seq<char>, u32)>, roll: int, k: int) -> Option<Id>
    decreases table.len() - k,
{
    if k < 0 || k >= table.len() {
        None
    } else if roll < table[k].1 {
        match named_event(content, table[k].0) {
            Some(id) => Some(id),
            None => ancient_pick(content, table, roll, k + 1),
        }
    } else {
        ancient_pick(content, table, roll - table[k].1, k + 1)
    }
}

/// `first_named` pins down one answer, the one `named_event` gives.
pub proof fn lemma_named_event(content: &Content, name: Seq<char>, id: Option<Id>)
    requires
        first_named(content.event_names(), name, id),
    ensures
        id == named_event(content, name),
{
    let names = content.event_names();
    match id {
        Some(i) => {
            let j = choose|j: Id| first_named(names, name, Some(j));
            if j < i {
                assert(names[j as int] == name);
            } else if i < j {
                assert(names[i as int] == name);
            }
        },
        None => {
            if exists|j: Id| first_named(names, name, Some(j)) {
                let j = choose|j: Id| first_named(names, name, Some(j));
                assert(names[j as int] == name);
            }
        },
    }
}

impl Game {
    /// The ancient that greets the current act, drawn by weight with the up-front
    /// stream; none without a Darv in the content or outside the three acts.
    pub fn next_ancient(&mut self, content: &Content) -> (ancient: Option<Id>)
        requires
            old(self).wf(content),
        ensures
            final(self).wf(content),
            named_event(content, "EVENT.DARV"@) is None ==> ancient is None && *final(self) == *old(self),
            named_event(content, "EVENT.DARV"@) matches Some(darv) ==> {
                let table = ancient_table(old(self).run.act, old(self).visited_events@.contains(darv));
                &&& table.len() == 0 ==> ancient is None && *final(self) == *old(self)
                &&& table.len() > 0 ==> ancient == ancient_pick(
                    content,
                    table,
                    (raw_value(old(self).rngs.up_front) % (weight_from(table, 0) as u64)) as int,
                    0,
                ) && final(self).rngs == (Rngs { up_front: next_rng(old(self).rngs.up_front), ..old(self).rngs })
            },
            *final(self) == (Game { rngs: final(self).rngs, ..*old(self) }),
    {
        let darv = match content.event_id("EVENT.DARV") {
            Some(d) => d,
            None => {
                proof {
                    lemma_named_event(content, "EVENT.DARV"@, None);
                }
                return None;
            },
        };
        proof {
            lemma_named_event(content, "EVENT.DARV"@, Some(darv));
        }
        let seen = crate::game::contains_id(&self.visited_events, darv);
        let choices: Vec<(&str, u32)> = if self.run.act == 1 {
            vec![("EVENT.NEOW", 1)]
        } else if self.run.act == 2 {
            vec![("EVENT.OROBAS", 7), ("EVENT.PAEL", 7), ("EVENT.TEZCATARA", 7), ("EVENT.DARV", 3)]
        } else if self.run.act == 3 && seen {
            vec![("EVENT.NONUPEIPE", 1), ("EVENT.TANX", 1), ("EVENT.VAKUU", 1)]
        } else if self.run.act == 3 {
            vec![("EVENT.NONUPEIPE", 13), ("EVENT.TANX", 13), ("EVENT.VAKUU", 13), ("EVENT.DARV", 3)]
        } else {
            return None;
        };
        let ghost table = ancient_table(self.run.act, seen);
        assert(choices@.len() == table.len());
        assert(forall|k: int| 0 <= k < table.len() ==> (#[trigger] choices@[k]).0@ == table[k].0 && choices@[k].1 == table[k].1);
        let mut total: u32 = 0;
        let mut k: usize = choices.len();
        while k > 0
            invariant
                k <= choices@.len(),
                choices@.len() == table.len(),
                table.len() <= 4,
                forall|j: int| 0 <= j < table.len() ==> (#[trigger] choices@[j]).1 == table[j].1 && table[j].1 <= 13,
                total == weight_from(table, k as int),
                total <= 13 * (table.len() - k),
                forall|j: int| 0 <= j < table.len() ==> table[j].1 >= 1,
                k < table.len() ==> total >= 1,
            decreases k,
        {
            k = k - 1;
            total = total + choices[k].1;
        }
        let roll = self.rngs.up_front.below(total);
        let mut r: u32 = roll;
        let mut k: usize = 0;
        while k < choices.len()
            invariant
                k <= choices@.len(),
                choices@.len() == table.len(),
                forall|j: int| 0 <= j < table.len() ==> (#[trigger] choices@[j]).0@ == table[j].0 && choices@[j].1 == table[j].1,
                content.wf(),
                self.wf(content),
                *self == (Game { rngs: self.rngs, ..*old(self) }),
                named_event(content, "EVENT.DARV"@) == Some(darv),
                table == ancient_table(old(self).run.act, old(self).visited_events@.contains(darv)),
                0 <= roll < weight_from(table, 0),
                roll as int == (raw_value(old(self).rngs.up_front) % (weight_from(table, 0) as u64)) as int,
                self.rngs == (Rngs { up_front: next_rng(old(self).rngs.up_front), ..old(self).rngs }),
                ancient_pick(content, table, roll as int, 0) == ancient_pick(content, table, r as int, k as int),
            decreases choices@.len() - k,
        {
            let (name, weight) = choices[k];
            if r < weight {
                match content.event_id(name) {
                    Some(id) => {
                        proof {
                            lemma_named_event(content, table[k as int].0, Some(id));
                        }
                        return Some(id);
                    },
                    None => {
                        proof {
                            lemma_named_event(content, table[k as int].0, None);
                        }
                    },
                }
            } else {
                r = r - weight;
            }
            k = k + 1;
        }
        None
    }
}

impl Game {
    /// A relic of `pool` for an ancient's offer, drawn with the event's stream.
    pub fn ancient_relic(&mut self, pool: &Vec<Id>) -> (relic: Id)
        requires
            old(self).event_rng is Some,
            pool@.len() > 0,
        ensures
            pool@.contains(relic),
            final(self).event_rng is Some,
            *final(self) == (Game { event_rng: final(self).event_rng, ..*old(self) }),
    {
        let mut rng = match self.event_rng {
            Some(r) => r,
            None => {
                return pool[0];
            },
        };
        let index = rng.index(pool.len());
        self.event_rng = Some(rng);
        assert(pool@[index as int] == pool[index as int]);
        pool[index]
    }
}

} // verus!
