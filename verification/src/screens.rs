use vstd::prelude::*;
use crate::content::{Id, Content, ids_below};
use crate::deck::{gold_gain_applied, card_added};
use crate::rewards::{next_reward_rolled, reward_rollable, reward_cards_rolled, standard_base};
use crate::relics::{relic_pulled, relic_rarity_rolled};
use crate::content::CardRarity;
use crate::game::{cards_valid, phase_wf};
use crate::obtain::{relic_obtained, placed, first_empty, needs_act, generated_curses, niche_drawn};
use crate::rooms::rest_heal_done;
use crate::state::{Card, Phase, Rewards, Run, Game};

verus! {

/// The reward screen of `phase` (meaningless for another phase).
pub open spec fn screen(phase: Phase) -> Rewards {
    match phase {
        Phase::Rewards(r) => r,
        _ => arbitrary(),
    }
}

/// `after` is `before` once the gold of its reward screen was taken: the next part when
/// the gold comes in parts, else all of it; nothing when no reward screen is open.
pub open spec fn reward_gold_taken(before: Game, after: Game, content: &Content) -> bool {
    let r = screen(before.phase);
    if !(before.phase is Rewards) {
        after == before
    } else if before.reward_gold_parts@.len() == 0 {
        gold_gain_applied(Game { phase: Phase::Rewards(Rewards { gold: 0, ..r }), ..before }, after, content, r.gold)
    } else {
        let part = before.reward_gold_parts@[0];
        exists|mid: Game|
            {
                &&& #[trigger] gold_gain_applied(mid, after, content, part)
                &&& mid.reward_gold_parts@ == before.reward_gold_parts@.drop_first()
                &&& mid == (Game {
                    phase: Phase::Rewards(Rewards { gold: (r.gold - part) as i32, ..r }),
                    reward_gold_parts: mid.reward_gold_parts,
                    ..before
                })
            }
    }
}

/// `after` is `before` with potion `index` of its reward screen taken: thrown away with
/// the Sozu, waiting for a slot when all are full, else in the first empty slot.
pub open spec fn reward_potion_taken(before: Game, after: Game, content: &Content, index: int) -> bool {
    let r = screen(before.phase);
    let p = r.potions@[index];
    &&& after.phase matches Phase::Rewards(left) && left.potions@ == r.potions@.remove(index) && left == (Rewards {
        potions: left.potions,
        ..r
    })
    &&& if before.spec_has_relic(content, "RELIC.SOZU"@) {
        after == (Game { phase: after.phase, ..before })
    } else if first_empty(before.run.potions@, 0) < 0 {
        after == (Game { phase: after.phase, pending_potion: Some(p), replacing_potion: true, ..before })
    } else {
        &&& after.run.potions@ == placed(before.run.potions@, p)
        &&& after == (Game { phase: after.phase, run: Run { potions: after.run.potions, ..before.run }, ..before })
    }
}

/// `after` is `before` with card `index` of its reward screen taken: the next card
/// reward is rolled into the screen, and the card joins the deck.
pub open spec fn reward_card_taken(before: Game, after: Game, content: &Content, index: int) -> bool {
    exists|mid: Game|
        #[trigger] next_reward_rolled(before, mid, content) && card_added(
            Game { rerolled_cards: false, ..mid },
            after,
            content,
            screen(before.phase).cards@[index],
        )
}

/// `after` is `before` once the cards of its reward screen were rolled again (as after
/// a boss when they were all rare); the reroll is used up.
pub open spec fn cards_rerolled(before: Game, after: Game, content: &Content) -> bool {
    exists|mid: Game, cards: Seq<Card>|
        {
            &&& #[trigger] reward_cards_rolled(before, mid, content, standard_base(before, content), 3, cards)
            &&& after.phase matches Phase::Rewards(f) && f.cards@ == cards && f == (Rewards {
                cards: f.cards,
                ..screen(before.phase)
            })
            &&& after == (Game { phase: after.phase, rerolled_cards: true, ..mid })
        }
}

/// The first index from `k` on at which `s` holds `x`, or -1.
pub open spec fn index_of_from(s: Seq<Id>, x: Id, k: int) -> int
    decreases s.len() - k,
{
    if k < 0 || k >= s.len() {
        -1
    } else if s[k] == x {
        k
    } else {
        index_of_from(s, x, k + 1)
    }
}

/// `offers` without its first copy of `id` (unchanged without one).
pub open spec fn offer_used(offers: Seq<Id>, id: Id) -> Seq<Id> {
    let i = index_of_from(offers, id, 0);
    if i >= 0 {
        offers.remove(i)
    } else {
        offers
    }
}

/// `after` is `before` with relic `index` of its reward screen taken off the screen
/// (`left` is what the screen keeps, `id` the relic), the screen closed for now, and
/// the relic used up among the Toy Box offers (`wax` when it was one).
#[verifier::opaque]
pub open spec fn relic_offer_opened(before: Game, after: Game, index: int, id: Id, left: Rewards, wax: bool) -> bool {
    let r = screen(before.phase);
    &&& before.phase is Rewards
    &&& id == r.relics@[index]
    &&& left.relics@ == r.relics@.remove(index)
    &&& left == (Rewards { relics: left.relics, ..r })
    &&& wax == before.toy_box_offers@.contains(id)
    &&& after.toy_box_offers@ == offer_used(before.toy_box_offers@, id)
    &&& after == (Game { phase: Phase::OnMap, toy_box_offers: after.toy_box_offers, ..before })
}

/// `after` is `before` with the screen `left` back: a Toy Box relic (`wax`) marked as
/// wax at relic index `at`, and the screen open again when `before` is on the map,
/// else waiting behind the phase that the relic opened.
#[verifier::opaque]
pub open spec fn relic_offer_closed(before: Game, after: Game, left: Rewards, wax: bool, at: usize) -> bool {
    &&& after.wax_relics@ == if wax {
        before.wax_relics@.push(at)
    } else {
        before.wax_relics@
    }
    &&& before.phase is OnMap ==> after.phase == Phase::Rewards(left) && after.resume == before.resume
    &&& !(before.phase is OnMap) ==> after.phase == before.phase && after.resume == Some(Phase::Rewards(left))
    &&& after == (Game { wax_relics: after.wax_relics, phase: after.phase, resume: after.resume, ..before })
}

/// `after` is `before` once the curse waiting for the end of a reward screen came: a
/// random generated curse joins the deck (none when there is no such curse).
pub open spec fn waiting_curse_added(before: Game, after: Game, content: &Content) -> bool {
    let curses = generated_curses(content, content.cards@.len() as int);
    let m = Game { pending_curse: false, ..before };
    &&& curses.len() == 0 ==> after == m
    &&& curses.len() > 0 ==> exists|m2: Game, c: Id|
        #![trigger niche_drawn(m, m2), curses.contains(c)]
        {
            &&& niche_drawn(m, m2)
            &&& curses.contains(c)
            &&& card_added(m2, after, content, Card { id: c, upgrades: 0, instance: 0, flags: 0 })
        }
}

/// `after` is `before` with relic `index` of its reward screen taken: the relic is
/// obtained, the screen comes back without it (see `relic_offer_opened` and
/// `relic_offer_closed`), and the waiting curse comes once the relics run out.
pub open spec fn reward_relic_taken(before: Game, after: Game, content: &Content, index: int) -> bool {
    exists|m1: Game, m2: Game, m3: Game, id: Id, left: Rewards, wax: bool|
        #![trigger relic_offer_opened(before, m1, index, id, left, wax), relic_obtained(m1, m2, content, id), relic_offer_closed(m2, m3, left, wax, before.run.relics@.len() as usize)]
        {
            &&& relic_offer_opened(before, m1, index, id, left, wax)
            &&& relic_obtained(m1, m2, content, id)
            &&& relic_offer_closed(m2, m3, left, wax, before.run.relics@.len() as usize)
            &&& left.relics@.len() == 0 && m3.pending_curse ==> waiting_curse_added(m3, after, content)
            &&& !(left.relics@.len() == 0 && m3.pending_curse) ==> after == m3
        }
}

/// Where a rest site leads once an option is used: it stays open with the Miniature
/// Tent, else back to the map.
pub open spec fn rest_exit(g: Game, content: &Content) -> Phase {
    if g.spec_has_relic(content, "RELIC.MINIATURE_TENT"@) {
        Phase::Rest
    } else {
        Phase::OnMap
    }
}

/// `g` with rest option `option` marked as used.
pub open spec fn rest_marked(g: Game, option: u8) -> Game {
    Game { rest_used: g.rest_used | option, ..g }
}

/// `after` is `before` once the dug relic `o`, if any, was obtained.
pub open spec fn dig_obtained(before: Game, after: Game, content: &Content, o: Option<Id>) -> bool {
    match o {
        Some(id) => relic_obtained(before, after, content, id),
        None => after == before,
    }
}

/// `after` is `before` once it dug at a rest site: a rolled relic is pulled from the
/// bags and obtained; the rest site's way out waits behind a choice that the relic
/// opened, and is taken at once otherwise.
pub open spec fn dig_taken(before: Game, after: Game, content: &Content) -> bool {
    let m1 = Game { resume: Some(rest_exit(before, content)), ..rest_marked(before, 64) };
    exists|m2: Game, m3: Game, m4: Game, rarity: usize, o: Option<Id>|
        #![trigger relic_rarity_rolled(m1, m2, rarity), relic_pulled(m2, m3, content, false, rarity, false, false, o), dig_obtained(m3, m4, content, o)]
        {
            &&& relic_rarity_rolled(m1, m2, rarity)
            &&& relic_pulled(m2, m3, content, false, rarity, false, false, o)
            &&& dig_obtained(m3, m4, content, o)
            &&& m4.phase is Rest ==> after == (Game {
                phase: match m4.resume {
                    Some(p) => p,
                    None => Phase::OnMap,
                },
                resume: None,
                ..m4
            })
            &&& !(m4.phase is Rest) ==> after == m4
        }
}

/// `after` is `before` once it rested at a rest site: the rest's offers, if any, come
/// first, then the rest site's way out.
pub open spec fn rest_taken(before: Game, after: Game, content: &Content) -> bool {
    exists|m1: Game, rewards: Rewards|
        {
            &&& #[trigger] rest_heal_done(before, m1, content, rewards)
            &&& rewards.cards@.len() == 0 && rewards.potions@.len() == 0 ==> after == (Game {
                phase: rest_exit(m1, content),
                ..rest_marked(m1, 1)
            })
            &&& !(rewards.cards@.len() == 0 && rewards.potions@.len() == 0) ==> after == (Game {
                resume: Some(rest_exit(m1, content)),
                phase: Phase::Rewards(rewards),
                ..rest_marked(m1, 1)
            })
        }
}

/// The index of the first copy of `id` in `offers`.
fn find_offer(offers: &Vec<Id>, id: Id) -> (index: Option<usize>)
    ensures
        index matches Some(i) ==> i < offers@.len(),
        match index {
            Some(i) => i == index_of_from(offers@, id, 0),
            None => index_of_from(offers@, id, 0) == -1,
        },
{
    let mut i: usize = offers.len();
    let mut found: Option<usize> = None;
    while i > 0
        invariant
            i <= offers@.len(),
            found matches Some(f) ==> f < offers@.len(),
            match found {
                Some(f) => f == index_of_from(offers@, id, i as int),
                None => index_of_from(offers@, id, i as int) == -1,
            },
        decreases i,
    {
        i = i - 1;
        if offers[i] == id {
            found = Some(i);
        }
    }
    found
}

/// `index_of_from` finds `x` exactly when `s` holds it from `k` on.
proof fn lemma_index_of_from(s: Seq<Id>, x: Id, k: int)
    requires
        0 <= k,
    ensures
        index_of_from(s, x, k) >= 0 <==> exists|j: int| k <= j < s.len() && s[j] == x,
        index_of_from(s, x, k) >= 0 ==> k <= index_of_from(s, x, k) < s.len() && s[index_of_from(s, x, k)] == x,
    decreases s.len() - k,
{
    if k < s.len() && s[k] != x {
        lemma_index_of_from(s, x, k + 1);
        if exists|j: int| k <= j < s.len() && s[j] == x {
            let j = choose|j: int| k <= j < s.len() && s[j] == x;
            assert(j != k);
        }
    }
}

impl Game {
    /// Takes the gold of the reward screen (see `reward_gold_taken`).
    pub fn take_reward_gold(&mut self, content: &Content)
        requires
            old(self).wf(content),
            old(self).phase is Rewards && old(self).reward_gold_parts@.len() > 0 ==> i32::MIN <= screen(
                old(self).phase,
            ).gold - old(self).reward_gold_parts@[0] <= i32::MAX,
        ensures
            final(self).wf(content),
            reward_gold_taken(*old(self), *final(self), content),
    {
        let mut phase = Phase::OnMap;
        std::mem::swap(&mut phase, &mut self.phase);
        match phase {
            Phase::Rewards(mut rewards) => {
                let gold = if self.reward_gold_parts.len() == 0 {
                    let all = rewards.gold;
                    rewards.gold = 0;
                    all
                } else {
                    let part = self.reward_gold_parts.remove(0);
                    rewards.gold = rewards.gold - part;
                    part
                };
                self.phase = Phase::Rewards(rewards);
                let ghost mid = *self;
                proof {
                    assert(self.reward_gold_parts@ =~= old(self).reward_gold_parts@.drop_first() || old(
                        self,
                    ).reward_gold_parts@.len() == 0);
                }
                self.gain_gold(content, gold);
                proof {
                    if old(self).reward_gold_parts@.len() > 0 {
                        assert(gold_gain_applied(mid, *self, content, gold));
                    }
                }
            },
            _ => {
                std::mem::swap(&mut phase, &mut self.phase);
            },
        }
    }

    /// Takes potion `index` of the reward screen (see `reward_potion_taken`).
    pub fn take_reward_potion(&mut self, content: &Content, index: usize)
        requires
            old(self).wf(content),
            old(self).phase is Rewards,
            index < screen(old(self).phase).potions@.len(),
        ensures
            final(self).wf(content),
            reward_potion_taken(*old(self), *final(self), content, index as int),
    {
        let sozu = self.has_relic(content, "RELIC.SOZU");
        let mut phase = Phase::OnMap;
        std::mem::swap(&mut phase, &mut self.phase);
        match phase {
            Phase::Rewards(mut rewards) => {
                let potion = rewards.potions.remove(index);
                proof {
                    assert(ids_below(rewards.potions@, content.potions@.len() as int)) by {
                        assert forall|k: int| 0 <= k < rewards.potions@.len() implies (#[trigger] rewards.potions@[k])
                            < content.potions@.len() by {
                            if k < index {
                                assert(rewards.potions@[k] == screen(old(self).phase).potions@[k]);
                            } else {
                                assert(rewards.potions@[k] == screen(old(self).phase).potions@[k + 1]);
                            }
                        }
                    }
                }
                self.phase = Phase::Rewards(rewards);
                if sozu {
                    return;
                }
                match crate::obtain::find_empty(&self.run.potions) {
                    Some(slot) => {
                        self.run.potions.set(slot, Some(potion));
                    },
                    None => {
                        self.pending_potion = Some(potion);
                        self.replacing_potion = true;
                    },
                }
            },
            _ => {
                std::mem::swap(&mut phase, &mut self.phase);
            },
        }
    }

    /// Takes card `index` of the reward screen (see `reward_card_taken`).
    pub fn take_reward_card(&mut self, content: &Content, index: usize)
        requires
            old(self).wf(content),
            old(self).run.act >= 1,
            old(self).phase is Rewards,
            index < screen(old(self).phase).cards@.len(),
            screen(old(self).phase).card_rewards@.len() > 0 ==> reward_rollable(
                *old(self),
                content,
                screen(old(self).phase).card_rewards@[0],
            ),
        ensures
            final(self).wf(content),
            reward_card_taken(*old(self), *final(self), content, index as int),
    {
        let card = match &self.phase {
            Phase::Rewards(rewards) => rewards.cards[index],
            _ => {
                return;
            },
        };
        self.next_card_reward(content);
        let ghost mid = *self;
        self.rerolled_cards = false;
        self.add_card(content, card);
        assert(next_reward_rolled(*old(self), mid, content));
    }

    /// Rolls the cards of the reward screen again (see `cards_rerolled`).
    pub fn reroll_cards(&mut self, content: &Content)
        requires
            old(self).wf(content),
            old(self).run.act >= 1,
            old(self).phase is Rewards,
        ensures
            final(self).wf(content),
            cards_rerolled(*old(self), *final(self), content),
    {
        let mut phase = Phase::OnMap;
        std::mem::swap(&mut phase, &mut self.phase);
        let mut rewards = match phase {
            Phase::Rewards(r) => r,
            _ => {
                return;
            },
        };
        let ghost r0 = rewards;
        let mut rare = rewards.cards.len() > 0;
        let mut k: usize = 0;
        while k < rewards.cards.len()
            invariant
                k <= rewards.cards@.len(),
                rewards == r0,
                content.wf(),
                cards_valid(r0.cards@, content),
                rare == (r0.cards@.len() > 0 && forall|j: int| 0 <= j < k ==> content.cards@[#[trigger] r0.cards@[j].id as int].rarity
                    == CardRarity::Rare),
            decreases rewards.cards@.len() - k,
        {
            if content.cards[rewards.cards[k].id as usize].rarity != CardRarity::Rare {
                rare = false;
            }
            k = k + 1;
        }
        let room = if rare {
            crate::state::Room::Boss
        } else {
            self.room
        };
        let def = &content.characters[self.run.character as usize];
        assert(def.wf(content));
        let act = &content.acts[self.act as usize];
        assert(act.wf(content));
        let base = if def.cards.len() == 0 {
            &act.cards
        } else {
            &def.cards
        };
        let ghost g0 = Game { phase: old(self).phase, ..*self };
        assert(g0 == *old(self));
        let cards = self.reward_cards(content, base, 3, room);
        let ghost mid = Game { phase: old(self).phase, ..*self };
        let ghost rolled = cards@;
        rewards.cards = cards;
        self.phase = Phase::Rewards(rewards);
        self.rerolled_cards = true;
        assert(reward_cards_rolled(*old(self), mid, content, standard_base(*old(self), content), 3, rolled));
    }

    /// Opens the removal of the reward screen: one card to remove, then back to the
    /// screen with one removal fewer.
    pub fn take_reward_removal(&mut self, content: &Content)
        requires
            old(self).wf(content),
            old(self).phase is Rewards,
            screen(old(self).phase).removals > 0,
        ensures
            final(self).wf(content),
            *final(self) == (Game {
                phase: Phase::RemoveCards(1, 0, true),
                resume: Some(
                    Phase::Rewards(
                        Rewards { removals: (screen(old(self).phase).removals - 1) as u8, ..screen(old(self).phase) },
                    ),
                ),
                ..*old(self)
            }),
    {
        let mut phase = Phase::OnMap;
        std::mem::swap(&mut phase, &mut self.phase);
        match phase {
            Phase::Rewards(mut rewards) => {
                rewards.removals = rewards.removals - 1;
                self.resume = Some(Phase::Rewards(rewards));
                self.phase = Phase::RemoveCards(1, 0, true);
            },
            _ => {
                std::mem::swap(&mut phase, &mut self.phase);
            },
        }
    }

    /// Takes relic `index` off the reward screen (see `relic_offer_opened`).
    fn open_relic_offer(&mut self, content: &Content, index: usize) -> (taken: (Id, Rewards, bool))
        requires
            old(self).wf(content),
            old(self).phase is Rewards,
            index < screen(old(self).phase).relics@.len(),
        ensures
            final(self).wf(content),
            relic_offer_opened(*old(self), *final(self), index as int, taken.0, taken.1, taken.2),
            taken.0 < content.relics@.len(),
            phase_wf(Phase::Rewards(taken.1), content),
    {
        reveal(relic_offer_opened);
        let mut phase = Phase::OnMap;
        std::mem::swap(&mut phase, &mut self.phase);
        let mut rewards = match phase {
            Phase::Rewards(r) => r,
            _ => {
                return (
                    0,
                    Rewards {
                        gold: 0,
                        cards: Vec::new(),
                        card_rewards: Vec::new(),
                        relics: Vec::new(),
                        potions: Vec::new(),
                        removals: 0,
                    },
                    false,
                );
            },
        };
        let ghost r0 = rewards;
        let id = rewards.relics.remove(index);
        proof {
            assert(ids_below(rewards.relics@, content.relics@.len() as int)) by {
                assert forall|k: int| 0 <= k < rewards.relics@.len() implies (#[trigger] rewards.relics@[k])
                    < content.relics@.len() by {
                    if k < index {
                        assert(rewards.relics@[k] == r0.relics@[k]);
                    } else {
                        assert(rewards.relics@[k] == r0.relics@[k + 1]);
                    }
                }
            }
            lemma_index_of_from(self.toy_box_offers@, id, 0);
        }
        let wax = match find_offer(&self.toy_box_offers, id) {
            Some(k) => {
                self.toy_box_offers.remove(k);
                true
            },
            None => false,
        };
        (id, rewards, wax)
    }

    /// Brings the screen `left` back after the relic was obtained (see
    /// `relic_offer_closed`).
    fn close_relic_offer(&mut self, content: &Content, left: Rewards, wax: bool, at: usize)
        requires
            old(self).wf(content),
            phase_wf(Phase::Rewards(left), content),
        ensures
            final(self).wf(content),
            relic_offer_closed(*old(self), *final(self), left, wax, at),
    {
        reveal(relic_offer_closed);
        if wax {
            self.wax_relics.push(at);
        }
        let on_map = match self.phase {
            Phase::OnMap => true,
            _ => false,
        };
        if on_map {
            self.phase = Phase::Rewards(left);
        } else {
            self.resume = Some(Phase::Rewards(left));
        }
    }

    /// The curse waiting for the end of a reward screen comes (see `waiting_curse_added`).
    fn add_waiting_curse(&mut self, content: &Content)
        requires
            old(self).wf(content),
        ensures
            final(self).wf(content),
            waiting_curse_added(*old(self), *final(self), content),
    {
        broadcast use vstd::seq_lib::group_to_multiset_ensures;

        self.pending_curse = false;
        let ghost m = *self;
        let curses = self.generated_curse_pool(content);
        let ghost all = generated_curses(content, content.cards@.len() as int);
        proof {
            vstd::seq_lib::to_multiset_len(curses@);
            vstd::seq_lib::to_multiset_len(all);
        }
        if curses.len() > 0 {
            let pick = self.rngs.niche.index(curses.len());
            let ghost m2 = *self;
            let c = curses[pick];
            proof {
                assert(curses@.contains(c));
                assert(curses@.to_multiset().count(c) > 0);
                assert(all.contains(c));
                assert(niche_drawn(m, m2));
            }
            self.add_card(content, Card::of(c, 0));
        }
    }

    /// Takes relic `index` of the reward screen (see `reward_relic_taken`).
    pub fn take_reward_relic(&mut self, content: &Content, index: usize)
        requires
            old(self).wf(content),
            old(self).phase is Rewards,
            index < screen(old(self).phase).relics@.len(),
            needs_act(content.relics@[screen(old(self).phase).relics@[index as int] as int].id@) ==> old(
                self,
            ).run.act >= 1,
        ensures
            final(self).wf(content),
            reward_relic_taken(*old(self), *final(self), content, index as int),
    {
        let at = self.run.relics.len();
        let (id, left, wax) = self.open_relic_offer(content, index);
        let ghost m1 = *self;
        let last = left.relics.len() == 0;
        proof {
            reveal(relic_offer_opened);
        }
        self.obtain_relic(content, id);
        let ghost m2 = *self;
        let ghost kept = left;
        self.close_relic_offer(content, left, wax, at);
        let ghost m3 = *self;
        if last && self.pending_curse {
            self.add_waiting_curse(content);
        }
        assert(relic_offer_opened(*old(self), m1, index as int, id, kept, wax));
        assert(relic_obtained(m1, m2, content, id));
        assert(relic_offer_closed(m2, m3, kept, wax, old(self).run.relics@.len() as usize));
    }

    /// Rests at a rest site (see `rest_taken`).
    pub fn rest(&mut self, content: &Content)
        requires
            old(self).wf(content),
            old(self).run.act >= 1,
        ensures
            final(self).wf(content),
            rest_taken(*old(self), *final(self), content),
    {
        let rewards = self.rest_heal(content);
        let ghost m1 = *self;
        let ghost offered = rewards;
        let destination = self.rest_destination(content, 1);
        if rewards.cards.len() == 0 && rewards.potions.len() == 0 {
            self.phase = destination;
        } else {
            self.resume = Some(destination);
            self.phase = Phase::Rewards(rewards);
        }
        assert(rest_heal_done(*old(self), m1, content, offered));
    }

    /// Smiths card `index` at a rest site: it is upgraded, then the rest site's way out.
    pub fn rest_smith(&mut self, content: &Content, index: usize)
        requires
            old(self).wf(content),
            index < old(self).run.deck@.len(),
        ensures
            final(self).wf(content),
            final(self).run.deck@ == old(self).run.deck@.update(
                index as int,
                Card { upgrades: 1, ..old(self).run.deck@[index as int] },
            ),
            *final(self) == (Game {
                run: Run { deck: final(self).run.deck, ..old(self).run },
                phase: rest_exit(*old(self), content),
                ..rest_marked(*old(self), 2)
            }),
    {
        let mut card = self.run.deck[index];
        card.upgrades = 1;
        self.run.deck.set(index, card);
        proof {
            assert(cards_valid(self.run.deck@, content)) by {
                assert forall|k: int| 0 <= k < self.run.deck@.len() implies (#[trigger] self.run.deck@[k]).id
                    < content.cards@.len() by {
                    assert(self.run.deck@[k].id == old(self).run.deck@[k].id);
                }
            }
            crate::deck::lemma_same_relics(*old(self), *self, content);
        }
        self.phase = self.rest_destination(content, 2);
    }

    /// Lifts at a rest site: one more lift of the Girya, then the rest site's way out.
    pub fn rest_lift(&mut self, content: &Content)
        requires
            old(self).wf(content),
            old(self).girya < u8::MAX,
        ensures
            final(self).wf(content),
            *final(self) == (Game {
                girya: (old(self).girya + 1) as u8,
                phase: rest_exit(*old(self), content),
                ..rest_marked(*old(self), 8)
            }),
    {
        self.girya = self.girya + 1;
        self.phase = self.rest_destination(content, 8);
    }

    /// Kindles at a rest site: five more for the Pumpkin Candle (held at the largest),
    /// then the rest site's way out.
    pub fn rest_kindle(&mut self, content: &Content)
        requires
            old(self).wf(content),
        ensures
            final(self).wf(content),
            *final(self) == (Game {
                pumpkin_candle: if old(self).pumpkin_candle + 5 <= u8::MAX {
                    (old(self).pumpkin_candle + 5) as u8
                } else {
                    u8::MAX
                },
                phase: rest_exit(*old(self), content),
                ..rest_marked(*old(self), 32)
            }),
    {
        self.pumpkin_candle = if self.pumpkin_candle <= u8::MAX - 5 {
            self.pumpkin_candle + 5
        } else {
            u8::MAX
        };
        self.phase = self.rest_destination(content, 32);
    }

    /// Digs at a rest site (see `dig_taken`).
    pub fn rest_dig(&mut self, content: &Content)
        requires
            old(self).wf(content),
            old(self).run.act >= 1,
        ensures
            final(self).wf(content),
            dig_taken(*old(self), *final(self), content),
    {
        let destination = self.rest_destination(content, 64);
        self.resume = Some(destination);
        let ghost m1 = *self;
        let rarity = self.roll_relic_rarity();
        let ghost m2 = *self;
        let o = self.pull_relic(content, false, rarity, false, false);
        let ghost m3 = *self;
        if let Some(id) = o {
            self.obtain_relic(content, id);
        }
        let ghost m4 = *self;
        let resting = match self.phase {
            Phase::Rest => true,
            _ => false,
        };
        if resting {
            let mut waiting: Option<Phase> = None;
            std::mem::swap(&mut waiting, &mut self.resume);
            self.phase = match waiting {
                Some(p) => p,
                None => Phase::OnMap,
            };
        }
        assert(relic_rarity_rolled(m1, m2, rarity));
        assert(relic_pulled(m2, m3, content, false, rarity, false, false, o));
        assert(dig_obtained(m3, m4, content, o));
    }

    /// Cooks at a rest site: two cards to remove, the cooking under way.
    pub fn rest_cook(&mut self, content: &Content)
        requires
            old(self).wf(content),
        ensures
            final(self).wf(content),
            *final(self) == (Game { cooking: true, phase: Phase::RemoveCards(2, 0, true), ..*old(self) }),
    {
        self.cooking = true;
        self.phase = Phase::RemoveCards(2, 0, true);
    }

    /// Hatches at a rest site: the Byrdpip is obtained (when the content has it), then
    /// the rest site's way out.
    pub fn rest_hatch(&mut self, content: &Content)
        requires
            old(self).wf(content),
        ensures
            final(self).wf(content),
            exists|found: Option<Id>, mid: Game|
                #![trigger crate::content::first_named(content.relic_names(), "RELIC.BYRDPIP"@, found), rest_marked(mid, 4)]
                {
                    &&& crate::content::first_named(content.relic_names(), "RELIC.BYRDPIP"@, found)
                    &&& found is None ==> mid == *old(self)
                    &&& found matches Some(id) ==> relic_obtained(*old(self), mid, content, id)
                    &&& *final(self) == (Game { phase: rest_exit(mid, content), ..rest_marked(mid, 4) })
                },
    {
        let found = content.relic_id("RELIC.BYRDPIP");
        if let Some(id) = found {
            proof {
                crate::obtain::lemma_byrdpip_needs_no_act();
            }
            self.obtain_relic(content, id);
        }
        let ghost mid = *self;
        self.phase = self.rest_destination(content, 4);
        assert(crate::content::first_named(content.relic_names(), "RELIC.BYRDPIP"@, found));
        assert(*self == (Game { phase: rest_exit(mid, content), ..rest_marked(mid, 4) }));
    }
}

} // verus!
