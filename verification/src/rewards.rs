use vstd::prelude::*;
use crate::content::{Content, Id, CardRarity, PotionRarity, ids_below};
use crate::rng::{UNIT, Rng, advance_n, raw_value};
use crate::state::{Card, CardReward, Game, Phase, Room, Rngs, Run, Rewards};
use crate::content::{same_name, CardType};
use crate::game::contains_usize;
use crate::expect::{clamp_i16, saturating_add_i16};
use crate::game::cards_valid;
use crate::piles::bytes_less_from;

verus! {

/// The rarity that a roll of `roll / UNIT` gives when the rare chance is
/// `rare_chance / 10000` and the uncommon chance `uncommon / 10000`.
pub open spec fn rolled_rarity(roll: int, rare_chance: int, uncommon: int) -> CardRarity {
    if roll * 10000 < rare_chance * UNIT {
        CardRarity::Rare
    } else if roll * 10000 < (rare_chance + uncommon) * UNIT {
        CardRarity::Uncommon
    } else {
        CardRarity::Common
    }
}

/// The rarity of a card reward for a roll of `roll / UNIT` (see `rolled_rarity`).
pub fn reward_rarity(roll: u32, rare_chance: i32, uncommon: i32) -> (rarity: CardRarity)
    requires
        roll < UNIT,
        -100_000 <= rare_chance <= 100_000,
        0 <= uncommon <= 100_000,
    ensures
        rarity == rolled_rarity(roll as int, rare_chance as int, uncommon as int),
{
    let scaled: i64 = roll as i64 * 10000;
    if scaled < rare_chance as i64 * UNIT as i64 {
        CardRarity::Rare
    } else if scaled < (rare_chance as i64 + uncommon as i64) * UNIT as i64 {
        CardRarity::Uncommon
    } else {
        CardRarity::Common
    }
}

/// Whether a reward card found in act `act` comes upgraded for a roll of
/// `roll / UNIT`: at most a quarter per act past the first (an eighth from
/// ascension 7).
pub open spec fn rolled_upgrade(roll: int, act: u8, ascension: u8) -> bool {
    if ascension >= 7 {
        roll * 8 <= (act - 1) * UNIT
    } else {
        roll * 4 <= (act - 1) * UNIT
    }
}

/// Whether a reward card comes upgraded (see `rolled_upgrade`).
pub fn reward_upgrade(roll: u32, act: u8, ascension: u8) -> (upgrade: bool)
    requires
        roll < UNIT,
        act >= 1,
    ensures
        upgrade == rolled_upgrade(roll as int, act, ascension),
{
    let past: u64 = (act - 1) as u64;
    assert(past <= 255);
    let steps: u64 = past * 0x0100_0000;
    if ascension >= 7 {
        roll as u64 * 8 <= steps
    } else {
        roll as u64 * 4 <= steps
    }
}

/// Whether some card of `cards` is `id`.
pub open spec fn has_id(cards: Seq<Card>, id: Id) -> bool {
    exists|k: int| 0 <= k < cards.len() && (#[trigger] cards[k]).id == id
}

/// A rarity that card rewards offer.
pub open spec fn rewardable(rarity: CardRarity) -> bool {
    rarity == CardRarity::Common || rarity == CardRarity::Uncommon || rarity == CardRarity::Rare
}

/// The ids among the first `n` of `pool` with rarity `rarity` that `chosen` does not
/// hold yet, in order.
pub open spec fn unchosen(content: &Content, pool: Seq<Id>, rarity: CardRarity, chosen: Seq<Card>, n: int) -> Seq<Id>
    decreases n,
{
    if n <= 0 {
        seq![]
    } else if content.cards@[pool[n - 1] as int].rarity == rarity && !has_id(chosen, pool[n - 1]) {
        unchosen(content, pool, rarity, chosen, n - 1).push(pool[n - 1])
    } else {
        unchosen(content, pool, rarity, chosen, n - 1)
    }
}

/// The rarities a reward card searches, in order, when `rarity` was rolled.
pub open spec fn search_order(rarity: CardRarity) -> Seq<CardRarity> {
    match rarity {
        CardRarity::Common => seq![CardRarity::Common, CardRarity::Uncommon, CardRarity::Rare],
        CardRarity::Uncommon => seq![CardRarity::Uncommon, CardRarity::Rare, CardRarity::Common],
        _ => seq![CardRarity::Rare, CardRarity::Common, CardRarity::Uncommon],
    }
}

/// The cards a reward card picks from when `rarity` was rolled and `chosen` are taken:
/// those not taken of the first rarity in the search order that has any.
pub open spec fn reward_options(content: &Content, pool: Seq<Id>, chosen: Seq<Card>, rarity: CardRarity) -> Seq<Id> {
    let order = search_order(rarity);
    let first = unchosen(content, pool, order[0], chosen, pool.len() as int);
    let second = unchosen(content, pool, order[1], chosen, pool.len() as int);
    if first.len() > 0 {
        first
    } else if second.len() > 0 {
        second
    } else {
        unchosen(content, pool, order[2], chosen, pool.len() as int)
    }
}

/// The ids of `pool` with rarity `rarity` that `chosen` does not hold yet.
fn unchosen_of_rarity(content: &Content, pool: &Vec<Id>, rarity: CardRarity, chosen: &Vec<Card>) -> (found: Vec<Id>)
    requires
        ids_below(pool@, content.cards@.len() as int),
    ensures
        found@.len() <= pool@.len(),
        forall|k: int| 0 <= k < found@.len() ==> {
            let id = #[trigger] found@[k];
            &&& pool@.contains(id)
            &&& content.cards@[id as int].rarity == rarity
            &&& !has_id(chosen@, id)
        },
        forall|i: int| 0 <= i < pool@.len() && content.cards@[pool@[i] as int].rarity == rarity
            && !has_id(chosen@, #[trigger] pool@[i]) ==> found@.contains(pool@[i]),
        found@ == unchosen(content, pool@, rarity, chosen@, pool@.len() as int),
{
    let mut found: Vec<Id> = Vec::new();
    let mut i: usize = 0;
    while i < pool.len()
        invariant
            i <= pool@.len(),
            ids_below(pool@, content.cards@.len() as int),
            found@.len() <= i,
            forall|k: int| 0 <= k < found@.len() ==> {
                let id = #[trigger] found@[k];
                &&& pool@.contains(id)
                &&& content.cards@[id as int].rarity == rarity
                &&& !has_id(chosen@, id)
            },
            forall|j: int| 0 <= j < i && content.cards@[pool@[j] as int].rarity == rarity
                && !has_id(chosen@, #[trigger] pool@[j]) ==> found@.contains(pool@[j]),
            found@ == unchosen(content, pool@, rarity, chosen@, i as int),
        decreases pool@.len() - i,
    {
        let id = pool[i];
        if content.cards[id as usize].rarity == rarity {
            let mut taken = false;
            let mut k: usize = 0;
            while k < chosen.len()
                invariant
                    k <= chosen@.len(),
                    taken == exists|m: int| 0 <= m < k && (#[trigger] chosen@[m]).id == id,
                decreases chosen@.len() - k,
            {
                if chosen[k].id == id {
                    taken = true;
                }
                k = k + 1;
            }
            assert(taken == has_id(chosen@, id));
            let ghost before = found@;
            if !taken {
                found.push(id);
                proof {
                    assert(found@[found@.len() - 1] == id);
                    assert forall|j: int| 0 <= j < i && content.cards@[pool@[j] as int].rarity == rarity
                        && !has_id(chosen@, #[trigger] pool@[j]) implies found@.contains(pool@[j]) by {
                        assert(before.contains(pool@[j]));
                        let m = choose|m: int| 0 <= m < before.len() && before[m] == pool@[j];
                        assert(found@[m] == pool@[j]);
                    }
                }
            }
        }
        proof {
            assert forall|j: int| 0 <= j < i + 1 && content.cards@[pool@[j] as int].rarity == rarity
                && !has_id(chosen@, #[trigger] pool@[j]) implies found@.contains(pool@[j]) by {
                if j == i {
                    assert(found@[found@.len() - 1] == id);
                }
            }
        }
        i = i + 1;
    }
    found
}

/// `after` is `before` once `count` distinct rewardable cards of `pool` were rolled into
/// `cards` (all of them when fewer; see `Game::card_rewards`).
pub open spec fn cards_rolled(before: Game, after: Game, content: &Content, pool: Seq<Id>, count: usize, cards: Seq<Card>) -> bool {
    &&& cards.len() <= count
    &&& forall|k: int| 0 <= k < cards.len() ==> {
        let c = #[trigger] cards[k];
        &&& pool.contains(c.id)
        &&& rewardable(content.cards@[c.id as int].rarity)
        &&& c.upgrades <= 1
        &&& c.instance == 0
        &&& c.flags == 0
    }
    &&& forall|a: int, b: int| 0 <= a < b < cards.len() ==> cards[a].id != cards[b].id
    &&& cards.len() < count ==> forall|i: int| 0 <= i < pool.len() && rewardable(
        content.cards@[pool[i] as int].rarity,
    ) ==> has_id(cards, #[trigger] pool[i])
    &&& after == (Game {
        rngs: Rngs { rewards: after.rngs.rewards, ..before.rngs },
        rarity_offset: after.rarity_offset,
        ..before
    })
}

/// How far the rarity offset moves after a roll that is not rare: 100, or 50 from
/// ascension 7.
pub open spec fn offset_step(ascension: u8) -> i32 {
    if ascension >= 7 { 50 } else { 100 }
}

/// The rarity offset after the rarities `rolled`, from `start`: a rare resets it to
/// -500, any other rarity raises it by `step`, up to 4000.
pub open spec fn offset_after(start: i32, rolled: Seq<CardRarity>, step: i32) -> i32
    decreases rolled.len(),
{
    if rolled.len() == 0 {
        start
    } else {
        let before = offset_after(start, rolled.drop_last(), step);
        if rolled.last() == CardRarity::Rare {
            -500i32
        } else if before + step < 4000 {
            (before + step) as i32
        } else {
            4000
        }
    }
}

/// Whether `pool` holds a card that rewards can offer.
pub open spec fn pool_rewardable(content: &Content, pool: Seq<Id>) -> bool {
    exists|i: int| 0 <= i < pool.len() && rewardable(content.cards@[#[trigger] pool[i] as int].rarity)
}

/// The rare chance, the uncommon chance (both over 10000) and whether the rarity offset
/// counts, for the card rewards of a room.
pub open spec fn reward_chances(room: Room, ascension: u8) -> (int, int, bool) {
    match room {
        Room::Elite => (if ascension >= 7 { 500int } else { 1000 }, 4000int, true),
        Room::Boss => (10_000, 0, false),
        _ => (if ascension >= 7 { 149int } else { 300 }, 3700int, true),
    }
}

/// The roll (over `UNIT`) of draw number `n` of the stream `r`.
pub open spec fn roll_at(r: Rng, n: int) -> int {
    (raw_value(advance_n(r, n as nat)) % (UNIT as u64)) as int
}

/// The rarity of the `k`-th card reward roll: its roll is the first of the three draws of
/// that card, against the room's chances moved by the offset that the rarities before it
/// left.
pub open spec fn rarity_at(r: Rng, start: i32, room: Room, ascension: u8, rolled: Seq<CardRarity>, k: int) -> CardRarity {
    let (rare, uncommon, offset) = reward_chances(room, ascension);
    let moved = if offset { offset_after(start, rolled.take(k), offset_step(ascension)) as int } else { 0 };
    rolled_rarity(roll_at(r, 3 * k), rare + moved, uncommon)
}

/// The rarities `rolled` and the upgrades of `cards` are those that the reward stream,
/// from `r`, gives: each card draws its rarity, then its pick, then its upgrade roll, and
/// a card that is not rare comes upgraded when that roll says so (see `rolled_upgrade`).
#[verifier::opaque]
pub open spec fn reward_rolls_drawn(
    r: Rng,
    start: i32,
    room: Room,
    act: u8,
    ascension: u8,
    rolled: Seq<CardRarity>,
    cards: Seq<Card>,
) -> bool {
    &&& forall|k: int| 0 <= k < rolled.len() ==> #[trigger] rolled[k] == rarity_at(r, start, room, ascension, rolled, k)
    &&& forall|k: int| 0 <= k < cards.len() ==> (#[trigger] cards[k]).upgrades == if rolled[k] != CardRarity::Rare
        && rolled_upgrade(roll_at(r, 3 * k + 2), act, ascension) {
        1u8
    } else {
        0u8
    }
}

/// The rolls of the first `n` cards, one more rarity rolled from the stream.
proof fn lemma_rarity_drawn(
    r: Rng,
    start: i32,
    room: Room,
    act: u8,
    ascension: u8,
    rolled: Seq<CardRarity>,
    cards: Seq<Card>,
    x: CardRarity,
)
    requires
        reward_rolls_drawn(r, start, room, act, ascension, rolled, cards),
        cards.len() <= rolled.len(),
        x == rarity_at(r, start, room, ascension, rolled.push(x), rolled.len() as int),
    ensures
        reward_rolls_drawn(r, start, room, act, ascension, rolled.push(x), cards),
{
    reveal(reward_rolls_drawn);
    let longer = rolled.push(x);
    assert forall|k: int| 0 <= k < longer.len() implies #[trigger] longer[k] == rarity_at(
        r,
        start,
        room,
        ascension,
        longer,
        k,
    ) by {
        if k < rolled.len() {
            assert(longer.take(k) =~= rolled.take(k));
            assert(longer[k] == rolled[k]);
        }
    }
    assert forall|k: int| 0 <= k < cards.len() implies (#[trigger] cards[k]).upgrades == if longer[k]
        != CardRarity::Rare && rolled_upgrade(roll_at(r, 3 * k + 2), act, ascension) {
        1u8
    } else {
        0u8
    } by {
        assert(longer[k] == rolled[k]);
    }
}

/// The rolls of the cards, one more card taken with the upgrade its roll gives.
proof fn lemma_card_drawn(
    r: Rng,
    start: i32,
    room: Room,
    act: u8,
    ascension: u8,
    rolled: Seq<CardRarity>,
    cards: Seq<Card>,
    c: Card,
)
    requires
        reward_rolls_drawn(r, start, room, act, ascension, rolled, cards),
        cards.len() < rolled.len(),
        c.upgrades == if rolled[cards.len() as int] != CardRarity::Rare && rolled_upgrade(
            roll_at(r, 3 * cards.len() as int + 2),
            act,
            ascension,
        ) {
            1u8
        } else {
            0u8
        },
    ensures
        reward_rolls_drawn(r, start, room, act, ascension, rolled, cards.push(c)),
{
    reveal(reward_rolls_drawn);
    let longer = cards.push(c);
    assert forall|k: int| 0 <= k < longer.len() implies (#[trigger] longer[k]).upgrades == if rolled[k]
        != CardRarity::Rare && rolled_upgrade(roll_at(r, 3 * k + 2), act, ascension) {
        1u8
    } else {
        0u8
    } by {
        if k < cards.len() {
            assert(longer[k] == cards[k]);
        }
    }
}

/// The card picked for the `k`-th reward card: among its options (see
/// `reward_options`), by the second of its three draws.
pub open spec fn reward_pick(r: Rng, content: &Content, pool: Seq<Id>, rolled: Seq<CardRarity>, cards: Seq<Card>, k: int) -> Id {
    let options = reward_options(content, pool, cards.take(k), rolled[k]);
    options[(raw_value(advance_n(r, (3 * k + 1) as nat)) % (options.len() as u64)) as int]
}

/// Each card of `cards` is the one its draws pick (see `reward_pick`).
#[verifier::opaque]
pub open spec fn reward_picks_drawn(r: Rng, content: &Content, pool: Seq<Id>, rolled: Seq<CardRarity>, cards: Seq<Card>) -> bool {
    forall|k: int| 0 <= k < cards.len() ==> (#[trigger] cards[k]).id == reward_pick(r, content, pool, rolled, cards, k)
}

/// The picks so far stay when one more rarity is rolled.
proof fn lemma_picks_rolled(r: Rng, content: &Content, pool: Seq<Id>, rolled: Seq<CardRarity>, cards: Seq<Card>, x: CardRarity)
    requires
        reward_picks_drawn(r, content, pool, rolled, cards),
        cards.len() <= rolled.len(),
    ensures
        reward_picks_drawn(r, content, pool, rolled.push(x), cards),
{
    reveal(reward_picks_drawn);
    assert forall|k: int| 0 <= k < cards.len() implies (#[trigger] cards[k]).id == reward_pick(
        r,
        content,
        pool,
        rolled.push(x),
        cards,
        k,
    ) by {
        assert(rolled.push(x)[k] == rolled[k]);
        assert(reward_pick(r, content, pool, rolled, cards, k) == reward_pick(r, content, pool, rolled.push(x), cards, k));
    }
}

/// The picks so far stay when one more card is picked by its draws.
proof fn lemma_card_picked(r: Rng, content: &Content, pool: Seq<Id>, rolled: Seq<CardRarity>, cards: Seq<Card>, c: Card)
    requires
        reward_picks_drawn(r, content, pool, rolled, cards),
        cards.len() < rolled.len(),
        c.id == reward_pick(r, content, pool, rolled, cards.push(c), cards.len() as int),
    ensures
        reward_picks_drawn(r, content, pool, rolled, cards.push(c)),
{
    reveal(reward_picks_drawn);
    let longer = cards.push(c);
    assert forall|k: int| 0 <= k < longer.len() implies (#[trigger] longer[k]).id == reward_pick(
        r,
        content,
        pool,
        rolled,
        longer,
        k,
    ) by {
        if k < cards.len() {
            assert(longer[k] == cards[k]);
            assert(longer.take(k) =~= cards.take(k));
        }
    }
}

impl Game {
    /// Rolls up to `count` distinct reward cards from `pool`: each roll picks a rarity
    /// (moving the rarity offset), takes the first rarity in its search order that has
    /// cards left, and picks one of them, upgraded by a second roll unless a rare was
    /// rolled. Stops early when the pool runs out.
    #[verifier::spinoff_prover]
    #[verifier::rlimit(100)]
    pub fn card_rewards(&mut self, content: &Content, pool: &Vec<Id>, count: usize, room: Room) -> (cards: Vec<Card>)
        requires
            old(self).wf(content),
            ids_below(pool@, content.cards@.len() as int),
            count > 0 && pool_rewardable(content, pool@) ==> old(self).run.act >= 1,
        ensures
            final(self).wf(content),
            cards_rolled(*old(self), *final(self), content, pool@, count, cards@),
            exists|rolled: Seq<CardRarity>| {
                &&& rolled.len() == if cards@.len() < count { cards@.len() + 1 } else { cards@.len() + 0 }
                &&& #[trigger] offset_after(old(self).rarity_offset, rolled, offset_step(old(self).run.ascension))
                    == final(self).rarity_offset
                &&& forall|k: int| 0 <= k < cards@.len() && rolled[k] == CardRarity::Rare ==> #[trigger] cards@[k].upgrades == 0
                &&& reward_rolls_drawn(
                    old(self).rngs.rewards,
                    old(self).rarity_offset,
                    room,
                    old(self).run.act,
                    old(self).run.ascension,
                    rolled,
                    cards@,
                )
                &&& final(self).rngs.rewards == advance_n(
                    old(self).rngs.rewards,
                    (3 * cards@.len() + (rolled.len() - cards@.len())) as nat,
                )
                &&& reward_picks_drawn(old(self).rngs.rewards, content, pool@, rolled, cards@)
            },
    {
        let ghost mut rolled: Seq<CardRarity> = Seq::empty();
        let (rare, uncommon, offset): (i32, i32, bool) = match room {
            Room::Elite => (if self.run.ascension >= 7 { 500 } else { 1000 }, 4000, true),
            Room::Boss => (10_000, 0, false),
            _ => (if self.run.ascension >= 7 { 149 } else { 300 }, 3700, true),
        };
        let mut chosen: Vec<Card> = Vec::new();
        let mut n: usize = 0;
        assert(reward_rolls_drawn(
            old(self).rngs.rewards,
            old(self).rarity_offset,
            room,
            old(self).run.act,
            old(self).run.ascension,
            rolled,
            chosen@,
        )) by {
            reveal(reward_rolls_drawn);
        }
        assert(reward_picks_drawn(old(self).rngs.rewards, content, pool@, rolled, chosen@)) by {
            reveal(reward_picks_drawn);
        }
        while n < count
            invariant_except_break
                n <= count,
                chosen@.len() == n,
                rolled.len() == chosen@.len(),
                self.rngs.rewards == advance_n(old(self).rngs.rewards, (3 * n) as nat),
            invariant
                (rare as int, uncommon as int, offset) == reward_chances(room, old(self).run.ascension),
                reward_picks_drawn(old(self).rngs.rewards, content, pool@, rolled, chosen@),
                reward_rolls_drawn(
                    old(self).rngs.rewards,
                    old(self).rarity_offset,
                    room,
                    old(self).run.act,
                    old(self).run.ascension,
                    rolled,
                    chosen@,
                ),
                self.wf(content),
                count > 0 && pool_rewardable(content, pool@) ==> old(self).run.act >= 1,
                self.run == old(self).run,
                rolled.len() <= chosen@.len() + 1,
                offset_after(old(self).rarity_offset, rolled, offset_step(old(self).run.ascension)) == self.rarity_offset,
                forall|k: int| 0 <= k < chosen@.len() && rolled[k] == CardRarity::Rare ==> #[trigger] chosen@[k].upgrades == 0,
                ids_below(pool@, content.cards@.len() as int),
                0 <= rare <= 10_000,
                0 <= uncommon <= 4000,
                chosen@.len() <= count,
                forall|k: int| 0 <= k < chosen@.len() ==> {
                    let c = #[trigger] chosen@[k];
                    &&& pool@.contains(c.id)
                    &&& rewardable(content.cards@[c.id as int].rarity)
                    &&& c.upgrades <= 1
                    &&& c.instance == 0
                    &&& c.flags == 0
                },
                forall|a: int, b: int| 0 <= a < b < chosen@.len() ==> chosen@[a].id != chosen@[b].id,
                *self == (Game {
                    rngs: Rngs { rewards: self.rngs.rewards, ..old(self).rngs },
                    rarity_offset: self.rarity_offset,
                    ..*old(self)
                }),
            ensures
                chosen@.len() <= count,
                chosen@.len() < count ==> forall|i: int| 0 <= i < pool@.len() && rewardable(
                    content.cards@[pool@[i] as int].rarity,
                ) ==> has_id(chosen@, #[trigger] pool@[i]),
                rolled.len() == if chosen@.len() < count { chosen@.len() + 1 } else { chosen@.len() + 0 },
                offset_after(old(self).rarity_offset, rolled, offset_step(old(self).run.ascension)) == self.rarity_offset,
                forall|k: int| 0 <= k < chosen@.len() && rolled[k] == CardRarity::Rare ==> #[trigger] chosen@[k].upgrades == 0,
                self.rngs.rewards == advance_n(
                    old(self).rngs.rewards,
                    (3 * chosen@.len() + (rolled.len() - chosen@.len())) as nat,
                ),
            decreases count - n,
        {
            let ghost rolled_before = rolled;
            let roll = self.rngs.rewards.unit();
            let rare_chance: i32 = rare + if offset {
                self.rarity_offset
            } else {
                0
            };
            let rarity = reward_rarity(roll, rare_chance, uncommon);
            proof {
                rolled = rolled.push(rarity);
                assert(rolled.drop_last() =~= rolled_before);
                let r0 = old(self).rngs.rewards;
                assert(rolled_before.push(rarity).take(n as int) =~= rolled_before);
                assert(roll == roll_at(r0, 3 * n));
                lemma_rarity_drawn(
                    r0,
                    old(self).rarity_offset,
                    room,
                    old(self).run.act,
                    old(self).run.ascension,
                    rolled_before,
                    chosen@,
                    rarity,
                );
                lemma_picks_rolled(r0, content, pool@, rolled_before, chosen@, rarity);
            }
            if rarity == CardRarity::Rare {
                self.rarity_offset = -500;
            } else {
                let step: i32 = if self.run.ascension >= 7 {
                    50
                } else {
                    100
                };
                let raised = self.rarity_offset + step;
                self.rarity_offset = if raised < 4000 {
                    raised
                } else {
                    4000
                };
            }
            let order: [CardRarity; 3] = match rarity {
                CardRarity::Common => [CardRarity::Common, CardRarity::Uncommon, CardRarity::Rare],
                CardRarity::Uncommon => [CardRarity::Uncommon, CardRarity::Rare, CardRarity::Common],
                _ => [CardRarity::Rare, CardRarity::Common, CardRarity::Uncommon],
            };
            let mut options: Vec<Id> = Vec::new();
            let mut t: usize = 0;
            while t < 3 && options.len() == 0
                invariant
                    t <= 3,
                    ids_below(pool@, content.cards@.len() as int),
                    options@.len() <= pool@.len(),
                    forall|k: int| 0 <= k < options@.len() ==> {
                        let id = #[trigger] options@[k];
                        &&& pool@.contains(id)
                        &&& rewardable(content.cards@[id as int].rarity)
                        &&& !has_id(chosen@, id)
                    },
                    options@.len() == 0 ==> forall|i: int| 0 <= i < pool@.len() && {
                        let r = content.cards@[pool@[i] as int].rarity;
                        (t >= 1 && r == order@[0]) || (t >= 2 && r == order@[1]) || (t >= 3 && r == order@[2])
                    } ==> has_id(chosen@, #[trigger] pool@[i]),
                    order@ == seq![order@[0], order@[1], order@[2]],
                    rewardable(order@[0]) && rewardable(order@[1]) && rewardable(order@[2]),
                    order@[0] != order@[1] && order@[1] != order@[2] && order@[0] != order@[2],
                    order@ == search_order(rarity),
                    t == 0 ==> options@.len() == 0,
                    t >= 1 ==> options@ == unchosen(content, pool@, order@[t - 1], chosen@, pool@.len() as int),
                    forall|u: int| 0 <= u < t - 1 ==> unchosen(content, pool@, #[trigger] order@[u], chosen@, pool@.len() as int).len() == 0,
                decreases 3 - t,
            {
                options = unchosen_of_rarity(content, pool, order[t], &chosen);
                t = t + 1;
            }
            if options.len() == 0 {
                proof {
                    assert forall|i: int| 0 <= i < pool@.len() && rewardable(content.cards@[pool@[i] as int].rarity)
                        implies has_id(chosen@, #[trigger] pool@[i]) by {
                        let r = content.cards@[pool@[i] as int].rarity;
                        assert(r == order@[0] || r == order@[1] || r == order@[2]);
                    }
                }
                break;
            }
            proof {
                assert(pool_rewardable(content, pool@)) by {
                    let id = options@[0];
                    let i = choose|i: int| 0 <= i < pool@.len() && pool@[i] == id;
                }
            }
            proof {
                assert(options@ == reward_options(content, pool@, chosen@, rarity)) by {
                    let so = search_order(rarity);
                    let len = pool@.len() as int;
                    assert(so[0] == order@[0] && so[1] == order@[1] && so[2] == order@[2]);
                    assert(t >= 1);
                    if t == 1 {
                        assert(options@ == unchosen(content, pool@, so[0], chosen@, len));
                    } else if t == 2 {
                        assert(unchosen(content, pool@, order@[0], chosen@, len).len() == 0);
                        assert(options@ == unchosen(content, pool@, so[1], chosen@, len));
                    } else {
                        assert(unchosen(content, pool@, order@[0], chosen@, len).len() == 0);
                        assert(unchosen(content, pool@, order@[1], chosen@, len).len() == 0);
                        assert(options@ == unchosen(content, pool@, so[2], chosen@, len));
                    }
                }
            }
            let pick = self.rngs.rewards.index(options.len());
            let id = options[pick];
            let up_roll = self.rngs.rewards.unit();
            let upgrade = reward_upgrade(up_roll, self.run.act, self.run.ascension);
            let upgrades: u8 = if upgrade && rarity != CardRarity::Rare {
                1
            } else {
                0
            };
            let ghost before = chosen@;
            chosen.push(Card { id, upgrades, instance: 0, flags: 0 });
            proof {
                let r0 = old(self).rngs.rewards;
                assert(advance_n(r0, (3 * n + 1) as nat) == crate::rng::next_rng(advance_n(r0, (3 * n) as nat)));
                assert(advance_n(r0, (3 * n + 2) as nat) == crate::rng::next_rng(advance_n(r0, (3 * n + 1) as nat)));
                assert(advance_n(r0, (3 * n + 3) as nat) == crate::rng::next_rng(advance_n(r0, (3 * n + 2) as nat)));
                assert(up_roll == roll_at(r0, 3 * n + 2));
                lemma_card_drawn(
                    r0,
                    old(self).rarity_offset,
                    room,
                    old(self).run.act,
                    old(self).run.ascension,
                    rolled,
                    before,
                    Card { id, upgrades, instance: 0, flags: 0 },
                );
                assert(before.push(Card { id, upgrades, instance: 0, flags: 0 }).take(n as int) =~= before);
                lemma_card_picked(r0, content, pool@, rolled, before, Card { id, upgrades, instance: 0, flags: 0 });
                assert(rolled[before.len() as int] == rarity);
                assert(!has_id(before, id));
                assert forall|a: int, b: int| 0 <= a < b < chosen@.len() implies chosen@[a].id != chosen@[b].id by {
                    if b == before.len() {
                        assert(chosen@[a] == before[a]);
                    }
                }
            }
            n = n + 1;
        }
        chosen
    }
}


/// The potion rarity that a roll of `roll / UNIT` asks for: rare up to a tenth,
/// uncommon up to 0.35, else common.
pub open spec fn rolled_potion_rarity(roll: int) -> PotionRarity {
    if roll * 10 <= UNIT {
        PotionRarity::Rare
    } else if roll * 20 <= 7 * UNIT {
        PotionRarity::Uncommon
    } else {
        PotionRarity::Common
    }
}

/// The potion rarity of a reward roll (see `rolled_potion_rarity`).
pub fn potion_reward_rarity(roll: u32) -> (rarity: PotionRarity)
    requires
        roll < UNIT,
    ensures
        rarity == rolled_potion_rarity(roll as int),
{
    let r: u64 = roll as u64;
    if r * 10 <= 0x0100_0000 {
        PotionRarity::Rare
    } else if r * 20 <= 7 * 0x0100_0000 {
        PotionRarity::Uncommon
    } else {
        PotionRarity::Common
    }
}

/// Whether the name of `a` sorts before that of `b`, byte by byte.
pub(crate) fn name_before(a: &String, b: &String) -> (before: bool)
    ensures
        before == bytes_less_from(vstd::utf8::encode_utf8(a@), vstd::utf8::encode_utf8(b@), 0),
{
    let x = a.as_str().as_bytes();
    let y = b.as_str().as_bytes();
    let ghost xs = vstd::utf8::encode_utf8(a@);
    let ghost ys = vstd::utf8::encode_utf8(b@);
    assert(x@ == xs && y@ == ys);
    let mut i: usize = 0;
    while i < x.len() && i < y.len()
        invariant
            x@ == xs,
            y@ == ys,
            xs == vstd::utf8::encode_utf8(a@),
            ys == vstd::utf8::encode_utf8(b@),
            i <= xs.len() && i <= ys.len(),
            bytes_less_from(xs, ys, 0) == bytes_less_from(xs, ys, i as int),
        decreases x@.len() - i,
    {
        if x[i] != y[i] {
            return x[i] < y[i];
        }
        i = i + 1;
    }
    x.len() < y.len()
}

/// `ids` ordered by potion name (a stable insertion sort).
fn sort_potions(content: &Content, ids: &Vec<Id>) -> (sorted: Vec<Id>)
    requires
        ids_below(ids@, content.potions@.len() as int),
    ensures
        sorted@.to_multiset() == ids@.to_multiset(),
        ids_below(sorted@, content.potions@.len() as int),
{
    broadcast use vstd::seq_lib::group_to_multiset_ensures;

    let mut out: Vec<Id> = Vec::new();
    let mut i: usize = 0;
    while i < ids.len()
        invariant
            i <= ids@.len(),
            ids_below(ids@, content.potions@.len() as int),
            ids_below(out@, content.potions@.len() as int),
            out@.to_multiset() == ids@.take(i as int).to_multiset(),
        decreases ids@.len() - i,
    {
        let x = ids[i];
        let mut at: usize = out.len();
        while at > 0 && name_before(&content.potions[x as usize].id, &content.potions[out[at - 1] as usize].id)
            invariant
                at <= out@.len(),
                x < content.potions@.len(),
                ids_below(out@, content.potions@.len() as int),
            decreases at,
        {
            at = at - 1;
        }
        let ghost before = out@;
        out.insert(at, x);
        proof {
            vstd::seq_lib::to_multiset_insert(before, at as int, x);
            assert(ids@.take(i + 1) =~= ids@.take(i as int).push(x));
            vstd::seq_lib::to_multiset_build(ids@.take(i as int), x);
            assert forall|k: int| 0 <= k < out@.len() implies (#[trigger] out@[k]) < content.potions@.len() by {
                if k < at {
                    assert(out@[k] == before[k]);
                } else if k > at {
                    assert(out@[k] == before[k - 1]);
                }
            }
        }
        i = i + 1;
    }
    proof {
        assert(ids@.take(ids@.len() as int) =~= ids@);
    }
    out
}

/// How many of the first `n` relics of `g` are named `name` and not melted.
pub open spec fn relic_count(g: Game, content: &Content, name: Seq<char>, n: int) -> nat
    decreases n,
{
    if n <= 0 {
        0
    } else {
        relic_count(g, content, name, n - 1) + if !g.melted_relics@.contains((n - 1) as usize)
            && content.relics@[g.run.relics@[n - 1] as int].id@ == name {
            1nat
        } else {
            0
        }
    }
}

/// `chosen` are the potions that rolling up to `count` potions from `pool` gives with the
/// reward stream at `r`: each roll (the first of the two draws of a potion) asks for a
/// rarity and a potion of it not chosen yet is picked; the rolls stop at a rarity of which
/// every potion of the pool is chosen already. `after` is the stream once done.
pub open spec fn potions_rolled(r: Rng, content: &Content, pool: Seq<Id>, count: usize, chosen: Seq<Id>, after: Rng) -> bool {
    &&& chosen.len() <= count
    &&& forall|k: int| 0 <= k < chosen.len() ==> content.potions@[(#[trigger] chosen[k]) as int].rarity
        == rolled_potion_rarity(roll_at(r, 2 * k))
    &&& chosen.len() < count ==> forall|i: int| 0 <= i < pool.len() && content.potions@[(#[trigger] pool[i]) as int].rarity
        == rolled_potion_rarity(roll_at(r, 2 * chosen.len() as int)) ==> chosen.contains(pool[i])
    &&& after == advance_n(r, (2 * chosen.len() + if chosen.len() < count { 1int } else { 0 }) as nat)
}

impl Game {
    /// The potions this character can find: its own pool by name, then the act's.
    pub fn potion_pool(&self, content: &Content) -> (pool: Vec<Id>)
        requires
            self.wf(content),
        ensures
            ({
                let own = content.characters@[self.run.character as int].potion_pool@;
                let shared = content.acts@[self.act as int].potions@;
                &&& pool@.len() == own.len() + shared.len()
                &&& pool@.take(own.len() as int).to_multiset() == own.to_multiset()
                &&& pool@.skip(own.len() as int).to_multiset() == shared.to_multiset()
            }),
            ids_below(pool@, content.potions@.len() as int),
    {
        broadcast use vstd::seq_lib::group_to_multiset_ensures;

        let def = &content.characters[self.run.character as usize];
        assert(def.wf(content));
        let act = &content.acts[self.act as usize];
        assert(act.wf(content));
        let mut pool = sort_potions(content, &def.potion_pool);
        let ghost own = pool@;
        let mut shared = sort_potions(content, &act.potions);
        let ghost theirs = shared@;
        pool.append(&mut shared);
        proof {
            assert(pool@.take(own.len() as int) =~= own);
            assert(pool@.skip(own.len() as int) =~= theirs);
            own.to_multiset_ensures();
            def.potion_pool@.to_multiset_ensures();
            theirs.to_multiset_ensures();
            act.potions@.to_multiset_ensures();
            assert forall|k: int| 0 <= k < pool@.len() implies (#[trigger] pool@[k]) < content.potions@.len() by {
                if k < own.len() {
                    assert(pool@[k] == own[k]);
                } else {
                    assert(pool@[k] == theirs[k - own.len()]);
                }
            }
        }
        pool
    }

    /// Rolls up to `count` distinct reward potions from `pool`, each of the rarity a
    /// roll asks for; stops when no potion of that rarity is left.
    pub fn reward_potions(&mut self, content: &Content, pool: &Vec<Id>, count: usize) -> (chosen: Vec<Id>)
        requires
            old(self).wf(content),
            ids_below(pool@, content.potions@.len() as int),
        ensures
            final(self).wf(content),
            chosen@.len() <= count,
            forall|k: int| 0 <= k < chosen@.len() ==> pool@.contains(#[trigger] chosen@[k]),
            chosen@.no_duplicates(),
            potions_rolled(old(self).rngs.rewards, content, pool@, count, chosen@, final(self).rngs.rewards),
            *final(self) == (Game { rngs: Rngs { rewards: final(self).rngs.rewards, ..old(self).rngs }, ..*old(self) }),
    {
        let mut chosen: Vec<Id> = Vec::new();
        let mut n: usize = 0;
        while n < count
            invariant_except_break
                chosen@.len() == n,
                self.rngs.rewards == advance_n(old(self).rngs.rewards, (2 * n) as nat),
            invariant
                n <= count,
                chosen@.len() <= n,
                forall|k: int| 0 <= k < chosen@.len() ==> content.potions@[(#[trigger] chosen@[k]) as int].rarity
                    == rolled_potion_rarity(roll_at(old(self).rngs.rewards, 2 * k)),
                self.wf(content),
                ids_below(pool@, content.potions@.len() as int),
                forall|k: int| 0 <= k < chosen@.len() ==> pool@.contains(#[trigger] chosen@[k]),
                chosen@.no_duplicates(),
                *self == (Game { rngs: Rngs { rewards: self.rngs.rewards, ..old(self).rngs }, ..*old(self) }),
            ensures
                potions_rolled(old(self).rngs.rewards, content, pool@, count, chosen@, self.rngs.rewards),
            decreases count - n,
        {
            let roll = self.rngs.rewards.unit();
            let rarity = potion_reward_rarity(roll);
            proof {
                assert(roll == roll_at(old(self).rngs.rewards, 2 * n));
            }
            let mut options: Vec<Id> = Vec::new();
            let mut i: usize = 0;
            while i < pool.len()
                invariant
                    i <= pool@.len(),
                    ids_below(pool@, content.potions@.len() as int),
                    forall|k: int| 0 <= k < options@.len() ==> pool@.contains(#[trigger] options@[k])
                        && !chosen@.contains(options@[k]) && content.potions@[options@[k] as int].rarity == rarity,
                    options@.len() == 0 ==> forall|j: int| 0 <= j < i && content.potions@[(#[trigger] pool@[j]) as int].rarity
                        == rarity ==> chosen@.contains(pool@[j]),
                decreases pool@.len() - i,
            {
                let id = pool[i];
                if content.potions[id as usize].rarity == rarity && !crate::game::contains_id(&chosen, id) {
                    options.push(id);
                    proof {
                        assert(pool@.contains(pool@[i as int]));
                    }
                }
                i = i + 1;
            }
            if options.len() == 0 {
                break;
            }
            let pick = self.rngs.rewards.index(options.len());
            let ghost before = chosen@;
            chosen.push(options[pick]);
            proof {
                let r0 = old(self).rngs.rewards;
                assert(advance_n(r0, (2 * n + 1) as nat) == crate::rng::next_rng(advance_n(r0, (2 * n) as nat)));
                assert(advance_n(r0, (2 * n + 2) as nat) == crate::rng::next_rng(advance_n(r0, (2 * n + 1) as nat)));
                assert forall|k: int| 0 <= k < chosen@.len() implies content.potions@[(#[trigger] chosen@[k]) as int].rarity
                    == rolled_potion_rarity(roll_at(r0, 2 * k)) by {
                    if k < before.len() {
                        assert(chosen@[k] == before[k]);
                    }
                }
                assert(!before.contains(options@[pick as int]));
                assert forall|a: int, b: int| 0 <= a < chosen@.len() && 0 <= b < chosen@.len() && a != b
                    implies chosen@[a] != chosen@[b] by {
                    if a == before.len() {
                        assert(before[b] == chosen@[b]);
                        assert(before.contains(before[b]));
                    } else if b == before.len() {
                        assert(before[a] == chosen@[a]);
                        assert(before.contains(before[a]));
                    }
                }
            }
            n = n + 1;
        }
        chosen
    }
}


/// Whether an egg upgrades new cards of type `card_type`.
pub open spec fn egg_for(g: Game, content: &Content, card_type: CardType) -> bool {
    match card_type {
        CardType::Attack => g.spec_has_relic(content, "RELIC.MOLTEN_EGG"@),
        CardType::Skill => g.spec_has_relic(content, "RELIC.TOXIC_EGG"@),
        CardType::Power => g.spec_has_relic(content, "RELIC.FROZEN_EGG"@),
        _ => false,
    }
}

/// Whether the Silver Crucible still upgrades card rewards (three times).
pub open spec fn crucible_on(g: Game, content: &Content) -> bool {
    g.spec_has_relic(content, "RELIC.SILVER_CRUCIBLE"@) && g.silver_crucible < 3
}

/// Whether the Lava Lamp upgrades the rewards of a fight won without losing hp.
pub open spec fn lamp_on(g: Game, content: &Content) -> bool {
    g.spec_has_relic(content, "RELIC.LAVA_LAMP"@) && !g.damage_taken && g.room == Room::Combat
}

/// A reward card after the relics that upgrade reward cards had their say.
pub open spec fn modified_reward(g: Game, content: &Content, card: Card) -> Card {
    if card.upgrades == 0 && (egg_for(g, content, content.cards@[card.id as int].card_type)
        || crucible_on(g, content) || lamp_on(g, content)) {
        Card { upgrades: 1, ..card }
    } else {
        card
    }
}

/// There is a relic named `name` among the first `n` relics, not melted.
pub proof fn lemma_relic_count(g: Game, content: &Content, name: Seq<char>, n: int)
    requires
        0 <= n <= g.run.relics@.len(),
    ensures
        relic_count(g, content, name, n) > 0 <==> exists|i: int|
            0 <= i < n && !g.melted_relics@.contains(i as usize) && content.relics@[g.run.relics@[i] as int].id@ == name,
    decreases n,
{
    if n > 0 {
        lemma_relic_count(g, content, name, n - 1);
    }
}

impl Game {
    /// How many relics named `name` the run holds, not melted.
    fn count_relic(&self, content: &Content, name: &str) -> (count: usize)
        requires
            ids_below(self.run.relics@, content.relics@.len() as int),
        ensures
            count == relic_count(*self, content, name@, self.run.relics@.len() as int),
            count > 0 <==> self.spec_has_relic(content, name@),
    {
        let mut count: usize = 0;
        let mut i: usize = 0;
        while i < self.run.relics.len()
            invariant
                i <= self.run.relics@.len(),
                count <= i,
                ids_below(self.run.relics@, content.relics@.len() as int),
                count == relic_count(*self, content, name@, i as int),
            decreases self.run.relics@.len() - i,
        {
            let id = self.run.relics[i];
            if !contains_usize(&self.melted_relics, i) && same_name(&content.relics[id as usize].id, name) {
                count = count + 1;
            }
            i = i + 1;
        }
        proof {
            lemma_relic_count(*self, content, name@, self.run.relics@.len() as int);
        }
        count
    }

    /// Lets the relics that upgrade reward cards act on `cards`: an egg upgrades those
    /// of its type, the Silver Crucible all of them (for three rewards) and the Lava
    /// Lamp all of them after a fight won without losing hp.
    pub fn modify_reward_cards(&mut self, content: &Content, cards: &mut Vec<Card>)
        requires
            old(self).wf(content),
            cards_valid(old(cards)@, content),
        ensures
            final(self).wf(content),
            final(cards)@.len() == old(cards)@.len(),
            forall|k: int| 0 <= k < old(cards)@.len() ==> #[trigger] final(cards)@[k] == modified_reward(*old(self), content, old(cards)@[k]),
            final(self).silver_crucible == if crucible_on(*old(self), content) {
                let raised = old(self).silver_crucible + relic_count(*old(self), content, "RELIC.SILVER_CRUCIBLE"@, old(self).run.relics@.len() as int);
                if raised < 3 { raised } else { 3 }
            } else {
                old(self).silver_crucible as int
            },
            *final(self) == (Game { silver_crucible: final(self).silver_crucible, ..*old(self) }),
    {
        let ghost g0 = *self;
        let molten = self.has_relic(content, "RELIC.MOLTEN_EGG");
        let toxic = self.has_relic(content, "RELIC.TOXIC_EGG");
        let frozen = self.has_relic(content, "RELIC.FROZEN_EGG");
        let lamp = self.has_relic(content, "RELIC.LAVA_LAMP") && !self.damage_taken && self.room == Room::Combat;
        let crucibles = self.count_relic(content, "RELIC.SILVER_CRUCIBLE");
        let crucible = crucibles > 0 && self.silver_crucible < 3;
        if crucible {
            let raised: usize = self.silver_crucible as usize + if crucibles < 3 { crucibles } else { 3 };
            self.silver_crucible = if raised < 3 {
                raised as u8
            } else {
                3
            };
        }
        let ghost given = cards@;
        let mut k: usize = 0;
        while k < cards.len()
            invariant
                k <= cards@.len(),
                cards@.len() == given.len(),
                cards_valid(given, content),
                forall|j: int| k <= j < given.len() ==> #[trigger] cards@[j] == given[j],
                forall|j: int| 0 <= j < k ==> #[trigger] cards@[j] == modified_reward(g0, content, given[j]),
                molten == g0.spec_has_relic(content, "RELIC.MOLTEN_EGG"@),
                toxic == g0.spec_has_relic(content, "RELIC.TOXIC_EGG"@),
                frozen == g0.spec_has_relic(content, "RELIC.FROZEN_EGG"@),
                lamp == lamp_on(g0, content),
                crucible == crucible_on(g0, content),
            decreases given.len() - k,
        {
            let mut card = cards[k];
            let egg = match content.cards[card.id as usize].card_type {
                CardType::Attack => molten,
                CardType::Skill => toxic,
                CardType::Power => frozen,
                _ => false,
            };
            if card.upgrades == 0 && (egg || crucible || lamp) {
                card.upgrades = 1;
            }
            cards.set(k, card);
            k = k + 1;
        }
    }
}


/// Whether `id` can be offered by a card reward drawn from `base`: with the Prismatic
/// Gem any character's card, with the Dingy Rug also the colorless cards.
pub open spec fn in_reward_pool(g: Game, content: &Content, base: Seq<Id>, id: Id) -> bool {
    if g.spec_has_relic(content, "RELIC.PRISMATIC_GEM"@) {
        character_card(content, id)
    } else if g.spec_has_relic(content, "RELIC.DINGY_RUG"@) {
        base.contains(id) || content.colorless@.contains(id)
    } else {
        base.contains(id)
    }
}

/// Whether some character's cards include `id`.
pub open spec fn character_card(content: &Content, id: Id) -> bool {
    exists|c: int| 0 <= c < content.characters@.len() && (#[trigger] content.characters@[c]).cards@.contains(id)
}

/// Whether the Lasting Candy adds a power card to this reward.
pub open spec fn candy_on(g: Game) -> bool {
    g.lasting_candy > 0 && g.lasting_candy % 2 == 0
}

/// `ids` without repeats, first occurrences kept.
fn distinct_ids(ids: &Vec<Id>) -> (unique: Vec<Id>)
    ensures
        forall|k: int| 0 <= k < unique@.len() ==> ids@.contains(#[trigger] unique@[k]),
        forall|k: int| 0 <= k < ids@.len() ==> unique@.contains(#[trigger] ids@[k]),
{
    let mut unique: Vec<Id> = Vec::new();
    let mut i: usize = 0;
    while i < ids.len()
        invariant
            i <= ids@.len(),
            forall|k: int| 0 <= k < unique@.len() ==> ids@.contains(#[trigger] unique@[k]),
            forall|k: int| 0 <= k < i ==> unique@.contains(#[trigger] ids@[k]),
        decreases ids@.len() - i,
    {
        let id = ids[i];
        let ghost before = unique@;
        if !crate::game::contains_id(&unique, id) {
            unique.push(id);
        }
        proof {
            assert(ids@.contains(ids@[i as int]));
            assert forall|k: int| 0 <= k < i + 1 implies unique@.contains(#[trigger] ids@[k]) by {
                if k < i {
                    let m = choose|m: int| 0 <= m < before.len() && before[m] == ids@[k];
                    assert(unique@[m] == ids@[k]);
                } else if !before.contains(id) {
                    assert(unique@[before.len() as int] == id);
                }
            }
        }
        i = i + 1;
    }
    unique
}

/// The ids of `pool` whose cards are powers; with `fresh`, only those `cards` lacks.
fn powers_of(content: &Content, pool: &Vec<Id>, cards: &Vec<Card>, fresh: bool) -> (powers: Vec<Id>)
    requires
        ids_below(pool@, content.cards@.len() as int),
    ensures
        forall|k: int| 0 <= k < powers@.len() ==> pool@.contains(#[trigger] powers@[k]),
        ids_below(powers@, content.cards@.len() as int),
{
    let mut powers: Vec<Id> = Vec::new();
    let mut i: usize = 0;
    while i < pool.len()
        invariant
            i <= pool@.len(),
            ids_below(pool@, content.cards@.len() as int),
            forall|k: int| 0 <= k < powers@.len() ==> pool@.contains(#[trigger] powers@[k]),
            ids_below(powers@, content.cards@.len() as int),
        decreases pool@.len() - i,
    {
        let id = pool[i];
        if content.cards[id as usize].card_type == CardType::Power {
            let mut taken = false;
            if fresh {
                let mut k: usize = 0;
                while k < cards.len()
                    decreases cards@.len() - k,
                {
                    if cards[k].id == id {
                        taken = true;
                    }
                    k = k + 1;
                }
            }
            if !taken {
                powers.push(id);
                proof {
                    assert(pool@.contains(pool@[i as int]));
                }
            }
        }
        i = i + 1;
    }
    powers
}

/// `after` is `before` once the cards of a card reward drawing on `base` were rolled
/// into `cards` (see `Game::reward_cards`).
pub open spec fn reward_cards_rolled(before: Game, after: Game, content: &Content, base: Seq<Id>, count: usize, cards: Seq<Card>) -> bool {
    &&& cards.len() <= count + if candy_on(before) { 1int } else { 0 }
    &&& cards_valid(cards, content)
    &&& forall|k: int| 0 <= k < cards.len() ==> {
        let c = #[trigger] cards[k];
        &&& in_reward_pool(before, content, base, c.id)
        &&& c.upgrades <= 1
        &&& c.instance == 0
        &&& c.flags == 0
    }
    &&& after == (Game {
        rngs: Rngs { rewards: after.rngs.rewards, ..before.rngs },
        rarity_offset: after.rarity_offset,
        silver_crucible: after.silver_crucible,
        ..before
    })
}

impl Game {
    /// A card reward drawn from `base` (all characters' cards with the Prismatic Gem,
    /// plus the colorless ones with the Dingy Rug), each card once; with the Lasting
    /// Candy on an even count a power is added; then the reward-upgrading relics act.
    #[verifier::spinoff_prover]
    #[verifier::rlimit(40)]
    pub fn reward_cards(&mut self, content: &Content, base: &Vec<Id>, count: usize, room: Room) -> (cards: Vec<Card>)
        requires
            old(self).wf(content),
            ids_below(base@, content.cards@.len() as int),
            old(self).run.act >= 1,
        ensures
            final(self).wf(content),
            reward_cards_rolled(*old(self), *final(self), content, base@, count, cards@),
    {
        let ghost g0 = *self;
        let pool = self.build_pool(content, base);
        let pool = distinct_ids(&pool);
        let ghost pool_ok = forall|k: int| 0 <= k < pool@.len() ==> in_reward_pool(g0, content, base@, #[trigger] pool@[k]);
        assert(pool_ok);
        assert(ids_below(pool@, content.cards@.len() as int));
        let mut cards = self.card_rewards(content, &pool, count, room);
        let ghost g1 = *self;
        proof {
            crate::deck::lemma_same_relics(g0, g1, content);
        }
        if self.lasting_candy > 0 && self.lasting_candy % 2 == 0 {
            let mut powers = powers_of(content, &pool, &cards, true);
            if powers.len() == 0 {
                powers = powers_of(content, &pool, &cards, false);
            }
            if powers.len() > 0 {
                let mut extra = self.card_rewards(content, &powers, 1, room);
                let ghost before = cards@;
                cards.append(&mut extra);
                proof {
                    assert forall|k: int| 0 <= k < cards@.len() implies {
                        let c = #[trigger] cards@[k];
                        &&& pool@.contains(c.id)
                        &&& c.upgrades <= 1
                        &&& c.instance == 0
                        &&& c.flags == 0
                    } by {
                        if k >= before.len() {
                            assert(powers@.contains(cards@[k].id));
                            let m = choose|m: int| 0 <= m < powers@.len() && powers@[m] == cards@[k].id;
                            assert(pool@.contains(powers@[m]));
                        } else {
                            assert(cards@[k] == before[k]);
                        }
                    }
                }
            }
        }
        let ghost g2 = *self;
        proof {
            crate::deck::lemma_same_relics(g0, g2, content);
            assert forall|k: int| 0 <= k < cards@.len() implies (#[trigger] cards@[k]).id < content.cards@.len() by {
                assert(pool@.contains(cards@[k].id));
            }
        }
        let ghost unmodified = cards@;
        self.modify_reward_cards(content, &mut cards);
        proof {
            assert forall|k: int| 0 <= k < cards@.len() implies {
                let c = #[trigger] cards@[k];
                &&& in_reward_pool(g0, content, base@, c.id)
                &&& c.upgrades <= 1
                &&& c.instance == 0
                &&& c.flags == 0
            } by {
                assert(cards@[k] == modified_reward(g2, content, unmodified[k]));
                assert(pool@.contains(unmodified[k].id));
                let m = choose|m: int| 0 <= m < pool@.len() && pool@[m] == unmodified[k].id;
            }
            assert forall|k: int| 0 <= k < cards@.len() implies (#[trigger] cards@[k]).id < content.cards@.len() by {
                assert(cards@[k].id == unmodified[k].id);
            }
        }
        cards
    }
}


/// Whether relic `i` of `g` is held (not melted) and named `name`.
pub open spec fn holds_at(g: Game, content: &Content, i: int, name: Seq<char>) -> bool {
    !g.melted_relics@.contains(i as usize) && content.relics@[g.run.relics@[i] as int].id@ == name
}

/// The card rewards that the first `n` relics add to a fight's rewards: a common one
/// for each Prayer Wheel after a fight, a boss one for each White Star after an elite.
pub open spec fn extra_reward_rooms(g: Game, content: &Content, n: int) -> Seq<CardReward>
    decreases n,
{
    if n <= 0 {
        seq![]
    } else {
        let before = extra_reward_rooms(g, content, n - 1);
        if holds_at(g, content, n - 1, "RELIC.PRAYER_WHEEL"@) && g.room == Room::Combat {
            before.push(CardReward::Standard(Room::Combat))
        } else if holds_at(g, content, n - 1, "RELIC.WHITE_STAR"@) && g.room == Room::Elite {
            before.push(CardReward::Standard(Room::Boss))
        } else {
            before
        }
    }
}

/// Whether the Amethyst Aubergine pays out here (not after the last boss).
pub open spec fn aubergine_pays(g: Game) -> bool {
    !(g.room == Room::Boss && g.run.act == 3)
}

/// Whether Wongo's Mystery Ticket pays out (after five fights).
pub open spec fn ticket_pays(g: Game, content: &Content) -> bool {
    g.spec_has_relic(content, "RELIC.WONGOS_MYSTERY_TICKET"@) && (g.wongo_combats matches Some(c) && c >= 5)
}

/// How many relics the held relics may add to a fight's rewards: one per Black Star
/// after an elite, two per Lava Rock after the first boss, three for a ticket.
pub open spec fn relic_pulls(g: Game, content: &Content) -> int {
    let n = g.run.relics@.len() as int;
    (if g.room == Room::Elite { relic_count(g, content, "RELIC.BLACK_STAR"@, n) as int } else { 0 })
        + (if g.room == Room::Boss && g.run.act == 1 { 2 * relic_count(g, content, "RELIC.LAVA_ROCK"@, n) } else { 0 })
        + (if ticket_pays(g, content) { 3int } else { 0 })
}

impl Game {
    /// Pulls a relic of a rolled rarity into `relics`, when one is left.
    fn pull_reward_relic(&mut self, content: &Content, relics: &mut Vec<Id>)
        requires
            old(self).wf(content),
            ids_below(old(relics)@, content.relics@.len() as int),
        ensures
            final(self).wf(content),
            ids_below(final(relics)@, content.relics@.len() as int),
            old(relics)@.len() <= final(relics)@.len() <= old(relics)@.len() + 1,
            forall|k: int| 0 <= k < old(relics)@.len() ==> #[trigger] final(relics)@[k] == old(relics)@[k],
            *final(self) == (Game {
                rngs: Rngs { rewards: final(self).rngs.rewards, ..old(self).rngs },
                relic_deques: final(self).relic_deques,
                shared_relic_deques: final(self).shared_relic_deques,
                ..*old(self)
            }),
    {
        let rarity = self.roll_relic_rarity();
        let pulled = self.pull_relic(content, false, rarity, false, false);
        let ghost before = relics@;
        match pulled {
            Some(id) => {
                relics.push(id);
            },
            None => {},
        }
    }
}


/// The names of the relics that add to a fight's rewards are distinct.
proof fn lemma_reward_relic_names_differ()
    ensures
        "RELIC.AMETHYST_AUBERGINE"@ != "RELIC.PRAYER_WHEEL"@,
        "RELIC.AMETHYST_AUBERGINE"@ != "RELIC.WHITE_STAR"@,
        "RELIC.AMETHYST_AUBERGINE"@ != "RELIC.BLACK_STAR"@,
        "RELIC.AMETHYST_AUBERGINE"@ != "RELIC.LAVA_ROCK"@,
        "RELIC.AMETHYST_AUBERGINE"@ != "RELIC.WONGOS_MYSTERY_TICKET"@,
        "RELIC.PRAYER_WHEEL"@ != "RELIC.WHITE_STAR"@,
        "RELIC.PRAYER_WHEEL"@ != "RELIC.BLACK_STAR"@,
        "RELIC.PRAYER_WHEEL"@ != "RELIC.LAVA_ROCK"@,
        "RELIC.PRAYER_WHEEL"@ != "RELIC.WONGOS_MYSTERY_TICKET"@,
        "RELIC.WHITE_STAR"@ != "RELIC.BLACK_STAR"@,
        "RELIC.WHITE_STAR"@ != "RELIC.LAVA_ROCK"@,
        "RELIC.WHITE_STAR"@ != "RELIC.WONGOS_MYSTERY_TICKET"@,
        "RELIC.BLACK_STAR"@ != "RELIC.LAVA_ROCK"@,
        "RELIC.BLACK_STAR"@ != "RELIC.WONGOS_MYSTERY_TICKET"@,
        "RELIC.LAVA_ROCK"@ != "RELIC.WONGOS_MYSTERY_TICKET"@,
{
    reveal_strlit("RELIC.AMETHYST_AUBERGINE");
    reveal_strlit("RELIC.PRAYER_WHEEL");
    reveal_strlit("RELIC.WHITE_STAR");
    reveal_strlit("RELIC.BLACK_STAR");
    reveal_strlit("RELIC.LAVA_ROCK");
    reveal_strlit("RELIC.WONGOS_MYSTERY_TICKET");
    assert("RELIC.AMETHYST_AUBERGINE"@[6] == 'A');
    assert("RELIC.PRAYER_WHEEL"@[6] == 'P');
    assert("RELIC.WHITE_STAR"@[6] == 'W');
    assert("RELIC.WHITE_STAR"@[7] == 'H');
    assert("RELIC.BLACK_STAR"@[6] == 'B');
    assert("RELIC.LAVA_ROCK"@[6] == 'L');
    assert("RELIC.WONGOS_MYSTERY_TICKET"@[6] == 'W');
    assert("RELIC.WONGOS_MYSTERY_TICKET"@[7] == 'O');
}

/// `after` and `r1` are `before` and `r0` once the relics that act on a fight's rewards
/// acted (see `Game::modify_combat_rewards`).
pub open spec fn combat_rewards_modified(before: Game, after: Game, content: &Content, r0: Rewards, r1: Rewards) -> bool {
    &&& r1.gold == r0.gold + if aubergine_pays(before) {
        15 * relic_count(before, content, "RELIC.AMETHYST_AUBERGINE"@, before.run.relics@.len() as int)
    } else {
        0
    }
    &&& r1.card_rewards@ == r0.card_rewards@ + extra_reward_rooms(before, content, before.run.relics@.len() as int)
    &&& ids_below(r1.relics@, content.relics@.len() as int)
    &&& forall|k: int| 0 <= k < r0.relics@.len() ==> #[trigger] r1.relics@[k] == r0.relics@[k]
    &&& r0.relics@.len() <= r1.relics@.len() <= r0.relics@.len() + relic_pulls(before, content)
    &&& r1.cards == r0.cards
    &&& r1.potions == r0.potions
    &&& r1.removals == r0.removals
    &&& after.wongo_combats == if ticket_pays(before, content) { None } else { before.wongo_combats }
    &&& after == (Game {
        rngs: Rngs { rewards: after.rngs.rewards, ..before.rngs },
        relic_deques: after.relic_deques,
        shared_relic_deques: after.shared_relic_deques,
        wongo_combats: after.wongo_combats,
        ..before
    })
}

impl Game {
    /// What the held relics add to a fight's rewards (see `extra_reward_rooms`,
    /// `relic_pulls`): 15 gold per Amethyst Aubergine except after the last boss, card
    /// rewards, and relics pulled from the bags.
    #[verifier::spinoff_prover]
    #[verifier::rlimit(100)]
    pub fn modify_combat_rewards(&mut self, content: &Content, rewards: &mut Rewards)
        requires
            old(self).wf(content),
            ids_below(old(rewards).relics@, content.relics@.len() as int),
            old(rewards).gold + 15 * old(self).run.relics@.len() <= i32::MAX,
        ensures
            final(self).wf(content),
            combat_rewards_modified(*old(self), *final(self), content, *old(rewards), *final(rewards)),
    {
        let ghost g0 = *self;
        let ghost start = *rewards;
        let relics = self.run.relics.clone();
        let mut ticket_used = false;
        let mut index: usize = 0;
        while index < relics.len()
            invariant
                index <= relics@.len(),
                relics@ == g0.run.relics@,
                self.wf(content),
                self.run == g0.run,
                self.room == g0.room,
                self.melted_relics == g0.melted_relics,
                ids_below(rewards.relics@, content.relics@.len() as int),
                rewards.gold == start.gold + if aubergine_pays(g0) {
                    15 * relic_count(g0, content, "RELIC.AMETHYST_AUBERGINE"@, index as int)
                } else {
                    0
                },
                relic_count(g0, content, "RELIC.AMETHYST_AUBERGINE"@, index as int) <= index,
                start.gold + 15 * relics@.len() <= i32::MAX,
                rewards.card_rewards@ == start.card_rewards@ + extra_reward_rooms(g0, content, index as int),
                forall|k: int| 0 <= k < start.relics@.len() ==> #[trigger] rewards.relics@[k] == start.relics@[k],
                start.relics@.len() <= rewards.relics@.len(),
                rewards.relics@.len() <= start.relics@.len()
                    + (if g0.room == Room::Elite { relic_count(g0, content, "RELIC.BLACK_STAR"@, index as int) as int } else { 0 })
                    + (if g0.room == Room::Boss && g0.run.act == 1 { 2 * relic_count(g0, content, "RELIC.LAVA_ROCK"@, index as int) } else { 0 })
                    + (if ticket_used { 3int } else { 0 }),
                ticket_used ==> ticket_pays(g0, content) && self.wongo_combats is None,
                !ticket_used ==> self.wongo_combats == g0.wongo_combats,
                ticket_used || !(exists|i: int| 0 <= i < index && holds_at(g0, content, i, "RELIC.WONGOS_MYSTERY_TICKET"@))
                    || !(g0.wongo_combats matches Some(c) && c >= 5),
                rewards.cards == start.cards,
                rewards.potions == start.potions,
                rewards.removals == start.removals,
                *self == (Game {
                    rngs: Rngs { rewards: self.rngs.rewards, ..g0.rngs },
                    relic_deques: self.relic_deques,
                    shared_relic_deques: self.shared_relic_deques,
                    wongo_combats: self.wongo_combats,
                    ..g0
                }),
            decreases relics@.len() - index,
        {
            proof {
                lemma_reward_relic_names_differ();
            }
            let active = !contains_usize(&self.melted_relics, index);
            let name = &content.relics[relics[index] as usize].id;
            let ghost before_rooms = rewards.card_rewards@;
            let ghost before_used = ticket_used;
            let aubergine = active && same_name(name, "RELIC.AMETHYST_AUBERGINE");
            let prayer = active && same_name(name, "RELIC.PRAYER_WHEEL");
            let white = active && same_name(name, "RELIC.WHITE_STAR");
            let black = active && same_name(name, "RELIC.BLACK_STAR");
            let lava = active && same_name(name, "RELIC.LAVA_ROCK");
            let ticket = active && same_name(name, "RELIC.WONGOS_MYSTERY_TICKET");
            proof {
                assert(active == !g0.melted_relics@.contains(index));
                assert(name@ == content.relics@[g0.run.relics@[index as int] as int].id@);
                assert(prayer == holds_at(g0, content, index as int, "RELIC.PRAYER_WHEEL"@));
                assert(white == holds_at(g0, content, index as int, "RELIC.WHITE_STAR"@));
                assert(ticket == holds_at(g0, content, index as int, "RELIC.WONGOS_MYSTERY_TICKET"@));
                assert(aubergine ==> !prayer && !white && !black && !lava && !ticket);
                assert(prayer ==> !white && !black && !lava && !ticket);
                assert(white ==> !black && !lava && !ticket);
                assert(black ==> !lava && !ticket);
                assert(lava ==> !ticket);
            }
            if aubergine && !(self.room == Room::Boss && self.run.act == 3) {
                rewards.gold = rewards.gold + 15;
            } else if prayer && self.room == Room::Combat {
                rewards.card_rewards.push(CardReward::Standard(Room::Combat));
            } else if white && self.room == Room::Elite {
                rewards.card_rewards.push(CardReward::Standard(Room::Boss));
            } else if black && self.room == Room::Elite {
                self.pull_reward_relic(content, &mut rewards.relics);
            } else if lava && self.room == Room::Boss && self.run.act == 1 {
                self.pull_reward_relic(content, &mut rewards.relics);
                self.pull_reward_relic(content, &mut rewards.relics);
            } else if ticket && match self.wongo_combats {
                Some(c) => c >= 5,
                None => false,
            } {
                self.wongo_combats = None;
                self.pull_reward_relic(content, &mut rewards.relics);
                self.pull_reward_relic(content, &mut rewards.relics);
                self.pull_reward_relic(content, &mut rewards.relics);
                proof {
                    assert(g0.spec_has_relic(content, "RELIC.WONGOS_MYSTERY_TICKET"@));
                }
                ticket_used = true;
            }
            proof {
                let prev = extra_reward_rooms(g0, content, index as int);
                assert(active == !g0.melted_relics@.contains(index));
                assert(name@ == content.relics@[g0.run.relics@[index as int] as int].id@);
                assert(extra_reward_rooms(g0, content, index + 1) == if holds_at(g0, content, index as int, "RELIC.PRAYER_WHEEL"@) && g0.room == Room::Combat {
                    prev.push(CardReward::Standard(Room::Combat))
                } else if holds_at(g0, content, index as int, "RELIC.WHITE_STAR"@) && g0.room == Room::Elite {
                    prev.push(CardReward::Standard(Room::Boss))
                } else {
                    prev
                });
                assert(rewards.card_rewards@ =~= start.card_rewards@ + extra_reward_rooms(g0, content, index + 1));
                if !ticket_used && (g0.wongo_combats matches Some(c) && c >= 5) {
                    assert forall|i: int| 0 <= i < index + 1 implies !holds_at(g0, content, i, "RELIC.WONGOS_MYSTERY_TICKET"@) by {
                        if i == index {
                            assert(!before_used);
                        }
                    }
                }
            }
            index = index + 1;
        }
        proof {
            if ticket_pays(g0, content) && !ticket_used {
                let i = choose|i: int| 0 <= i < g0.run.relics@.len() && !g0.melted_relics@.contains(i as usize)
                    && content.relics@[g0.run.relics@[i] as int].id@ == "RELIC.WONGOS_MYSTERY_TICKET"@;
                assert(holds_at(g0, content, i, "RELIC.WONGOS_MYSTERY_TICKET"@));
            }
        }
    }
}


/// The rare chance (over 10000) of a merchant's card: 9% (4.5% from ascension 7),
/// shifted by the rarity offset.
pub open spec fn shop_rare_chance(g: Game) -> int {
    (if g.run.ascension >= 7 { 450int } else { 900 }) + g.rarity_offset
}

/// The cards of `pool` of rarity `rarity`.
pub open spec fn of_card_rarity(content: &Content, pool: Seq<Id>, rarity: CardRarity) -> Seq<Id> {
    pool.filter(|id: Id| content.cards@[id as int].rarity == rarity)
}

/// `after` is `before` once `count` cards of `pool` of rarity `rarity` were drawn into
/// `cards` (all of them when fewer; see `Game::fixed_cards`).
pub open spec fn fixed_drawn(
    before: Game,
    after: Game,
    content: &Content,
    pool: Seq<Id>,
    rarity: CardRarity,
    count: usize,
    cards: Seq<Card>,
) -> bool {
    &&& cards.len() == if count < of_card_rarity(content, pool, rarity).len() {
        count as int
    } else {
        of_card_rarity(content, pool, rarity).len() as int
    }
    &&& forall|k: int| 0 <= k < cards.len() ==> {
        let c = #[trigger] cards[k];
        &&& pool.contains(c.id)
        &&& content.cards@[c.id as int].rarity == rarity
        &&& c.upgrades <= 1
        &&& rarity == CardRarity::Rare ==> c.upgrades == 0
        &&& c.instance == 0
        &&& c.flags == 0
    }
    &&& forall|k: int| 0 <= k < cards.len() ==> (#[trigger] cards[k]).upgrades == if rarity != CardRarity::Rare
        && rolled_upgrade(roll_at(before.rngs.rewards, 2 * k + 1), before.run.act, before.run.ascension) {
        1u8
    } else {
        0u8
    }
    &&& after.rngs.rewards == advance_n(before.rngs.rewards, (2 * cards.len()) as nat)
    &&& after == (Game { rngs: Rngs { rewards: after.rngs.rewards, ..before.rngs }, ..before })
}

impl Game {
    /// Up to `count` distinct cards of rarity `rarity` from `pool`, each upgraded by a
    /// roll (never a rare).
    pub fn fixed_cards(&mut self, content: &Content, pool: &Vec<Id>, rarity: CardRarity, count: usize) -> (cards: Vec<Card>)
        requires
            old(self).wf(content),
            ids_below(pool@, content.cards@.len() as int),
            old(self).run.act >= 1,
        ensures
            final(self).wf(content),
            fixed_drawn(*old(self), *final(self), content, pool@, rarity, count, cards@),
    {
        broadcast use vstd::seq_lib::group_filter_ensures;
        broadcast use Seq::lemma_filter_contains_rev;

        let mut options: Vec<Id> = Vec::new();
        let mut i: usize = 0;
        while i < pool.len()
            invariant
                i <= pool@.len(),
                ids_below(pool@, content.cards@.len() as int),
                options@ == of_card_rarity(content, pool@.take(i as int), rarity),
            decreases pool@.len() - i,
        {
            proof {
                reveal_with_fuel(Seq::<_>::filter, 1);
                assert(pool@.take(i + 1).drop_last() =~= pool@.take(i as int));
            }
            let id = pool[i];
            if content.cards[id as usize].rarity == rarity {
                options.push(id);
            }
            i = i + 1;
        }
        proof {
            assert(pool@.take(pool@.len() as int) =~= pool@);
        }
        let ghost all = options@;
        proof {
            assert forall|k: int| 0 <= k < all.len() implies pool@.contains(#[trigger] all[k])
                && content.cards@[all[k] as int].rarity == rarity by {
                assert(all.contains(all[k]));
            }
        }
        let take = if count < options.len() {
            count
        } else {
            options.len()
        };
        let mut cards: Vec<Card> = Vec::new();
        let mut n: usize = 0;
        while n < take
            invariant
                n <= take <= all.len(),
                options@.len() == all.len() - n,
                cards@.len() == n,
                self.wf(content),
                self.run.act >= 1,
                forall|k: int| 0 <= k < options@.len() ==> all.contains(#[trigger] options@[k]),
                forall|k: int| 0 <= k < all.len() ==> pool@.contains(#[trigger] all[k])
                    && content.cards@[all[k] as int].rarity == rarity,
                forall|k: int| 0 <= k < cards@.len() ==> {
                    let c = #[trigger] cards@[k];
                    &&& pool@.contains(c.id)
                    &&& content.cards@[c.id as int].rarity == rarity
                    &&& c.upgrades <= 1
                    &&& rarity == CardRarity::Rare ==> c.upgrades == 0
                    &&& c.instance == 0
                    &&& c.flags == 0
                },
                *self == (Game { rngs: Rngs { rewards: self.rngs.rewards, ..old(self).rngs }, ..*old(self) }),
                self.rngs.rewards == advance_n(old(self).rngs.rewards, (2 * n) as nat),
                forall|k: int| 0 <= k < cards@.len() ==> (#[trigger] cards@[k]).upgrades == if rarity != CardRarity::Rare
                    && rolled_upgrade(roll_at(old(self).rngs.rewards, 2 * k + 1), old(self).run.act, old(self).run.ascension) {
                    1u8
                } else {
                    0u8
                },
            decreases take - n,
        {
            let pick = self.rngs.rewards.index(options.len());
            let ghost before = options@;
            let id = options.remove(pick);
            proof {
                assert(all.contains(before[pick as int]));
                let m = choose|m: int| 0 <= m < all.len() && all[m] == id;
                assert(pool@.contains(all[m]) && content.cards@[all[m] as int].rarity == rarity);
                assert forall|k: int| 0 <= k < options@.len() implies all.contains(#[trigger] options@[k]) by {
                    if k < pick {
                        assert(options@[k] == before[k]);
                    } else {
                        assert(options@[k] == before[k + 1]);
                    }
                }
            }
            let roll = self.rngs.rewards.unit();
            let upgrade = reward_upgrade(roll, self.run.act, self.run.ascension);
            let upgrades: u8 = if upgrade && rarity != CardRarity::Rare {
                1
            } else {
                0
            };
            let ghost earlier = cards@;
            cards.push(Card { id, upgrades, instance: 0, flags: 0 });
            proof {
                let r0 = old(self).rngs.rewards;
                assert(advance_n(r0, (2 * n + 1) as nat) == crate::rng::next_rng(advance_n(r0, (2 * n) as nat)));
                assert(advance_n(r0, (2 * n + 2) as nat) == crate::rng::next_rng(advance_n(r0, (2 * n + 1) as nat)));
                assert(roll == roll_at(r0, 2 * n + 1));
                assert forall|k: int| 0 <= k < cards@.len() implies (#[trigger] cards@[k]).upgrades == if rarity
                    != CardRarity::Rare && rolled_upgrade(roll_at(r0, 2 * k + 1), old(self).run.act, old(self).run.ascension) {
                    1u8
                } else {
                    0u8
                } by {
                    if k < n {
                        assert(cards@[k] == earlier[k]);
                    }
                }
            }
            n = n + 1;
        }
        cards
    }

    /// The rarity of a card a merchant stocks: rare below the shop's rare chance
    /// (shifted by the rarity offset), uncommon below 37% more.
    pub fn shop_rarity(&mut self, content: &Content) -> (rarity: CardRarity)
        requires
            old(self).wf(content),
        ensures
            final(self).wf(content),
            rarity == rolled_rarity(roll_at(old(self).rngs.rewards, 0), shop_rare_chance(*old(self)), 3700),
            *final(self) == (Game { rngs: Rngs { rewards: crate::rng::next_rng(old(self).rngs.rewards), ..old(self).rngs }, ..*old(self) }),
    {
        let rare: i32 = if self.run.ascension >= 7 {
            450
        } else {
            900
        };
        let roll = self.rngs.rewards.unit();
        let rarity = reward_rarity(roll, rare + self.rarity_offset, 3700);
        assert(rolled_rarity(roll as int, shop_rare_chance(*old(self)), 3700) == rarity);
        rarity
    }
}


/// The potion rarity that a roll of `roll / UNIT` asks for in a fight: rare below a
/// tenth, uncommon below 0.35, else common.
pub open spec fn rolled_combat_potion_rarity(roll: int) -> PotionRarity {
    if roll * 10 < UNIT {
        PotionRarity::Rare
    } else if roll * 20 < 7 * UNIT {
        PotionRarity::Uncommon
    } else {
        PotionRarity::Common
    }
}

/// The potion rarity of a roll in a fight (see `rolled_combat_potion_rarity`).
pub fn combat_potion_rarity(roll: u32) -> (rarity: PotionRarity)
    requires
        roll < UNIT,
    ensures
        rarity == rolled_combat_potion_rarity(roll as int),
{
    let r: u64 = roll as u64;
    if r * 10 < 0x0100_0000 {
        PotionRarity::Rare
    } else if r * 20 < 7 * 0x0100_0000 {
        PotionRarity::Uncommon
    } else {
        PotionRarity::Common
    }
}

/// The potions among the first `n` of `pool` that a generation may give: not chosen yet
/// when `unique`, allowed in a fight when `combat`, of rarity `rarity` when one is asked.
pub open spec fn potion_candidates(
    content: &Content,
    pool: Seq<Id>,
    chosen: Seq<Id>,
    rarity: Option<PotionRarity>,
    combat: bool,
    unique: bool,
    n: int,
) -> Seq<Id>
    decreases n,
{
    if n <= 0 {
        seq![]
    } else {
        let id = pool[n - 1];
        let def = content.potions@[id as int];
        let prev = potion_candidates(content, pool, chosen, rarity, combat, unique, n - 1);
        if (!unique || !chosen.contains(id)) && (!combat || def.in_combat) && (rarity matches Some(r) ==> def.rarity == r) {
            prev.push(id)
        } else {
            prev
        }
    }
}

/// The potions a generation picks from for a roll asking for `rarity`: those of that
/// rarity, or any when there is none.
pub open spec fn generation_options(content: &Content, pool: Seq<Id>, chosen: Seq<Id>, rarity: PotionRarity, combat: bool, unique: bool) -> Seq<Id> {
    let strict = potion_candidates(content, pool, chosen, Some(rarity), combat, unique, pool.len() as int);
    if strict.len() > 0 {
        strict
    } else {
        potion_candidates(content, pool, chosen, None, combat, unique, pool.len() as int)
    }
}

/// The options of the `k`-th potion generated with the stream at `r`, given the ones
/// before it in `chosen`.
pub open spec fn generation_options_at(r: Rng, content: &Content, pool: Seq<Id>, chosen: Seq<Id>, combat: bool, unique: bool, k: int) -> Seq<Id> {
    generation_options(content, pool, chosen.take(k), rolled_combat_potion_rarity(roll_at(r, 2 * k)), combat, unique)
}

/// Each potion of `chosen` is the one its two draws give: a rarity, then a pick among
/// its options (see `generation_options`).
#[verifier::opaque]
pub open spec fn potions_generated(r: Rng, content: &Content, pool: Seq<Id>, combat: bool, unique: bool, chosen: Seq<Id>) -> bool {
    forall|k: int| 0 <= k < chosen.len() ==> #[trigger] chosen[k] == generation_options_at(r, content, pool, chosen, combat, unique, k)[
        (raw_value(advance_n(r, (2 * k + 1) as nat)) % (generation_options_at(r, content, pool, chosen, combat, unique, k).len() as u64)) as int
    ]
}

proof fn lemma_potion_generated(r: Rng, content: &Content, pool: Seq<Id>, combat: bool, unique: bool, chosen: Seq<Id>, x: Id)
    requires
        potions_generated(r, content, pool, combat, unique, chosen),
        x == generation_options_at(r, content, pool, chosen.push(x), combat, unique, chosen.len() as int)[
            (raw_value(advance_n(r, (2 * chosen.len() + 1) as nat)) % (generation_options_at(
                r,
                content,
                pool,
                chosen.push(x),
                combat,
                unique,
                chosen.len() as int,
            ).len() as u64)) as int
        ],
    ensures
        potions_generated(r, content, pool, combat, unique, chosen.push(x)),
{
    reveal(potions_generated);
    let longer = chosen.push(x);
    assert forall|k: int| 0 <= k < longer.len() implies #[trigger] longer[k] == generation_options_at(
        r,
        content,
        pool,
        longer,
        combat,
        unique,
        k,
    )[(raw_value(advance_n(r, (2 * k + 1) as nat)) % (generation_options_at(r, content, pool, longer, combat, unique, k).len() as u64)) as int] by {
        if k < chosen.len() {
            assert(longer[k] == chosen[k]);
            assert(longer.take(k) =~= chosen.take(k));
        }
    }
}

impl Game {
    /// Generates up to `count` potions from `pool`, each of a rolled rarity when one is
    /// left (else any): with `combat` only those a fight may generate, with `unique`
    /// each at most once.
    pub fn random_potions(&mut self, content: &Content, pool: &Vec<Id>, count: usize, combat: bool, unique: bool) -> (chosen: Vec<Id>)
        requires
            old(self).wf(content),
            ids_below(pool@, content.potions@.len() as int),
        ensures
            final(self).wf(content),
            chosen@.len() <= count,
            forall|k: int| 0 <= k < chosen@.len() ==> pool@.contains(#[trigger] chosen@[k])
                && (combat ==> content.potions@[chosen@[k] as int].in_combat),
            unique ==> chosen@.no_duplicates(),
            potions_generated(old(self).rngs.combat_potion_generation, content, pool@, combat, unique, chosen@),
            chosen@.len() < count ==> generation_options_at(
                old(self).rngs.combat_potion_generation,
                content,
                pool@,
                chosen@,
                combat,
                unique,
                chosen@.len() as int,
            ).len() == 0,
            final(self).rngs.combat_potion_generation == advance_n(
                old(self).rngs.combat_potion_generation,
                (2 * chosen@.len() + if chosen@.len() < count { 1int } else { 0 }) as nat,
            ),
            *final(self) == (Game {
                rngs: Rngs { combat_potion_generation: final(self).rngs.combat_potion_generation, ..old(self).rngs },
                ..*old(self)
            }),
    {
        let mut chosen: Vec<Id> = Vec::new();
        let mut n: usize = 0;
        let ghost r0 = old(self).rngs.combat_potion_generation;
        assert(potions_generated(r0, content, pool@, combat, unique, chosen@)) by {
            reveal(potions_generated);
        }
        while n < count
            invariant_except_break
                chosen@.len() == n,
                self.rngs.combat_potion_generation == advance_n(r0, (2 * n) as nat),
            invariant
                r0 == old(self).rngs.combat_potion_generation,
                potions_generated(r0, content, pool@, combat, unique, chosen@),
                n <= count,
                chosen@.len() <= n,
                self.wf(content),
                ids_below(pool@, content.potions@.len() as int),
                forall|k: int| 0 <= k < chosen@.len() ==> pool@.contains(#[trigger] chosen@[k])
                    && (combat ==> content.potions@[chosen@[k] as int].in_combat),
                unique ==> chosen@.no_duplicates(),
                *self == (Game {
                    rngs: Rngs { combat_potion_generation: self.rngs.combat_potion_generation, ..old(self).rngs },
                    ..*old(self)
                }),
            ensures
                chosen@.len() < count ==> generation_options_at(r0, content, pool@, chosen@, combat, unique, chosen@.len() as int).len()
                    == 0,
                self.rngs.combat_potion_generation == advance_n(
                    r0,
                    (2 * chosen@.len() + if chosen@.len() < count { 1int } else { 0 }) as nat,
                ),
            decreases count - n,
        {
            let roll = self.rngs.combat_potion_generation.unit();
            let rarity = combat_potion_rarity(roll);
            proof {
                assert(roll == roll_at(r0, 2 * n));
                assert(chosen@.take(n as int) =~= chosen@);
            }
            let mut options: Vec<Id> = Vec::new();
            let mut any_rarity = false;
            while options.len() == 0
                invariant
                    !any_rarity ==> options@.len() == 0,
                    any_rarity && options@.len() == 0 ==> potion_candidates(content, pool@, chosen@, Some(rarity), combat, unique, pool@.len() as int).len() == 0,
                    options@.len() > 0 ==> options@ == generation_options(content, pool@, chosen@, rarity, combat, unique),
                    ids_below(pool@, content.potions@.len() as int),
                    forall|k: int| 0 <= k < options@.len() ==> pool@.contains(#[trigger] options@[k])
                        && (combat ==> content.potions@[options@[k] as int].in_combat)
                        && (unique ==> !chosen@.contains(options@[k])),
                ensures
                    options@.len() > 0 ==> options@ == generation_options(content, pool@, chosen@, rarity, combat, unique),
                    options@.len() == 0 ==> generation_options(content, pool@, chosen@, rarity, combat, unique).len() == 0,
                decreases if any_rarity { 0int } else { 1 },
            {
                let mut i: usize = 0;
                while i < pool.len()
                    invariant
                        options@ == potion_candidates(
                            content,
                            pool@,
                            chosen@,
                            if any_rarity { None } else { Some(rarity) },
                            combat,
                            unique,
                            i as int,
                        ),
                        i <= pool@.len(),
                        ids_below(pool@, content.potions@.len() as int),
                        forall|k: int| 0 <= k < options@.len() ==> pool@.contains(#[trigger] options@[k])
                            && (combat ==> content.potions@[options@[k] as int].in_combat)
                            && (unique ==> !chosen@.contains(options@[k])),
                    decreases pool@.len() - i,
                {
                    let id = pool[i];
                    let def = &content.potions[id as usize];
                    if (!unique || !crate::game::contains_id(&chosen, id)) && (!combat || def.in_combat) && (any_rarity
                        || def.rarity == rarity) {
                        options.push(id);
                        proof {
                            assert(pool@.contains(pool@[i as int]));
                        }
                    }
                    i = i + 1;
                }
                if any_rarity {
                    break;
                }
                any_rarity = true;
            }
            if options.len() == 0 {
                break;
            }
            let pick = self.rngs.combat_potion_generation.index(options.len());
            let ghost before = chosen@;
            chosen.push(options[pick]);
            proof {
                assert(advance_n(r0, (2 * n + 1) as nat) == crate::rng::next_rng(advance_n(r0, (2 * n) as nat)));
                assert(advance_n(r0, (2 * n + 2) as nat) == crate::rng::next_rng(advance_n(r0, (2 * n + 1) as nat)));
                assert(before.push(options@[pick as int]).take(n as int) =~= before);
                lemma_potion_generated(r0, content, pool@, combat, unique, before, options@[pick as int]);
                if unique {
                    assert forall|a: int, b: int| 0 <= a < chosen@.len() && 0 <= b < chosen@.len() && a != b
                        implies chosen@[a] != chosen@[b] by {
                        if a == before.len() {
                            assert(before[b] == chosen@[b]);
                            assert(before.contains(before[b]));
                        } else if b == before.len() {
                            assert(before[a] == chosen@[a]);
                            assert(before.contains(before[a]));
                        }
                    }
                }
            }
            n = n + 1;
        }
        chosen
    }
}


impl Game {
    /// The cards a reward drawn from `base` may offer (see `in_reward_pool`), in
    /// order, repeats kept.
    fn build_pool(&self, content: &Content, base: &Vec<Id>) -> (pool: Vec<Id>)
        requires
            self.wf(content),
            ids_below(base@, content.cards@.len() as int),
        ensures
            ids_below(pool@, content.cards@.len() as int),
            forall|k: int| 0 <= k < pool@.len() ==> in_reward_pool(*self, content, base@, #[trigger] pool@[k]),
            forall|id: Id| in_reward_pool(*self, content, base@, id) ==> pool@.contains(id),
    {
        let mut pool: Vec<Id> = Vec::new();
        if self.has_relic(content, "RELIC.PRISMATIC_GEM") {
            let mut c: usize = 0;
            while c < content.characters.len()
                invariant
                    content.wf(),
                    c <= content.characters@.len(),
                    ids_below(pool@, content.cards@.len() as int),
                    forall|k: int| 0 <= k < pool@.len() ==> character_card(content, #[trigger] pool@[k]),
                    forall|d: int, id: Id| 0 <= d < c && #[trigger] content.characters@[d].cards@.contains(id) ==> pool@.contains(id),
                decreases content.characters@.len() - c,
            {
                let def = &content.characters[c];
                assert(def.wf(content));
                let ghost before = pool@;
                let mut j: usize = 0;
                while j < def.cards.len()
                    invariant
                        j <= def.cards@.len(),
                        c < content.characters@.len(),
                        *def == content.characters@[c as int],
                        ids_below(def.cards@, content.cards@.len() as int),
                        ids_below(pool@, content.cards@.len() as int),
                        forall|k: int| 0 <= k < pool@.len() ==> character_card(content, #[trigger] pool@[k]),
                        pool@.len() == before.len() + j,
                        forall|k: int| 0 <= k < before.len() ==> #[trigger] pool@[k] == before[k],
                        forall|k: int| 0 <= k < j ==> #[trigger] pool@[before.len() + k] == def.cards@[k],
                    decreases def.cards@.len() - j,
                {
                    let id = def.cards[j];
                    pool.push(id);
                    proof {
                        assert(def.cards@.contains(def.cards@[j as int]));
                        assert(content.characters@[c as int].cards@.contains(id));
                    }
                    j = j + 1;
                }
                proof {
                    assert forall|d: int, id: Id| 0 <= d < c + 1 && #[trigger] content.characters@[d].cards@.contains(id)
                        implies pool@.contains(id) by {
                        if d < c {
                            let m = choose|m: int| 0 <= m < before.len() && before[m] == id;
                            assert(pool@[m] == id);
                        } else {
                            let m = choose|m: int| 0 <= m < def.cards@.len() && def.cards@[m] == id;
                            assert(pool@[before.len() + m] == id);
                        }
                    }
                }
                c = c + 1;
            }
        } else {
            pool = base.clone();
            if self.has_relic(content, "RELIC.DINGY_RUG") {
                let mut j: usize = 0;
                while j < content.colorless.len()
                    invariant
                        j <= content.colorless@.len(),
                        content.wf(),
                        ids_below(pool@, content.cards@.len() as int),
                        pool@.len() == base@.len() + j,
                        forall|k: int| 0 <= k < base@.len() ==> #[trigger] pool@[k] == base@[k],
                        forall|k: int| 0 <= k < j ==> #[trigger] pool@[base@.len() + k] == content.colorless@[k],
                        forall|k: int| 0 <= k < pool@.len() ==> base@.contains(#[trigger] pool@[k]) || content.colorless@.contains(pool@[k]),
                    decreases content.colorless@.len() - j,
                {
                    let id = content.colorless[j];
                    pool.push(id);
                    proof {
                        assert(content.colorless@.contains(content.colorless@[j as int]));
                    }
                    j = j + 1;
                }
                proof {
                    assert forall|id: Id| base@.contains(id) || content.colorless@.contains(id) implies pool@.contains(id) by {
                        if base@.contains(id) {
                            let m = choose|m: int| 0 <= m < base@.len() && base@[m] == id;
                            assert(pool@[m] == id);
                        } else {
                            let m = choose|m: int| 0 <= m < content.colorless@.len() && content.colorless@[m] == id;
                            assert(pool@[base@.len() + m] == id);
                        }
                    }
                }
            } else {
                proof {
                    assert forall|k: int| 0 <= k < pool@.len() implies base@.contains(#[trigger] pool@[k]) by {
                        assert(pool@[k] == base@[k]);
                    }
                    assert(pool@ == base@);
                }
            }
        }
        pool
    }
}


impl Game {
    /// Up to three cards of rarity `rarity` that the Crystal Sphere reveals, drawn from
    /// the character's reward pool with the event's stream.
    pub fn crystal_cards(&mut self, content: &Content, rarity: CardRarity) -> (cards: Vec<Card>)
        requires
            old(self).wf(content),
            old(self).run.act >= 1,
            (exists|id: Id| in_reward_pool(*old(self), content, content.characters@[old(self).run.character as int].cards@, id)
                && content.cards@[id as int].rarity == rarity) ==> old(self).event_rng is Some,
        ensures
            final(self).wf(content),
            cards@.len() <= 3,
            forall|k: int| 0 <= k < cards@.len() ==> {
                let c = #[trigger] cards@[k];
                &&& in_reward_pool(*old(self), content, content.characters@[old(self).run.character as int].cards@, c.id)
                &&& content.cards@[c.id as int].rarity == rarity
                &&& c.upgrades <= 1
                &&& rarity == CardRarity::Rare ==> c.upgrades == 0
                &&& c.instance == 0
                &&& c.flags == 0
            },
            cards_valid(cards@, content),
            old(self).event_rng is Some ==> final(self).event_rng is Some,
            *final(self) == (Game { event_rng: final(self).event_rng, ..*old(self) }),
    {
        let def = &content.characters[self.run.character as usize];
        assert(def.wf(content));
        let all = self.build_pool(content, &def.cards);
        let ghost base = def.cards@;
        let mut pool: Vec<Id> = Vec::new();
        let mut i: usize = 0;
        while i < all.len()
            invariant
                i <= all@.len(),
                ids_below(all@, content.cards@.len() as int),
                forall|k: int| 0 <= k < pool@.len() ==> all@.contains(#[trigger] pool@[k])
                    && content.cards@[pool@[k] as int].rarity == rarity,
                ids_below(pool@, content.cards@.len() as int),
                forall|k: int| 0 <= k < i && content.cards@[all@[k] as int].rarity == rarity ==> pool@.contains(#[trigger] all@[k]),
            decreases all@.len() - i,
        {
            let id = all[i];
            let ghost before = pool@;
            if content.cards[id as usize].rarity == rarity {
                pool.push(id);
                proof {
                    assert(all@.contains(all@[i as int]));
                }
            }
            proof {
                assert forall|k: int| 0 <= k < i + 1 && content.cards@[all@[k] as int].rarity == rarity
                    implies pool@.contains(#[trigger] all@[k]) by {
                    if k < i {
                        let m = choose|m: int| 0 <= m < before.len() && before[m] == all@[k];
                        assert(pool@[m] == all@[k]);
                    } else {
                        assert(pool@[pool@.len() - 1] == id);
                    }
                }
            }
            i = i + 1;
        }
        let mut cards: Vec<Card> = Vec::new();
        if pool.len() == 0 {
            return cards;
        }
        proof {
            let id = pool@[0];
            assert(all@.contains(id));
            let m = choose|m: int| 0 <= m < all@.len() && all@[m] == id;
            assert(in_reward_pool(*old(self), content, base, all@[m]));
        }
        let mut rng = match self.event_rng {
            Some(r) => r,
            None => {
                return cards;
            },
        };
        let take = if pool.len() < 3 {
            pool.len()
        } else {
            3
        };
        let mut n: usize = 0;
        while n < take
            invariant
                n <= take <= 3,
                take <= pool@.len() + n,
                cards@.len() == n,
                self.run == old(self).run,
                self.run.act >= 1,
                forall|k: int| 0 <= k < pool@.len() ==> all@.contains(#[trigger] pool@[k])
                    && content.cards@[pool@[k] as int].rarity == rarity,
                forall|k: int| 0 <= k < all@.len() ==> in_reward_pool(*old(self), content, base, #[trigger] all@[k]),
                ids_below(all@, content.cards@.len() as int),
                forall|k: int| 0 <= k < cards@.len() ==> {
                    let c = #[trigger] cards@[k];
                    &&& in_reward_pool(*old(self), content, base, c.id)
                    &&& content.cards@[c.id as int].rarity == rarity
                    &&& c.upgrades <= 1
                    &&& rarity == CardRarity::Rare ==> c.upgrades == 0
                    &&& c.instance == 0
                    &&& c.flags == 0
                    &&& c.id < content.cards@.len()
                },
            decreases take - n,
        {
            let pick = rng.index(pool.len());
            let ghost before = pool@;
            let id = pool.remove(pick);
            proof {
                assert(all@.contains(before[pick as int]));
                let m = choose|m: int| 0 <= m < all@.len() && all@[m] == id;
                assert(in_reward_pool(*old(self), content, base, all@[m]));
                assert forall|k: int| 0 <= k < pool@.len() implies all@.contains(#[trigger] pool@[k])
                    && content.cards@[pool@[k] as int].rarity == rarity by {
                    if k < pick {
                        assert(pool@[k] == before[k]);
                    } else {
                        assert(pool@[k] == before[k + 1]);
                    }
                }
            }
            let roll = rng.unit();
            let upgrade = reward_upgrade(roll, self.run.act, self.run.ascension);
            let upgrades: u8 = if upgrade && rarity != CardRarity::Rare {
                1
            } else {
                0
            };
            cards.push(Card { id, upgrades, instance: 0, flags: 0 });
            n = n + 1;
        }
        self.event_rng = Some(rng);
        cards
    }
}


/// `ids` ordered by character name (a stable insertion sort).
fn sort_characters(content: &Content, ids: Vec<Id>) -> (sorted: Vec<Id>)
    requires
        ids_below(ids@, content.characters@.len() as int),
    ensures
        sorted@.to_multiset() == ids@.to_multiset(),
        ids_below(sorted@, content.characters@.len() as int),
{
    broadcast use vstd::seq_lib::group_to_multiset_ensures;

    let mut out: Vec<Id> = Vec::new();
    let mut i: usize = 0;
    while i < ids.len()
        invariant
            i <= ids@.len(),
            ids_below(ids@, content.characters@.len() as int),
            ids_below(out@, content.characters@.len() as int),
            out@.to_multiset() == ids@.take(i as int).to_multiset(),
        decreases ids@.len() - i,
    {
        let x = ids[i];
        let mut at: usize = out.len();
        while at > 0 && name_before(&content.characters[x as usize].id, &content.characters[out[at - 1] as usize].id)
            invariant
                at <= out@.len(),
                x < content.characters@.len(),
                ids_below(out@, content.characters@.len() as int),
            decreases at,
        {
            at = at - 1;
        }
        let ghost before = out@;
        out.insert(at, x);
        proof {
            vstd::seq_lib::to_multiset_insert(before, at as int, x);
            assert(ids@.take(i + 1) =~= ids@.take(i as int).push(x));
            vstd::seq_lib::to_multiset_build(ids@.take(i as int), x);
            assert forall|k: int| 0 <= k < out@.len() implies (#[trigger] out@[k]) < content.characters@.len() by {
                if k < at {
                    assert(out@[k] == before[k]);
                } else if k > at {
                    assert(out@[k] == before[k - 1]);
                }
            }
        }
        i = i + 1;
    }
    proof {
        assert(ids@.take(ids@.len() as int) =~= ids@);
    }
    out
}

/// Whether `id` is a card of a character other than `me`.
pub open spec fn other_character_card(content: &Content, me: Id, id: Id) -> bool {
    exists|c: int| 0 <= c < content.characters@.len() && c != me && #[trigger] content.characters@[c].cards@.contains(id)
}

impl Game {
    /// The Kaleidoscope's reward: one card from each of three other characters (picked
    /// by the niche stream, in name order before the shuffle), each with the card
    /// reward odds of a fight and the reward-upgrading relics.
    pub fn kaleidoscope_cards(&mut self, content: &Content) -> (cards: Vec<Card>)
        requires
            old(self).wf(content),
            old(self).run.act >= 1,
        ensures
            final(self).wf(content),
            cards@.len() <= 3,
            cards_valid(cards@, content),
            forall|k: int| 0 <= k < cards@.len() ==> {
                let c = #[trigger] cards@[k];
                &&& other_character_card(content, old(self).run.character, c.id)
                &&& c.upgrades <= 1
                &&& c.instance == 0
                &&& c.flags == 0
            },
            *final(self) == (Game {
                rngs: Rngs { rewards: final(self).rngs.rewards, niche: final(self).rngs.niche, ..old(self).rngs },
                rarity_offset: final(self).rarity_offset,
                silver_crucible: final(self).silver_crucible,
                ..*old(self)
            }),
    {
        broadcast use vstd::seq_lib::group_to_multiset_ensures;

        let mut others: Vec<Id> = Vec::new();
        let mut c: usize = 0;
        while c < content.characters.len()
            invariant
                c <= content.characters@.len(),
                content.wf(),
                ids_below(others@, content.characters@.len() as int),
                forall|k: int| 0 <= k < others@.len() ==> (#[trigger] others@[k]) != old(self).run.character,
                self.run.character == old(self).run.character,
            decreases content.characters@.len() - c,
        {
            if c != self.run.character as usize && content.characters[c].cards.len() > 0 {
                others.push(c as Id);
            }
            c = c + 1;
        }
        let ghost collected = others@;
        let others = sort_characters(content, others);
        let mut others = others;
        self.rngs.niche.shuffle(&mut others);
        proof {
            assert forall|k: int| 0 <= k < others@.len() implies (#[trigger] others@[k]) < content.characters@.len()
                && others@[k] != old(self).run.character by {
                assert(others@.contains(others@[k]));
                assert(others@.to_multiset().count(others@[k]) > 0);
                assert(collected.contains(others@[k]));
            }
        }
        let mut cards: Vec<Card> = Vec::new();
        let mut n: usize = 0;
        while n < others.len() && n < 3
            invariant
                n <= others@.len(),
                n <= 3,
                cards@.len() <= n,
                self.wf(content),
                self.run == old(self).run,
                self.run.act >= 1,
                forall|k: int| 0 <= k < others@.len() ==> (#[trigger] others@[k]) < content.characters@.len()
                    && others@[k] != old(self).run.character,
                cards_valid(cards@, content),
                forall|k: int| 0 <= k < cards@.len() ==> {
                    let c = #[trigger] cards@[k];
                    &&& other_character_card(content, old(self).run.character, c.id)
                    &&& c.upgrades <= 1
                    &&& c.instance == 0
                    &&& c.flags == 0
                },
                *self == (Game {
                    rngs: Rngs { rewards: self.rngs.rewards, niche: self.rngs.niche, ..old(self).rngs },
                    rarity_offset: self.rarity_offset,
                    silver_crucible: self.silver_crucible,
                    ..*old(self)
                }),
            decreases others@.len() - n,
        {
            let ch = others[n];
            let def = &content.characters[ch as usize];
            assert(def.wf(content));
            let mut card = self.card_rewards(content, &def.cards, 1, Room::Combat);
            let ghost rolled = card@;
            proof {
                assert forall|k: int| 0 <= k < card@.len() implies (#[trigger] card@[k]).id < content.cards@.len() by {
                    assert(def.cards@.contains(card@[k].id));
                }
            }
            self.modify_reward_cards(content, &mut card);
            let ghost before = cards@;
            cards.append(&mut card);
            proof {
                assert forall|k: int| 0 <= k < cards@.len() implies {
                    let c = #[trigger] cards@[k];
                    &&& other_character_card(content, old(self).run.character, c.id)
                    &&& c.upgrades <= 1
                    &&& c.instance == 0
                    &&& c.flags == 0
                    &&& c.id < content.cards@.len()
                } by {
                    if k >= before.len() {
                        let j = k - before.len();
                        assert(def.cards@.contains(rolled[j].id));
                        assert(content.characters@[ch as int].cards@.contains(rolled[j].id));
                    } else {
                        assert(cards@[k] == before[k]);
                    }
                }
            }
            n = n + 1;
        }
        cards
    }
}


/// The pool that a standard card reward draws from: the character's cards, or the
/// act's when the character has none.
pub open spec fn standard_base(g: Game, content: &Content) -> Seq<Id> {
    let own = content.characters@[g.run.character as int].cards@;
    if own.len() == 0 {
        content.acts@[g.act as int].cards@
    } else {
        own
    }
}

/// Whether `card` can come out of the card reward `reward` rolled in `g`.
pub open spec fn from_reward(g: Game, content: &Content, reward: CardReward, card: Card) -> bool {
    &&& card.upgrades <= 1
    &&& card.instance == 0
    &&& card.flags == 0
    &&& match reward {
        CardReward::Standard(_) => in_reward_pool(g, content, standard_base(g, content), card.id),
        CardReward::Fixed(c, rarity) => content.characters@[c as int].cards@.contains(card.id)
            && content.cards@[card.id as int].rarity == rarity,
        CardReward::Kaleidoscope => other_character_card(content, g.run.character, card.id),
        CardReward::Crystal(rarity) => in_reward_pool(g, content, content.characters@[g.run.character as int].cards@, card.id)
            && content.cards@[card.id as int].rarity == rarity,
    }
}

/// Whether rolling `reward` in `g` may use the event's stream without one.
pub open spec fn reward_rollable(g: Game, content: &Content, reward: CardReward) -> bool {
    &&& reward matches CardReward::Fixed(c, _) ==> c < content.characters@.len()
    &&& reward matches CardReward::Crystal(rarity) ==> ((exists|id: Id| in_reward_pool(g, content, content.characters@[g.run.character as int].cards@, id)
        && content.cards@[id as int].rarity == rarity) ==> g.event_rng is Some)
}

/// `after` is `before` once the card reward `reward` was rolled into `cards` (see
/// `Game::make_card_reward`): at most four cards that the reward can offer, drawn
/// from the random streams.
pub open spec fn card_reward_rolled(before: Game, after: Game, content: &Content, reward: CardReward, cards: Seq<Card>) -> bool {
    &&& cards_valid(cards, content)
    &&& cards.len() <= 4
    &&& forall|k: int| 0 <= k < cards.len() ==> from_reward(before, content, reward, #[trigger] cards[k])
    &&& before.event_rng is Some ==> after.event_rng is Some
    &&& after == (Game {
        rngs: Rngs { rewards: after.rngs.rewards, niche: after.rngs.niche, ..before.rngs },
        rarity_offset: after.rarity_offset,
        silver_crucible: after.silver_crucible,
        event_rng: after.event_rng,
        ..before
    })
}

impl Game {
    /// Rolls the cards of a card reward.
    pub fn make_card_reward(&mut self, content: &Content, reward: CardReward) -> (cards: Vec<Card>)
        requires
            old(self).wf(content),
            old(self).run.act >= 1,
            reward_rollable(*old(self), content, reward),
        ensures
            final(self).wf(content),
            card_reward_rolled(*old(self), *final(self), content, reward, cards@),
    {
        match reward {
            CardReward::Standard(room) => {
                let own = &content.characters[self.run.character as usize];
                assert(own.wf(content));
                let act = &content.acts[self.act as usize];
                assert(act.wf(content));
                let base = if own.cards.len() == 0 {
                    &act.cards
                } else {
                    &own.cards
                };
                let cards = self.reward_cards(content, base, 3, room);
                proof {
                    assert(base@ == standard_base(*old(self), content));
                    assert(cards@.len() <= 4);
                }
                cards
            },
            CardReward::Fixed(character, rarity) => {
                let def = &content.characters[character as usize];
                assert(def.wf(content));
                let mut cards = self.fixed_cards(content, &def.cards, rarity, 3);
                let ghost rolled = cards@;
                proof {
                    assert forall|k: int| 0 <= k < cards@.len() implies (#[trigger] cards@[k]).id < content.cards@.len() by {
                        assert(def.cards@.contains(cards@[k].id));
                    }
                }
                self.modify_reward_cards(content, &mut cards);
                proof {
                    assert forall|k: int| 0 <= k < cards@.len() implies from_reward(*old(self), content, reward, #[trigger] cards@[k]) by {
                        assert(cards@[k].id == rolled[k].id);
                    }
                }
                cards
            },
            CardReward::Kaleidoscope => self.kaleidoscope_cards(content),
            CardReward::Crystal(rarity) => {
                let mut cards = self.crystal_cards(content, rarity);
                let ghost rolled = cards@;
                let ghost mid = *self;
                self.modify_reward_cards(content, &mut cards);
                proof {
                    assert forall|k: int| 0 <= k < cards@.len() implies from_reward(*old(self), content, reward, #[trigger] cards@[k]) by {
                        assert(cards@[k].id == rolled[k].id);
                    }
                }
                cards
            },
        }
    }
}


/// `after` is `before` once the next card reward of its reward screen was rolled into
/// the screen's cards (none left: no cards); nothing without a reward screen (see
/// `Game::next_card_reward`).
pub open spec fn next_reward_rolled(before: Game, after: Game, content: &Content) -> bool {
    &&& !(before.phase is Rewards) ==> after == before
    &&& before.phase matches Phase::Rewards(r) ==> {
        &&& after.phase matches Phase::Rewards(f) && {
            &&& f.gold == r.gold && f.relics == r.relics && f.potions == r.potions && f.removals == r.removals
            &&& r.card_rewards@.len() == 0 ==> f.cards@.len() == 0 && f.card_rewards@.len() == 0
            &&& r.card_rewards@.len() > 0 ==> f.card_rewards@ == r.card_rewards@.drop_first()
                && forall|k: int| 0 <= k < f.cards@.len() ==> from_reward(before, content, r.card_rewards@[0], #[trigger] f.cards@[k])
        }
        &&& after == (Game {
            phase: after.phase,
            rngs: Rngs { rewards: after.rngs.rewards, niche: after.rngs.niche, ..before.rngs },
            rarity_offset: after.rarity_offset,
            silver_crucible: after.silver_crucible,
            event_rng: after.event_rng,
            ..before
        })
    }
}

impl Game {
    /// Offers the next pending card reward of the reward screen: its cards replace the
    /// offered ones (none when no reward is pending).
    pub fn next_card_reward(&mut self, content: &Content)
        requires
            old(self).wf(content),
            old(self).run.act >= 1,
            old(self).phase matches Phase::Rewards(r) ==> (r.card_rewards@.len() > 0 ==> reward_rollable(
                *old(self),
                content,
                r.card_rewards@[0],
            )),
        ensures
            final(self).wf(content),
            next_reward_rolled(*old(self), *final(self), content),
    {
        let reward = match &mut self.phase {
            Phase::Rewards(rewards) => {
                if rewards.card_rewards.len() > 0 {
                    Some(rewards.card_rewards.remove(0))
                } else {
                    None
                }
            },
            _ => {
                return;
            },
        };
        let ghost mid = *self;
        proof {
            let r = old(self).phase->Rewards_0;
            if r.card_rewards@.len() > 0 {
                assert(mid.phase->Rewards_0.card_rewards@ =~= r.card_rewards@.drop_first());
            }
            crate::deck::lemma_same_relics(*old(self), mid, content);
            assert(mid.wf(content)) by {
                let f = mid.phase->Rewards_0;
                assert forall|i: int| 0 <= i < f.card_rewards@.len() implies (#[trigger] f.card_rewards@[i] matches
                    CardReward::Fixed(c, _) ==> c < content.characters@.len()) by {
                    assert(f.card_rewards@[i] == r.card_rewards@[i + 1]);
                }
            }
        }
        let cards = match reward {
            Some(reward) => {
                proof {
                    lemma_rollable_same(*old(self), mid, content, reward);
                }
                let cards = self.make_card_reward(content, reward);
                proof {
                    assert forall|k: int| 0 <= k < cards@.len() implies from_reward(*old(self), content, reward, #[trigger] cards@[k]) by {
                        lemma_from_reward_same(*old(self), mid, content, reward, cards@[k]);
                    }
                }
                cards
            },
            None => Vec::new(),
        };
        match &mut self.phase {
            Phase::Rewards(rewards) => {
                rewards.cards = cards;
            },
            _ => {},
        }
    }
}

/// Rolling a reward does not depend on which card rewards are still pending.
proof fn lemma_rollable_same(a: Game, b: Game, content: &Content, reward: CardReward)
    requires
        a.run == b.run,
        a.melted_relics == b.melted_relics,
        a.event_rng == b.event_rng,
        reward_rollable(a, content, reward),
    ensures
        reward_rollable(b, content, reward),
{
    crate::deck::lemma_same_relics(a, b, content);
    let base = content.characters@[a.run.character as int].cards@;
    assert forall|id: Id| #[trigger] in_reward_pool(b, content, base, id) == in_reward_pool(a, content, base, id) by {}
}

/// What a card reward may give does not depend on which rewards are still pending.
proof fn lemma_from_reward_same(a: Game, b: Game, content: &Content, reward: CardReward, card: Card)
    requires
        a.run == b.run,
        a.act == b.act,
        a.melted_relics == b.melted_relics,
        from_reward(b, content, reward, card),
    ensures
        from_reward(a, content, reward, card),
{
    crate::deck::lemma_same_relics(a, b, content);
}

} // verus!
