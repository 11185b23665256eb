use vstd::prelude::*;
use crate::content::{Id, Content, ids_below};
use crate::rng::{Rng, UNIT, shuffled, next_rng, raw_value};
use crate::state::{Game, Rngs};
use crate::game::deques_valid;

verus! {

/// The relics of `ids` whose bag is `rarity`, in order.
pub open spec fn of_rarity(ids: Seq<Id>, content: &Content, rarity: u8) -> Seq<Id> {
    ids.filter(|id: Id| content.relics@[id as int].rarity == rarity)
}

/// The relics of `ids` whose bag is `rarity`, in order.
pub fn relics_of_rarity(ids: &Vec<Id>, content: &Content, rarity: u8) -> (out: Vec<Id>)
    requires
        ids_below(ids@, content.relics@.len() as int),
    ensures
        out@ == of_rarity(ids@, content, rarity),
{
    let ghost pred = |id: Id| content.relics@[id as int].rarity == rarity;
    let mut out: Vec<Id> = Vec::new();
    let mut i: usize = 0;
    while i < ids.len()
        invariant
            i <= ids@.len(),
            ids_below(ids@, content.relics@.len() as int),
            pred == (|id: Id| content.relics@[id as int].rarity == rarity),
            out@ == ids@.take(i as int).filter(pred),
        decreases ids@.len() - i,
    {
        proof {
            reveal_with_fuel(Seq::<_>::filter, 1);
            assert(ids@.take(i + 1).drop_last() =~= ids@.take(i as int));
        }
        if content.relics[ids[i] as usize].rarity == rarity {
            out.push(ids[i]);
        }
        i = i + 1;
    }
    proof {
        assert(ids@.take(ids@.len() as int) =~= ids@);
    }
    out
}

/// The four relic bags of `ids` with the stream at `rng`, and the stream after: each
/// rarity's relics in order, shuffled one bag after the other.
pub open spec fn bags_of(ids: Seq<Id>, content: &Content, rng: Rng) -> (Seq<Seq<Id>>, Rng) {
    let a = shuffled(rng, of_rarity(ids, content, 0));
    let b = shuffled(a.1, of_rarity(ids, content, 1));
    let c = shuffled(b.1, of_rarity(ids, content, 2));
    let d = shuffled(c.1, of_rarity(ids, content, 3));
    (seq![a.0, b.0, c.0, d.0], d.1)
}

/// Splits `ids` into the four relic bags by rarity, each bag shuffled.
pub fn relic_deques(ids: &Vec<Id>, content: &Content, rng: &mut Rng) -> (deques: [Vec<Id>; 4])
    requires
        ids_below(ids@, content.relics@.len() as int),
    ensures
        forall|r: int| 0 <= r < 4 ==> (#[trigger] deques@[r])@ == bags_of(ids@, content, *old(rng)).0[r],
        *final(rng) == bags_of(ids@, content, *old(rng)).1,
        forall|r: int|
            0 <= r < 4 ==> (#[trigger] deques@[r])@.to_multiset() == of_rarity(
                ids@,
                content,
                r as u8,
            ).to_multiset(),
        deques_valid(deques, content),
{
    let mut d0 = relics_of_rarity(ids, content, 0);
    let mut d1 = relics_of_rarity(ids, content, 1);
    let mut d2 = relics_of_rarity(ids, content, 2);
    let mut d3 = relics_of_rarity(ids, content, 3);
    rng.shuffle(&mut d0);
    rng.shuffle(&mut d1);
    rng.shuffle(&mut d2);
    rng.shuffle(&mut d3);
    proof {
        broadcast use vstd::seq_lib::group_to_multiset_ensures;
        broadcast use vstd::seq_lib::group_filter_ensures;
        lemma_multiset_ids_below(d0@, ids@, content, 0);
        lemma_multiset_ids_below(d1@, ids@, content, 1);
        lemma_multiset_ids_below(d2@, ids@, content, 2);
        lemma_multiset_ids_below(d3@, ids@, content, 3);
    }
    let deques = [d0, d1, d2, d3];
    assert(deques@[0]@ == d0@);
    assert(deques@[1]@ == d1@);
    assert(deques@[2]@ == d2@);
    assert(deques@[3]@ == d3@);
    deques
}

/// A permutation of the relics of one rarity holds valid relics.
proof fn lemma_multiset_ids_below(a: Seq<Id>, ids: Seq<Id>, content: &Content, rarity: u8)
    requires
        ids_below(ids, content.relics@.len() as int),
        a.to_multiset() == of_rarity(ids, content, rarity).to_multiset(),
    ensures
        ids_below(a, content.relics@.len() as int),
{
    let pred = |id: Id| content.relics@[id as int].rarity == rarity;
    let filtered = ids.filter(pred);
    assert forall|i: int| 0 <= i < a.len() implies (#[trigger] a[i]) < content.relics@.len() by {
        a.to_multiset_ensures();
        filtered.to_multiset_ensures();
        assert(a.contains(a[i]));
        assert(a.to_multiset().count(a[i]) > 0);
        assert(filtered.to_multiset().count(a[i]) > 0);
        assert(filtered.contains(a[i]));
        ids.lemma_filter_contains_rev(pred, a[i]);
        let k = choose|k: int| 0 <= k < ids.len() && ids[k] == a[i];
        assert(ids[k] < content.relics@.len());
    }
}

/// The bag order tried when the requested bag is empty: shop falls back to common,
/// common to uncommon, uncommon to rare.
pub open spec fn fallback(rarity: usize) -> Seq<usize> {
    if rarity == 3 {
        seq![3usize, 0, 1, 2]
    } else if rarity == 0 {
        seq![0usize, 1, 2]
    } else if rarity == 1 {
        seq![1usize, 2]
    } else {
        seq![2usize]
    }
}

/// Whether a relic may be taken under the shop restriction.
pub open spec fn allowed(content: &Content, shop: bool, id: Id) -> bool {
    !shop || content.relics@[id as int].shop_allowed
}

/// `index` is the first (or, with `back`, the last) position of `bag` holding an
/// allowed relic, or `None` if there is none.
pub open spec fn first_allowed(
    bag: Seq<Id>,
    content: &Content,
    shop: bool,
    back: bool,
    index: Option<usize>,
) -> bool {
    match index {
        Some(i) => i < bag.len() && allowed(content, shop, bag[i as int]) && if back {
            forall|k: int| i < k < bag.len() ==> !allowed(content, shop, #[trigger] bag[k])
        } else {
            forall|k: int| 0 <= k < i ==> !allowed(content, shop, #[trigger] bag[k])
        },
        None => forall|k: int| 0 <= k < bag.len() ==> !allowed(content, shop, #[trigger] bag[k]),
    }
}

fn find_allowed(bag: &Vec<Id>, content: &Content, shop: bool, back: bool) -> (index: Option<usize>)
    requires
        ids_below(bag@, content.relics@.len() as int),
    ensures
        first_allowed(bag@, content, shop, back, index),
{
    let len = bag.len();
    let mut step: usize = 0;
    while step < len
        invariant
            step <= len,
            len == bag@.len(),
            ids_below(bag@, content.relics@.len() as int),
            back ==> forall|k: int| len - step <= k < len ==> !allowed(content, shop, #[trigger] bag@[k]),
            !back ==> forall|k: int| 0 <= k < step ==> !allowed(content, shop, #[trigger] bag@[k]),
        decreases len - step,
    {
        let i = if back { len - 1 - step } else { step };
        if !shop || content.relics[bag[i] as usize].shop_allowed {
            return Some(i);
        }
        step = step + 1;
    }
    None
}

/// Removes every copy of `id` from `bag`.
fn remove_all(bag: &mut Vec<Id>, id: Id)
    ensures
        final(bag)@ == without_relic(old(bag)@, id),
{
    let ghost given = bag@;
    let mut out: Vec<Id> = Vec::new();
    let mut i: usize = 0;
    while i < bag.len()
        invariant
            i <= bag@.len(),
            bag@ == given,
            out@ == without_relic(given.take(i as int), id),
        decreases bag@.len() - i,
    {
        proof {
            reveal_with_fuel(Seq::<_>::filter, 1);
            assert(given.take(i + 1).drop_last() =~= given.take(i as int));
        }
        if bag[i] != id {
            out.push(bag[i]);
        }
        i = i + 1;
    }
    proof {
        assert(given.take(given.len() as int) =~= given);
    }
    *bag = out;
}

/// The bag that a relic roll in `0..UNIT` lands in: common below one half,
/// uncommon below five sixths, rare above.
pub open spec fn relic_rarity(roll: u32) -> usize {
    if (roll as int) * 2 < UNIT as int {
        0
    } else if (roll as int) * 6 < 5 * (UNIT as int) {
        1
    } else {
        2
    }
}

/// Dropping copies of a relic from a bag keeps it a bag of valid relics.
pub(crate) proof fn lemma_filter_ids_below(bag: Seq<Id>, id: Id, len: int)
    requires
        ids_below(bag, len),
    ensures
        ids_below(without_relic(bag, id), len),
{
    broadcast use vstd::seq_lib::group_filter_ensures;
    broadcast use Seq::lemma_filter_contains_rev;

    let kept = without_relic(bag, id);
    assert forall|k: int| 0 <= k < kept.len() implies (#[trigger] kept[k]) < len by {
        assert(kept.contains(kept[k]));
    }
}

/// The relic bag that a roll of `roll / UNIT` picks: common below a half, uncommon
/// below five sixths, else rare.
pub fn rarity_of_roll(roll: u32) -> (rarity: usize)
    ensures
        rarity == relic_rarity(roll),
        rarity < 3,
{
    if (roll as u64) * 2 < UNIT as u64 {
        0
    } else if (roll as u64) * 6 < 5 * (UNIT as u64) {
        1
    } else {
        2
    }
}

fn fallback_chain(rarity: usize) -> (chain: Vec<usize>)
    ensures
        chain@ == fallback(rarity),
{
    if rarity == 3 {
        vec![3, 0, 1, 2]
    } else if rarity == 0 {
        vec![0, 1, 2]
    } else if rarity == 1 {
        vec![1, 2]
    } else {
        vec![2]
    }
}

/// `bag` without any copy of relic `id`.
pub open spec fn without_relic(bag: Seq<Id>, id: Id) -> Seq<Id> {
    bag.filter(|x: Id| x != id)
}

/// `after` is `before` once `id` was taken from its relic bags (see `Game::pull_relic`):
/// the first relic allowed here along the fallback chain of `rarity`, gone from every bag.
pub open spec fn relic_pulled(
    before: Game,
    after: Game,
    content: &Content,
    shared: bool,
    rarity: usize,
    back: bool,
    shop: bool,
    id: Option<Id>,
) -> bool {
    &&& match id {
        Some(x) => exists|k: int, i: usize|
            0 <= k < fallback(rarity).len() && (forall|j: int|
                0 <= j < k ==> first_allowed(
                    #[trigger] before.bags(shared)@[fallback(rarity)[j] as int]@,
                    content,
                    shop,
                    back,
                    None,
                )) && first_allowed(
                before.bags(shared)@[fallback(rarity)[k] as int]@,
                content,
                shop,
                back,
                Some(i),
            ) && before.bags(shared)@[fallback(rarity)[k] as int]@[i as int] == x,
        None => forall|j: int|
            0 <= j < fallback(rarity).len() ==> first_allowed(
                #[trigger] before.bags(shared)@[fallback(rarity)[j] as int]@,
                content,
                shop,
                back,
                None,
            ),
    }
    &&& match id {
        Some(x) => {
            &&& forall|r: int|
                0 <= r < 4 ==> (#[trigger] after.relic_deques@[r])@ == without_relic(before.relic_deques@[r]@, x)
            &&& forall|r: int|
                0 <= r < 4 ==> (#[trigger] after.shared_relic_deques@[r])@ == without_relic(before.shared_relic_deques@[r]@, x)
        },
        None => after.relic_deques == before.relic_deques
            && after.shared_relic_deques == before.shared_relic_deques,
    }
    &&& id matches Some(x) ==> x < content.relics@.len()
    &&& deques_valid(after.relic_deques, content)
    &&& deques_valid(after.shared_relic_deques, content)
    &&& after == (Game {
        relic_deques: after.relic_deques,
        shared_relic_deques: after.shared_relic_deques,
        ..before
    })
}

/// `after` is `before` once the bag of the next relic was rolled as `rarity` by the
/// next draw of the reward stream (see `Game::roll_relic_rarity`).
pub open spec fn relic_rarity_rolled(before: Game, after: Game, rarity: usize) -> bool {
    &&& rarity == relic_rarity((raw_value(before.rngs.rewards) % (UNIT as u64)) as u32)
    &&& rarity < 3
    &&& after.rngs.rewards.count >= before.rngs.rewards.count
    &&& after == (Game { rngs: Rngs { rewards: next_rng(before.rngs.rewards), ..before.rngs }, ..before })
}

impl Game {
    /// The character's relic bags, or the shared ones.
    pub open spec fn bags(&self, shared: bool) -> [Vec<Id>; 4] {
        if shared {
            self.shared_relic_deques
        } else {
            self.relic_deques
        }
    }

    /// Takes a relic from the bag of the given rarity, falling back along `fallback`
    /// when that bag holds no relic allowed here (with `shop`, only relics a merchant
    /// may stock). `back` takes from the end of the bag. The relic taken leaves every bag.
    pub fn pull_relic(
        &mut self,
        content: &Content,
        shared: bool,
        rarity: usize,
        back: bool,
        shop: bool,
    ) -> (id: Option<Id>)
        requires
            rarity < 4,
            deques_valid(old(self).relic_deques, content),
            deques_valid(old(self).shared_relic_deques, content),
        ensures
            relic_pulled(*old(self), *final(self), content, shared, rarity, back, shop, id),
    {
        let chain = fallback_chain(rarity);
        let mut k: usize = 0;
        while k < chain.len()
            invariant
                k <= chain@.len(),
                chain@ == fallback(rarity),
                *self == *old(self),
                deques_valid(self.relic_deques, content),
                deques_valid(self.shared_relic_deques, content),
                forall|j: int|
                    0 <= j < k ==> first_allowed(
                        #[trigger] self.bags(shared)@[fallback(rarity)[j] as int]@,
                        content,
                        shop,
                        back,
                        None,
                    ),
            decreases chain@.len() - k,
        {
            let r = chain[k];
            let found = if shared {
                find_allowed(&self.shared_relic_deques[r], content, shop, back)
            } else {
                find_allowed(&self.relic_deques[r], content, shop, back)
            };
            if let Some(i) = found {
                let id = if shared {
                    self.shared_relic_deques[r][i]
                } else {
                    self.relic_deques[r][i]
                };
                assert(self.bags(shared)@[r as int]@[i as int] == id);
                let ghost before = *self;
                self.remove_relic_from_bags(id);
                proof {
                    assert forall|b: int| 0 <= b < 4 implies ids_below(#[trigger] self.relic_deques@[b]@, content.relics@.len() as int) by {
                        lemma_filter_ids_below(before.relic_deques@[b]@, id, content.relics@.len() as int);
                    }
                    assert forall|b: int| 0 <= b < 4 implies ids_below(#[trigger] self.shared_relic_deques@[b]@, content.relics@.len() as int) by {
                        lemma_filter_ids_below(before.shared_relic_deques@[b]@, id, content.relics@.len() as int);
                    }
                }
                return Some(id);
            }
            k = k + 1;
        }
        None
    }

    /// Fills the shared bags from the first act's relics and the character's bags
    /// from those plus the character's own relics, shuffled with the up-front stream.
    pub fn populate_relics(&mut self, content: &Content, character: &Vec<Id>)
        requires
            content.wf(),
            ids_below(character@, content.relics@.len() as int),
        ensures
            forall|r: int|
                0 <= r < 4 ==> (#[trigger] final(self).shared_relic_deques@[r])@.to_multiset()
                    == of_rarity(content.acts@[0].relics@, content, r as u8).to_multiset(),
            forall|r: int|
                0 <= r < 4 ==> (#[trigger] final(self).relic_deques@[r])@.to_multiset()
                    == of_rarity(content.acts@[0].relics@ + character@, content, r as u8).to_multiset(),
            deques_valid(final(self).relic_deques, content),
            deques_valid(final(self).shared_relic_deques, content),
            *final(self) == (Game {
                relic_deques: final(self).relic_deques,
                shared_relic_deques: final(self).shared_relic_deques,
                rngs: final(self).rngs,
                ..*old(self)
            }),
            final(self).rngs == (Rngs { up_front: final(self).rngs.up_front, ..old(self).rngs }),
            ({
                let shared = bags_of(content.acts@[0].relics@, content, old(self).rngs.up_front);
                let own = bags_of(content.acts@[0].relics@ + character@, content, shared.1);
                &&& forall|r: int| 0 <= r < 4 ==> (#[trigger] final(self).shared_relic_deques@[r])@ == shared.0[r]
                &&& forall|r: int| 0 <= r < 4 ==> (#[trigger] final(self).relic_deques@[r])@ == own.0[r]
                &&& final(self).rngs.up_front == own.1
            }),
    {
        let shared = &content.acts[0].relics;
        assert(content.acts@[0].wf(content));
        self.shared_relic_deques = relic_deques(shared, content, &mut self.rngs.up_front);
        let mut all: Vec<Id> = shared.clone();
        let mut i: usize = 0;
        while i < character.len()
            invariant
                i <= character@.len(),
                all@ == shared@ + character@.take(i as int),
            decreases character@.len() - i,
        {
            all.push(character[i]);
            proof {
                assert(character@.take(i + 1) =~= character@.take(i as int).push(character@[i as int]));
            }
            i = i + 1;
        }
        proof {
            assert(character@.take(character@.len() as int) =~= character@);
            assert forall|k: int| 0 <= k < all@.len() implies (#[trigger] all@[k]) < content.relics@.len() by {
                if k >= shared@.len() {
                    assert(all@[k] == character@[k - shared@.len()]);
                }
            }
        }
        self.relic_deques = relic_deques(&all, content, &mut self.rngs.up_front);
    }

    /// Rolls which relic bag the next relic comes from.
    pub fn roll_relic_rarity(&mut self) -> (rarity: usize)
        ensures
            relic_rarity_rolled(*old(self), *final(self), rarity),
    {
        let roll = self.rngs.rewards.unit();
        rarity_of_roll(roll)
    }

    /// Removes every copy of `id` from both sets of relic bags.
    pub fn remove_relic_from_bags(&mut self, id: Id)
        ensures
            forall|r: int|
                0 <= r < 4 ==> (#[trigger] final(self).relic_deques@[r])@ == without_relic(old(
                    self,
                ).relic_deques@[r]@, id),
            forall|r: int|
                0 <= r < 4 ==> (#[trigger] final(self).shared_relic_deques@[r])@ == without_relic(old(
                    self,
                ).shared_relic_deques@[r]@, id),
            *final(self) == (Game {
                relic_deques: final(self).relic_deques,
                shared_relic_deques: final(self).shared_relic_deques,
                ..*old(self)
            }),
    {
        remove_all(&mut self.relic_deques[0], id);
        remove_all(&mut self.relic_deques[1], id);
        remove_all(&mut self.relic_deques[2], id);
        remove_all(&mut self.relic_deques[3], id);
        remove_all(&mut self.shared_relic_deques[0], id);
        remove_all(&mut self.shared_relic_deques[1], id);
        remove_all(&mut self.shared_relic_deques[2], id);
        remove_all(&mut self.shared_relic_deques[3], id);
    }
}


/// `indices` without `index`, the ones above it moved down by one: the relic indices
/// once relic `index` is gone.
pub open spec fn shifted(indices: Seq<usize>, index: usize) -> Seq<usize>
    decreases indices.len(),
{
    if indices.len() == 0 {
        seq![]
    } else {
        let rest = shifted(indices.drop_last(), index);
        let x = indices.last();
        if x == index {
            rest
        } else if x > index {
            rest.push((x - 1) as usize)
        } else {
            rest.push(x)
        }
    }
}

fn shift_indices(indices: &mut Vec<usize>, index: usize)
    ensures
        final(indices)@ == shifted(old(indices)@, index),
{
    let ghost given = indices@;
    let mut out: Vec<usize> = Vec::new();
    let mut i: usize = 0;
    while i < indices.len()
        invariant
            i <= given.len(),
            indices@ == given,
            out@ == shifted(given.take(i as int), index),
        decreases given.len() - i,
    {
        let x = indices[i];
        proof {
            assert(given.take(i + 1).drop_last() =~= given.take(i as int));
        }
        if x != index {
            let y = if x > index {
                x - 1
            } else {
                x
            };
            out.push(y);
        }
        i = i + 1;
    }
    proof {
        assert(given.take(given.len() as int) =~= given);
    }
    *indices = out;
}

/// Relics whose loss costs a point of energy.
pub open spec fn energy_relic(name: Seq<char>) -> bool {
    ||| name == "RELIC.BLESSED_ANTLER"@
    ||| name == "RELIC.ECTOPLASM"@
    ||| name == "RELIC.PHILOSOPHERS_STONE"@
    ||| name == "RELIC.PRISMATIC_GEM"@
    ||| name == "RELIC.SOZU"@
    ||| name == "RELIC.SPIKED_GAUNTLETS"@
    ||| name == "RELIC.VELVET_CHOKER"@
    ||| name == "RELIC.WHISPERING_EARRING"@
}

/// `after` is `before` once relic `index` was given up (see `Game::remove_relic_at`).
pub open spec fn relic_removed_at(before: Game, after: Game, content: &Content, index: usize) -> bool {
    &&& after.run.relics@ == before.run.relics@.remove(index as int)
    &&& after.run.energy == if !before.melted_relics@.contains(index) && energy_relic(
        content.relics@[before.run.relics@[index as int] as int].id@,
    ) && before.run.energy > 0 {
        (before.run.energy - 1) as u8
    } else {
        before.run.energy
    }
    &&& after.melted_relics@ == shifted(before.melted_relics@, index)
    &&& after.wax_relics@ == shifted(before.wax_relics@, index)
    &&& after == (Game {
        run: crate::state::Run { relics: after.run.relics, energy: after.run.energy, ..before.run },
        melted_relics: after.melted_relics,
        wax_relics: after.wax_relics,
        ..before
    })
}

impl Game {
    /// Gives up relic `index`: a held energy relic takes its point of energy with it,
    /// and the wax and melted marks follow the relics that move down.
    pub fn remove_relic_at(&mut self, content: &Content, index: usize)
        requires
            old(self).wf(content),
            index < old(self).run.relics@.len(),
        ensures
            final(self).wf(content),
            relic_removed_at(*old(self), *final(self), content, index),
    {
        let active = !crate::game::contains_usize(&self.melted_relics, index);
        let id = self.run.relics.remove(index);
        let name = &content.relics[id as usize].id;
        let costly = crate::content::same_name(name, "RELIC.BLESSED_ANTLER") || crate::content::same_name(name, "RELIC.ECTOPLASM")
            || crate::content::same_name(name, "RELIC.PHILOSOPHERS_STONE") || crate::content::same_name(name, "RELIC.PRISMATIC_GEM")
            || crate::content::same_name(name, "RELIC.SOZU") || crate::content::same_name(name, "RELIC.SPIKED_GAUNTLETS")
            || crate::content::same_name(name, "RELIC.VELVET_CHOKER") || crate::content::same_name(name, "RELIC.WHISPERING_EARRING");
        if active && costly {
            self.run.energy = self.run.energy.saturating_sub(1);
        }
        shift_indices(&mut self.wax_relics, index);
        shift_indices(&mut self.melted_relics, index);
        proof {
            assert forall|k: int| 0 <= k < self.run.relics@.len() implies (#[trigger] self.run.relics@[k]) < content.relics@.len() by {
                if k < index {
                    assert(self.run.relics@[k] == old(self).run.relics@[k]);
                } else {
                    assert(self.run.relics@[k] == old(self).run.relics@[k + 1]);
                }
            }
        }
    }
}

} // verus!
