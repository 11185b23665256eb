use vstd::prelude::*;
use crate::act::{split_encounters, weak_encounter};
use crate::content::{Content, Id, ids_below};
use crate::rng::Rng;
use crate::state::{Game, Rngs};

verus! {

/// Whether `id` may follow `previous`: not the same fight, and no kind in common.
pub open spec fn encounter_allowed(content: &Content, previous: Option<Id>, id: Id) -> bool {
    match previous {
        None => true,
        Some(p) => p != id && content.encounters@[id as int].tags & content.encounters@[p as int].tags == 0,
    }
}

/// The bag that a pull draws from: the bag, refilled from `candidates` when empty.
pub open spec fn refilled(bag: Seq<Id>, candidates: Seq<Id>) -> Seq<Id> {
    if bag.len() == 0 {
        candidates
    } else {
        bag
    }
}

/// `id` was drawn from `bag` (refilled from `candidates`), leaving `after`; it may
/// follow `previous` whenever some fight in the bag may.
pub open spec fn pulled(content: &Content, bag: Seq<Id>, candidates: Seq<Id>, after: Seq<Id>, previous: Option<Id>, id: Id) -> bool {
    &&& drawn_from(content, bag, candidates, previous, id)
    &&& after.to_multiset() == refilled(bag, candidates).to_multiset().remove(id)
}

/// `id` is in `bag` (refilled from `candidates` when empty), and may follow
/// `previous` whenever some fight in the bag may.
pub open spec fn drawn_from(content: &Content, bag: Seq<Id>, candidates: Seq<Id>, previous: Option<Id>, id: Id) -> bool {
    let from = refilled(bag, candidates);
    &&& from.contains(id)
    &&& (exists|k: int| 0 <= k < from.len() && encounter_allowed(content, previous, #[trigger] from[k])) ==> encounter_allowed(content, previous, id)
}

/// The weak fights of act `act`.
pub open spec fn weak_fights(content: &Content, act: Id) -> Seq<Id> {
    content.acts@[act as int].encounters@.filter(|id: Id| weak_encounter(content, id) == true)
}

/// The regular (not weak) fights of act `act`.
pub open spec fn regular_fights(content: &Content, act: Id) -> Seq<Id> {
    content.acts@[act as int].encounters@.filter(|id: Id| weak_encounter(content, id) == false)
}

/// The position where the insertion of `x` into `out` stops when it starts at `at`: it
/// moves down past every larger id.
pub open spec fn ascending_insert_at(out: Seq<Id>, x: Id, at: int) -> int
    decreases at,
{
    if at <= 0 || at > out.len() || !(x < out[at - 1]) {
        at
    } else {
        ascending_insert_at(out, x, at - 1)
    }
}

/// `ids` in ascending order, by insertion one id after the other.
pub open spec fn ascending(ids: Seq<Id>) -> Seq<Id>
    decreases ids.len(),
{
    if ids.len() == 0 {
        ids
    } else {
        let before = ascending(ids.drop_last());
        before.insert(ascending_insert_at(before, ids.last(), before.len() as int), ids.last())
    }
}

/// The positions among the first `n` of `sorted` of the fights that may follow
/// `previous`, in order.
pub open spec fn allowed_positions(content: &Content, sorted: Seq<Id>, previous: Option<Id>, n: int) -> Seq<usize>
    decreases n,
{
    if n <= 0 {
        seq![]
    } else if encounter_allowed(content, previous, sorted[n - 1]) {
        allowed_positions(content, sorted, previous, n - 1).push((n - 1) as usize)
    } else {
        allowed_positions(content, sorted, previous, n - 1)
    }
}

/// The position in the sorted bag of the fight that a pull with the stream at `rng`
/// takes: one of the fights that may follow `previous` picked by the next draw, or any
/// fight when none may.
pub open spec fn encounter_position(content: &Content, bag: Seq<Id>, candidates: Seq<Id>, previous: Option<Id>, rng: Rng) -> int {
    let sorted = ascending(refilled(bag, candidates));
    let allowed = allowed_positions(content, sorted, previous, sorted.len() as int);
    if allowed.len() > 0 {
        allowed[(crate::rng::raw_value(rng) % (allowed.len() as u64)) as int] as int
    } else {
        (crate::rng::raw_value(rng) % (sorted.len() as u64)) as int
    }
}

/// `ids` in ascending order (an insertion sort).
fn sort_ids(ids: &mut Vec<Id>)
    ensures
        final(ids)@.to_multiset() == old(ids)@.to_multiset(),
        final(ids)@ == ascending(old(ids)@),
{
    broadcast use vstd::seq_lib::group_to_multiset_ensures;

    let ghost given = ids@;
    let mut out: Vec<Id> = Vec::new();
    let mut i: usize = 0;
    while i < ids.len()
        invariant
            i <= given.len(),
            ids@ == given,
            out@.to_multiset() == given.take(i as int).to_multiset(),
            out@ == ascending(given.take(i as int)),
        decreases given.len() - i,
    {
        let x = ids[i];
        let mut at: usize = out.len();
        while at > 0 && x < out[at - 1]
            invariant
                at <= out@.len(),
                ascending_insert_at(out@, x, out@.len() as int) == ascending_insert_at(out@, x, at as int),
            decreases at,
        {
            at = at - 1;
        }
        let ghost before = out@;
        out.insert(at, x);
        proof {
            vstd::seq_lib::to_multiset_insert(before, at as int, x);
            assert(given.take(i + 1) =~= given.take(i as int).push(x));
            assert(given.take(i + 1).drop_last() =~= given.take(i as int));
            vstd::seq_lib::to_multiset_build(given.take(i as int), x);
        }
        i = i + 1;
    }
    proof {
        assert(given.take(given.len() as int) =~= given);
    }
    *ids = out;
}

/// Draws a fight from `bag`, refilling it from `candidates` when empty: uniformly
/// among the fights that may follow `previous`, or among all when none may.
pub fn pull_encounter(rng: &mut Rng, content: &Content, candidates: &Vec<Id>, bag: &mut Vec<Id>, previous: Option<Id>) -> (id: Option<Id>)
    requires
        old(bag)@.len() > 0 || candidates@.len() > 0,
        ids_below(old(bag)@, content.encounters@.len() as int),
        ids_below(candidates@, content.encounters@.len() as int),
        previous matches Some(p) ==> p < content.encounters@.len(),
    ensures
        id matches Some(i) && pulled(content, old(bag)@, candidates@, final(bag)@, previous, i),
        ids_below(final(bag)@, content.encounters@.len() as int),
        final(rng).count >= old(rng).count,
        *final(rng) == crate::rng::next_rng(*old(rng)),
        ({
            let sorted = ascending(refilled(old(bag)@, candidates@));
            let at = encounter_position(content, old(bag)@, candidates@, previous, *old(rng));
            &&& 0 <= at < sorted.len()
            &&& id == Some(sorted[at])
            &&& final(bag)@ == sorted.remove(at)
        }),
{
    broadcast use vstd::seq_lib::group_to_multiset_ensures;

    let ghost from = refilled(bag@, candidates@);
    if bag.len() == 0 {
        let mut i: usize = 0;
        while i < candidates.len()
            invariant
                i <= candidates@.len(),
                bag@ == candidates@.take(i as int),
            decreases candidates@.len() - i,
        {
            bag.push(candidates[i]);
            proof {
                assert(candidates@.take(i + 1) =~= candidates@.take(i as int).push(candidates@[i as int]));
            }
            i = i + 1;
        }
        proof {
            assert(candidates@.take(candidates@.len() as int) =~= candidates@);
        }
    }
    assert(bag@ == from);
    sort_ids(bag);
    let ghost sorted = bag@;
    proof {
        assert(sorted.to_multiset().len() == from.to_multiset().len());
        assert(sorted.len() == from.len());
        assert forall|k: int| 0 <= k < sorted.len() implies from.contains(#[trigger] sorted[k]) by {
            assert(sorted.contains(sorted[k]));
            assert(sorted.to_multiset().count(sorted[k]) > 0);
        }
        assert forall|k: int| 0 <= k < from.len() implies sorted.contains(#[trigger] from[k]) by {
            assert(from.contains(from[k]));
            assert(from.to_multiset().count(from[k]) > 0);
        }
    }
    let mut allowed: Vec<usize> = Vec::new();
    let mut k: usize = 0;
    while k < bag.len()
        invariant
            k <= sorted.len(),
            sorted.len() == from.len(),
            from.len() > 0,
            bag@ == sorted,
            forall|j: int| 0 <= j < sorted.len() ==> from.contains(#[trigger] sorted[j]),
            ids_below(from, content.encounters@.len() as int),
            previous matches Some(p) ==> p < content.encounters@.len(),
            forall|j: int| 0 <= j < allowed@.len() ==> (#[trigger] allowed@[j]) < sorted.len()
                && encounter_allowed(content, previous, sorted[allowed@[j] as int]),
            allowed@.len() == 0 ==> forall|j: int| 0 <= j < k ==> !encounter_allowed(content, previous, #[trigger] sorted[j]),
            allowed@ == allowed_positions(content, sorted, previous, k as int),
        decreases sorted.len() - k,
    {
        let id = bag[k];
        proof {
            assert(from.contains(sorted[k as int]));
        }
        let ok = match previous {
            None => true,
            Some(p) => p != id && content.encounters[id as usize].tags & content.encounters[p as usize].tags == 0,
        };
        if ok {
            allowed.push(k);
        }
        k = k + 1;
    }
    let index = if allowed.len() > 0 {
        let pick = rng.index(allowed.len());
        allowed[pick]
    } else {
        rng.index(bag.len())
    };
    let id = bag.remove(index);
    proof {
        assert(sorted.remove(index as int).to_multiset() == sorted.to_multiset().remove(id));
        assert(from.contains(id)) by {
            assert(from.contains(sorted[index as int]));
        }
        if exists|j: int| 0 <= j < from.len() && encounter_allowed(content, previous, #[trigger] from[j]) {
            let j = choose|j: int| 0 <= j < from.len() && encounter_allowed(content, previous, #[trigger] from[j]);
            assert(sorted.contains(from[j]));
            let m = choose|m: int| 0 <= m < sorted.len() && sorted[m] == from[j];
            assert(!(allowed@.len() == 0));
        }
        assert forall|j: int| 0 <= j < bag@.len() implies (#[trigger] bag@[j]) < content.encounters@.len() by {
            if j < index {
                assert(bag@[j] == sorted[j]);
            } else {
                assert(bag@[j] == sorted[j + 1]);
            }
            assert(from.contains(sorted[if j < index { j } else { j + 1 }]));
        }
    }
    Some(id)
}


impl Game {
    /// The next fight: an elite from the elite bag while elite fights are left (else any
    /// elite of the act), or a weak fight while weak ones are left, then a regular one
    /// (else any fight of the act). A bag that runs out is emptied and the next one
    /// starts over; the last fight is remembered so that the next one differs from it.
    pub fn next_encounter(&mut self, content: &Content, elite: bool) -> (id: Option<Id>)
        requires
            old(self).wf(content),
            elite && old(self).elite_encounters_left > 0 ==> old(self).elites@.len() > 0
                || content.acts@[old(self).act as int].elites@.len() > 0,
            !elite && old(self).weak_encounters_left > 0 ==> old(self).encounters@.len() > 0
                || weak_fights(content, old(self).act).len() > 0,
            !elite && old(self).weak_encounters_left == 0 && old(self).regular_encounters_left > 0
                ==> old(self).encounters@.len() > 0 || regular_fights(content, old(self).act).len() > 0,
        ensures
            final(self).wf(content),
            elite && old(self).elite_encounters_left == 0 ==> {
                let all = content.acts@[old(self).act as int].elites@;
                &&& (id is None <==> all.len() == 0)
                &&& id matches Some(i) ==> all.contains(i)
                &&& *final(self) == (Game { rngs: final(self).rngs, ..*old(self) })
            },
            elite && old(self).elite_encounters_left > 0 ==> {
                let all = content.acts@[old(self).act as int].elites@;
                &&& id is Some
                &&& final(self).elite_encounters_left == old(self).elite_encounters_left - 1
                &&& final(self).elite_encounters_left > 0 ==> pulled(content, old(self).elites@, all, final(self).elites@, old(self).last_elite, id->0)
                    && final(self).last_elite == id
                &&& final(self).elite_encounters_left == 0 ==> final(self).elites@.len() == 0 && final(self).last_elite is None
                    && drawn_from(content, old(self).elites@, all, old(self).last_elite, id->0)
                &&& *final(self) == (Game {
                    rngs: final(self).rngs,
                    elites: final(self).elites,
                    elite_encounters_left: final(self).elite_encounters_left,
                    last_elite: final(self).last_elite,
                    ..*old(self)
                })
            },
            !elite && old(self).weak_encounters_left == 0 && old(self).regular_encounters_left == 0 ==> {
                let all = content.acts@[old(self).act as int].encounters@;
                &&& (id is None <==> all.len() == 0)
                &&& id matches Some(i) ==> all.contains(i)
                &&& *final(self) == (Game { rngs: final(self).rngs, ..*old(self) })
            },
            !elite && (old(self).weak_encounters_left > 0 || old(self).regular_encounters_left > 0) ==> id is Some,
            !elite && old(self).weak_encounters_left > 0 ==> final(self).weak_encounters_left == old(self).weak_encounters_left - 1
                && final(self).regular_encounters_left == old(self).regular_encounters_left,
            !elite && old(self).weak_encounters_left == 0 && old(self).regular_encounters_left > 0 ==> final(self).regular_encounters_left
                == old(self).regular_encounters_left - 1 && final(self).weak_encounters_left == 0,
            !elite && (old(self).weak_encounters_left > 0 || old(self).regular_encounters_left > 0) ==> {
                let weak = old(self).weak_encounters_left > 0;
                let all = if weak { weak_fights(content, old(self).act) } else { regular_fights(content, old(self).act) };
                let left = if weak { final(self).weak_encounters_left } else { final(self).regular_encounters_left };
                left > 0 ==> pulled(content, old(self).encounters@, all, final(self).encounters@, old(self).last_encounter, id->0)
                    && final(self).last_encounter == id
            },
            !elite && (old(self).weak_encounters_left > 0 || old(self).regular_encounters_left > 0) ==> {
                let weak = old(self).weak_encounters_left > 0;
                let all = if weak { weak_fights(content, old(self).act) } else { regular_fights(content, old(self).act) };
                let left = if weak { final(self).weak_encounters_left } else { final(self).regular_encounters_left };
                left == 0 ==> final(self).encounters@.len() == 0
                    && drawn_from(content, old(self).encounters@, all, old(self).last_encounter, id->0)
            },
            !elite && (old(self).weak_encounters_left > 0 || old(self).regular_encounters_left > 0) ==> {
                let weak = old(self).weak_encounters_left > 0;
                let left = if weak { final(self).weak_encounters_left } else { final(self).regular_encounters_left };
                left == 0 ==> final(self).last_encounter == if weak && old(self).regular_encounters_left > 0 {
                    id
                } else {
                    None
                }
            },
            !elite && (old(self).weak_encounters_left > 0 || old(self).regular_encounters_left > 0) ==> *final(self) == (Game {
                rngs: final(self).rngs,
                encounters: final(self).encounters,
                weak_encounters_left: final(self).weak_encounters_left,
                regular_encounters_left: final(self).regular_encounters_left,
                last_encounter: final(self).last_encounter,
                ..*old(self)
            }),
    {
        let act = &content.acts[self.act as usize];
        assert(act.wf(content));
        if elite {
            if self.elite_encounters_left == 0 {
                return self.pick(&act.elites);
            }
            let drawn = pull_encounter(&mut self.rngs.up_front, content, &act.elites, &mut self.elites, self.last_elite);
            let id = match drawn {
                Some(id) => id,
                None => {
                    return None;
                },
            };
            let ghost rest = self.elites@;
            self.elite_encounters_left = self.elite_encounters_left - 1;
            self.last_elite = Some(id);
            if self.elite_encounters_left == 0 {
                self.elites.clear();
                self.last_elite = None;
            }
            proof {
                let all = content.acts@[old(self).act as int].elites@;
                assert(pulled(content, old(self).elites@, all, rest, old(self).last_elite, id));
                assert(all.contains(id) ==> id < content.encounters@.len());
            }
            return Some(id);
        }
        let weak = split_encounters(content, &act.encounters, true);
        let regular = split_encounters(content, &act.encounters, false);
        let weak_bag = if self.weak_encounters_left > 0 {
            true
        } else if self.regular_encounters_left > 0 {
            false
        } else {
            return self.pick(&act.encounters);
        };
        let candidates = if weak_bag {
            &weak
        } else {
            &regular
        };
        let drawn = pull_encounter(&mut self.rngs.up_front, content, candidates, &mut self.encounters, self.last_encounter);
        let id = match drawn {
            Some(id) => id,
            None => {
                return None;
            },
        };
        let ghost rest = self.encounters@;
        let left = if weak_bag {
            self.weak_encounters_left = self.weak_encounters_left - 1;
            self.weak_encounters_left
        } else {
            self.regular_encounters_left = self.regular_encounters_left - 1;
            self.regular_encounters_left
        };
        self.last_encounter = Some(id);
        if left == 0 {
            self.encounters.clear();
            if !weak_bag || self.regular_encounters_left == 0 {
                self.last_encounter = None;
            }
        }
        proof {
            let all = if weak_bag { weak_fights(content, old(self).act) } else { regular_fights(content, old(self).act) };
            assert(candidates@ == all);
            assert(pulled(content, old(self).encounters@, all, rest, old(self).last_encounter, id));
        }
        Some(id)
    }
}

} // verus!
