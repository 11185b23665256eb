use vstd::prelude::*;
use vstd::string::StrSliceExecFns;
use vstd::string::StringSliceAdditionalSpecFns;
use crate::content::{Id, Content, ids_below, same_name, lemma_perm_ids_below};
use crate::rng::Rng;
use crate::state::{Game, Phase, Room, ActMap, MapNode, Error, Run, Rngs};
use crate::map::{build_map, map_shaped, map_laid_out, map_length, push_decimal};
use crate::game::cards_valid;

verus! {

/// Whether `pattern` occurs in `text`.
pub open spec fn has_infix(text: Seq<char>, pattern: Seq<char>) -> bool {
    exists|i: int| 0 <= i <= text.len() - pattern.len() && #[trigger] text.subrange(i, i + pattern.len()) == pattern
}

/// Whether `pattern` occurs in `text`.
pub fn contains_text(text: &str, pattern: &str) -> (found: bool)
    ensures
        found == has_infix(text@, pattern@),
{
    let n = text.unicode_len();
    let m = pattern.unicode_len();
    if m > n {
        proof {
            assert forall|i: int| 0 <= i <= text@.len() - pattern@.len() implies #[trigger] text@.subrange(i, i + pattern@.len()) != pattern@ by {}
        }
        return false;
    }
    let mut i: usize = 0;
    while i <= n - m
        invariant
            n == text@.len(),
            m == pattern@.len(),
            m <= n,
            forall|k: int| 0 <= k < i ==> #[trigger] text@.subrange(k, k + m) != pattern@,
        decreases n - m + 1 - i,
    {
        let mut j: usize = 0;
        let mut same = true;
        while j < m
            invariant
                j <= m,
                i + m <= n,
                n == text@.len(),
                m == pattern@.len(),
                same == forall|k: int| 0 <= k < j ==> text@[i + k] == pattern@[k],
            decreases m - j,
        {
            if text.get_char(i + j) != pattern.get_char(j) {
                same = false;
            }
            j = j + 1;
        }
        if same {
            assert(text@.subrange(i as int, i + m) =~= pattern@);
            return true;
        }
        assert(text@.subrange(i as int, i + m) != pattern@) by {
            let k = choose|k: int| 0 <= k < m && text@[i + k] != pattern@[k];
            assert(text@.subrange(i as int, i + m)[k] == text@[i + k]);
        }
        i = i + 1;
    }
    false
}

/// The four acts of a standard run.
pub open spec fn standard_act(name: Seq<char>) -> bool {
    name == "ACT.THE_OVERGROWTH"@ || name == "ACT.THE_UNDERDOCKS"@ || name == "ACT.THE_HIVE"@
        || name == "ACT.THE_GLORY"@
}

/// The act number that an act's name stands for.
pub open spec fn act_number(name: Seq<char>) -> u8 {
    if name == "ACT.THE_HIVE"@ {
        2
    } else if name == "ACT.THE_GLORY"@ {
        3
    } else {
        1
    }
}

fn is_standard_act(name: &String) -> (standard: bool)
    ensures
        standard == standard_act(name@),
{
    same_name(name, "ACT.THE_OVERGROWTH") || same_name(name, "ACT.THE_UNDERDOCKS") || same_name(
        name,
        "ACT.THE_HIVE",
    ) || same_name(name, "ACT.THE_GLORY")
}

/// The 32-bit FNV-1a hash of `bytes`: from the offset basis, each byte is folded in
/// with an exclusive or and then a wrapping multiplication by the FNV prime.
pub open spec fn fnv1a(bytes: Seq<u8>) -> u32
    decreases bytes.len(),
{
    if bytes.len() == 0 {
        2166136261u32
    } else {
        vstd::wrapping::u32_specs::wrapping_mul(fnv1a(bytes.drop_last()) ^ (bytes.last() as u32), 16777619u32)
    }
}

/// A seed offset derived from a stream's name (FNV-1a over its bytes).
pub fn name_hash(name: &Vec<u8>) -> (h: u32)
    ensures
        h == fnv1a(name@),
{
    let mut h: u32 = 2166136261;
    let mut i: usize = 0;
    while i < name.len()
        invariant
            i <= name@.len(),
            h == fnv1a(name@.take(i as int)),
        decreases name@.len() - i,
    {
        proof {
            assert(name@.take(i + 1).drop_last() =~= name@.take(i as int));
        }
        h = (h ^ name[i] as u32).wrapping_mul(16777619);
        i = i + 1;
    }
    proof {
        assert(name@.take(name@.len() as int) =~= name@);
    }
    h
}

/// Whether the encounter's name marks it as one of the act's weak fights.
pub open spec fn weak_encounter(content: &Content, id: Id) -> bool {
    has_infix(content.encounters@[id as int].id@, "_WEAK"@)
}

/// The encounters of `ids` that are weak (or, with `weak` false, those that are not), in order.
pub(crate) fn split_encounters(content: &Content, ids: &Vec<Id>, weak: bool) -> (out: Vec<Id>)
    requires
        ids_below(ids@, content.encounters@.len() as int),
    ensures
        out@ == ids@.filter(|id: Id| weak_encounter(content, id) == weak),
        ids_below(out@, content.encounters@.len() as int),
{
    let ghost pred = |id: Id| weak_encounter(content, id) == weak;
    let mut out: Vec<Id> = Vec::new();
    let mut i: usize = 0;
    while i < ids.len()
        invariant
            i <= ids@.len(),
            ids_below(ids@, content.encounters@.len() as int),
            pred == (|id: Id| weak_encounter(content, id) == weak),
            out@ == ids@.take(i as int).filter(pred),
            ids_below(out@, content.encounters@.len() as int),
        decreases ids@.len() - i,
    {
        proof {
            reveal_with_fuel(Seq::<_>::filter, 1);
            assert(ids@.take(i + 1).drop_last() =~= ids@.take(i as int));
        }
        let id = ids[i];
        if contains_text(content.encounters[id as usize].id.as_str(), "_WEAK") == weak {
            out.push(id);
        }
        i = i + 1;
    }
    proof {
        assert(ids@.take(ids@.len() as int) =~= ids@);
    }
    out
}

/// A copy of `ids`.
fn copy_id_list(ids: &Vec<Id>) -> (copy: Vec<Id>)
    ensures
        copy@ == ids@,
{
    let mut out: Vec<Id> = Vec::new();
    let mut i: usize = 0;
    while i < ids.len()
        invariant
            i <= ids@.len(),
            out@ == ids@.take(i as int),
        decreases ids@.len() - i,
    {
        out.push(ids[i]);
        proof {
            assert(ids@.take(i + 1) =~= ids@.take(i as int).push(ids@[i as int]));
        }
        i = i + 1;
    }
    proof {
        assert(ids@.take(ids@.len() as int) =~= ids@);
    }
    out
}

impl Game {
    /// A value of `values` picked with the up-front stream, or `None` when there is none.
    pub fn pick(&mut self, values: &Vec<Id>) -> (picked: Option<Id>)
        ensures
            values@.len() == 0 <==> picked is None,
            picked matches Some(v) ==> values@.contains(v),
            values@.len() == 0 ==> final(self).rngs == old(self).rngs,
            values@.len() > 0 ==> picked == Some(values@[(crate::rng::raw_value(old(self).rngs.up_front) % (values@.len() as u64)) as int])
                && final(self).rngs.up_front == crate::rng::next_rng(old(self).rngs.up_front),
            final(self).rngs.up_front.count >= old(self).rngs.up_front.count,
            *final(self) == (Game { rngs: final(self).rngs, ..*old(self) }),
            final(self).rngs == (Rngs { up_front: final(self).rngs.up_front, ..old(self).rngs }),
    {
        if values.len() == 0 {
            return None;
        }
        let index = self.rngs.up_front.index(values.len());
        Some(values[index])
    }
}

/// Appends the bytes of `text`.
pub(crate) fn push_text(buf: &mut Vec<u8>, text: &str)
    ensures
        final(buf)@ == old(buf)@ + text.spec_bytes(),
{
    let bytes = text.as_bytes();
    let mut i: usize = 0;
    while i < bytes.len()
        invariant
            i <= bytes@.len(),
            bytes@ == text.spec_bytes(),
            buf@ == old(buf)@ + bytes@.take(i as int),
        decreases bytes@.len() - i,
    {
        proof {
            assert(bytes@.take(i + 1) =~= bytes@.take(i as int).push(bytes@[i as int]));
        }
        buf.push(bytes[i]);
        i = i + 1;
    }
    proof {
        assert(bytes@.take(bytes@.len() as int) =~= bytes@);
    }
}

/// Whether some card of `deck` is named `name`.
pub open spec fn deck_has_named(deck: Seq<crate::state::Card>, content: &Content, name: Seq<char>) -> bool {
    exists|i: int| 0 <= i < deck.len() && content.cards@[deck[i].id as int].id@ == name
}

/// `spoils` is the lane and floor of the first treasure of `map`, if any.
pub open spec fn first_treasure(map: &ActMap, spoils: Option<(u8, u8)>) -> bool {
    match spoils {
        Some((lane, floor)) => exists|i: int|
            0 <= i < map.nodes@.len() && map.nodes@[i].room == Room::Treasure && map.nodes@[i].lane
                == lane && map.nodes@[i].floor == floor && forall|k: int|
                0 <= k < i ==> map.nodes@[k].room != Room::Treasure,
        None => forall|k: int| 0 <= k < map.nodes@.len() ==> map.nodes@[k].room != Room::Treasure,
    }
}

/// The health after entering an act (see `begin_act`).
pub open spec fn act_hp(hp: i16, max_hp: i16, ascension: u8, new_run: bool, standard: bool) -> i16 {
    let start: int = if new_run { 0 } else { hp as int };
    let missing: int = max_hp - start;
    if standard {
        start as i16
    } else if ascension >= 2 {
        (start + missing * 4 / 5) as i16
    } else {
        (start + missing) as i16
    }
}

impl Game {
    /// Whether some card of the deck is named `name`.
    pub(crate) fn deck_has(&self, content: &Content, name: &str) -> (has: bool)
        requires
            cards_valid(self.run.deck@, content),
        ensures
            has == deck_has_named(self.run.deck@, content, name@),
    {
        let mut i: usize = 0;
        while i < self.run.deck.len()
            invariant
                i <= self.run.deck@.len(),
                cards_valid(self.run.deck@, content),
                forall|k: int| 0 <= k < i ==> content.cards@[self.run.deck@[k].id as int].id@ != name@,
            decreases self.run.deck@.len() - i,
        {
            if same_name(&content.cards[self.run.deck[i].id as usize].id, name) {
                return true;
            }
            i = i + 1;
        }
        false
    }

    /// Lays out the current act's map with a stream seeded from the run's seed and the
    /// stream's name (the act's, or the spoils map's on act 2 with a Spoils Map in the deck).
    fn make_map(&self, content: &Content) -> (map: ActMap)
        requires
            cards_valid(self.run.deck@, content),
            self.act < content.acts@.len(),
        ensures
            map_laid_out(
                &map,
                map_length(self.run.act),
                standard_act(content.acts@[self.act as int].id@),
                self.run.ascension >= 10 && self.run.act == 3,
            ),
    {
        let spoils = self.run.act == 2 && self.deck_has(content, "CARD.SPOILS_MAP");
        let mut name: Vec<u8> = Vec::new();
        if spoils {
            push_text(&mut name, "spoils_map");
        } else {
            push_text(&mut name, "act_");
            push_decimal(&mut name, self.run.act as usize);
            push_text(&mut name, "_map");
        }
        let mut rng = Rng::from_seed(self.seed.wrapping_add(name_hash(&name)) as u64);
        let standard = is_standard_act(&content.acts[self.act as usize].id);
        build_map(&mut rng, self.run.act, self.run.ascension, spoils, standard)
    }

    /// The map of a golden compass: sixteen rooms in one lane, then the boss (and a
    /// second boss on the last act at ascension 10).
    pub fn golden_map(&self) -> (map: ActMap)
        ensures
            map_shaped(&map),
            golden_layout(&map, self.run.ascension >= 10 && self.run.act == 3),
    {
        let mut nodes: Vec<MapNode> = Vec::new();
        let mut index: usize = 0;
        while index < 16
            invariant
                nodes@.len() == index,
                index <= 16,
                forall|i: int| 0 <= i < index ==> {
                    &&& (#[trigger] nodes@[i]).floor == i + 1
                    &&& nodes@[i].lane == 3
                    &&& nodes@[i].room == golden_room(i)
                    &&& nodes@[i].next@ == seq![(i + 1) as usize]
                },
            decreases 16 - index,
        {
            let mut next: Vec<usize> = Vec::new();
            next.push(index + 1);
            nodes.push(MapNode { floor: index as u8 + 1, lane: 3, room: golden_room_at(index), next });
            index = index + 1;
        }
        let second = self.run.ascension >= 10 && self.run.act == 3;
        let mut last_next: Vec<usize> = Vec::new();
        if second {
            last_next.push(17);
        }
        nodes.push(MapNode { floor: 17, lane: 3, room: Room::Boss, next: last_next });
        if second {
            nodes.push(MapNode { floor: 18, lane: 3, room: Room::Boss, next: Vec::new() });
        }
        let map = ActMap { nodes, current: None };
        proof {
            let m = map.nodes@;
            assert forall|i: int, j: int| 0 <= i < m.len() && 0 <= j < m[i].next@.len() implies
                #[trigger] m[i].next@[j] < m.len() && m[m[i].next@[j] as int].floor == m[i].floor + 1 by {
                if i < 16 {
                    assert(m[i].next@[j] == i + 1);
                }
            }
        }
        map
    }
}

/// The room of the golden compass's map on floor `i + 1`, for `i` below 16.
pub open spec fn golden_room(i: int) -> Room {
    if i == 0 || i == 2 || i == 4 {
        Room::Combat
    } else if i == 3 || i == 5 || i == 13 || i == 15 {
        Room::Rest
    } else if i == 7 || i == 9 {
        Room::Treasure
    } else if i == 11 {
        Room::Shop
    } else if i == 12 || i == 14 {
        Room::Elite
    } else {
        Room::Unknown
    }
}

/// The golden compass's map: for each `i` below 16, a node on floor `i + 1` in lane 3
/// with room `golden_room(i)` leading to the next; then the boss on floor 17 in lane 3,
/// leading to a second boss on floor 18 exactly when `two`.
pub open spec fn golden_layout(map: &ActMap, two: bool) -> bool {
    let m = map.nodes@;
    &&& m.len() == if two { 18int } else { 17 }
    &&& map.current is None
    &&& forall|i: int| 0 <= i < 16 ==> {
        &&& (#[trigger] m[i]).floor == i + 1
        &&& m[i].lane == 3
        &&& m[i].room == golden_room(i)
        &&& m[i].next@ == seq![(i + 1) as usize]
    }
    &&& m[16].floor == 17 && m[16].lane == 3 && m[16].room == Room::Boss
    &&& m[16].next@ == if two { seq![17usize] } else { Seq::<usize>::empty() }
    &&& two ==> m[17].floor == 18 && m[17].lane == 3 && m[17].room == Room::Boss && m[17].next@.len() == 0
}

fn golden_room_at(i: usize) -> (room: Room)
    ensures
        room == golden_room(i as int),
{
    if i == 0 || i == 2 || i == 4 {
        Room::Combat
    } else if i == 3 || i == 5 || i == 13 || i == 15 {
        Room::Rest
    } else if i == 7 || i == 9 {
        Room::Treasure
    } else if i == 11 {
        Room::Shop
    } else if i == 12 || i == 14 {
        Room::Elite
    } else {
        Room::Unknown
    }
}

/// The ids of `ids` other than `skip`, in order.
fn without(ids: &Vec<Id>, skip: Option<Id>) -> (out: Vec<Id>)
    ensures
        forall|k: int| 0 <= k < out@.len() ==> ids@.contains(#[trigger] out@[k]) && Some(out@[k]) != skip,
        forall|k: int| 0 <= k < ids@.len() && Some(ids@[k]) != skip ==> out@.contains(#[trigger] ids@[k]),
{
    let mut out: Vec<Id> = Vec::new();
    let mut i: usize = 0;
    while i < ids.len()
        invariant
            i <= ids@.len(),
            forall|k: int| 0 <= k < out@.len() ==> ids@.contains(#[trigger] out@[k]) && Some(out@[k]) != skip,
            forall|k: int| 0 <= k < i && Some(ids@[k]) != skip ==> out@.contains(#[trigger] ids@[k]),
        decreases ids@.len() - i,
    {
        let id = ids[i];
        let keep = match skip {
            Some(s) => s != id,
            None => true,
        };
        let ghost prev = out@;
        if keep {
            out.push(id);
            assert(out@.last() == id);
        }
        proof {
            assert forall|k: int| 0 <= k < i + 1 && Some(ids@[k]) != skip implies out@.contains(#[trigger] ids@[k]) by {
                if k < i {
                    assert(prev.contains(ids@[k]));
                    let j = choose|j: int| 0 <= j < prev.len() && prev[j] == ids@[k];
                    assert(out@[j] == prev[j]);
                } else {
                    assert(out@[out@.len() - 1] == id);
                }
            }
        }
        proof {
            assert forall|k: int| 0 <= k < out@.len() implies ids@.contains(#[trigger] out@[k]) && Some(out@[k]) != skip by {
                if k == out@.len() - 1 && keep {
                    assert(ids@[i as int] == id);
                }
            }
        }
        i = i + 1;
    }
    out
}

/// The first treasure of `map`, as its lane and floor.
fn find_treasure(map: &ActMap) -> (spoils: Option<(u8, u8)>)
    ensures
        first_treasure(map, spoils),
{
    let mut i: usize = 0;
    while i < map.nodes.len()
        invariant
            i <= map.nodes@.len(),
            forall|k: int| 0 <= k < i ==> map.nodes@[k].room != Room::Treasure,
        decreases map.nodes@.len() - i,
    {
        if map.nodes[i].room == Room::Treasure {
            return Some((map.nodes[i].lane, map.nodes[i].floor));
        }
        i = i + 1;
    }
    None
}

/// `after` is `before` with the fights, bosses and map of act `act` laid out (the second
/// half of `Game::begin_act`).
pub open spec fn act_laid_out(before: Game, after: Game, content: &Content, act: Id) -> bool {
    let def = content.acts@[act as int];
    let name = def.id@;
    let weak = def.encounters@.filter(|id: Id| weak_encounter(content, id) == true);
    let regular = def.encounters@.filter(|id: Id| weak_encounter(content, id) == false);
    let weak_count: u8 = if act_number(name) == 3 { 2 } else { 3 };
    let room_count: u8 = if act_number(name) == 2 { 14 } else if act_number(name) == 3 { 13 } else { 15 };
    &&& after.weak_encounters_left == if weak.len() == 0 { 0 } else { weak_count }
    &&& after.regular_encounters_left == if regular.len() == 0 { 0 } else { (room_count - weak_count) as u8 }
    &&& after.elite_encounters_left == if def.elites@.len() == 0 { 0u8 } else { 15 }
    &&& after.encounters@ == if after.weak_encounters_left > 0 { weak } else { regular }
    &&& after.elites@ == def.elites@
    &&& after.last_encounter is None
    &&& after.last_elite is None
    &&& (after.bosses[0] is None <==> def.bosses@.len() == 0)
    &&& after.bosses[0] matches Some(b) ==> def.bosses@.contains(b)
    &&& after.bosses[1] matches Some(b) ==> def.bosses@.contains(b) && Some(b) != after.bosses[0]
    &&& !(before.run.ascension >= 10 && act_number(name) == 3) ==> after.bosses[1] is None
    &&& after.bosses_visited == 0
    &&& after.unknown_odds@ == seq![1000i32, -10000i32, 200i32, 300i32]
    &&& map_laid_out(&after.map, map_length(before.run.act), standard_act(name), before.run.ascension >= 10 && act_number(name) == 3)
    &&& after.phase is OnMap
    &&& after.spoils matches Some(_) ==> act_number(name) == 2 && deck_has_named(before.run.deck@, content, "CARD.SPOILS_MAP"@)
    &&& act_number(name) == 2 && deck_has_named(before.run.deck@, content, "CARD.SPOILS_MAP"@) ==> first_treasure(&after.map, after.spoils)
    &&& after == (Game {
        rngs: Rngs { up_front: after.rngs.up_front, ..before.rngs },
        weak_encounters_left: after.weak_encounters_left,
        regular_encounters_left: after.regular_encounters_left,
        elite_encounters_left: after.elite_encounters_left,
        encounters: after.encounters,
        elites: after.elites,
        last_encounter: after.last_encounter,
        last_elite: after.last_elite,
        bosses: after.bosses,
        bosses_visited: after.bosses_visited,
        unknown_odds: after.unknown_odds,
        map: after.map,
        spoils: after.spoils,
        phase: after.phase,
        ..before
    })
}

/// `after` is `before` once act `act` began (see `Game::begin_act`): the health, act
/// number, floor and shuffled event deck are set, and then the act laid out
/// (`act_laid_out`); nothing else changes.
pub open spec fn act_begun(before: Game, after: Game, content: &Content, act: Id) -> bool {
    let def = content.acts@[act as int];
    let name = def.id@;
    let new_run = before.run.act == 0;
    let entered = Game {
        run: Run {
            hp: act_hp(before.run.hp, before.run.max_hp, before.run.ascension, new_run, standard_act(name)),
            act: act_number(name),
            floor: if new_run && !standard_act(name) { 1u8 } else { 0 },
            ..before.run
        },
        act: act,
        rngs: Rngs { up_front: after.rngs.up_front, ..before.rngs },
        events: after.events,
        ..before
    };
    &&& after.events@.to_multiset() == def.events@.to_multiset()
    &&& act_laid_out(entered, after, content, act)
}

impl Game {
    /// The second half of `begin_act`: the weak and regular fight bags with their counts,
    /// the elites, one boss (two on the last act at ascension 10), a new map and the
    /// spoils map's treasure.
    #[verifier::rlimit(100)]
    #[verifier::spinoff_prover]
    fn lay_out_act(&mut self, content: &Content, act: Id)
        requires
            old(self).wf(content),
            act < content.acts@.len(),
            old(self).act == act,
            old(self).run.act == act_number(content.acts@[act as int].id@),
        ensures
            final(self).wf(content),
            act_laid_out(*old(self), *final(self), content, act),
    {
        let def = &content.acts[act as usize];
        assert(def.wf(content));
        let weak = split_encounters(content, &def.encounters, true);
        let regular = split_encounters(content, &def.encounters, false);
        let weak_count: u8 = if self.run.act == 3 {
            2
        } else {
            3
        };
        let room_count: u8 = if self.run.act == 2 {
            14
        } else if self.run.act == 3 {
            13
        } else {
            15
        };
        self.weak_encounters_left = if weak.len() == 0 {
            0
        } else {
            weak_count
        };
        self.regular_encounters_left = if regular.len() == 0 {
            0
        } else {
            room_count - weak_count
        };
        self.elite_encounters_left = if def.elites.len() == 0 {
            0
        } else {
            15
        };
        self.encounters = if self.weak_encounters_left > 0 {
            weak
        } else {
            regular
        };
        self.elites = copy_id_list(&def.elites);
        self.last_encounter = None;
        self.last_elite = None;
        self.bosses[0] = self.pick(&def.bosses);
        self.rngs.up_front.forward(1);
        self.bosses[1] = if self.run.ascension >= 10 && self.run.act == 3 {
            let remaining = without(&def.bosses, self.bosses[0]);
            let picked = self.pick(&remaining);
            proof {
                if let Some(b) = picked {
                    let k = choose|k: int| 0 <= k < remaining@.len() && remaining@[k] == b;
                    assert(def.bosses@.contains(remaining@[k]));
                }
            }
            picked
        } else {
            None
        };
        self.bosses_visited = 0;
        self.unknown_odds = [1000, -10_000, 200, 300];
        self.map = self.make_map(content);
        self.spoils = if self.run.act == 2 && self.deck_has(content, "CARD.SPOILS_MAP") {
            find_treasure(&self.map)
        } else {
            None
        };
        self.phase = Phase::OnMap;
    }

    /// Sets up an act: health (a new run starts from zero; outside the standard acts the
    /// missing health is restored, four fifths of it from ascension 2), the act number
    /// and floor, a shuffled event deck, the weak and regular fight bags with their
    /// counts, the elites, one boss (two on the last act at ascension 10), a new map and
    /// the spoils map's treasure. Refused during a fight, and for an act the content lacks.
    #[verifier::rlimit(100)]
    #[verifier::spinoff_prover]
    pub fn begin_act(&mut self, content: &Content, act: Id) -> (result: Result<(), Error>)
        requires
            old(self).wf(content),
        ensures
            final(self).wf(content),
            old(self).in_combat() ==> result == Err::<(), Error>(Error::CombatActive) && *final(self) == *old(self),
            !old(self).in_combat() && act >= content.acts@.len() ==> result == Err::<(), Error>(
                Error::InvalidContent,
            ) && *final(self) == *old(self),
            !old(self).in_combat() && act < content.acts@.len() ==> result is Ok && act_begun(
                *old(self),
                *final(self),
                content,
                act,
            ),
    {
        if self.combat().is_some() {
            return Err(Error::CombatActive);
        }
        if act as usize >= content.acts.len() {
            return Err(Error::InvalidContent);
        }
        let def = &content.acts[act as usize];
        assert(def.wf(content));
        let new_run = self.run.act == 0;
        let standard = is_standard_act(&def.id);
        if new_run {
            self.run.hp = 0;
        }
        if !standard {
            let missing: i32 = self.run.max_hp as i32 - self.run.hp as i32;
            let gain: i32 = if self.run.ascension >= 2 {
                missing * 4 / 5
            } else {
                missing
            };
            self.run.hp = (self.run.hp as i32 + gain) as i16;
        }
        self.act = act;
        self.run.act = if same_name(&def.id, "ACT.THE_HIVE") {
            2
        } else if same_name(&def.id, "ACT.THE_GLORY") {
            3
        } else {
            1
        };
        self.run.floor = if new_run && !standard {
            1
        } else {
            0
        };
        if new_run {
            self.rngs.up_front.forward(2);
        }
        let mut events = copy_id_list(&def.events);
        self.rngs.up_front.shuffle(&mut events);
        proof {
            lemma_perm_ids_below(events@, def.events@, content.events@.len() as int);
        }
        self.events = events;
        self.lay_out_act(content, act);
        Ok(())
    }
}

} // verus!
