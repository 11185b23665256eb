use vstd::prelude::*;
use crate::rng::Rng;
use crate::state::{Room, ActMap, MapNode};
use crate::piles::bytes_less_from;

verus! {

/// A map node while the map is being laid out.
pub struct Draft {
    pub col: usize,
    pub row: usize,
    pub room: Option<Room>,
    pub parents: Vec<usize>,
    pub children: Vec<usize>,
    /// Whether the room was placed by a rule and may not be reassigned.
    pub fixed: bool,
}

pub type Grid = Vec<[Option<usize>; 7]>;

/// `b` has the nodes of `a` at the same places with the same rooms.
pub open spec fn shape_eq(a: Seq<Draft>, b: Seq<Draft>) -> bool {
    &&& a.len() == b.len()
    &&& forall|i: int|
        0 <= i < a.len() ==> {
            &&& (#[trigger] a[i]).col == b[i].col
            &&& a[i].row == b[i].row
            &&& a[i].room == b[i].room
            &&& a[i].fixed == b[i].fixed
        }
}

/// Every edge names a node, and every edge goes one row down.
pub open spec fn edges_ok(n: Seq<Draft>) -> bool {
    &&& forall|i: int, j: int|
        0 <= i < n.len() && 0 <= j < n[i].children@.len() ==> {
            let c = #[trigger] n[i].children@[j];
            &&& c < n.len()
            &&& n[c as int].row == n[i].row + 1
        }
    &&& forall|i: int, j: int|
        0 <= i < n.len() && 0 <= j < n[i].parents@.len() ==> {
            let p = #[trigger] n[i].parents@[j];
            &&& p < n.len()
            &&& n[p as int].row + 1 == n[i].row
        }
}

/// The grid has one row per map row, and a grid slot names the node placed there.
pub open spec fn grid_ok(grid: Seq<[Option<usize>; 7]>, n: Seq<Draft>, length: int) -> bool {
    &&& grid.len() == length
    &&& forall|r: int, c: int|
        0 <= r < length && 0 <= c < 7 ==> match #[trigger] grid[r]@[c] {
            Some(id) => id < n.len() && n[id as int].row == r && n[id as int].col == c,
            None => true,
        }
}

/// Columns are in range; only the boss (if placed) lies below the grid, and it leads nowhere.
pub open spec fn nodes_ok(n: Seq<Draft>, length: int, boss: int) -> bool {
    &&& forall|i: int|
        0 <= i < n.len() ==> {
            &&& (#[trigger] n[i]).col < 7
            &&& n[i].row <= length
            &&& i != boss ==> n[i].row < length
        }
    &&& 0 <= boss < n.len() ==> n[boss].row == length && n[boss].children@.len() == 0
}

pub open spec fn graph_ok(n: Seq<Draft>, grid: Seq<[Option<usize>; 7]>, length: int, boss: int) -> bool {
    &&& edges_ok(n)
    &&& grid_ok(grid, n, length)
    &&& nodes_ok(n, length, boss)
}

/// The room that the layout fixes on row `row` of a map of `length` rows, if any:
/// fights on the first row, rest sites on the last, a treasure seven rows below it.
pub open spec fn fixed_row_room(row: int, length: int) -> Option<Room> {
    if row == 1 {
        Some(Room::Combat)
    } else if row == length - 1 {
        Some(Room::Rest)
    } else if row == length - 7 {
        Some(Room::Treasure)
    } else {
        None
    }
}

/// Where `room` may stand on a map of `length` rows: a rest site on the last row or
/// from row 6 up to four rows below the last, an elite from row 6 on, a treasure seven
/// rows below the boss, a boss from the boss's row on, an event only on row 0.
pub open spec fn spacing_room(room: Room, row: int, length: int) -> bool {
    &&& room == Room::Rest ==> row == length - 1 || 6 <= row < length - 3
    &&& room == Room::Elite ==> row >= 6
    &&& room == Room::Treasure ==> row == length - 7
    &&& room == Room::Boss ==> row >= length
    &&& room == Room::Event ==> row == 0
}

/// A room that the room pool deals: a rest site, a shop, an elite or an unknown room.
pub open spec fn pool_room(room: Room) -> bool {
    room == Room::Rest || room == Room::Shop || room == Room::Elite || room == Room::Unknown
}

/// The node's room, if any, stands where it may (see `spacing_room`).
pub open spec fn spacing_at(d: Draft, length: int) -> bool {
    d.room matches Some(r) ==> spacing_room(r, d.row as int, length)
}

/// Every node with a room on a row whose room is fixed holds that room, marked fixed,
/// and every room stands where it may.
pub open spec fn rows_fixed(n: Seq<Draft>, length: int) -> bool {
    &&& forall|i: int|
        0 <= i < n.len() && (#[trigger] n[i]).room is Some && fixed_row_room(n[i].row as int, length) is Some
            ==> n[i].fixed && n[i].room == fixed_row_room(n[i].row as int, length)
    &&& forall|i: int| 0 <= i < n.len() ==> spacing_at(#[trigger] n[i], length)
}

/// Every grid node on a row whose room is fixed has a room.
pub open spec fn fixed_rows_filled(grid: Seq<[Option<usize>; 7]>, n: Seq<Draft>, length: int) -> bool {
    forall|r: int, c: int|
        0 <= r < grid.len() && 0 <= c < 7 && fixed_row_room(r, length) is Some ==> match #[trigger] grid[r]@[c] {
            Some(id) => id < n.len() && n[id as int].room is Some,
            None => true,
        }
}

/// No node but the first has a room yet.
pub open spec fn rooms_open(n: Seq<Draft>) -> bool {
    forall|i: int| 1 <= i < n.len() ==> (#[trigger] n[i]).room is None
}

pub open spec fn all_below(s: Seq<usize>, n: int) -> bool {
    forall|i: int| 0 <= i < s.len() ==> #[trigger] s[i] < n
}

/// Whether `values` holds `value`.
fn holds(values: &Vec<usize>, value: usize) -> (found: bool)
    ensures
        found == values@.contains(value),
{
    let mut i: usize = 0;
    while i < values.len()
        invariant
            i <= values@.len(),
            forall|k: int| 0 <= k < i ==> values@[k] != value,
        decreases values@.len() - i,
    {
        if values[i] == value {
            return true;
        }
        i = i + 1;
    }
    false
}

fn room_is(room: Option<Room>, wanted: Room) -> (is: bool)
    ensures
        is == (room == Some(wanted)),
{
    match room {
        Some(r) => r == wanted,
        None => false,
    }
}

/// Links `parent` to `child` unless they are already linked.
fn link(nodes: &mut Vec<Draft>, parent: usize, child: usize)
    requires
        parent < old(nodes)@.len(),
        child < old(nodes)@.len(),
        old(nodes)@[child as int].row == old(nodes)@[parent as int].row + 1,
        edges_ok(old(nodes)@),
    ensures
        shape_eq(old(nodes)@, final(nodes)@),
        edges_ok(final(nodes)@),
        forall|i: int|
            0 <= i < old(nodes)@.len() && i != parent ==> (#[trigger] final(nodes)@[i]).children
                == old(nodes)@[i].children,
        final(nodes)@[parent as int].children@.contains(child),
        final(nodes)@[child as int].parents@.contains(parent),
        final(nodes)@[parent as int].children@ == if old(nodes)@[parent as int].children@.contains(child) {
            old(nodes)@[parent as int].children@
        } else {
            old(nodes)@[parent as int].children@.push(child)
        },
        forall|i: int|
            0 <= i < old(nodes)@.len() && i != parent && i != child ==> #[trigger] final(nodes)@[i]
                == old(nodes)@[i],
{
    if !holds(&nodes[parent].children, child) {
        nodes[parent].children.push(child);
        assert(nodes@[parent as int].children@.last() == child);
    }
    if !holds(&nodes[child].parents, parent) {
        nodes[child].parents.push(parent);
        assert(nodes@[child as int].parents@.last() == parent);
    }
}

/// Removes every copy of `value` from `values`.
fn remove_value(values: &mut Vec<usize>, value: usize)
    ensures
        final(values)@ == old(values)@.filter(|x: usize| x != value),
{
    let ghost pred = |x: usize| x != value;
    let ghost given = values@;
    let mut out: Vec<usize> = Vec::new();
    let mut i: usize = 0;
    while i < values.len()
        invariant
            i <= values@.len(),
            values@ == given,
            pred == (|x: usize| x != value),
            out@ == given.take(i as int).filter(pred),
        decreases values@.len() - i,
    {
        proof {
            reveal_with_fuel(Seq::<_>::filter, 1);
            assert(given.take(i + 1).drop_last() =~= given.take(i as int));
        }
        if values[i] != value {
            out.push(values[i]);
        }
        i = i + 1;
    }
    proof {
        assert(given.take(given.len() as int) =~= given);
    }
    *values = out;
}

/// The elements of a filtered sequence are elements of the sequence.
proof fn lemma_filter_subset(s: Seq<usize>, value: usize, n: int)
    requires
        all_below(s, n),
    ensures
        all_below(s.filter(|x: usize| x != value), n),
        !s.filter(|x: usize| x != value).contains(value),
        s.filter(|x: usize| x != value).len() <= s.len(),
{
    let pred = |x: usize| x != value;
    let f = s.filter(pred);
    assert forall|i: int| 0 <= i < f.len() implies #[trigger] f[i] < n by {
        assert(f.contains(f[i]));
        s.lemma_filter_contains_rev(pred, f[i]);
    }
    broadcast use vstd::seq_lib::group_filter_ensures;
    s.lemma_filter_len(pred);
}

/// Unlinks `parent` from `child`.
fn remove_edge(nodes: &mut Vec<Draft>, parent: usize, child: usize)
    requires
        parent < old(nodes)@.len(),
        child < old(nodes)@.len(),
        edges_ok(old(nodes)@),
    ensures
        shape_eq(old(nodes)@, final(nodes)@),
        edges_ok(final(nodes)@),
        forall|i: int|
            0 <= i < old(nodes)@.len() ==> (#[trigger] final(nodes)@[i]).children@.len() <= old(
                nodes,
            )@[i].children@.len(),
        forall|i: int|
            0 <= i < old(nodes)@.len() && i != parent && i != child ==> #[trigger] final(nodes)@[i]
                == old(nodes)@[i],
{
    let ghost before = nodes@;
    proof {
        assert(all_below(before[parent as int].children@, before.len() as int));
        assert(all_below(before[child as int].parents@, before.len() as int));
        lemma_filter_subset(before[parent as int].children@, child, before.len() as int);
    }
    remove_value(&mut nodes[parent].children, child);
    proof {
        let f = before[parent as int].children@.filter(|x: usize| x != child);
        assert forall|j: int| 0 <= j < f.len() implies nodes@[(#[trigger] f[j]) as int].row
            == nodes@[parent as int].row + 1 by {
            assert(f.contains(f[j]));
            before[parent as int].children@.lemma_filter_contains_rev(|x: usize| x != child, f[j]);
        }
    }
    let ghost middle = nodes@;
    proof {
        lemma_filter_subset(middle[child as int].parents@, parent, middle.len() as int);
    }
    remove_value(&mut nodes[child].parents, parent);
    proof {
        let f = middle[child as int].parents@.filter(|x: usize| x != parent);
        assert forall|j: int| 0 <= j < f.len() implies nodes@[(#[trigger] f[j]) as int].row + 1
            == nodes@[child as int].row by {
            assert(f.contains(f[j]));
            middle[child as int].parents@.lemma_filter_contains_rev(|x: usize| x != parent, f[j]);
        }
        assert forall|i: int| 0 <= i < nodes@.len() implies (#[trigger] nodes@[i]).children@.len()
            <= before[i].children@.len() by {
            if i == parent {
                before[parent as int].children@.lemma_filter_len(|x: usize| x != child);
            }
        }
    }
}

/// A copy of `values`.
fn copy_ids(values: &Vec<usize>) -> (copy: Vec<usize>)
    ensures
        copy@ == values@,
{
    let mut out: Vec<usize> = Vec::new();
    let mut i: usize = 0;
    while i < values.len()
        invariant
            i <= values@.len(),
            out@ == values@.take(i as int),
        decreases values@.len() - i,
    {
        out.push(values[i]);
        proof {
            assert(values@.take(i + 1) =~= values@.take(i as int).push(values@[i as int]));
        }
        i = i + 1;
    }
    proof {
        assert(values@.take(values@.len() as int) =~= values@);
    }
    out
}

/// Takes node `id` off the grid and out of the starting nodes, and unlinks it.
fn remove_node(
    nodes: &mut Vec<Draft>,
    grid: &mut Grid,
    starts: &mut Vec<usize>,
    id: usize,
    Ghost(length): Ghost<int>,
    Ghost(boss): Ghost<int>,
)
    requires
        graph_ok(old(nodes)@, old(grid)@, length, boss),
        id < old(nodes)@.len(),
        id != boss,
        all_below(old(starts)@, old(nodes)@.len() as int),
    ensures
        graph_ok(final(nodes)@, final(grid)@, length, boss),
        shape_eq(old(nodes)@, final(nodes)@),
        all_below(final(starts)@, old(nodes)@.len() as int),
        forall|i: int|
            0 <= i < old(nodes)@.len() ==> (#[trigger] final(nodes)@[i]).children@.len() <= old(
                nodes,
            )@[i].children@.len(),
        forall|r: int, c: int|
            0 <= r < length && 0 <= c < 7 && (#[trigger] final(grid)@[r]@[c]) is Some ==> final(grid)@[r]@[c] == old(grid)@[r]@[c],
{
    let row = nodes[id].row;
    let col = nodes[id].col;
    grid[row][col] = None;
    proof {
        lemma_filter_subset(starts@, id, nodes@.len() as int);
    }
    remove_value(starts, id);
    let children = copy_ids(&nodes[id].children);
    let parents = copy_ids(&nodes[id].parents);
    let ghost start = nodes@;
    proof {
        assert(all_below(children@, start.len() as int));
        assert(all_below(parents@, start.len() as int));
    }
    let mut k: usize = 0;
    while k < children.len()
        invariant
            k <= children@.len(),
            id < start.len(),
            all_below(children@, start.len() as int),
            shape_eq(start, nodes@),
            edges_ok(nodes@),
            forall|i: int|
                0 <= i < start.len() ==> (#[trigger] nodes@[i]).children@.len() <= start[i].children@.len(),
        decreases children@.len() - k,
    {
        remove_edge(nodes, id, children[k]);
        k = k + 1;
    }
    let mut k: usize = 0;
    while k < parents.len()
        invariant
            k <= parents@.len(),
            id < start.len(),
            all_below(parents@, start.len() as int),
            shape_eq(start, nodes@),
            edges_ok(nodes@),
            forall|i: int|
                0 <= i < start.len() ==> (#[trigger] nodes@[i]).children@.len() <= start[i].children@.len(),
        decreases parents@.len() - k,
    {
        remove_edge(nodes, parents[k], id);
        k = k + 1;
    }
    proof {
        assert forall|r: int, c: int| 0 <= r < length && 0 <= c < 7 implies match #[trigger] grid@[r]@[c] {
            Some(x) => x < nodes@.len() && nodes@[x as int].row == r && nodes@[x as int].col == c,
            None => true,
        } by {
            assert(old(grid)@[r]@[c] == grid@[r]@[c] || grid@[r]@[c] is None);
        }
    }
}

/// The node at `col`, `row`, placed there if the slot is empty.
fn point(
    nodes: &mut Vec<Draft>,
    grid: &mut Grid,
    col: usize,
    row: usize,
    Ghost(length): Ghost<int>,
) -> (id: usize)
    requires
        graph_ok(old(nodes)@, old(grid)@, length, -1),
        col < 7,
        row < length,
        old(nodes)@.len() < usize::MAX,
    ensures
        graph_ok(final(nodes)@, final(grid)@, length, -1),
        id < final(nodes)@.len(),
        final(nodes)@[id as int].row == row,
        final(nodes)@[id as int].col == col,
        final(nodes)@.len() == old(nodes)@.len() || final(nodes)@.len() == old(nodes)@.len() + 1,
        forall|i: int| 0 <= i < old(nodes)@.len() ==> #[trigger] final(nodes)@[i] == old(nodes)@[i],
        final(nodes)@.len() == old(nodes)@.len() + 1 ==> id == old(nodes)@.len()
            && final(nodes)@[id as int].room is None && final(nodes)@[id as int].children@.len() == 0
            && final(nodes)@[id as int].parents@.len() == 0,
        forall|r: int, c: int|
            0 <= r < length && 0 <= c < 7 && (r != row || c != col) ==> #[trigger] final(grid)@[r]@[c]
                == old(grid)@[r]@[c],
{
    if let Some(id) = grid[row][col] {
        return id;
    }
    let id = nodes.len();
    nodes.push(Draft {
        col,
        row,
        room: None,
        parents: Vec::new(),
        children: Vec::new(),
        fixed: false,
    });
    grid[row][col] = Some(id);
    proof {
        let n = nodes@;
        assert forall|i: int, j: int| 0 <= i < n.len() && 0 <= j < n[i].children@.len() implies {
            let c = #[trigger] n[i].children@[j];
            &&& c < n.len()
            &&& n[c as int].row == n[i].row + 1
        } by {
            if i < id {
                assert(old(nodes)@[i].children@[j] < old(nodes)@.len());
            }
        }
        assert forall|i: int, j: int| 0 <= i < n.len() && 0 <= j < n[i].parents@.len() implies {
            let p = #[trigger] n[i].parents@[j];
            &&& p < n.len()
            &&& n[p as int].row + 1 == n[i].row
        } by {
            if i < id {
                assert(old(nodes)@[i].parents@[j] < old(nodes)@.len());
            }
        }
    }
    id
}

/// Whether `room` may be placed on node `id`: no rest site or elite in the first six
/// rows, no rest site in the last three, no two elites, rest sites, treasures or
/// shops in a row along an edge, and no two siblings with the same room.
fn valid(nodes: &Vec<Draft>, length: usize, id: usize, room: Room) -> (ok: bool)
    requires
        id < nodes@.len(),
        edges_ok(nodes@),
        length >= 3,
    ensures
        ok ==> (nodes@[id as int].row < 6 ==> room != Room::Rest && room != Room::Elite),
        ok ==> (nodes@[id as int].row >= length - 3 ==> room != Room::Rest),
{
    let node = &nodes[id];
    if node.row < 6 && (room == Room::Rest || room == Room::Elite) || node.row >= length - 3
        && room == Room::Rest {
        return false;
    }
    let consecutive = room == Room::Elite || room == Room::Rest || room == Room::Treasure || room
        == Room::Shop;
    if consecutive {
        let mut k: usize = 0;
        while k < node.parents.len()
            invariant
                k <= node.parents@.len(),
                id < nodes@.len(),
                *node == nodes@[id as int],
                edges_ok(nodes@),
            decreases node.parents@.len() - k,
        {
            if room_is(nodes[node.parents[k]].room, room) {
                return false;
            }
            k = k + 1;
        }
        let mut k: usize = 0;
        while k < node.children.len()
            invariant
                k <= node.children@.len(),
                id < nodes@.len(),
                *node == nodes@[id as int],
                edges_ok(nodes@),
            decreases node.children@.len() - k,
        {
            if room_is(nodes[node.children[k]].room, room) {
                return false;
            }
            k = k + 1;
        }
    }
    if room == Room::Rest || room == Room::Combat || room == Room::Unknown || room == Room::Elite
        || room == Room::Shop {
        let mut k: usize = 0;
        while k < node.parents.len()
            invariant
                k <= node.parents@.len(),
                id < nodes@.len(),
                *node == nodes@[id as int],
                edges_ok(nodes@),
            decreases node.parents@.len() - k,
        {
            let parent = &nodes[node.parents[k]];
            let mut m: usize = 0;
            while m < parent.children.len()
                invariant
                    m <= parent.children@.len(),
                    k < node.parents@.len(),
                    id < nodes@.len(),
                    *node == nodes@[id as int],
                    *parent == nodes@[node.parents@[k as int] as int],
                    edges_ok(nodes@),
                decreases parent.children@.len() - m,
            {
                let sibling = parent.children[m];
                if sibling != id && room_is(nodes[sibling].room, room) {
                    return false;
                }
                m = m + 1;
            }
            k = k + 1;
        }
    }
    true
}

/// A path of node ids that ends at the boss and passes it nowhere else.
pub open spec fn leads_to_boss(p: Seq<usize>, n: int, boss: int) -> bool {
    &&& p.len() >= 1
    &&& all_below(p, n)
    &&& p.last() == boss
    &&& forall|k: int| 0 <= k < p.len() - 1 ==> p[k] != boss
}

/// Every path from `id` to the boss.
fn paths(nodes: &Vec<Draft>, id: usize, boss: usize, Ghost(length): Ghost<int>) -> (result: Vec<
    Vec<usize>,
>)
    requires
        edges_ok(nodes@),
        nodes_ok(nodes@, length, boss as int),
        id < nodes@.len(),
        boss < nodes@.len(),
    ensures
        forall|i: int|
            0 <= i < result@.len() ==> leads_to_boss(
                #[trigger] result@[i]@,
                nodes@.len() as int,
                boss as int,
            ) && result@[i]@[0] == id,
    decreases length - nodes@[id as int].row,
{
    if id == boss {
        return vec![vec![id]];
    }
    let mut result: Vec<Vec<usize>> = Vec::new();
    let node = &nodes[id];
    let mut k: usize = 0;
    while k < node.children.len()
        invariant
            k <= node.children@.len(),
            id < nodes@.len(),
            id != boss,
            boss < nodes@.len(),
            *node == nodes@[id as int],
            edges_ok(nodes@),
            nodes_ok(nodes@, length, boss as int),
            forall|i: int|
                0 <= i < result@.len() ==> leads_to_boss(
                    #[trigger] result@[i]@,
                    nodes@.len() as int,
                    boss as int,
                ) && result@[i]@[0] == id,
        decreases node.children@.len() - k,
    {
        let child = node.children[k];
        assert(nodes@[child as int].row == nodes@[id as int].row + 1);
        let tails = paths(nodes, child, boss, Ghost(length));
        let mut m: usize = 0;
        while m < tails.len()
            invariant
                m <= tails@.len(),
                id < nodes@.len(),
                id != boss,
                forall|i: int|
                    0 <= i < tails@.len() ==> leads_to_boss(
                        #[trigger] tails@[i]@,
                        nodes@.len() as int,
                        boss as int,
                    ),
                forall|i: int|
                    0 <= i < result@.len() ==> leads_to_boss(
                        #[trigger] result@[i]@,
                        nodes@.len() as int,
                        boss as int,
                    ) && result@[i]@[0] == id,
            decreases tails@.len() - m,
        {
            let mut path = copy_ids(&tails[m]);
            let ghost tail = path@;
            assert(leads_to_boss(tails@[m as int]@, nodes@.len() as int, boss as int));
            path.insert(0, id);
            proof {
                assert(path@ =~= seq![id].add(tail));
                assert forall|j: int| 0 <= j < path@.len() implies #[trigger] path@[j] < nodes@.len() by {
                    if j > 0 {
                        assert(path@[j] == tail[j - 1]);
                    }
                }
                assert forall|j: int| 0 <= j < path@.len() - 1 implies path@[j] != boss by {
                    if j > 0 {
                        assert(path@[j] == tail[j - 1]);
                    }
                }
            }
            result.push(path);
            m = m + 1;
        }
        k = k + 1;
    }
    result
}

/// A stretch of a path to the boss: at least three nodes, none of them the boss but the last.
pub open spec fn segment_ok(s: Seq<usize>, n: int, boss: int) -> bool {
    &&& s.len() >= 3
    &&& all_below(s, n)
    &&& forall|k: int| 0 <= k < s.len() - 1 ==> s[k] != boss
}

/// Appends the decimal digits of `value`.
pub(crate) fn push_decimal(buf: &mut Vec<u8>, value: usize)
    ensures
        final(buf)@ == old(buf)@ + decimal(value as nat),
    decreases value,
{
    if value >= 10 {
        push_decimal(buf, value / 10);
    }
    buf.push((48 + value % 10) as u8);
    proof {
        assert(decimal(value as nat) == if value >= 10 { decimal((value / 10) as nat) } else { Seq::<u8>::empty() }.push(
            (48 + value % 10) as u8,
        ));
    }
}

/// The decimal digits of `value` as ASCII bytes, most significant first.
pub open spec fn decimal(value: nat) -> Seq<u8>
    decreases value,
{
    let last = (48 + value % 10) as u8;
    if value >= 10 {
        decimal(value / 10).push(last)
    } else {
        seq![last]
    }
}

/// The digit that names a room in a segment key.
/// The digit that names `room` in a segment key (unknown rooms and events share one).
pub open spec fn room_digit(room: Option<Room>) -> u8 {
    match room {
        Some(Room::Unknown) | Some(Room::Event) => 49,
        Some(Room::Shop) => 50,
        Some(Room::Treasure) => 51,
        Some(Room::Rest) => 52,
        Some(Room::Combat) => 53,
        Some(Room::Elite) => 54,
        Some(Room::Boss) => 55,
        None => 56,
    }
}

fn room_code(room: Option<Room>) -> (code: u8)
    ensures
        code == room_digit(room),
{
    match room {
        Some(Room::Unknown) | Some(Room::Event) => 49,
        Some(Room::Shop) => 50,
        Some(Room::Treasure) => 51,
        Some(Room::Rest) => 52,
        Some(Room::Combat) => 53,
        Some(Room::Elite) => 54,
        Some(Room::Boss) => 55,
        None => 56,
    }
}

/// Whether `a` sorts strictly before `b`, byte by byte.
fn bytes_less(a: &Vec<u8>, b: &Vec<u8>) -> (less: bool)
    ensures
        less == bytes_less_from(a@, b@, 0),
{
    let mut i: usize = 0;
    while i < a.len() && i < b.len()
        invariant
            i <= a@.len() && i <= b@.len(),
            bytes_less_from(a@, b@, 0) == bytes_less_from(a@, b@, i as int),
        decreases a@.len() - i,
    {
        if a[i] != b[i] {
            return a[i] < b[i];
        }
        i = i + 1;
    }
    a.len() < b.len()
}

fn bytes_eq(a: &Vec<u8>, b: &Vec<u8>) -> (eq: bool)
    ensures
        eq == (a@ == b@),
{
    if a.len() != b.len() {
        return false;
    }
    let mut i: usize = 0;
    while i < a.len()
        invariant
            i <= a@.len(),
            a@.len() == b@.len(),
            forall|k: int| 0 <= k < i ==> a@[k] == b@[k],
        decreases a@.len() - i,
    {
        if a[i] != b[i] {
            return false;
        }
        i = i + 1;
    }
    assert(a@ =~= b@);
    true
}

/// Segments that share a key: same endpoints and the same rooms along the way.
struct Group {
    key: Vec<u8>,
    len: usize,
    segments: Vec<Vec<usize>>,
}

spec fn group_ok(g: Group, n: int, boss: int) -> bool {
    forall|i: int|
        0 <= i < g.segments@.len() ==> segment_ok(#[trigger] g.segments@[i]@, n, boss)
            && g.segments@[i]@.len() == g.len
}

/// Groups of at least two segments of paths from `ancient` to `boss` that start at a
/// branching node (or the first row), end at a merging node, and visit the same rooms,
/// where no two segments of a group share an inner node. Groups come in key order.
fn duplicate_segments(nodes: &Vec<Draft>, ancient: usize, boss: usize, Ghost(length): Ghost<int>) -> (groups: Vec<Vec<Vec<usize>>>)
    requires
        edges_ok(nodes@),
        nodes_ok(nodes@, length, boss as int),
        ancient < nodes@.len(),
        boss < nodes@.len(),
    ensures
        forall|g: int|
            0 <= g < groups@.len() ==> (#[trigger] groups@[g])@.len() >= 2 && forall|i: int|
                0 <= i < groups@[g]@.len() ==> segment_ok(
                    #[trigger] groups@[g]@[i]@,
                    nodes@.len() as int,
                    boss as int,
                ),
{
    let n = Ghost(nodes@.len() as int);
    let mut groups: Vec<Group> = Vec::new();
    let all = paths(nodes, ancient, boss, Ghost(length));
    let mut p: usize = 0;
    while p < all.len()
        invariant
            p <= all@.len(),
            n@ == nodes@.len(),
            forall|i: int|
                0 <= i < all@.len() ==> leads_to_boss(#[trigger] all@[i]@, n@, boss as int),
            forall|g: int| 0 <= g < groups@.len() ==> group_ok(#[trigger] groups@[g], n@, boss as int),
        decreases all@.len() - p,
    {
        let path = &all[p];
        assert(leads_to_boss(all@[p as int]@, n@, boss as int));
        let mut start: usize = 0;
        while start < path.len() - 1
            invariant
                p < all@.len(),
                *path == all@[p as int],
                leads_to_boss(path@, n@, boss as int),
                n@ == nodes@.len(),
                forall|g: int| 0 <= g < groups@.len() ==> group_ok(#[trigger] groups@[g], n@, boss as int),
            decreases path@.len() - start,
        {
            let first = &nodes[path[start]];
            if first.children.len() <= 1 && first.row != 0 {
                start = start + 1;
                continue;
            }
            let mut offset: usize = 2;
            while offset < path.len() - start
                invariant
                    start < path@.len() - 1,
                    offset >= 2,
                    leads_to_boss(path@, n@, boss as int),
                    n@ == nodes@.len(),
                    path@[start as int] < nodes@.len(),
                    *first == nodes@[path@[start as int] as int],
                    forall|g: int| 0 <= g < groups@.len() ==> group_ok(#[trigger] groups@[g], n@, boss as int),
                decreases path@.len() - start - offset,
            {
                let mut segment: Vec<usize> = Vec::new();
                let end = start + offset;
                let mut k: usize = start;
                while k <= end
                    invariant
                        start <= k <= end + 1,
                        end == start + offset,
                        end < path@.len(),
                        end < path.len(),
                        segment@ == path@.subrange(start as int, k as int),
                    decreases end + 1 - k,
                {
                    segment.push(path[k]);
                    proof {
                        assert(path@.subrange(start as int, k + 1) =~= path@.subrange(start as int, k as int).push(path@[k as int]));
                    }
                    k = k + 1;
                }
                proof {
                    assert forall|j: int| 0 <= j < segment@.len() implies #[trigger] segment@[j] < n@ by {
                        assert(segment@[j] == path@[start + j]);
                    }
                    assert forall|j: int| 0 <= j < segment@.len() - 1 implies segment@[j] != boss by {
                        assert(segment@[j] == path@[start + j]);
                    }
                    assert(segment_ok(segment@, n@, boss as int));
                }
                let last = &nodes[segment[segment.len() - 1]];
                if last.parents.len() < 2 {
                    offset = offset + 1;
                    continue;
                }
                let mut key: Vec<u8> = Vec::new();
                if first.row == 0 {
                    key.push(48);
                    key.push(45);
                    push_decimal(&mut key, last.col);
                    key.push(44);
                    push_decimal(&mut key, last.row);
                    key.push(45);
                } else {
                    push_decimal(&mut key, first.col);
                    key.push(44);
                    push_decimal(&mut key, first.row);
                    key.push(45);
                    push_decimal(&mut key, last.col);
                    key.push(44);
                    push_decimal(&mut key, last.row);
                    key.push(45);
                }
                let mut j: usize = 0;
                while j < segment.len()
                    invariant
                        j <= segment@.len(),
                        all_below(segment@, nodes@.len() as int),
                    decreases segment@.len() - j,
                {
                    if j > 0 {
                        key.push(44);
                    }
                    key.push(room_code(nodes[segment[j]].room));
                    j = j + 1;
                }
                add_segment(&mut groups, key, segment, Ghost(n@), Ghost(boss as int));
                offset = offset + 1;
            }
            start = start + 1;
        }
        p = p + 1;
    }
    let mut result: Vec<Vec<Vec<usize>>> = Vec::new();
    let mut g: usize = 0;
    while g < groups.len()
        invariant
            g <= groups@.len(),
            forall|x: int| 0 <= x < groups@.len() ==> group_ok(#[trigger] groups@[x], n@, boss as int),
            n@ == nodes@.len(),
            forall|x: int|
                0 <= x < result@.len() ==> (#[trigger] result@[x])@.len() >= 2 && forall|i: int|
                    0 <= i < result@[x]@.len() ==> segment_ok(
                        #[trigger] result@[x]@[i]@,
                        nodes@.len() as int,
                        boss as int,
                    ),
        decreases groups@.len() - g,
    {
        if groups[g].segments.len() > 1 {
            let mut copy: Vec<Vec<usize>> = Vec::new();
            let mut i: usize = 0;
            while i < groups[g].segments.len()
                invariant
                    g < groups@.len(),
                    i <= groups@[g as int].segments@.len(),
                    group_ok(groups@[g as int], n@, boss as int),
                    copy@.len() == i,
                    forall|x: int| 0 <= x < i ==> (#[trigger] copy@[x])@ == groups@[g as int].segments@[x]@,
                decreases groups@[g as int].segments@.len() - i,
            {
                copy.push(copy_ids(&groups[g].segments[i]));
                i = i + 1;
            }
            assert forall|i: int| 0 <= i < copy@.len() implies segment_ok(
                #[trigger] copy@[i]@,
                nodes@.len() as int,
                boss as int,
            ) by {
                assert(segment_ok(groups@[g as int].segments@[i]@, n@, boss as int));
            }
            result.push(copy);
        }
        g = g + 1;
    }
    result
}

/// Files `segment` under `key`: a new group goes in key order; an existing group
/// takes the segment unless one of its segments shares an inner node with it.
fn add_segment(
    groups: &mut Vec<Group>,
    key: Vec<u8>,
    segment: Vec<usize>,
    Ghost(n): Ghost<int>,
    Ghost(boss): Ghost<int>,
)
    requires
        segment_ok(segment@, n, boss),
        forall|g: int| 0 <= g < old(groups)@.len() ==> group_ok(#[trigger] old(groups)@[g], n, boss),
    ensures
        forall|g: int| 0 <= g < final(groups)@.len() ==> group_ok(#[trigger] final(groups)@[g], n, boss),
{
    let mut g: usize = 0;
    while g < groups.len()
        invariant
            g <= groups@.len(),
            groups@ == old(groups)@,
            segment_ok(segment@, n, boss),
            forall|x: int| 0 <= x < groups@.len() ==> group_ok(#[trigger] groups@[x], n, boss),
        decreases groups@.len() - g,
    {
        if bytes_eq(&groups[g].key, &key) && groups[g].len == segment.len() {
            let mut overlaps = false;
            let mut o: usize = 0;
            while o < groups[g].segments.len() && !overlaps
                invariant
                    g < groups@.len(),
                    group_ok(groups@[g as int], n, boss),
                    segment_ok(segment@, n, boss),
                    groups@[g as int].len == segment@.len(),
                    o <= groups@[g as int].segments@.len(),
                decreases groups@[g as int].segments@.len() - o,
            {
                let other = &groups[g].segments[o];
                assert(segment_ok(other@, n, boss));
                assert(other@.len() == segment@.len());
                let mut index: usize = 1;
                while index < other.len() - 1
                    invariant
                        other@.len() == segment@.len(),
                        other@.len() >= 3,
                        index >= 1,
                    decreases other@.len() - index,
                {
                    if other[index] == segment[index] {
                        overlaps = true;
                    }
                    index = index + 1;
                }
                o = o + 1;
            }
            if !overlaps {
                let ghost before = groups@;
                let ghost seg = segment@;
                let mut group = groups.remove(g);
                assert(group == before[g as int]);
                let ghost old_segments = group.segments@;
                group.segments.push(segment);
                assert(group.segments@.len() == old_segments.len() + 1);
                assert(group.segments@.last()@ == seg);
                assert(group.len == seg.len());
                assert(group_ok(group, n, boss)) by {
                    assert(group_ok(before[g as int], n, boss));
                    assert forall|i: int| 0 <= i < group.segments@.len() implies segment_ok(#[trigger] group.segments@[i]@, n, boss)
                        && group.segments@[i]@.len() == group.len by {
                        if i < group.segments@.len() - 1 {
                            assert(group.segments@[i] == old_segments[i]);
                            assert(segment_ok(before[g as int].segments@[i]@, n, boss));
                        } else {
                            assert(group.segments@[i]@ == seg);
                            assert(segment_ok(seg, n, boss));
                        }
                    }
                }
                groups.insert(g, group);
                assert forall|x: int| 0 <= x < groups@.len() implies group_ok(#[trigger] groups@[x], n, boss) by {
                    if x != g {
                        assert(groups@[x] == before[x]);
                    }
                }
            }
            return;
        }
        g = g + 1;
    }
    let mut at: usize = 0;
    while at < groups.len() && !bytes_less(&key, &groups[at].key)
        invariant
            at <= groups@.len(),
        decreases groups@.len() - at,
    {
        at = at + 1;
    }
    let len = segment.len();
    let mut segments: Vec<Vec<usize>> = Vec::new();
    segments.push(segment);
    let group = Group { key, len, segments };
    assert(group_ok(group, n, boss)) by {
        assert(group.segments@[0] == segment);
    }
    let ghost before = groups@;
    groups.insert(at, group);
    assert forall|x: int| 0 <= x < groups@.len() implies group_ok(#[trigger] groups@[x], n, boss) by {
        if x < at {
            assert(groups@[x] == before[x]);
        } else if x > at {
            assert(groups@[x] == before[x - 1]);
        }
    }
}

/// A copy of a group of segments.
fn copy_segments(group: &Vec<Vec<usize>>) -> (copy: Vec<Vec<usize>>)
    ensures
        copy@.len() == group@.len(),
        forall|i: int| 0 <= i < group@.len() ==> (#[trigger] copy@[i])@ == group@[i]@,
{
    let mut out: Vec<Vec<usize>> = Vec::new();
    let mut i: usize = 0;
    while i < group.len()
        invariant
            i <= group@.len(),
            out@.len() == i,
            forall|k: int| 0 <= k < i ==> (#[trigger] out@[k])@ == group@[k]@,
        decreases group@.len() - i,
    {
        out.push(copy_ids(&group[i]));
        i = i + 1;
    }
    out
}

/// An element of a permutation of `b` is an element of `b`.
proof fn lemma_perm_contains<T>(a: Seq<T>, b: Seq<T>, x: T)
    requires
        a.to_multiset() == b.to_multiset(),
        a.contains(x),
    ensures
        b.contains(x),
{
    a.to_multiset_ensures();
    b.to_multiset_ensures();
    assert(a.to_multiset().count(x) > 0);
    assert(b.to_multiset().count(x) > 0);
}

/// `parent` is not `ancient`, leads only to one node and is still on the grid.
pub open spec fn blocking_parent(n: Seq<Draft>, grid: Seq<[Option<usize>; 7]>, parent: usize, ancient: usize) -> bool {
    let p = n[parent as int];
    &&& p.children@.len() == 1
    &&& parent != ancient
    &&& grid[p.row as int]@[p.col as int] is Some
}

/// Whether some parent of `id` other than `ancient` is still on the grid and leads only to one node.
fn parent_blocks(nodes: &Vec<Draft>, grid: &Grid, id: usize, ancient: usize, Ghost(length): Ghost<int>, Ghost(boss): Ghost<int>) -> (blocks: bool)
    requires
        graph_ok(nodes@, grid@, length, boss),
        id < nodes@.len(),
    ensures
        blocks == exists|k: int| 0 <= k < nodes@[id as int].parents@.len() && #[trigger] blocking_parent(
            nodes@,
            grid@,
            nodes@[id as int].parents@[k],
            ancient,
        ),
{
    let node = &nodes[id];
    let mut k: usize = 0;
    while k < node.parents.len()
        invariant
            k <= node.parents@.len(),
            id < nodes@.len(),
            *node == nodes@[id as int],
            graph_ok(nodes@, grid@, length, boss),
            forall|j: int| 0 <= j < k ==> !#[trigger] blocking_parent(nodes@, grid@, node.parents@[j], ancient),
        decreases node.parents@.len() - k,
    {
        let parent = node.parents[k];
        let p = &nodes[parent];
        if p.children.len() == 1 && parent != ancient {
            assert(parent != boss);
            if grid[p.row][p.col].is_some() {
                assert(blocking_parent(nodes@, grid@, node.parents@[k as int], ancient));
                return true;
            }
        }
        k = k + 1;
    }
    false
}

/// The node has a single parent and more than one child.
pub open spec fn branches_out(d: Draft) -> bool {
    d.children@.len() > 1 && d.parents@.len() == 1
}

/// Whether a node of `segment` from `index` on branches out with a single parent.
fn later_branch(nodes: &Vec<Draft>, segment: &Vec<usize>, index: usize) -> (found: bool)
    requires
        all_below(segment@, nodes@.len() as int),
    ensures
        found == exists|k: int| index <= k < segment@.len() && #[trigger] branches_out(nodes@[segment@[k] as int]),
{
    let mut k: usize = index;
    while k < segment.len()
        invariant
            all_below(segment@, nodes@.len() as int),
            index <= k,
            forall|j: int| index <= j < k && j < segment@.len() ==> !#[trigger] branches_out(nodes@[segment@[j] as int]),
        decreases segment@.len() - k,
    {
        let node = &nodes[segment[k]];
        if node.children.len() > 1 && node.parents.len() == 1 {
            assert(branches_out(nodes@[segment@[k as int] as int]));
            return true;
        }
        k = k + 1;
    }
    false
}

/// `child` lies off `segment` and has a single parent.
pub open spec fn stranded(n: Seq<Draft>, segment: Seq<usize>, child: usize) -> bool {
    !segment.contains(child) && n[child as int].parents@.len() == 1
}

/// Whether `id` leads to a node off `segment` that has no other parent.
fn strands_child(nodes: &Vec<Draft>, segment: &Vec<usize>, id: usize) -> (strands: bool)
    requires
        edges_ok(nodes@),
        id < nodes@.len(),
    ensures
        strands == exists|k: int| 0 <= k < nodes@[id as int].children@.len() && #[trigger] stranded(
            nodes@,
            segment@,
            nodes@[id as int].children@[k],
        ),
{
    let node = &nodes[id];
    let mut k: usize = 0;
    while k < node.children.len()
        invariant
            k <= node.children@.len(),
            id < nodes@.len(),
            *node == nodes@[id as int],
            edges_ok(nodes@),
            forall|j: int| 0 <= j < k ==> !#[trigger] stranded(nodes@, segment@, node.children@[j]),
        decreases node.children@.len() - k,
    {
        let child = node.children[k];
        if !holds(segment, child) && nodes[child].parents.len() == 1 {
            assert(stranded(nodes@, segment@, node.children@[k as int]));
            return true;
        }
        k = k + 1;
    }
    false
}

/// Thins out duplicate segments (see `duplicate_segments`): in each group, in a
/// shuffled order, all but one segment lose their removable inner nodes; when no node
/// can go, one edge from a branching node into a merging node is cut. Repeats until
/// nothing changes, at most 51 times.
fn prune(
    nodes: &mut Vec<Draft>,
    grid: &mut Grid,
    starts: &mut Vec<usize>,
    ancient: usize,
    boss: usize,
    rng: &mut Rng,
    Ghost(length): Ghost<int>,
)
    requires
        graph_ok(old(nodes)@, old(grid)@, length, boss as int),
        ancient < old(nodes)@.len(),
        boss < old(nodes)@.len(),
        ancient != boss,
        all_below(old(starts)@, old(nodes)@.len() as int),
    ensures
        graph_ok(final(nodes)@, final(grid)@, length, boss as int),
        shape_eq(old(nodes)@, final(nodes)@),
        all_below(final(starts)@, old(nodes)@.len() as int),
        forall|r: int, c: int|
            0 <= r < length && 0 <= c < 7 && (#[trigger] final(grid)@[r]@[c]) is Some ==> final(grid)@[r]@[c] == old(grid)@[r]@[c],
{
    let ghost n = nodes@.len() as int;
    let ghost start_nodes = nodes@;
    let ghost start_grid = grid@;
    let mut iteration: usize = 0;
    while iteration <= 50
        invariant
            graph_ok(nodes@, grid@, length, boss as int),
            shape_eq(start_nodes, nodes@),
            n == nodes@.len(),
            ancient < n,
            boss < n,
            ancient != boss,
            all_below(starts@, n),
            forall|r: int, c: int|
                0 <= r < length && 0 <= c < 7 && (#[trigger] grid@[r]@[c]) is Some ==> grid@[r]@[c] == start_grid[r]@[c],
        decreases 51 - iteration,
    {
        let groups = duplicate_segments(nodes, ancient, boss, Ghost(length));
        let mut changed = false;
        let mut gi: usize = 0;
        'groups: while gi < groups.len()
            invariant
                gi <= groups@.len(),
                graph_ok(nodes@, grid@, length, boss as int),
                shape_eq(start_nodes, nodes@),
                n == nodes@.len(),
                ancient < n,
                boss < n,
                ancient != boss,
                all_below(starts@, n),
                forall|r: int, c: int|
                    0 <= r < length && 0 <= c < 7 && (#[trigger] grid@[r]@[c]) is Some ==> grid@[r]@[c] == start_grid[r]@[c],
                forall|g: int|
                    gi <= g < groups@.len() ==> (#[trigger] groups@[g])@.len() >= 2 && forall|i: int|
                        0 <= i < groups@[g]@.len() ==> segment_ok(#[trigger] groups@[g]@[i]@, n, boss as int),
            decreases groups@.len() - gi,
        {
            let mut group = copy_segments(&groups[gi]);
            let ghost unshuffled = group@;
            assert(forall|i: int| 0 <= i < unshuffled.len() ==> segment_ok(#[trigger] unshuffled[i]@, n, boss as int)) by {
                assert forall|i: int| 0 <= i < unshuffled.len() implies segment_ok(#[trigger] unshuffled[i]@, n, boss as int) by {
                    assert(segment_ok(groups@[gi as int]@[i]@, n, boss as int));
                }
            }
            assert(unshuffled.len() >= 2);
            rng.shuffle(&mut group);
            proof {
                assert forall|i: int| 0 <= i < group@.len() implies segment_ok(#[trigger] group@[i]@, n, boss as int) by {
                    assert(group@.contains(group@[i]));
                    lemma_perm_contains(group@, unshuffled, group@[i]);
                    let j = choose|j: int| 0 <= j < unshuffled.len() && unshuffled[j] == group@[i];
                    assert(segment_ok(unshuffled[j]@, n, boss as int));
                }
            }
            let mut removed: usize = 0;
            let mut si: usize = 0;
            while si < group.len()
                invariant
                    si <= group@.len(),
                    removed <= si,
                    group@.len() >= 2,
                    forall|i: int| 0 <= i < group@.len() ==> segment_ok(#[trigger] group@[i]@, n, boss as int),
                    graph_ok(nodes@, grid@, length, boss as int),
                    shape_eq(start_nodes, nodes@),
                    n == nodes@.len(),
                    ancient < n,
                    boss < n,
                    all_below(starts@, n),
                    forall|r: int, c: int|
                        0 <= r < length && 0 <= c < 7 && (#[trigger] grid@[r]@[c]) is Some ==> grid@[r]@[c] == start_grid[r]@[c],
                decreases group@.len() - si,
            {
                if removed == group.len() - 1 {
                    changed = removed != 0;
                    break;
                }
                let segment = &group[si];
                assert(segment_ok(segment@, n, boss as int));
                let mut segment_changed = false;
                let mut index: usize = 0;
                while index < segment.len() - 1
                    invariant
                        si < group@.len(),
                        *segment == group@[si as int],
                        segment_ok(segment@, n, boss as int),
                        graph_ok(nodes@, grid@, length, boss as int),
                        shape_eq(start_nodes, nodes@),
                        n == nodes@.len(),
                        ancient < n,
                        boss < n,
                        all_below(starts@, n),
                        forall|r: int, c: int|
                            0 <= r < length && 0 <= c < 7 && (#[trigger] grid@[r]@[c]) is Some ==> grid@[r]@[c] == start_grid[r]@[c],
                    decreases segment@.len() - index,
                {
                    let id = segment[index];
                    assert(id != boss);
                    if id != ancient && grid[nodes[id].row][nodes[id].col].is_none() && id != boss {
                        segment_changed = true;
                        break;
                    }
                    if nodes[id].children.len() > 1 || nodes[id].parents.len() > 1 || parent_blocks(
                        nodes,
                        grid,
                        id,
                        ancient,
                        Ghost(length),
                        Ghost(boss as int),
                    ) {
                        index = index + 1;
                        continue;
                    }
                    if later_branch(nodes, segment, index) {
                        index = index + 1;
                        continue;
                    }
                    if nodes[segment[segment.len() - 1]].parents.len() == 1 {
                        segment_changed = false;
                        break;
                    }
                    if !strands_child(nodes, segment, id) {
                        remove_node(nodes, grid, starts, id, Ghost(length), Ghost(boss as int));
                        segment_changed = true;
                    }
                    index = index + 1;
                }
                if segment_changed {
                    removed = removed + 1;
                }
                si = si + 1;
            }
            if removed != 0 {
                changed = true;
            } else {
                let mut si: usize = 0;
                while si < group.len()
                    invariant
                        gi < groups@.len(),
                        forall|g: int|
                            gi <= g < groups@.len() ==> (#[trigger] groups@[g])@.len() >= 2 && forall|i: int|
                                0 <= i < groups@[g]@.len() ==> segment_ok(#[trigger] groups@[g]@[i]@, n, boss as int),
                        si <= group@.len(),
                        forall|i: int| 0 <= i < group@.len() ==> segment_ok(#[trigger] group@[i]@, n, boss as int),
                        graph_ok(nodes@, grid@, length, boss as int),
                        shape_eq(start_nodes, nodes@),
                        n == nodes@.len(),
                        ancient < n,
                        boss < n,
                        ancient != boss,
                        all_below(starts@, n),
                        forall|r: int, c: int|
                            0 <= r < length && 0 <= c < 7 && (#[trigger] grid@[r]@[c]) is Some ==> grid@[r]@[c] == start_grid[r]@[c],
                    decreases group@.len() - si,
                {
                    let segment = &group[si];
                    assert(segment_ok(segment@, n, boss as int));
                    let mut k: usize = 0;
                    while k < segment.len() - 1
                        invariant
                            gi < groups@.len(),
                            forall|g: int|
                                gi <= g < groups@.len() ==> (#[trigger] groups@[g])@.len() >= 2 && forall|i: int|
                                    0 <= i < groups@[g]@.len() ==> segment_ok(#[trigger] groups@[g]@[i]@, n, boss as int),
                            si < group@.len(),
                            *segment == group@[si as int],
                            segment_ok(segment@, n, boss as int),
                            graph_ok(nodes@, grid@, length, boss as int),
                            shape_eq(start_nodes, nodes@),
                            n == nodes@.len(),
                            ancient < n,
                            boss < n,
                            ancient != boss,
                            all_below(starts@, n),
                            forall|r: int, c: int|
                                0 <= r < length && 0 <= c < 7 && (#[trigger] grid@[r]@[c]) is Some ==> grid@[r]@[c] == start_grid[r]@[c],
                        decreases segment@.len() - k,
                    {
                        let a = segment[k];
                        let b = segment[k + 1];
                        if nodes[a].children.len() >= 2 && nodes[b].parents.len() != 1 {
                            remove_edge(nodes, a, b);
                            changed = true;
                            break 'groups;
                        }
                        k = k + 1;
                    }
                    si = si + 1;
                }
            }
            if changed {
                break;
            }
            gi = gi + 1;
        }
        if !changed {
            break;
        }
        iteration = iteration + 1;
    }
}

/// Whether the nodes at `starts` are distinct first-row nodes.
pub open spec fn starts_ok(starts: Seq<usize>, n: Seq<Draft>) -> bool {
    forall|i: int| 0 <= i < starts.len() ==> (#[trigger] starts[i]) < n.len() && n[starts[i] as int].row == 1
}

/// The column that the path at `current` moves to next (see `generate_paths`).
fn next_column(
    nodes: &Vec<Draft>,
    grid: &Grid,
    current: usize,
    directions: &Vec<i8>,
    min: usize,
    max: usize,
    Ghost(length): Ghost<int>,
) -> (next: usize)
    requires
        graph_ok(nodes@, grid@, length, -1),
        current < nodes@.len(),
        nodes@[current as int].row + 1 < length,
        length < 100,
        min <= max <= 6,
    ensures
        next < 7,
{
    let col = nodes[current].col;
    let row = nodes[current].row + 1;
    let mut k: usize = 0;
    while k < directions.len()
        invariant
            graph_ok(nodes@, grid@, length, -1),
            current < nodes@.len(),
            col == nodes@[current as int].col,
            row == nodes@[current as int].row + 1,
            row < length,
            col < 7,
        decreases directions@.len() - k,
    {
        let direction = directions[k] as i32;
        let raw = col as i32 + direction;
        let target: usize = if raw < 0 {
            0
        } else if raw > 6 {
            6
        } else {
            raw as usize
        };
        let delta = target as i32 - col as i32;
        let mut crossover = false;
        if delta != 0 {
            if let Some(other) = grid[row - 1][target] {
                let mut m: usize = 0;
                while m < nodes[other].children.len()
                    invariant
                        graph_ok(nodes@, grid@, length, -1),
                        other < nodes@.len(),
                        target < 7,
                        -6 <= delta <= 6,
                    decreases nodes@[other as int].children@.len() - m,
                {
                    let child = nodes[other].children[m];
                    if nodes[child].col as i32 - target as i32 == -delta {
                        crossover = true;
                    }
                    m = m + 1;
                }
            }
        }
        let fits = match grid[row][target] {
            None => true,
            Some(id) => (holds(&nodes[id].parents, current) || nodes[id].parents.len() < 3) && (
            nodes[current].children.len() < 3 || holds(&nodes[current].children, id)),
        };
        if target >= min && target <= max && !crossover && fits {
            return target;
        }
        k = k + 1;
    }
    if col < min {
        min
    } else if col > max {
        max
    } else {
        col
    }
}

/// Walks seven paths up from random first-row columns to the last row, each step
/// going diagonally left, straight or diagonally right in a shuffled order of
/// preference (toward the middle near the treasure row when following a spoils map),
/// avoiding crossing edges and nodes that already have three parents.
fn generate_paths(
    nodes: &mut Vec<Draft>,
    grid: &mut Grid,
    starts: &mut Vec<usize>,
    rng: &mut Rng,
    length: usize,
    spoils: bool,
)
    requires
        graph_ok(old(nodes)@, old(grid)@, length as int, -1),
        old(nodes)@.len() == 1,
        old(nodes)@[0].row == 0,
        old(starts)@.len() == 0,
        14 <= length <= 16,
    ensures
        graph_ok(final(nodes)@, final(grid)@, length as int, -1),
        final(nodes)@.len() >= 1,
        final(nodes)@.len() <= 701,
        final(nodes)@[0] == old(nodes)@[0],
        starts_ok(final(starts)@, final(nodes)@),
        rooms_open(final(nodes)@),
{
    let ghost len = length as int;
    let mut iteration: usize = 0;
    while iteration < 7
        invariant
            iteration <= 7,
            14 <= length <= 16,
            len == length,
            graph_ok(nodes@, grid@, len, -1),
            1 <= nodes@.len() <= 1 + 100 * iteration,
            nodes@[0] == old(nodes)@[0],
            old(nodes)@[0].row == 0,
            starts_ok(starts@, nodes@),
            rooms_open(nodes@),
        decreases 7 - iteration,
    {
        let ghost before = nodes@.len();
        let c = rng.below(7) as usize;
        let mut current = point(nodes, grid, c, 1, Ghost(len));
        if iteration == 1 {
            let mut tries: usize = 0;
            while holds(starts, current) && tries < 64
                invariant
                    graph_ok(nodes@, grid@, len, -1),
                    14 <= length <= 16,
                    len == length,
                    iteration < 7,
                    nodes@.len() >= 1,
                    current < nodes@.len(),
                    nodes@[current as int].row == 1,
                    tries <= 64,
                    before <= 1 + 100 * iteration,
                    nodes@.len() <= before + 1 + tries,
                    nodes@[0] == old(nodes)@[0],
            old(nodes)@[0].row == 0,
                    starts_ok(starts@, nodes@),
                    rooms_open(nodes@),
                decreases 64 - tries,
            {
                let c = rng.below(7) as usize;
                current = point(nodes, grid, c, 1, Ghost(len));
                tries = tries + 1;
            }
        }
        if !holds(starts, current) {
            starts.push(current);
        }
        let ghost after_start = nodes@.len();
        assert(after_start <= before + 65);
        while nodes[current].row < length - 1
            invariant
                14 <= length <= 16,
                len == length,
                graph_ok(nodes@, grid@, len, -1),
                iteration < 7,
                current < nodes@.len(),
                1 <= nodes@[current as int].row < len,
                nodes@.len() <= after_start + nodes@[current as int].row - 1,
                after_start <= before + 65,
                before <= 1 + 100 * iteration,
                nodes@[0] == old(nodes)@[0],
            old(nodes)@[0].row == 0,
                starts_ok(starts@, nodes@),
                rooms_open(nodes@),
            decreases len - nodes@[current as int].row,
        {
            let col = nodes[current].col;
            let row = nodes[current].row + 1;
            let treasure_row = length - 7;
            let mut directions: Vec<i8> = vec![-1, 0, 1];
            if spoils && treasure_row > nodes[current].row && treasure_row - nodes[current].row <= 3 {
                directions = if col == 3 {
                    vec![0, -1, 1]
                } else if col < 3 {
                    vec![1, 0, -1]
                } else {
                    vec![-1, 0, 1]
                };
            } else {
                rng.shuffle(&mut directions);
            }
            let (min, max) = if spoils {
                let mut spread: usize = 3;
                let away = if row > treasure_row {
                    row - treasure_row
                } else {
                    treasure_row - row
                };
                if away < spread {
                    spread = away;
                }
                if length - row < spread {
                    spread = length - row;
                }
                (3 - spread, 3 + spread)
            } else {
                (0, 6)
            };
            let next = next_column(nodes, grid, current, &directions, min, max, Ghost(len));
            let ghost old_nodes = nodes@;
            let child = point(nodes, grid, next, row, Ghost(len));
            assert(nodes@[current as int] == old_nodes[current as int]);
            let ghost before_link = nodes@;
            assert(rooms_open(before_link));
            link(nodes, current, child);
            proof {
                assert forall|i: int| 1 <= i < nodes@.len() implies (#[trigger] nodes@[i]).room is None by {
                    assert(before_link[i].room is None);
                }
                assert(grid_ok(grid@, nodes@, len));
                assert forall|i: int| 0 <= i < starts@.len() implies (#[trigger] starts@[i]) < nodes@.len()
                    && nodes@[starts@[i] as int].row == 1 by {
                    assert(starts_ok(starts@, old_nodes));
                }
            }
            current = child;
        }
        iteration = iteration + 1;
    }
}

/// No node but the first and `t` has a room; `t` holds a fixed treasure on row `row`.
pub open spec fn only_treasure(n: Seq<Draft>, t: int, row: int) -> bool {
    &&& 0 <= t < n.len()
    &&& n[t].room == Some(Room::Treasure) && n[t].fixed && n[t].row == row
    &&& forall|i: int| 1 <= i < n.len() && i != t ==> (#[trigger] n[i]).room is None
}

proof fn lemma_only_treasure_shape(a: Seq<Draft>, b: Seq<Draft>, t: int, row: int)
    requires
        only_treasure(a, t, row),
        shape_eq(a, b),
    ensures
        only_treasure(b, t, row),
{
    assert forall|i: int| 1 <= i < b.len() && i != t implies (#[trigger] b[i]).room is None by {
        assert(a[i].room is None);
    }
    assert(b[t].room == a[t].room);
}

/// With a spoils map: a treasure room in the middle of its row takes over the edges
/// of every other node of that row, which leave the grid.
fn place_spoils_treasure(nodes: &mut Vec<Draft>, grid: &mut Grid, length: usize, Ghost(starts): Ghost<Seq<usize>>)
    requires
        graph_ok(old(nodes)@, old(grid)@, length as int, -1),
        14 <= length <= 16,
        1 <= old(nodes)@.len() <= 701,
        old(nodes)@[0].row == 0,
        starts_ok(starts, old(nodes)@),
        rooms_open(old(nodes)@),
        old(nodes)@[0].room == Some(Room::Event),
    ensures
        graph_ok(final(nodes)@, final(grid)@, length as int, -1),
        old(nodes)@.len() <= final(nodes)@.len() <= 702,
        final(nodes)@[0] == old(nodes)@[0],
        starts_ok(starts, final(nodes)@),
        rows_fixed(final(nodes)@, length as int),
        forall|c: int| 0 <= c < 7 ==> match #[trigger] final(grid)@[length - 7]@[c] {
            Some(id) => id < final(nodes)@.len() && final(nodes)@[id as int].room is Some,
            None => true,
        },
{
    let ghost len = length as int;
    let row = length - 7;
    let treasure = point(nodes, grid, 3, row, Ghost(len));
    proof {
        assert(treasure != 0);
    }
    nodes[treasure].room = Some(Room::Treasure);
    nodes[treasure].fixed = true;
    assert(only_treasure(nodes@, treasure as int, row as int));
    let ghost first = nodes@[0];
    assert(starts_ok(starts, nodes@)) by {
        assert forall|i: int| 0 <= i < starts.len() implies (#[trigger] starts[i]) < nodes@.len()
            && nodes@[starts[i] as int].row == 1 by {
            assert(starts_ok(starts, old(nodes)@));
        }
    }
    let mut c: usize = 0;
    while c < 7
        invariant
            graph_ok(nodes@, grid@, len, -1),
            len == length,
            14 <= length <= 16,
            row == length - 7,
            treasure < nodes@.len(),
            nodes@[treasure as int].row == row,
            nodes@[0] == first,
            first.row == 0,
            starts_ok(starts, nodes@),
            old(nodes)@.len() <= nodes@.len() <= 702,
            only_treasure(nodes@, treasure as int, row as int),
            first.room == Some(Room::Event),
            c <= 7,
            forall|cc: int| 0 <= cc < c ==> match #[trigger] grid@[row as int]@[cc] {
                Some(id) => id == treasure,
                None => true,
            },
        decreases 7 - c,
    {
        if let Some(stray) = grid[row][c] {
            if stray != treasure {
                let parents = copy_ids(&nodes[stray].parents);
                let ghost at_start = nodes@;
                let mut k: usize = 0;
                while k < parents.len()
                    invariant
                        graph_ok(nodes@, grid@, len, -1),
                        shape_eq(at_start, nodes@),
                        all_below(parents@, nodes@.len() as int),
                        forall|j: int| 0 <= j < parents@.len() ==> nodes@[(#[trigger] parents@[j]) as int].row + 1 == row,
                        stray < nodes@.len(),
                        treasure < nodes@.len(),
                        nodes@[treasure as int].row == row,
                        nodes@[stray as int].row == row,
                        nodes@[0] == first,
                        first.row == 0,
                        starts_ok(starts, nodes@),
                        7 <= row < len,
                    decreases parents@.len() - k,
                {
                    assert(nodes@[parents@[k as int] as int].row + 1 == row);
                    assert(parents@[k as int] != 0);
                    assert(stray != 0);
                    assert(treasure != 0);
                    remove_edge(nodes, parents[k], stray);
                    link(nodes, parents[k], treasure);
                    k = k + 1;
                }
                proof {
                    lemma_only_treasure_shape(at_start, nodes@, treasure as int, row as int);
                }
                let children = copy_ids(&nodes[stray].children);
                let ghost at_children = nodes@;
                let mut k: usize = 0;
                while k < children.len()
                    invariant
                        graph_ok(nodes@, grid@, len, -1),
                        shape_eq(at_children, nodes@),
                        all_below(children@, nodes@.len() as int),
                        forall|j: int| 0 <= j < children@.len() ==> nodes@[(#[trigger] children@[j]) as int].row == row + 1,
                        stray < nodes@.len(),
                        treasure < nodes@.len(),
                        nodes@[treasure as int].row == row,
                        nodes@[stray as int].row == row,
                        nodes@[0] == first,
                        first.row == 0,
                        starts_ok(starts, nodes@),
                        7 <= row < len,
                    decreases children@.len() - k,
                {
                    assert(nodes@[children@[k as int] as int].row == row + 1);
                    assert(children@[k as int] != 0);
                    assert(stray != 0);
                    assert(treasure != 0);
                    remove_edge(nodes, stray, children[k]);
                    link(nodes, treasure, children[k]);
                    k = k + 1;
                }
                proof {
                    lemma_only_treasure_shape(at_children, nodes@, treasure as int, row as int);
                }
                let ghost g_before = grid@;
                grid[row][c] = None;
                proof {
                    assert forall|cc: int| 0 <= cc < c + 1 implies match #[trigger] grid@[row as int]@[cc] {
                        Some(id) => id == treasure,
                        None => true,
                    } by {
                        if cc < c {
                            assert(grid@[row as int]@[cc] == g_before[row as int]@[cc]);
                        }
                    }
                }
            }
        }
        c = c + 1;
    }
    proof {
        assert forall|i: int|
            0 <= i < nodes@.len() && (#[trigger] nodes@[i]).room is Some && fixed_row_room(nodes@[i].row as int, len) is Some
                implies nodes@[i].fixed && nodes@[i].room == fixed_row_room(nodes@[i].row as int, len) by {
            if i == 0 {
                assert(nodes@[0].row == 0);
            }
        }
        assert forall|i: int| 0 <= i < nodes@.len() implies spacing_at(#[trigger] nodes@[i], len) by {
            if i == 0 {
                assert(nodes@[0].room == Some(Room::Event));
            }
                }
        assert forall|cc: int| 0 <= cc < 7 implies match #[trigger] grid@[len - 7]@[cc] {
            Some(id) => id < nodes@.len() && nodes@[id as int].room is Some,
            None => true,
        } by {
            assert(row == len - 7);
        }
    }
}

/// Every node on the grid has a room.
pub open spec fn rooms_set(grid: Seq<[Option<usize>; 7]>, n: Seq<Draft>) -> bool {
    forall|r: int, c: int|
        0 <= r < grid.len() && 0 <= c < 7 ==> match #[trigger] grid[r]@[c] {
            Some(id) => id < n.len() && n[id as int].room is Some,
            None => true,
        }
}

/// Gives every node of grid row `row` the room `room` and marks it fixed.
fn fix_row(nodes: &mut Vec<Draft>, grid: &Grid, row: usize, room: Room, Ghost(length): Ghost<int>, Ghost(boss): Ghost<int>)
    requires
        graph_ok(old(nodes)@, grid@, length, boss),
        row < length,
    ensures
        graph_ok(final(nodes)@, grid@, length, boss),
        final(nodes)@.len() == old(nodes)@.len(),
        forall|i: int|
            0 <= i < old(nodes)@.len() && old(nodes)@[i].row != row ==> #[trigger] final(nodes)@[i] == old(nodes)@[i],
        forall|i: int|
            0 <= i < old(nodes)@.len() && old(nodes)@[i].row == row ==> #[trigger] final(nodes)@[i] == old(nodes)@[i]
                || (final(nodes)@[i].room == Some(room) && final(nodes)@[i].fixed && final(nodes)@[i].row == row),
        forall|c: int| 0 <= c < 7 ==> match #[trigger] grid@[row as int]@[c] {
            Some(id) => final(nodes)@[id as int].room == Some(room) && final(nodes)@[id as int].fixed,
            None => true,
        },
{
    let mut c: usize = 0;
    while c < 7
        invariant
            graph_ok(nodes@, grid@, length, boss),
            row < length,
            c <= 7,
            nodes@.len() == old(nodes)@.len(),
            forall|i: int|
                0 <= i < old(nodes)@.len() && old(nodes)@[i].row != row ==> #[trigger] nodes@[i] == old(nodes)@[i],
            forall|i: int| 0 <= i < nodes@.len() ==> (#[trigger] nodes@[i]).row == old(nodes)@[i].row,
            forall|i: int|
                0 <= i < old(nodes)@.len() && old(nodes)@[i].row == row ==> #[trigger] nodes@[i] == old(nodes)@[i]
                    || (nodes@[i].room == Some(room) && nodes@[i].fixed && nodes@[i].row == row),
            forall|cc: int| 0 <= cc < c ==> match #[trigger] grid@[row as int]@[cc] {
                Some(id) => nodes@[id as int].room == Some(room) && nodes@[id as int].fixed,
                None => true,
            },
        decreases 7 - c,
    {
        let ghost before = nodes@;
        if let Some(id) = grid[row][c] {
            nodes[id].room = Some(room);
            nodes[id].fixed = true;
        }
        proof {
            assert forall|cc: int| 0 <= cc < c + 1 implies match #[trigger] grid@[row as int]@[cc] {
                Some(id) => nodes@[id as int].room == Some(room) && nodes@[id as int].fixed,
                None => true,
            } by {
                if cc < c {
                    if let Some(id) = grid@[row as int]@[cc] {
                        assert(before[id as int].room == Some(room) && before[id as int].fixed);
                    }
                }
            }
        }
        c = c + 1;
    }
}

/// Places the boss below the last row, links the last row to it and the ancient node
/// to the first row, and fixes rest sites on the last row, treasure seven rows up
/// (unless a spoils map placed it) and fights on the first row.
fn add_boss(
    nodes: &mut Vec<Draft>,
    grid: &Grid,
    starts: &Vec<usize>,
    length: usize,
    spoils: bool,
) -> (boss: usize)
    requires
        graph_ok(old(nodes)@, grid@, length as int, -1),
        14 <= length <= 16,
        1 <= old(nodes)@.len() <= 702,
        old(nodes)@[0].row == 0,
        starts_ok(starts@, old(nodes)@),
        rows_fixed(old(nodes)@, length as int),
        spoils ==> forall|c: int| 0 <= c < 7 ==> match #[trigger] grid@[length - 7]@[c] {
            Some(id) => id < old(nodes)@.len() && old(nodes)@[id as int].room is Some,
            None => true,
        },
    ensures
        graph_ok(final(nodes)@, grid@, length as int, boss as int),
        boss == old(nodes)@.len(),
        final(nodes)@.len() == boss + 1,
        final(nodes)@[0].row == 0,
        final(nodes)@[0].room == old(nodes)@[0].room,
        final(nodes)@[0].col == old(nodes)@[0].col,
        final(nodes)@[0].fixed == old(nodes)@[0].fixed,
        final(nodes)@[boss as int].room == Some(Room::Boss),
        final(nodes)@[boss as int].col == 3,
        rows_fixed(final(nodes)@, length as int),
        fixed_rows_filled(grid@, final(nodes)@, length as int),
{
    let ghost len = length as int;
    let boss = nodes.len();
    nodes.push(Draft {
        col: 3,
        row: length,
        room: Some(Room::Boss),
        parents: Vec::new(),
        children: Vec::new(),
        fixed: true,
    });
    proof {
        let n = nodes@;
        assert forall|i: int, j: int| 0 <= i < n.len() && 0 <= j < n[i].children@.len() implies {
            let c = #[trigger] n[i].children@[j];
            &&& c < n.len()
            &&& n[c as int].row == n[i].row + 1
        } by {
            assert(old(nodes)@[i].children@[j] < old(nodes)@.len());
        }
        assert forall|i: int, j: int| 0 <= i < n.len() && 0 <= j < n[i].parents@.len() implies {
            let p = #[trigger] n[i].parents@[j];
            &&& p < n.len()
            &&& n[p as int].row + 1 == n[i].row
        } by {
            assert(old(nodes)@[i].parents@[j] < old(nodes)@.len());
        }
        assert forall|i: int| 0 <= i < n.len() implies {
            &&& (#[trigger] n[i]).col < 7
            &&& n[i].row <= len
            &&& i != boss ==> n[i].row < len
        } by {
            if i < boss {
                assert(n[i] == old(nodes)@[i]);
            }
        }
    }
    let last = length - 1;
    let mut c: usize = 0;
    while c < 7
        invariant
            graph_ok(nodes@, grid@, len, boss as int),
            len == length,
            last == length - 1,
            14 <= length <= 16,
            boss < nodes@.len(),
            nodes@.len() == boss + 1,
            nodes@[boss as int].row == length,
            nodes@[boss as int].room == Some(Room::Boss),
            nodes@[0].row == 0,
            nodes@[0].room == old(nodes)@[0].room,
            starts_ok(starts@, nodes@),
            forall|i: int| 0 <= i < old(nodes)@.len() ==> {
                &&& (#[trigger] nodes@[i]).room == old(nodes)@[i].room
                &&& nodes@[i].row == old(nodes)@[i].row
                &&& nodes@[i].fixed == old(nodes)@[i].fixed
                &&& nodes@[i].col == old(nodes)@[i].col
            },
            nodes@[boss as int].col == 3,
            nodes@[boss as int].fixed,
            boss == old(nodes)@.len(),
        decreases 7 - c,
    {
        let ghost pre = nodes@;
        if let Some(id) = grid[last][c] {
            link(nodes, id, boss);
        }
        proof {
            assert forall|i: int| 0 <= i < old(nodes)@.len() implies {
                &&& (#[trigger] nodes@[i]).room == old(nodes)@[i].room
                &&& nodes@[i].row == old(nodes)@[i].row
                &&& nodes@[i].fixed == old(nodes)@[i].fixed
                &&& nodes@[i].col == old(nodes)@[i].col
            } by {
                assert(pre[i].room == old(nodes)@[i].room && pre[i].row == old(nodes)@[i].row
                    && pre[i].fixed == old(nodes)@[i].fixed);
                assert(nodes@[i].room == pre[i].room && nodes@[i].row == pre[i].row
                    && nodes@[i].fixed == pre[i].fixed && nodes@[i].col == pre[i].col);
            }
        }
        c = c + 1;
    }
    let mut k: usize = 0;
    while k < starts.len()
        invariant
            graph_ok(nodes@, grid@, len, boss as int),
            len == length,
            14 <= length <= 16,
            boss < nodes@.len(),
            nodes@.len() == boss + 1,
            nodes@[boss as int].row == length,
            nodes@[boss as int].room == Some(Room::Boss),
            nodes@[0].row == 0,
            nodes@[0].room == old(nodes)@[0].room,
            starts_ok(starts@, nodes@),
            forall|i: int| 0 <= i < old(nodes)@.len() ==> {
                &&& (#[trigger] nodes@[i]).room == old(nodes)@[i].room
                &&& nodes@[i].row == old(nodes)@[i].row
                &&& nodes@[i].fixed == old(nodes)@[i].fixed
                &&& nodes@[i].col == old(nodes)@[i].col
            },
            nodes@[boss as int].col == 3,
            nodes@[boss as int].fixed,
            boss == old(nodes)@.len(),
        decreases starts@.len() - k,
    {
        assert(starts@[k as int] != boss);
        let ghost pre = nodes@;
        link(nodes, 0, starts[k]);
        proof {
            assert forall|i: int| 0 <= i < old(nodes)@.len() implies {
                &&& (#[trigger] nodes@[i]).room == old(nodes)@[i].room
                &&& nodes@[i].row == old(nodes)@[i].row
                &&& nodes@[i].fixed == old(nodes)@[i].fixed
                &&& nodes@[i].col == old(nodes)@[i].col
            } by {
                assert(pre[i].room == old(nodes)@[i].room && pre[i].row == old(nodes)@[i].row
                    && pre[i].fixed == old(nodes)@[i].fixed);
                assert(nodes@[i].room == pre[i].room && nodes@[i].row == pre[i].row
                    && nodes@[i].fixed == pre[i].fixed && nodes@[i].col == pre[i].col);
            }
        }
        k = k + 1;
    }
    let ghost n0 = nodes@;
    proof {
        assert(rows_fixed(n0, len)) by {
            assert forall|i: int|
                0 <= i < n0.len() && (#[trigger] n0[i]).room is Some && fixed_row_room(n0[i].row as int, len) is Some
                    implies n0[i].fixed && n0[i].room == fixed_row_room(n0[i].row as int, len) by {
                if i < old(nodes)@.len() {
                    assert(old(nodes)@[i].room is Some);
                }
            }
            assert forall|i: int| 0 <= i < n0.len() implies spacing_at(#[trigger] n0[i], len) by {
                if i < old(nodes)@.len() {
                    assert(spacing_at(old(nodes)@[i], len));
                }
            }
        }
    }
    fix_row(nodes, grid, last, Room::Rest, Ghost(len), Ghost(boss as int));
    let ghost n1 = nodes@;
    if !spoils {
        fix_row(nodes, grid, length - 7, Room::Treasure, Ghost(len), Ghost(boss as int));
    }
    let ghost n2 = nodes@;
    fix_row(nodes, grid, 1, Room::Combat, Ghost(len), Ghost(boss as int));
    proof {
        assert(n1[0] == n0[0] && n2[0] == n1[0] && nodes@[0] == n2[0]);
        assert(n1[boss as int] == n0[boss as int] && n2[boss as int] == n1[boss as int] && nodes@[boss as int] == n2[boss as int]);
        assert(rows_fixed(n1, len)) by {
            assert forall|i: int|
                0 <= i < n1.len() && (#[trigger] n1[i]).room is Some && fixed_row_room(n1[i].row as int, len) is Some
                    implies n1[i].fixed && n1[i].room == fixed_row_room(n1[i].row as int, len) by {
                assert(n0[i].row == n1[i].row);
            }
            assert forall|i: int| 0 <= i < n1.len() implies spacing_at(#[trigger] n1[i], len) by {
                assert(n0[i].row == n1[i].row);
                        }
        }
        assert(rows_fixed(n2, len)) by {
            assert forall|i: int|
                0 <= i < n2.len() && (#[trigger] n2[i]).room is Some && fixed_row_room(n2[i].row as int, len) is Some
                    implies n2[i].fixed && n2[i].room == fixed_row_room(n2[i].row as int, len) by {
                assert(n1[i].row == n2[i].row);
            }
            assert forall|i: int| 0 <= i < n2.len() implies spacing_at(#[trigger] n2[i], len) by {
                assert(n1[i].row == n2[i].row);
                        }
        }
        assert forall|i: int|
            0 <= i < nodes@.len() && (#[trigger] nodes@[i]).room is Some && fixed_row_room(nodes@[i].row as int, len) is Some
                implies nodes@[i].fixed && nodes@[i].room == fixed_row_room(nodes@[i].row as int, len) by {
            assert(n2[i].row == nodes@[i].row);
        }
        assert forall|i: int| 0 <= i < nodes@.len() implies spacing_at(#[trigger] nodes@[i], len) by {
            assert(n2[i].row == nodes@[i].row);
                }
        assert forall|r: int, c: int|
            0 <= r < grid@.len() && 0 <= c < 7 && fixed_row_room(r, len) is Some implies match #[trigger] grid@[r]@[c] {
                Some(id) => id < nodes@.len() && nodes@[id as int].room is Some,
                None => true,
            } by {
            if let Some(id) = grid@[r]@[c] {
                assert(n0[id as int].row == r);
                if r == len - 1 {
                    assert(n1[id as int].room == Some(Room::Rest));
                    assert(n2[id as int] == n1[id as int]);
                    assert(nodes@[id as int] == n2[id as int]);
                } else if r == len - 7 {
                    if spoils {
                        assert(old(nodes)@[id as int].room is Some);
                        assert(n1[id as int] == n0[id as int]);
                        assert(n2 == n1);
                    } else {
                        assert(n2[id as int].room == Some(Room::Treasure));
                    }
                    assert(nodes@[id as int] == n2[id as int]);
                }
            }
        }
    }
    boss
}

/// `ids` ordered by column, then row (a stable insertion sort).
fn sort_by_place(nodes: &Vec<Draft>, ids: Vec<usize>) -> (sorted: Vec<usize>)
    requires
        all_below(ids@, nodes@.len() as int),
    ensures
        all_below(sorted@, nodes@.len() as int),
        forall|k: int| 0 <= k < sorted@.len() ==> ids@.contains(#[trigger] sorted@[k]),
{
    let mut out: Vec<usize> = Vec::new();
    let mut i: usize = 0;
    while i < ids.len()
        invariant
            all_below(ids@, nodes@.len() as int),
            all_below(out@, nodes@.len() as int),
            forall|k: int| 0 <= k < out@.len() ==> ids@.contains(#[trigger] out@[k]),
        decreases ids@.len() - i,
    {
        let x = ids[i];
        let mut at: usize = 0;
        while at < out.len()
            invariant
                at <= out@.len(),
                x < nodes@.len(),
                all_below(out@, nodes@.len() as int),
                forall|k: int| 0 <= k < out@.len() ==> ids@.contains(#[trigger] out@[k]),
            decreases out@.len() - at,
        {
            let y = out[at];
            if nodes[x].col < nodes[y].col || nodes[x].col == nodes[y].col && nodes[x].row < nodes[y].row {
                break;
            }
            at = at + 1;
        }
        let ghost before = out@;
        out.insert(at, x);
        proof {
            assert forall|k: int| 0 <= k < out@.len() implies #[trigger] out@[k] < nodes@.len() && ids@.contains(out@[k]) by {
                if k < at {
                    assert(out@[k] == before[k]);
                } else if k > at {
                    assert(out@[k] == before[k - 1]);
                } else {
                    assert(ids@[i as int] == x);
                }
            }
        }
        i = i + 1;
    }
    out
}

/// The nodes on the grid, row by row; with `unassigned`, only those without a room.
fn grid_nodes(nodes: &Vec<Draft>, grid: &Grid, unassigned: bool, Ghost(length): Ghost<int>, Ghost(boss): Ghost<int>) -> (ids: Vec<usize>)
    requires
        graph_ok(nodes@, grid@, length, boss),
    ensures
        all_below(ids@, nodes@.len() as int),
        forall|k: int| 0 <= k < ids@.len() ==> nodes@[(#[trigger] ids@[k]) as int].row < length,
        forall|k: int| 0 <= k < ids@.len() ==> grid@[nodes@[(#[trigger] ids@[k]) as int].row as int]@[nodes@[ids@[k] as int].col as int]
            == Some(ids@[k]),
        unassigned ==> forall|k: int| 0 <= k < ids@.len() ==> nodes@[(#[trigger] ids@[k]) as int].room is None,
{
    let mut ids: Vec<usize> = Vec::new();
    let mut r: usize = 0;
    while r < grid.len()
        invariant
            graph_ok(nodes@, grid@, length, boss),
            all_below(ids@, nodes@.len() as int),
            forall|k: int| 0 <= k < ids@.len() ==> nodes@[(#[trigger] ids@[k]) as int].row < length,
            forall|k: int| 0 <= k < ids@.len() ==> grid@[nodes@[(#[trigger] ids@[k]) as int].row as int]@[nodes@[ids@[k] as int].col as int]
                == Some(ids@[k]),
            unassigned ==> forall|k: int| 0 <= k < ids@.len() ==> nodes@[(#[trigger] ids@[k]) as int].room is None,
        decreases grid@.len() - r,
    {
        let mut c: usize = 0;
        while c < 7
            invariant
                graph_ok(nodes@, grid@, length, boss),
                r < grid@.len(),
                c <= 7,
                all_below(ids@, nodes@.len() as int),
                forall|k: int| 0 <= k < ids@.len() ==> nodes@[(#[trigger] ids@[k]) as int].row < length,
                forall|k: int| 0 <= k < ids@.len() ==> grid@[nodes@[(#[trigger] ids@[k]) as int].row as int]@[nodes@[ids@[k] as int].col as int]
                    == Some(ids@[k]),
                unassigned ==> forall|k: int| 0 <= k < ids@.len() ==> nodes@[(#[trigger] ids@[k]) as int].room is None,
            decreases 7 - c,
        {
            if let Some(id) = grid[r][c] {
                if !unassigned || nodes[id].room.is_none() {
                    ids.push(id);
                }
            }
            c = c + 1;
        }
        r = r + 1;
    }
    ids
}

/// Deals the room pool (rest sites, three shops, elites, unknowns) to the grid nodes
/// without a room, in shuffled order: each node takes the first room of the pool that
/// may stand there, the rest rotate to the back. Three passes at most; nodes still
/// without a room become fights.
fn assign_rooms(
    nodes: &mut Vec<Draft>,
    grid: &Grid,
    rng: &mut Rng,
    length: usize,
    rooms: Vec<Room>,
    Ghost(boss): Ghost<int>,
)
    requires
        graph_ok(old(nodes)@, grid@, length as int, boss),
        14 <= length <= 16,
        rows_fixed(old(nodes)@, length as int),
        fixed_rows_filled(grid@, old(nodes)@, length as int),
        forall|q: int| 0 <= q < rooms@.len() ==> pool_room(#[trigger] rooms@[q]),
        old(nodes)@.len() >= 1,
        old(nodes)@[0].room is Some,
    ensures
        final(nodes)@[0].room == old(nodes)@[0].room,
        graph_ok(final(nodes)@, grid@, length as int, boss),
        rooms_set(grid@, final(nodes)@),
        final(nodes)@.len() == old(nodes)@.len(),
        forall|i: int| 0 <= i < old(nodes)@.len() ==> {
            &&& (#[trigger] final(nodes)@[i]).row == old(nodes)@[i].row
            &&& final(nodes)@[i].col == old(nodes)@[i].col
            &&& final(nodes)@[i].fixed == old(nodes)@[i].fixed
            &&& old(nodes)@[i].room is Some ==> final(nodes)@[i].room is Some
            &&& old(nodes)@[i].row >= length ==> final(nodes)@[i].room == old(nodes)@[i].room
        },
        rows_fixed(final(nodes)@, length as int),
{
    let ghost len = length as int;
    let ghost start = nodes@;
    let mut rooms = rooms;
    let mut pass: usize = 0;
    while pass < 3
        invariant
            graph_ok(nodes@, grid@, len, boss),
            len == length,
            14 <= length <= 16,
            nodes@.len() == start.len(),
            forall|i: int| 0 <= i < start.len() ==> {
                &&& (#[trigger] nodes@[i]).row == start[i].row
                &&& nodes@[i].col == start[i].col
                &&& nodes@[i].fixed == start[i].fixed
                &&& start[i].room is Some ==> nodes@[i].room is Some
                &&& start[i].row >= length ==> nodes@[i].room == start[i].room
            },
            rows_fixed(nodes@, len),
            fixed_rows_filled(grid@, nodes@, len),
            forall|q: int| 0 <= q < rooms@.len() ==> pool_room(#[trigger] rooms@[q]),
            nodes@[0].room == start[0].room,
            start.len() >= 1,
            start[0].room is Some,
        decreases 3 - pass,
    {
        if rooms.len() == 0 {
            break;
        }
        let unassigned = grid_nodes(nodes, grid, true, Ghost(len), Ghost(boss));
        let ghost collected = unassigned@;
        let mut unassigned = sort_by_place(nodes, unassigned);
        let ghost ordered = unassigned@;
        rng.shuffle(&mut unassigned);
        proof {
            assert forall|k: int| 0 <= k < unassigned@.len() implies #[trigger] unassigned@[k] < nodes@.len()
                && nodes@[unassigned@[k] as int].row < length
                && fixed_row_room(nodes@[unassigned@[k] as int].row as int, len) is None
                && unassigned@[k] != 0 by {
                assert(unassigned@.contains(unassigned@[k]));
                lemma_perm_contains(unassigned@, ordered, unassigned@[k]);
                let j = choose|j: int| 0 <= j < ordered.len() && ordered[j] == unassigned@[k];
                assert(collected.contains(ordered[j]));
                let q = choose|q: int| 0 <= q < collected.len() && collected[q] == ordered[j];
                let id = collected[q];
                let d = nodes@[id as int];
                assert(grid@[d.row as int]@[d.col as int] == Some(id));
                assert(d.room is None);
                assert(nodes@[0].room is Some);
            }
        }
        let mut u: usize = 0;
        while u < unassigned.len()
            invariant
                graph_ok(nodes@, grid@, len, boss),
                len == length,
                14 <= length <= 16,
                all_below(unassigned@, nodes@.len() as int),
                forall|k: int| 0 <= k < unassigned@.len() ==> nodes@[(#[trigger] unassigned@[k]) as int].row < length,
                nodes@.len() == start.len(),
                forall|i: int| 0 <= i < start.len() ==> {
                    &&& (#[trigger] nodes@[i]).row == start[i].row
                    &&& nodes@[i].col == start[i].col
                    &&& nodes@[i].fixed == start[i].fixed
                    &&& start[i].room is Some ==> nodes@[i].room is Some
                    &&& start[i].row >= length ==> nodes@[i].room == start[i].room
                },
                rows_fixed(nodes@, len),
                fixed_rows_filled(grid@, nodes@, len),
                forall|k: int| 0 <= k < unassigned@.len() ==> fixed_row_room(nodes@[(#[trigger] unassigned@[k]) as int].row as int, len) is None,
                forall|q: int| 0 <= q < rooms@.len() ==> pool_room(#[trigger] rooms@[q]),
                nodes@[0].room == start[0].room,
                forall|k: int| 0 <= k < unassigned@.len() ==> #[trigger] unassigned@[k] != 0,
            decreases unassigned@.len() - u,
        {
            let id = unassigned[u];
            assert(nodes@[id as int].row < length);
            let mut assigned: Option<Room> = None;
            let count = rooms.len();
            let mut t: usize = 0;
            while t < count
                invariant_except_break
                    rooms@.len() == count,
                invariant
                    graph_ok(nodes@, grid@, len, boss),
                    14 <= length <= 16,
                    len == length,
                    id < nodes@.len(),
                    nodes@[id as int].row < length,
                    assigned matches Some(r) ==> spacing_room(r, nodes@[id as int].row as int, len) && pool_room(r),
                    forall|q: int| 0 <= q < rooms@.len() ==> pool_room(#[trigger] rooms@[q]),
                decreases count - t,
            {
                let room = rooms.remove(0);
                if valid(nodes, length, id, room) {
                    assigned = Some(room);
                    break;
                }
                rooms.push(room);
                t = t + 1;
            }
            let ghost pre = nodes@;
            if let Some(room) = assigned {
                nodes[id].room = Some(room);
            }
            proof {
                assert(fixed_row_room(pre[id as int].row as int, len) is None);
                assert forall|i: int|
                    0 <= i < nodes@.len() && (#[trigger] nodes@[i]).room is Some && fixed_row_room(nodes@[i].row as int, len) is Some
                        implies nodes@[i].fixed && nodes@[i].room == fixed_row_room(nodes@[i].row as int, len) by {
                    assert(pre[i].row == nodes@[i].row);
                }
                assert forall|i: int| 0 <= i < nodes@.len() implies spacing_at(#[trigger] nodes@[i], len) by {
                    assert(pre[i].row == nodes@[i].row);
                                }
                assert forall|r: int, c: int|
                    0 <= r < grid@.len() && 0 <= c < 7 && fixed_row_room(r, len) is Some implies match #[trigger] grid@[r]@[c] {
                        Some(x) => x < nodes@.len() && nodes@[x as int].room is Some,
                        None => true,
                    } by {
                    if let Some(x) = grid@[r]@[c] {
                        assert(pre[x as int].room is Some);
                    }
                }
            }
            if rooms.len() == 0 {
                break;
            }
            u = u + 1;
        }
        pass = pass + 1;
    }
    fill_combat(nodes, grid, Ghost(len), Ghost(boss));
}

/// Gives every grid node still without a room a fight.
fn fill_combat(nodes: &mut Vec<Draft>, grid: &Grid, Ghost(length): Ghost<int>, Ghost(boss): Ghost<int>)
    requires
        graph_ok(old(nodes)@, grid@, length, boss),
        rows_fixed(old(nodes)@, length),
        fixed_rows_filled(grid@, old(nodes)@, length),
    ensures
        rows_fixed(final(nodes)@, length),
        graph_ok(final(nodes)@, grid@, length, boss),
        rooms_set(grid@, final(nodes)@),
        final(nodes)@.len() == old(nodes)@.len(),
        forall|i: int| 0 <= i < old(nodes)@.len() ==> {
            &&& (#[trigger] final(nodes)@[i]).row == old(nodes)@[i].row
            &&& final(nodes)@[i].col == old(nodes)@[i].col
            &&& final(nodes)@[i].fixed == old(nodes)@[i].fixed
            &&& old(nodes)@[i].room is Some ==> final(nodes)@[i].room == old(nodes)@[i].room
            &&& old(nodes)@[i].row >= length ==> final(nodes)@[i] == old(nodes)@[i]
        },
{
    let mut r: usize = 0;
    while r < grid.len()
        invariant
            graph_ok(nodes@, grid@, length, boss),
            nodes@.len() == old(nodes)@.len(),
            forall|i: int| 0 <= i < old(nodes)@.len() ==> {
                &&& (#[trigger] nodes@[i]).row == old(nodes)@[i].row
                &&& nodes@[i].col == old(nodes)@[i].col
                &&& nodes@[i].fixed == old(nodes)@[i].fixed
                &&& old(nodes)@[i].room is Some ==> nodes@[i].room == old(nodes)@[i].room
                &&& old(nodes)@[i].row >= length ==> nodes@[i] == old(nodes)@[i]
            },
            rows_fixed(nodes@, length),
            fixed_rows_filled(grid@, nodes@, length),
            forall|rr: int, c: int|
                0 <= rr < r && 0 <= c < 7 ==> match #[trigger] grid@[rr]@[c] {
                    Some(id) => id < nodes@.len() && nodes@[id as int].room is Some,
                    None => true,
                },
        decreases grid@.len() - r,
    {
        let mut c: usize = 0;
        while c < 7
            invariant
                graph_ok(nodes@, grid@, length, boss),
                r < grid@.len(),
                nodes@.len() == old(nodes)@.len(),
                forall|i: int| 0 <= i < old(nodes)@.len() ==> {
                    &&& (#[trigger] nodes@[i]).row == old(nodes)@[i].row
                    &&& nodes@[i].col == old(nodes)@[i].col
                    &&& nodes@[i].fixed == old(nodes)@[i].fixed
                    &&& old(nodes)@[i].room is Some ==> nodes@[i].room == old(nodes)@[i].room
                    &&& old(nodes)@[i].row >= length ==> nodes@[i] == old(nodes)@[i]
                },
                rows_fixed(nodes@, length),
                fixed_rows_filled(grid@, nodes@, length),
                forall|rr: int, cc: int|
                    (0 <= rr < r && 0 <= cc < 7 || rr == r && 0 <= cc < c) ==> match #[trigger] grid@[rr]@[cc] {
                        Some(id) => id < nodes@.len() && nodes@[id as int].room is Some,
                        None => true,
                    },
            decreases 7 - c,
        {
            let ghost pre = nodes@;
            if let Some(id) = grid[r][c] {
                if nodes[id].room.is_none() {
                    assert(fixed_row_room(r as int, length) is None);
                    nodes[id].room = Some(Room::Combat);
                }
            }
            proof {
                assert forall|i: int|
                    0 <= i < nodes@.len() && (#[trigger] nodes@[i]).room is Some && fixed_row_room(nodes@[i].row as int, length) is Some
                        implies nodes@[i].fixed && nodes@[i].room == fixed_row_room(nodes@[i].row as int, length) by {
                    assert(pre[i].row == nodes@[i].row);
                }
                assert forall|i: int| 0 <= i < nodes@.len() implies spacing_at(#[trigger] nodes@[i], length) by {
                    assert(pre[i].row == nodes@[i].row);
                                }
                assert forall|rr: int, cc: int|
                    0 <= rr < grid@.len() && 0 <= cc < 7 && fixed_row_room(rr, length) is Some implies match #[trigger] grid@[rr]@[cc] {
                        Some(x) => x < nodes@.len() && nodes@[x as int].room is Some,
                        None => true,
                    } by {
                    if let Some(x) = grid@[rr]@[cc] {
                        assert(pre[x as int].room is Some);
                    }
                }
            }
            c = c + 1;
        }
        r = r + 1;
    }
}

/// How many grid nodes hold `room`.
fn count_room(nodes: &Vec<Draft>, grid: &Grid, room: Room, Ghost(length): Ghost<int>, Ghost(boss): Ghost<int>) -> (count: usize)
    requires
        graph_ok(nodes@, grid@, length, boss),
        length <= 16,
    ensures
        count == grid_count(grid@, nodes@, room, grid@.len() as int),
{
    let mut count: usize = 0;
    let mut r: usize = 0;
    while r < grid.len()
        invariant
            graph_ok(nodes@, grid@, length, boss),
            r <= grid@.len(),
            count == grid_count(grid@, nodes@, room, r as int),
            count <= 7 * r,
            grid@.len() <= 16,
        decreases grid@.len() - r,
    {
        let mut c: usize = 0;
        let ghost before = count;
        while c < 7
            invariant
                graph_ok(nodes@, grid@, length, boss),
                r < grid@.len(),
                c <= 7,
                count == before + row_count(grid@[r as int], nodes@, room, c as int),
                before <= 7 * r,
                count <= before + c,
                grid@.len() <= 16,
            decreases 7 - c,
        {
            if let Some(id) = grid[r][c] {
                if room_is(nodes[id].room, room) {
                    count = count + 1;
                }
            }
            c = c + 1;
        }
        r = r + 1;
    }
    count
}

/// How many of the first `c` slots of `row` hold a node with room `room`.
pub open spec fn row_count(row: [Option<usize>; 7], n: Seq<Draft>, room: Room, c: int) -> int
    decreases c,
{
    if c <= 0 {
        0
    } else {
        row_count(row, n, room, c - 1) + match row@[c - 1] {
            Some(id) => if n[id as int].room == Some(room) { 1int } else { 0 },
            None => 0,
        }
    }
}

/// How many grid nodes of the first `r` rows hold room `room`.
pub open spec fn grid_count(grid: Seq<[Option<usize>; 7]>, n: Seq<Draft>, room: Room, r: int) -> int
    decreases r,
{
    if r <= 0 {
        0
    } else {
        grid_count(grid, n, room, r - 1) + row_count(grid[r - 1], n, room, 7)
    }
}

/// The grid nodes holding an unfixed fight, ordered by place.
fn combat_candidates(nodes: &Vec<Draft>, grid: &Grid, Ghost(length): Ghost<int>, Ghost(boss): Ghost<int>) -> (ids: Vec<usize>)
    requires
        graph_ok(nodes@, grid@, length, boss),
    ensures
        all_below(ids@, nodes@.len() as int),
        forall|k: int| 0 <= k < ids@.len() ==> nodes@[(#[trigger] ids@[k]) as int].row < length,
        forall|k: int| 0 <= k < ids@.len() ==> nodes@[(#[trigger] ids@[k]) as int].room == Some(Room::Combat)
            && !nodes@[ids@[k] as int].fixed,
{
    let all = grid_nodes(nodes, grid, false, Ghost(length), Ghost(boss));
    let mut ids: Vec<usize> = Vec::new();
    let mut k: usize = 0;
    while k < all.len()
        invariant
            all_below(all@, nodes@.len() as int),
            forall|j: int| 0 <= j < all@.len() ==> nodes@[(#[trigger] all@[j]) as int].row < length,
            all_below(ids@, nodes@.len() as int),
            forall|j: int| 0 <= j < ids@.len() ==> nodes@[(#[trigger] ids@[j]) as int].row < length,
            forall|j: int| 0 <= j < ids@.len() ==> nodes@[(#[trigger] ids@[j]) as int].room == Some(Room::Combat)
                && !nodes@[ids@[j] as int].fixed,
        decreases all@.len() - k,
    {
        let id = all[k];
        if room_is(nodes[id].room, Room::Combat) && !nodes[id].fixed {
            ids.push(id);
        }
        k = k + 1;
    }
    let sorted = sort_by_place(nodes, ids);
    proof {
        assert forall|j: int| 0 <= j < sorted@.len() implies nodes@[(#[trigger] sorted@[j]) as int].row < length
            && nodes@[sorted@[j] as int].room == Some(Room::Combat) && !nodes@[sorted@[j] as int].fixed by {
            assert(ids@.contains(sorted@[j]));
        }
    }
    sorted
}

/// Prunes duplicate segments, then turns unfixed fights into the rooms that fell
/// short of their targets (three shops, the elites, rest sites, unknowns), where they
/// may stand; repeated while something was repaired, three times at most.
fn repair_rooms(
    nodes: &mut Vec<Draft>,
    grid: &mut Grid,
    starts: &mut Vec<usize>,
    rng: &mut Rng,
    boss: usize,
    length: usize,
    targets: [(Room, usize); 4],
)
    requires
        graph_ok(old(nodes)@, old(grid)@, length as int, boss as int),
        rooms_set(old(grid)@, old(nodes)@),
        14 <= length <= 16,
        1 <= boss < old(nodes)@.len(),
        old(nodes)@[0].row == 0,
        all_below(old(starts)@, old(nodes)@.len() as int),
        rows_fixed(old(nodes)@, length as int),
        forall|t: int| 0 <= t < 4 ==> pool_room((#[trigger] targets@[t]).0),
    ensures
        rows_fixed(final(nodes)@, length as int),
        graph_ok(final(nodes)@, final(grid)@, length as int, boss as int),
        rooms_set(final(grid)@, final(nodes)@),
        final(nodes)@.len() == old(nodes)@.len(),
        forall|i: int| 0 <= i < old(nodes)@.len() ==> {
            &&& old(nodes)@[i].room is Some ==> (#[trigger] final(nodes)@[i]).room is Some
            &&& old(nodes)@[i].row >= length ==> final(nodes)@[i].room == old(nodes)@[i].room
            &&& final(nodes)@[i].row == old(nodes)@[i].row
            &&& final(nodes)@[i].col == old(nodes)@[i].col
            &&& old(nodes)@[i].fixed ==> final(nodes)@[i].fixed && final(nodes)@[i].room == old(nodes)@[i].room
        },
{
    let ghost len = length as int;
    let ghost start = nodes@;
    let mut pass: usize = 0;
    while pass < 3
        invariant
            graph_ok(nodes@, grid@, len, boss as int),
            rooms_set(grid@, nodes@),
            len == length,
            14 <= length <= 16,
            1 <= boss < nodes@.len(),
            nodes@.len() == start.len(),
            nodes@[0].row == 0,
            all_below(starts@, nodes@.len() as int),
            rows_fixed(nodes@, len),
            forall|t: int| 0 <= t < 4 ==> pool_room((#[trigger] targets@[t]).0),
            forall|i: int| 0 <= i < start.len() ==> {
                &&& start[i].room is Some ==> (#[trigger] nodes@[i]).room is Some
                &&& start[i].row >= length ==> nodes@[i].room == start[i].room
                &&& nodes@[i].row == start[i].row
                &&& nodes@[i].col == start[i].col
                &&& start[i].fixed ==> nodes@[i].fixed && nodes@[i].room == start[i].room
            },
        decreases 3 - pass,
    {
        let ghost before_prune = nodes@;
        let ghost grid_before = grid@;
        prune(nodes, grid, starts, 0, boss, rng, Ghost(len));
        proof {
            assert forall|i: int|
                0 <= i < nodes@.len() && (#[trigger] nodes@[i]).room is Some && fixed_row_room(nodes@[i].row as int, len) is Some
                    implies nodes@[i].fixed && nodes@[i].room == fixed_row_room(nodes@[i].row as int, len) by {
                assert(before_prune[i].room == nodes@[i].room);
            }
            assert forall|i: int| 0 <= i < nodes@.len() implies spacing_at(#[trigger] nodes@[i], len) by {
                assert(before_prune[i].room == nodes@[i].room);
                        }
            assert forall|r: int, c: int| 0 <= r < grid@.len() && 0 <= c < 7 implies match #[trigger] grid@[r]@[c] {
                Some(id) => id < nodes@.len() && nodes@[id as int].room is Some,
                None => true,
            } by {
                if grid@[r]@[c] is Some {
                    assert(grid_before[r]@[c] is Some);
                    let id = grid@[r]@[c]->0;
                    assert(nodes@[id as int].row == r && nodes@[id as int].col == c);
                    assert(grid_before[r]@[c] == Some(id));
                    assert(before_prune[id as int].room is Some);
                }
            }
            assert forall|i: int| 0 <= i < start.len() implies {
                &&& start[i].room is Some ==> (#[trigger] nodes@[i]).room is Some
                &&& start[i].row >= length ==> nodes@[i].room == start[i].room
                &&& nodes@[i].row == start[i].row
                &&& nodes@[i].col == start[i].col
                &&& start[i].fixed ==> nodes@[i].fixed && nodes@[i].room == start[i].room
            } by {
                assert(nodes@[i].room == before_prune[i].room);
            }
        }
        let mut repaired = false;
        let mut t: usize = 0;
        while t < 4
            invariant
                graph_ok(nodes@, grid@, len, boss as int),
                rooms_set(grid@, nodes@),
                len == length,
                14 <= length <= 16,
                1 <= boss < nodes@.len(),
                nodes@.len() == start.len(),
                nodes@[0].row == 0,
                all_below(starts@, nodes@.len() as int),
                rows_fixed(nodes@, len),
                forall|t: int| 0 <= t < 4 ==> pool_room((#[trigger] targets@[t]).0),
                forall|i: int| 0 <= i < start.len() ==> {
                    &&& start[i].room is Some ==> (#[trigger] nodes@[i]).room is Some
                    &&& start[i].row >= length ==> nodes@[i].room == start[i].room
                    &&& nodes@[i].row == start[i].row
                    &&& nodes@[i].col == start[i].col
                    &&& start[i].fixed ==> nodes@[i].fixed && nodes@[i].room == start[i].room
                },
            decreases 4 - t,
        {
            let (room, target) = targets[t];
            let current = count_room(nodes, grid, room, Ghost(len), Ghost(boss as int));
            let mut missing = target.saturating_sub(current);
            if missing > 0 {
                let candidates = combat_candidates(nodes, grid, Ghost(len), Ghost(boss as int));
                let ghost ordered = candidates@;
                let mut candidates = candidates;
                rng.shuffle(&mut candidates);
                proof {
                    assert forall|k: int| 0 <= k < candidates@.len() implies #[trigger] candidates@[k] < nodes@.len()
                        && nodes@[candidates@[k] as int].row < length
                        && fixed_row_room(nodes@[candidates@[k] as int].row as int, len) is None
                        && !nodes@[candidates@[k] as int].fixed by {
                        assert(candidates@.contains(candidates@[k]));
                        lemma_perm_contains(candidates@, ordered, candidates@[k]);
                        let j = choose|j: int| 0 <= j < ordered.len() && ordered[j] == candidates@[k];
                        assert(nodes@[ordered[j] as int].room == Some(Room::Combat) && !nodes@[ordered[j] as int].fixed);
                    }
                }
                let mut k: usize = 0;
                while k < candidates.len()
                    invariant_except_break
                        missing > 0,
                    invariant
                        graph_ok(nodes@, grid@, len, boss as int),
                        rooms_set(grid@, nodes@),
                        len == length,
                        14 <= length <= 16,
                        1 <= boss < nodes@.len(),
                        nodes@.len() == start.len(),
                        nodes@[0].row == 0,
                        all_below(starts@, nodes@.len() as int),
                        all_below(candidates@, nodes@.len() as int),
                        rows_fixed(nodes@, len),
                        pool_room(room),
                        forall|t: int| 0 <= t < 4 ==> pool_room((#[trigger] targets@[t]).0),
                        forall|j: int| 0 <= j < candidates@.len() ==> fixed_row_room(nodes@[(#[trigger] candidates@[j]) as int].row as int, len) is None
                            && !nodes@[candidates@[j] as int].fixed,
                        forall|j: int| 0 <= j < candidates@.len() ==> nodes@[(#[trigger] candidates@[j]) as int].row < length,
                        forall|i: int| 0 <= i < start.len() ==> {
                            &&& start[i].room is Some ==> (#[trigger] nodes@[i]).room is Some
                            &&& start[i].row >= length ==> nodes@[i].room == start[i].room
                            &&& nodes@[i].row == start[i].row
                            &&& nodes@[i].col == start[i].col
                            &&& start[i].fixed ==> nodes@[i].fixed && nodes@[i].room == start[i].room
                        },
                    decreases candidates@.len() - k,
                {
                    let id = candidates[k];
                    if valid(nodes, length, id, room) {
                        let ghost pre = nodes@;
                        nodes[id].room = Some(room);
                        proof {
                            assert(fixed_row_room(pre[id as int].row as int, len) is None);
                            assert forall|i: int|
                                0 <= i < nodes@.len() && (#[trigger] nodes@[i]).room is Some && fixed_row_room(nodes@[i].row as int, len) is Some
                                    implies nodes@[i].fixed && nodes@[i].room == fixed_row_room(nodes@[i].row as int, len) by {
                                assert(pre[i].row == nodes@[i].row);
                            }
                            assert forall|i: int| 0 <= i < nodes@.len() implies spacing_at(#[trigger] nodes@[i], len) by {
                                assert(pre[i].row == nodes@[i].row);
                                                        }
                        }
                        missing = missing - 1;
                        repaired = true;
                        if missing == 0 {
                            break;
                        }
                    }
                    k = k + 1;
                }
            }
            t = t + 1;
        }
        if !repaired {
            break;
        }
        pass = pass + 1;
    }
}

/// The layout invariant once the bosses are placed: edges go one row down, grid slots
/// name the nodes placed there, every node lies in the seven columns and at most two
/// rows below the grid, and every grid node has a room.
pub open spec fn late_ok(n: Seq<Draft>, grid: Seq<[Option<usize>; 7]>, length: int) -> bool {
    &&& edges_ok(n)
    &&& grid_ok(grid, n, length)
    &&& forall|i: int| 0 <= i < n.len() ==> (#[trigger] n[i]).col < 7 && n[i].row <= length + 1
    &&& rooms_set(grid, n)
}

/// `b` is `a` with only columns changed.
pub open spec fn moved_only(a: Seq<Draft>, b: Seq<Draft>) -> bool {
    &&& a.len() == b.len()
    &&& forall|i: int|
        0 <= i < a.len() ==> {
            &&& (#[trigger] b[i]).row == a[i].row
            &&& b[i].room == a[i].room
            &&& b[i].fixed == a[i].fixed
            &&& b[i].parents == a[i].parents
            &&& b[i].children == a[i].children
        }
}

/// `b` keeps the columns of the nodes of `a` that lie on no grid row: the ancient
/// node's row 0 and the boss rows from `length` on.
pub open spec fn off_rows_kept(a: Seq<Draft>, b: Seq<Draft>, length: int) -> bool {
    forall|i: int|
        0 <= i < a.len() && (a[i].row == 0 || a[i].row >= length) ==> (#[trigger] b[i]).col == a[i].col
}

/// The slot holds node `i`.
pub open spec fn slot_holds(slot: Option<usize>, i: int) -> bool {
    slot matches Some(x) && x as int == i
}

/// Moves every node of grid row `r` by `shift` columns.
fn shift_row(nodes: &mut Vec<Draft>, grid: &mut Grid, r: usize, shift: i32, Ghost(length): Ghost<int>)
    requires
        late_ok(old(nodes)@, old(grid)@, length),
        1 <= r < length,
        shift == -1 || shift == 1,
        shift == -1 ==> old(grid)@[r as int]@[0] is None && old(grid)@[r as int]@[1] is None,
        shift == 1 ==> old(grid)@[r as int]@[5] is None && old(grid)@[r as int]@[6] is None,
    ensures
        late_ok(final(nodes)@, final(grid)@, length),
        moved_only(old(nodes)@, final(nodes)@),
        forall|i: int| 0 <= i < old(nodes)@.len() ==> (#[trigger] final(nodes)@[i]).col == if old(nodes)@[i].row == r
            && slot_holds(old(grid)@[r as int]@[old(nodes)@[i].col as int], i) {
            old(nodes)@[i].col + shift
        } else {
            old(nodes)@[i].col as int
        },
        final(grid)@.len() == old(grid)@.len(),
        forall|rr: int| 0 <= rr < final(grid)@.len() && rr != r ==> #[trigger] final(grid)@[rr] == old(grid)@[rr],
        off_rows_kept(old(nodes)@, final(nodes)@, length),
{
    let ghost start = nodes@;
    let ghost g0 = grid@;
    let old_row = grid[r];
    assert(old_row@ == g0[r as int]@);
    grid[r] = [None, None, None, None, None, None, None];
    let mut c: usize = 0;
    while c < 7
        invariant
            c <= 7,
            r < length,
            shift == -1 || shift == 1,
            shift == -1 ==> old_row@[0] is None && old_row@[1] is None,
            shift == 1 ==> old_row@[5] is None && old_row@[6] is None,
            late_ok(start, g0, length),
            old_row@ == g0[r as int]@,
            moved_only(start, nodes@),
            grid@.len() == g0.len(),
            forall|rr: int| 0 <= rr < grid@.len() && rr != r ==> #[trigger] grid@[rr] == g0[rr],
            forall|i: int| 0 <= i < start.len() ==> (#[trigger] nodes@[i]).col == if start[i].row == r
                && start[i].col < c && slot_holds(old_row@[start[i].col as int], i) {
                start[i].col + shift
            } else {
                start[i].col as int
            },
            forall|cc: int| 0 <= cc < 7 ==> match #[trigger] grid@[r as int]@[cc] {
                Some(x) => x < start.len() && start[x as int].row == r && start[x as int].col < c
                    && old_row@[start[x as int].col as int] == Some(x) && nodes@[x as int].col == cc,
                None => true,
            },
        decreases 7 - c,
    {
        if let Some(id) = old_row[c] {
            assert(start[id as int].col == c && start[id as int].row == r);
            assert(nodes@[id as int].col == c);
            if shift == -1 {
                assert(c >= 2);
            } else {
                assert(c <= 4);
            }
            let col = (nodes[id].col as i32 + shift) as usize;
            assert(col == c + shift);
            let ghost before = nodes@;
            nodes[id].col = col;
            grid[r][col] = Some(id);
            assert forall|i: int| 0 <= i < start.len() implies (#[trigger] nodes@[i]).col == if start[i].row == r
                && start[i].col < c + 1 && slot_holds(old_row@[start[i].col as int], i) {
                start[i].col + shift
            } else {
                start[i].col as int
            } by {
                if i != id {
                    assert(nodes@[i] == before[i]);
                    if start[i].row == r && start[i].col == c && slot_holds(old_row@[start[i].col as int], i) {
                        assert(old_row@[c as int] == Some(id));
                        assert(false);
                    }
                }
            }
        }
        c = c + 1;
    }
    proof {
        let n = nodes@;
        assert(edges_ok(n)) by {
            assert forall|i: int, j: int| 0 <= i < n.len() && 0 <= j < n[i].children@.len() implies {
                let ch = #[trigger] n[i].children@[j];
                &&& ch < n.len()
                &&& n[ch as int].row == n[i].row + 1
            } by {
                assert(n[i].children == start[i].children);
                assert(start[i].children@[j] < start.len());
            }
            assert forall|i: int, j: int| 0 <= i < n.len() && 0 <= j < n[i].parents@.len() implies {
                let p = #[trigger] n[i].parents@[j];
                &&& p < n.len()
                &&& n[p as int].row + 1 == n[i].row
            } by {
                assert(n[i].parents == start[i].parents);
                assert(start[i].parents@[j] < start.len());
            }
        }
        assert forall|rr: int, cc: int| 0 <= rr < length && 0 <= cc < 7 implies match #[trigger] grid@[rr]@[cc] {
            Some(id) => id < n.len() && n[id as int].row == rr && n[id as int].col == cc,
            None => true,
        } by {
            if rr != r {
                assert(grid@[rr] == g0[rr]);
                if let Some(id) = g0[rr]@[cc] {
                    assert(start[id as int].row == rr);
                }
            }
        }
        assert forall|i: int| 0 <= i < n.len() implies (#[trigger] n[i]).col < 7 && n[i].row <= length + 1 by {
            assert(start[i].col < 7);
            if start[i].row == r && slot_holds(old_row@[start[i].col as int], i) {
                if shift == -1 {
                    assert(start[i].col >= 2);
                } else {
                    assert(start[i].col <= 4);
                }
            }
        }
        assert forall|rr: int, cc: int| 0 <= rr < grid@.len() && 0 <= cc < 7 implies match #[trigger] grid@[rr]@[cc] {
            Some(id) => id < n.len() && n[id as int].room is Some,
            None => true,
        } by {
            if rr != r {
                assert(grid@[rr] == g0[rr]);
            } else if let Some(x) = grid@[rr]@[cc] {
                assert(g0[r as int]@[start[x as int].col as int] == Some(x));
            }
        }
    }
}

/// Moves every node one column toward the middle when the two outer columns of one
/// side are empty in every row and those of the other side are not.
fn center_columns(nodes: &mut Vec<Draft>, grid: &mut Grid, length: usize)
    requires
        late_ok(old(nodes)@, old(grid)@, length as int),
        1 <= length,
    ensures
        late_ok(final(nodes)@, final(grid)@, length as int),
        moved_only(old(nodes)@, final(nodes)@),
        off_rows_kept(old(nodes)@, final(nodes)@, length as int),
{
    let ghost len = length as int;
    let mut left_empty = true;
    let mut right_empty = true;
    let mut r: usize = 0;
    while r < length
        invariant
            r <= length,
            grid@.len() == length,
            left_empty ==> forall|rr: int| 0 <= rr < r ==> grid@[rr]@[0] is None && grid@[rr]@[1] is None,
            right_empty ==> forall|rr: int| 0 <= rr < r ==> grid@[rr]@[5] is None && grid@[rr]@[6] is None,
        decreases length - r,
    {
        if grid[r][0].is_some() || grid[r][1].is_some() {
            left_empty = false;
        }
        if grid[r][5].is_some() || grid[r][6].is_some() {
            right_empty = false;
        }
        r = r + 1;
    }
    let shift: i32 = if left_empty && !right_empty {
        -1
    } else if !left_empty && right_empty {
        1
    } else {
        0
    };
    if shift == 0 {
        return;
    }
    let ghost g0 = grid@;
    let ghost start = nodes@;
    let mut r: usize = 1;
    while r < length
        invariant
            1 <= r <= length,
            off_rows_kept(start, nodes@, len),
            len == length,
            shift == -1 || shift == 1,
            shift == -1 ==> forall|rr: int| 0 <= rr < length ==> g0[rr]@[0] is None && g0[rr]@[1] is None,
            shift == 1 ==> forall|rr: int| 0 <= rr < length ==> g0[rr]@[5] is None && g0[rr]@[6] is None,
            late_ok(nodes@, grid@, len),
            moved_only(start, nodes@),
            grid@.len() == length,
            forall|rr: int| r <= rr < length ==> #[trigger] grid@[rr] == g0[rr],
        decreases length - r,
    {
        let ghost before = nodes@;
        shift_row(nodes, grid, r, shift, Ghost(len));
        proof {
            assert forall|i: int| 0 <= i < start.len() && (start[i].row == 0 || start[i].row >= len)
                implies (#[trigger] nodes@[i]).col == start[i].col by {
                assert(before[i].row == start[i].row);
            }
        }
        r = r + 1;
    }
}

/// Moves node `id` of grid row `r` to the empty column `next`.
fn move_node(nodes: &mut Vec<Draft>, grid: &mut Grid, r: usize, id: usize, next: usize, Ghost(length): Ghost<int>)
    requires
        late_ok(old(nodes)@, old(grid)@, length),
        1 <= r < length,
        id < old(nodes)@.len(),
        old(nodes)@[id as int].row == r,
        old(nodes)@[id as int].room is Some,
        next < 7,
    ensures
        late_ok(final(nodes)@, final(grid)@, length),
        moved_only(old(nodes)@, final(nodes)@),
        off_rows_kept(old(nodes)@, final(nodes)@, length),
{
    let old_col = nodes[id].col;
    let ghost before = nodes@;
    let ghost g = grid@;
    grid[r][old_col] = None;
    nodes[id].col = next;
    grid[r][next] = Some(id);
    proof {
        let n = nodes@;
        assert(edges_ok(n)) by {
            assert forall|i: int, j: int| 0 <= i < n.len() && 0 <= j < n[i].children@.len() implies {
                let ch = #[trigger] n[i].children@[j];
                &&& ch < n.len()
                &&& n[ch as int].row == n[i].row + 1
            } by {
                assert(before[i].children@[j] < before.len());
            }
            assert forall|i: int, j: int| 0 <= i < n.len() && 0 <= j < n[i].parents@.len() implies {
                let p = #[trigger] n[i].parents@[j];
                &&& p < n.len()
                &&& n[p as int].row + 1 == n[i].row
            } by {
                assert(before[i].parents@[j] < before.len());
            }
        }
        assert forall|rr: int, cc: int| 0 <= rr < length && 0 <= cc < 7 implies match #[trigger] grid@[rr]@[cc] {
            Some(x) => x < n.len() && n[x as int].row == rr && n[x as int].col == cc,
            None => true,
        } by {
            if let Some(x) = grid@[rr]@[cc] {
                if x != id {
                    assert(g[rr]@[cc] == Some(x));
                } else if rr != r || cc != next {
                    assert(g[rr]@[cc] == Some(id));
                    assert(false);
                }
            }
        }
        assert forall|rr: int, cc: int| 0 <= rr < grid@.len() && 0 <= cc < 7 implies match #[trigger] grid@[rr]@[cc] {
            Some(x) => x < n.len() && n[x as int].room is Some,
            None => true,
        } by {
            if let Some(x) = grid@[rr]@[cc] {
                if x != id {
                    assert(g[rr]@[cc] == Some(x));
                }
            }
        }
    }
}

/// The distance from `col` to the nearest node of the first `k` of `row_nodes` other
/// than `id` (`usize::MAX` when there is none).
pub open spec fn gap_from(n: Seq<Draft>, row_nodes: Seq<usize>, id: usize, col: usize, k: int) -> usize
    decreases k,
{
    if k <= 0 {
        usize::MAX
    } else {
        let best = gap_from(n, row_nodes, id, col, k - 1);
        let other = row_nodes[k - 1];
        let c = n[other as int].col;
        let d: usize = if c > col { (c - col) as usize } else { (col - c) as usize };
        if other != id && d < best {
            d
        } else {
            best
        }
    }
}

/// The distance from `col` to the nearest other node of `row_nodes`.
fn gap(nodes: &Vec<Draft>, row_nodes: &Vec<usize>, id: usize, col: usize) -> (best: usize)
    requires
        all_below(row_nodes@, nodes@.len() as int),
        forall|i: int| 0 <= i < nodes@.len() ==> (#[trigger] nodes@[i]).col < 7,
        col < 7,
    ensures
        best == gap_from(nodes@, row_nodes@, id, col, row_nodes@.len() as int),
{
    let mut best = usize::MAX;
    let mut k: usize = 0;
    while k < row_nodes.len()
        invariant
            all_below(row_nodes@, nodes@.len() as int),
            forall|i: int| 0 <= i < nodes@.len() ==> (#[trigger] nodes@[i]).col < 7,
            col < 7,
            k <= row_nodes@.len(),
            best == gap_from(nodes@, row_nodes@, id, col, k as int),
        decreases row_nodes@.len() - k,
    {
        let other = row_nodes[k];
        if other != id {
            let c = nodes[other].col;
            let d = if c > col { c - col } else { col - c };
            if d < best {
                best = d;
            }
        }
        k = k + 1;
    }
    best
}

/// The columns `a` and `b` are at most one apart.
pub open spec fn within_one(a: int, b: int) -> bool {
    a <= b + 1 && b <= a + 1
}

/// Whether every neighbour of `id` is within one column of `col`.
fn near_neighbours(nodes: &Vec<Draft>, id: usize, col: usize) -> (near: bool)
    requires
        edges_ok(nodes@),
        id < nodes@.len(),
        forall|i: int| 0 <= i < nodes@.len() ==> (#[trigger] nodes@[i]).col < 7,
        col < 7,
    ensures
        near == ((forall|k: int| 0 <= k < nodes@[id as int].parents@.len() ==> #[trigger] within_one(
            nodes@[nodes@[id as int].parents@[k] as int].col as int,
            col as int,
        )) && (forall|k: int| 0 <= k < nodes@[id as int].children@.len() ==> #[trigger] within_one(
            nodes@[nodes@[id as int].children@[k] as int].col as int,
            col as int,
        ))),
{
    let node = &nodes[id];
    let mut k: usize = 0;
    while k < node.parents.len()
        invariant
            edges_ok(nodes@),
            id < nodes@.len(),
            *node == nodes@[id as int],
            forall|i: int| 0 <= i < nodes@.len() ==> (#[trigger] nodes@[i]).col < 7,
            col < 7,
            k <= node.parents@.len(),
            forall|j: int| 0 <= j < k ==> #[trigger] within_one(nodes@[node.parents@[j] as int].col as int, col as int),
        decreases node.parents@.len() - k,
    {
        let c = nodes[node.parents[k]].col;
        if c > col + 1 || col > c + 1 {
            assert(!within_one(nodes@[node.parents@[k as int] as int].col as int, col as int));
            return false;
        }
        k = k + 1;
    }
    let mut k: usize = 0;
    while k < node.children.len()
        invariant
            edges_ok(nodes@),
            id < nodes@.len(),
            *node == nodes@[id as int],
            forall|i: int| 0 <= i < nodes@.len() ==> (#[trigger] nodes@[i]).col < 7,
            col < 7,
            k <= node.children@.len(),
            forall|j: int| 0 <= j < node.parents@.len() ==> #[trigger] within_one(nodes@[node.parents@[j] as int].col as int, col as int),
            forall|j: int| 0 <= j < k ==> #[trigger] within_one(nodes@[node.children@[j] as int].col as int, col as int),
        decreases node.children@.len() - k,
    {
        let c = nodes[node.children[k]].col;
        if c > col + 1 || col > c + 1 {
            assert(!within_one(nodes@[node.children@[k as int] as int].col as int, col as int));
            return false;
        }
        k = k + 1;
    }
    true
}

/// Spreads the nodes of grid row `r` apart: each node moves to the free column, within
/// one column of all its neighbours, farthest from the other nodes of the row (the
/// leftmost of equals), when that is farther than where it stands; until no node moves.
/// The row has at most 5040 arrangements, so a run that has not settled after 5041
/// passes cycles; it is cut there.
fn spread_row(nodes: &mut Vec<Draft>, grid: &mut Grid, r: usize, Ghost(length): Ghost<int>)
    requires
        late_ok(old(nodes)@, old(grid)@, length),
        1 <= r < length,
    ensures
        late_ok(final(nodes)@, final(grid)@, length),
        moved_only(old(nodes)@, final(nodes)@),
        off_rows_kept(old(nodes)@, final(nodes)@, length),
{
    let ghost start = nodes@;
    let mut row_nodes: Vec<usize> = Vec::new();
    let mut c: usize = 0;
    while c < 7
        invariant
            late_ok(nodes@, grid@, length),
            r < length,
            all_below(row_nodes@, nodes@.len() as int),
            forall|k: int| 0 <= k < row_nodes@.len() ==> nodes@[(#[trigger] row_nodes@[k]) as int].row == r
                && nodes@[row_nodes@[k] as int].room is Some,
        decreases 7 - c,
    {
        if let Some(id) = grid[r][c] {
            row_nodes.push(id);
        }
        c = c + 1;
    }
    let mut pass: usize = 0;
    while pass < 5041
        invariant
            late_ok(nodes@, grid@, length),
            moved_only(start, nodes@),
            off_rows_kept(start, nodes@, length),
            1 <= r < length,
            all_below(row_nodes@, nodes@.len() as int),
            forall|k: int| 0 <= k < row_nodes@.len() ==> nodes@[(#[trigger] row_nodes@[k]) as int].row == r
                && nodes@[row_nodes@[k] as int].room is Some,
        decreases 5041 - pass,
    {
        let mut moved = false;
        let mut k: usize = 0;
        while k < row_nodes.len()
            invariant
                late_ok(nodes@, grid@, length),
                moved_only(start, nodes@),
                off_rows_kept(start, nodes@, length),
                1 <= r < length,
                all_below(row_nodes@, nodes@.len() as int),
                forall|j: int| 0 <= j < row_nodes@.len() ==> nodes@[(#[trigger] row_nodes@[j]) as int].row == r
                    && nodes@[row_nodes@[j] as int].room is Some,
            decreases row_nodes@.len() - k,
        {
            let id = row_nodes[k];
            let old_col = nodes[id].col;
            let mut best: Option<(usize, usize)> = None;
            let mut col: usize = 0;
            while col < 7
                invariant
                    late_ok(nodes@, grid@, length),
                    1 <= r < length,
                    id < nodes@.len(),
                    all_below(row_nodes@, nodes@.len() as int),
                    match best {
                        Some((_, b)) => b < 7,
                        None => true,
                    },
                decreases 7 - col,
            {
                if near_neighbours(nodes, id, col) && (col == old_col || grid[r][col].is_none()) {
                    let g = gap(nodes, &row_nodes, id, col);
                    let better = match best {
                        None => true,
                        Some((best_gap, _)) => g > best_gap,
                    };
                    if better {
                        best = Some((g, col));
                    }
                }
                col = col + 1;
            }
            let next = match best {
                Some((_, col)) => col,
                None => old_col,
            };
            if gap(nodes, &row_nodes, id, next) > gap(nodes, &row_nodes, id, old_col) {
                let ghost before = nodes@;
                move_node(nodes, grid, r, id, next, Ghost(length));
                proof {
                    assert forall|j: int| 0 <= j < row_nodes@.len() implies nodes@[(#[trigger] row_nodes@[j]) as int].row == r
                        && nodes@[row_nodes@[j] as int].room is Some by {
                        assert(before[row_nodes@[j] as int].row == r);
                    }
                    assert forall|i: int| 0 <= i < start.len() && (start[i].row == 0 || start[i].row >= length)
                        implies (#[trigger] nodes@[i]).col == start[i].col by {
                        assert(before[i].row == start[i].row);
                    }
                    assert(moved_only(start, nodes@)) by {
                        assert forall|i: int| 0 <= i < start.len() implies {
                            &&& (#[trigger] nodes@[i]).row == start[i].row
                            &&& nodes@[i].room == start[i].room
                            &&& nodes@[i].fixed == start[i].fixed
                            &&& nodes@[i].parents == start[i].parents
                            &&& nodes@[i].children == start[i].children
                        } by {
                            assert(nodes@[i].row == before[i].row);
                        }
                    }
                }
                moved = true;
            }
            k = k + 1;
        }
        if !moved {
            break;
        }
        pass = pass + 1;
    }
}

/// A node with one parent and one child that sticks out sideways from both moves one
/// column back in, when that column is free.
fn straighten(nodes: &mut Vec<Draft>, grid: &mut Grid, length: usize)
    requires
        late_ok(old(nodes)@, old(grid)@, length as int),
    ensures
        late_ok(final(nodes)@, final(grid)@, length as int),
        moved_only(old(nodes)@, final(nodes)@),
        off_rows_kept(old(nodes)@, final(nodes)@, length as int),
{
    let ghost len = length as int;
    let ghost start = nodes@;
    let mut r: usize = 1;
    while r < length
        invariant
            len == length,
            1 <= r,
            late_ok(nodes@, grid@, len),
            moved_only(start, nodes@),
            off_rows_kept(start, nodes@, len),
        decreases length - r,
    {
        let mut c: usize = 0;
        while c < 7
            invariant
                len == length,
                1 <= r < length,
                late_ok(nodes@, grid@, len),
                moved_only(start, nodes@),
                off_rows_kept(start, nodes@, len),
            decreases 7 - c,
        {
            if let Some(id) = grid[r][c] {
                if nodes[id].parents.len() == 1 && nodes[id].children.len() == 1 {
                    let parent = nodes[id].parents[0];
                    let child = nodes[id].children[0];
                    let col = nodes[id].col;
                    let next = if col < nodes[parent].col && col < nodes[child].col {
                        if c < 6 && grid[r][c + 1].is_none() {
                            Some(c + 1)
                        } else {
                            None
                        }
                    } else if col > nodes[parent].col && col > nodes[child].col {
                        if c > 0 && grid[r][c - 1].is_none() {
                            Some(c - 1)
                        } else {
                            None
                        }
                    } else {
                        None
                    };
                    if let Some(next) = next {
                        let ghost before = nodes@;
                        move_node(nodes, grid, r, id, next, Ghost(len));
                        proof {
                            assert forall|i: int| 0 <= i < start.len() && (start[i].row == 0 || start[i].row >= len)
                                implies (#[trigger] nodes@[i]).col == start[i].col by {
                                assert(before[i].row == start[i].row);
                            }
                            assert forall|i: int| 0 <= i < start.len() implies {
                                &&& (#[trigger] nodes@[i]).row == start[i].row
                                &&& nodes@[i].room == start[i].room
                                &&& nodes@[i].fixed == start[i].fixed
                                &&& nodes@[i].parents == start[i].parents
                                &&& nodes@[i].children == start[i].children
                            } by {
                                assert(nodes@[i].row == before[i].row);
                            }
                        }
                    }
                }
            }
            c = c + 1;
        }
        r = r + 1;
    }
}

/// A finished map: every edge goes to a node one floor up, every lane is one of
/// the seven, and the last node is a boss.
pub open spec fn map_shaped(map: &ActMap) -> bool {
    &&& map.wf()
    &&& map.current is None
    &&& map.nodes@.len() >= 1
    &&& map.nodes@.last().room == Room::Boss
    &&& forall|i: int| 0 <= i < map.nodes@.len() ==> (#[trigger] map.nodes@[i]).lane < 7
    &&& forall|i: int, j: int|
        0 <= i < map.nodes@.len() && 0 <= j < map.nodes@[i].next@.len() ==> map.nodes@[(
        #[trigger] map.nodes@[i].next@[j]) as int].floor == map.nodes@[i].floor + 1
}

/// The number of rows of an act's map: the boss's floor.
pub open spec fn map_length(act: u8) -> int {
    if act == 1 {
        14
    } else if act == 2 {
        15
    } else {
        16
    }
}

/// `a` lies before `b`: on an earlier row, or on the same row in an earlier column.
pub open spec fn draft_before(a: Draft, b: Draft) -> bool {
    a.row < b.row || (a.row == b.row && a.col < b.col)
}

/// `a` lies before `b` on the map: on a lower floor, or on the same floor in an earlier lane.
pub open spec fn node_before(a: MapNode, b: MapNode) -> bool {
    a.floor < b.floor || (a.floor == b.floor && a.lane < b.lane)
}

/// The nodes of `ids` are in place order and all distinct.
pub open spec fn ids_in_order(ids: Seq<usize>, n: Seq<Draft>) -> bool {
    forall|a: int, b: int|
        0 <= a < b < ids.len() ==> draft_before(n[#[trigger] ids[a] as int], n[#[trigger] ids[b] as int])
}

/// A laid-out act map of `length` rows: shaped (see `map_shaped`), its nodes listed by
/// floor and then lane, no edge listed twice, the ancient node alone on floor 0 exactly
/// on a standard act, every other node on floors 1 to `length - 1`, and then the boss on
/// floor `length` (with `two`, leading to a second boss on the floor above), the
/// ancient's event and the bosses in lane 3; the
/// first floor holds fights, the floor below the boss rest sites and the floor seven
/// below the boss treasures (and no other floor a treasure); no rest site or elite
/// stands below floor 6, nor a rest site on the three floors below the boss but the
/// last, and bosses and the ancient's event stand nowhere else (see `spacing_room`).
pub open spec fn map_laid_out(map: &ActMap, length: int, standard: bool, two: bool) -> bool {
    let n = map.nodes@;
    let bosses: int = if two { 2 } else { 1 };
    &&& map_shaped(map)
    &&& n.len() >= bosses + if standard { 1int } else { 0 }
    &&& forall|i: int, j: int| 0 <= i < j < n.len() ==> node_before(#[trigger] n[i], #[trigger] n[j])
    &&& forall|i: int| 0 <= i < n.len() ==> (#[trigger] n[i]).next@.no_duplicates()
    &&& forall|i: int| 0 <= i < n.len() ==> ((#[trigger] n[i]).floor == 0 <==> standard && i == 0)
    &&& forall|i: int| 0 <= i < n.len() - bosses ==> (#[trigger] n[i]).floor < length
    &&& n[n.len() - bosses].floor == length
    &&& n[n.len() - bosses].room == Room::Boss
    &&& n[n.len() - bosses].next@ == if two { seq![(n.len() - 1) as usize] } else { Seq::<usize>::empty() }
    &&& two ==> n.last().floor == length + 1 && n.last().room == Room::Boss && n.last().next@.len() == 0
    &&& standard ==> n[0].lane == 3 && n[0].room == Room::Event
    &&& n[n.len() - bosses].lane == 3
    &&& two ==> n.last().lane == 3
    &&& forall|i: int| 0 <= i < n.len() && fixed_row_room((#[trigger] n[i]).floor as int, length) is Some
        ==> Some(n[i].room) == fixed_row_room(n[i].floor as int, length)
    &&& forall|i: int| 0 <= i < n.len() ==> spacing_room((#[trigger] n[i]).room, n[i].floor as int, length)
}

/// The map as the player sees it: the ancient node (on a standard act), the grid
/// rows from the first, the boss and the second boss, with edges renumbered; edges
/// to nodes that left the map are dropped.
fn export(
    nodes: &Vec<Draft>,
    grid: &Grid,
    length: usize,
    ancient: usize,
    boss: usize,
    second: Option<usize>,
    standard: bool,
) -> (map: ActMap)
    requires
        late_ok(nodes@, grid@, length as int),
        14 <= length <= 16,
        ancient < nodes@.len(),
        boss < nodes@.len(),
        nodes@[ancient as int].room == Some(Room::Event),
        nodes@[ancient as int].row == 0,
        nodes@[ancient as int].col == 3,
        nodes@[boss as int].room == Some(Room::Boss),
        nodes@[boss as int].row == length,
        nodes@[boss as int].col == 3,
        second matches Some(s) ==> s < nodes@.len() && nodes@[s as int].room == Some(Room::Boss)
            && nodes@[s as int].row == length + 1 && nodes@[s as int].children@.len() == 0
            && nodes@[boss as int].children@ == seq![s] && nodes@[s as int].col == 3,
        second is None ==> nodes@[boss as int].children@.len() == 0,
        rows_fixed(nodes@, length as int),
    ensures
        map_laid_out(&map, length as int, standard, second is Some),
{
    let ghost len = length as int;
    let ghost n = nodes@.len() as int;
    let mut ids: Vec<usize> = Vec::new();
    if standard {
        ids.push(ancient);
    }
    let mut r: usize = 1;
    while r < length
        invariant
            late_ok(nodes@, grid@, len),
            len == length,
            1 <= r <= length,
            n == nodes@.len(),
            ancient < n,
            nodes@[ancient as int].row == 0,
            forall|k: int| 0 <= k < ids@.len() ==> (#[trigger] ids@[k]) < n && nodes@[ids@[k] as int].room is Some,
            ids_in_order(ids@, nodes@),
            forall|k: int| 0 <= k < ids@.len() ==> nodes@[(#[trigger] ids@[k]) as int].row < r,
            forall|k: int| 0 <= k < ids@.len() ==> (nodes@[(#[trigger] ids@[k]) as int].row == 0 <==> standard && k == 0),
            standard ==> ids@.len() >= 1 && ids@[0] == ancient,
        decreases length - r,
    {
        let mut c: usize = 0;
        while c < 7
            invariant
                late_ok(nodes@, grid@, len),
                len == length,
                1 <= r < length,
                c <= 7,
                n == nodes@.len(),
                forall|k: int| 0 <= k < ids@.len() ==> (#[trigger] ids@[k]) < n && nodes@[ids@[k] as int].room is Some,
                ids_in_order(ids@, nodes@),
                forall|k: int| 0 <= k < ids@.len() ==> {
                    let d = nodes@[(#[trigger] ids@[k]) as int];
                    d.row < r || (d.row == r && d.col < c)
                },
                forall|k: int| 0 <= k < ids@.len() ==> (nodes@[(#[trigger] ids@[k]) as int].row == 0 <==> standard && k == 0),
                standard ==> ids@.len() >= 1 && ids@[0] == ancient,
            decreases 7 - c,
        {
            if let Some(id) = grid[r][c] {
                assert(nodes@[id as int].row == r && nodes@[id as int].col == c);
                let ghost before = ids@;
                ids.push(id);
                proof {
                    assert forall|a: int, b: int| 0 <= a < b < ids@.len() implies draft_before(
                        nodes@[#[trigger] ids@[a] as int],
                        nodes@[#[trigger] ids@[b] as int],
                    ) by {
                        if b < before.len() {
                            assert(ids@[a] == before[a] && ids@[b] == before[b]);
                        } else {
                            assert(ids@[a] == before[a]);
                        }
                    }
                }
            }
            c = c + 1;
        }
        r = r + 1;
    }
    let bosses_at = ids.len();
    let ghost grid_ids = ids@;
    ids.push(boss);
    if let Some(s) = second {
        ids.push(s);
    }
    proof {
        assert forall|a: int, b: int| 0 <= a < b < ids@.len() implies draft_before(
            nodes@[#[trigger] ids@[a] as int],
            nodes@[#[trigger] ids@[b] as int],
        ) by {
            if b < grid_ids.len() {
                assert(ids@[a] == grid_ids[a] && ids@[b] == grid_ids[b]);
            } else if a < grid_ids.len() {
                assert(ids@[a] == grid_ids[a]);
                assert(nodes@[grid_ids[a] as int].row < length);
            }
        }
    }
    let ghost last = ids@.last();
    assert(nodes@[last as int].room == Some(Room::Boss));
    let mut indices: Vec<usize> = Vec::new();
    let mut k: usize = 0;
    while k < nodes.len()
        invariant
            indices@.len() == k,
            k <= nodes@.len(),
            n == nodes@.len(),
            forall|x: int| 0 <= x < k ==> indices@[x] == usize::MAX,
        decreases nodes@.len() - k,
    {
        indices.push(usize::MAX);
        k = k + 1;
    }
    let mut k: usize = 0;
    while k < ids.len()
        invariant
            indices@.len() == n,
            n == nodes@.len(),
            k <= ids@.len(),
            forall|j: int| 0 <= j < ids@.len() ==> (#[trigger] ids@[j]) < n && nodes@[ids@[j] as int].room is Some,
            ids_in_order(ids@, nodes@),
            forall|x: int|
                0 <= x < n ==> (#[trigger] indices@[x]) == usize::MAX || indices@[x] < ids@.len()
                    && ids@[indices@[x] as int] == x,
            forall|j: int| 0 <= j < k ==> indices@[#[trigger] ids@[j] as int] == j,
        decreases ids@.len() - k,
    {
        let id = ids[k];
        let ghost before = indices@;
        indices.set(id, k);
        proof {
            assert forall|j: int| 0 <= j < k + 1 implies indices@[#[trigger] ids@[j] as int] == j by {
                if j < k {
                    assert(draft_before(nodes@[ids@[j] as int], nodes@[ids@[k as int] as int]));
                    assert(ids@[j] != id);
                }
            }
        }
        k = k + 1;
    }
    let mut out: Vec<MapNode> = Vec::new();
    let mut k: usize = 0;
    while k < ids.len()
        invariant
            late_ok(nodes@, grid@, len),
            len == length,
            14 <= length <= 16,
            indices@.len() == n,
            n == nodes@.len(),
            out@.len() == k,
            k <= ids@.len(),
            forall|j: int| 0 <= j < ids@.len() ==> (#[trigger] ids@[j]) < n && nodes@[ids@[j] as int].room is Some,
            forall|x: int|
                0 <= x < n ==> (#[trigger] indices@[x]) == usize::MAX || indices@[x] < ids@.len()
                    && ids@[indices@[x] as int] == x,
            forall|i: int| 0 <= i < k ==> {
                &&& (#[trigger] out@[i]).floor == nodes@[ids@[i] as int].row
                &&& out@[i].lane == nodes@[ids@[i] as int].col
                &&& Some(out@[i].room) == nodes@[ids@[i] as int].room
                &&& out@[i].next@.no_duplicates()
                &&& nodes@[ids@[i] as int].children@.len() == 0 ==> out@[i].next@.len() == 0
                &&& nodes@[ids@[i] as int].children@.len() == 1 && indices@[nodes@[ids@[i] as int].children@[0] as int]
                    != usize::MAX ==> out@[i].next@ == seq![indices@[nodes@[ids@[i] as int].children@[0] as int]]
                &&& forall|j: int| 0 <= j < out@[i].next@.len() ==> {
                    let t = #[trigger] out@[i].next@[j];
                    &&& t < ids@.len()
                    &&& nodes@[ids@[t as int] as int].row == nodes@[ids@[i] as int].row + 1
                }
            },
        decreases ids@.len() - k,
    {
        let id = ids[k];
        let node = &nodes[id];
        let mut next: Vec<usize> = Vec::new();
        let mut m: usize = 0;
        while m < node.children.len()
            invariant
                late_ok(nodes@, grid@, len),
                id < n,
                *node == nodes@[id as int],
                indices@.len() == n,
                n == nodes@.len(),
                m <= node.children@.len(),
                next@.len() <= m,
                next@.no_duplicates(),
                node.children@.len() == 1 && m == 1 && indices@[node.children@[0] as int] != usize::MAX
                    ==> next@ == seq![indices@[node.children@[0] as int]],
                forall|x: int|
                    0 <= x < n ==> (#[trigger] indices@[x]) == usize::MAX || indices@[x] < ids@.len()
                        && ids@[indices@[x] as int] == x,
                forall|j: int| 0 <= j < next@.len() ==> {
                    let t = #[trigger] next@[j];
                    &&& t < ids@.len()
                    &&& nodes@[ids@[t as int] as int].row == nodes@[id as int].row + 1
                },
            decreases node.children@.len() - m,
        {
            let child = node.children[m];
            let index = indices[child];
            if index != usize::MAX && !holds(&next, index) {
                next.push(index);
            }
            m = m + 1;
        }
        let room = match node.room {
            Some(room) => room,
            None => Room::Combat,
        };
        out.push(MapNode { floor: node.row as u8, lane: node.col as u8, room, next });
        k = k + 1;
    }
    let map = ActMap { nodes: out, current: None };
    proof {
        let m = map.nodes@;
        assert forall|i: int, j: int| 0 <= i < m.len() && 0 <= j < m[i].next@.len() implies
            #[trigger] m[i].next@[j] < m.len() by {
            let t = m[i].next@[j];
            assert(t < ids@.len());
        }
        assert forall|i: int, j: int| 0 <= i < m.len() && 0 <= j < m[i].next@.len() implies m[(
            #[trigger] m[i].next@[j]) as int].floor == m[i].floor + 1 by {
            let t = m[i].next@[j];
            assert(t < ids@.len());
            assert(m[t as int].floor == nodes@[ids@[t as int] as int].row);
        }
        assert(m.last().room == Room::Boss) by {
            assert(Some(m[m.len() - 1].room) == nodes@[ids@[ids@.len() - 1] as int].room);
        }
        assert forall|i: int, j: int| 0 <= i < j < m.len() implies node_before(#[trigger] m[i], #[trigger] m[j]) by {
            assert(draft_before(nodes@[ids@[i] as int], nodes@[ids@[j] as int]));
        }
        assert forall|i: int| 0 <= i < m.len() implies ((#[trigger] m[i]).floor == 0 <==> standard && i == 0) by {
            if i >= bosses_at {
                if i == bosses_at {
                    assert(ids@[i] == boss);
                } else {
                    assert(ids@[i] == second->0);
                }
            } else {
                assert(ids@[i] == grid_ids[i]);
            }
        }
        assert forall|i: int| 0 <= i < bosses_at implies (#[trigger] m[i]).floor < length by {
            assert(ids@[i] == grid_ids[i]);
        }
        assert(ids@[bosses_at as int] == boss);
        assert(m[bosses_at as int].floor == length);
        assert(Some(m[bosses_at as int].room) == nodes@[boss as int].room);
        assert forall|i: int| 0 <= i < m.len() && fixed_row_room((#[trigger] m[i]).floor as int, len) is Some
            implies Some(m[i].room) == fixed_row_room(m[i].floor as int, len) by {
            let d = nodes@[ids@[i] as int];
            assert(d.room is Some);
            assert(m[i].floor == d.row);
        }
        assert forall|i: int| 0 <= i < m.len() implies spacing_room((#[trigger] m[i]).room, m[i].floor as int, len) by {
            let d = nodes@[ids@[i] as int];
            assert(spacing_at(d, len));
            assert(m[i].floor == d.row);
            assert(Some(m[i].room) == d.room);
        }
        if standard {
            assert(ids@[0] == ancient);
        }
        let bn = nodes@[ids@[bosses_at as int] as int];
        if let Some(s) = second {
            assert(ids@[bosses_at + 1] == s);
            assert(indices@[s as int] == bosses_at + 1);
            assert(Some(m[bosses_at + 1].room) == nodes@[s as int].room);
            assert(bn.children@.len() == 1 && bn.children@[0] == s);
            assert(m[bosses_at as int].next@ == seq![(bosses_at + 1) as usize]);
        } else {
            assert(bn.children@.len() == 0);
            assert(m[bosses_at as int].next@ =~= Seq::<usize>::empty());
        }
    }
    map
}

/// Lays out the map of an act with the act's map stream: paths up from the first
/// row, a spoils treasure if asked, the boss, the room pool dealt and repaired,
/// duplicate segments pruned, a second boss on the last act at ascension 10, and
/// (without a spoils map) the columns centred, spread and straightened.
pub fn build_map(rng: &mut Rng, act: u8, ascension: u8, spoils: bool, standard: bool) -> (map: ActMap)
    ensures
        map_laid_out(&map, map_length(act), standard, ascension >= 10 && act == 3),
{
    let length: usize = if act == 1 {
        14
    } else if act == 2 {
        15
    } else {
        16
    };
    let ghost len = length as int;
    let (rests, unknowns): (usize, usize) = if act == 1 {
        let rests = 5 + rng.below(2) as usize;
        let unknowns = rng.gaussian(12, 1, 10, 14) as usize - 1;
        (rests, unknowns)
    } else if act == 2 {
        let rests = rng.gaussian(6, 1, 6, 7) as usize;
        let unknowns = rng.gaussian(12, 1, 10, 14) as usize - 1;
        (rests, unknowns)
    } else {
        let rests = rng.gaussian(7, 1, 6, 7) as usize;
        let unknowns = rng.gaussian(12, 1, 10, 14) as usize;
        (rests, unknowns)
    };
    let mut nodes: Vec<Draft> = Vec::new();
    let mut grid: Grid = Vec::new();
    let mut r: usize = 0;
    while r < length
        invariant
            grid@.len() == r,
            r <= length,
            forall|rr: int, c: int| 0 <= rr < r && 0 <= c < 7 ==> (#[trigger] grid@[rr]@[c]) is None,
        decreases length - r,
    {
        grid.push([None, None, None, None, None, None, None]);
        r = r + 1;
    }
    nodes.push(Draft {
        col: 3,
        row: 0,
        room: Some(Room::Event),
        parents: Vec::new(),
        children: Vec::new(),
        fixed: true,
    });
    let ancient: usize = 0;
    let mut starts: Vec<usize> = Vec::new();
    generate_paths(&mut nodes, &mut grid, &mut starts, rng, length, spoils);
    if spoils {
        place_spoils_treasure(&mut nodes, &mut grid, length, Ghost(starts@));
    }
    assert(nodes@[0].room == Some(Room::Event));
    let boss = add_boss(&mut nodes, &grid, &starts, length, spoils);
    assert(nodes@[0].room == Some(Room::Event));
    let elites: usize = if ascension >= 1 {
        8
    } else {
        5
    };
    let mut rooms: Vec<Room> = Vec::new();
    let mut k: usize = 0;
    while k < rests
        invariant
            forall|q: int| 0 <= q < rooms@.len() ==> pool_room(#[trigger] rooms@[q]),
        decreases rests - k,
    {
        rooms.push(Room::Rest);
        k = k + 1;
    }
    rooms.push(Room::Shop);
    rooms.push(Room::Shop);
    rooms.push(Room::Shop);
    let mut k: usize = 0;
    while k < elites
        invariant
            forall|q: int| 0 <= q < rooms@.len() ==> pool_room(#[trigger] rooms@[q]),
        decreases elites - k,
    {
        rooms.push(Room::Elite);
        k = k + 1;
    }
    let mut k: usize = 0;
    while k < unknowns
        invariant
            forall|q: int| 0 <= q < rooms@.len() ==> pool_room(#[trigger] rooms@[q]),
        decreases unknowns - k,
    {
        rooms.push(Room::Unknown);
        k = k + 1;
    }
    assign_rooms(&mut nodes, &grid, rng, length, rooms, Ghost(boss as int));
    assert(starts_ok(starts@, nodes@) ==> all_below(starts@, nodes@.len() as int));
    repair_rooms(
        &mut nodes,
        &mut grid,
        &mut starts,
        rng,
        boss,
        length,
        [(Room::Shop, 3), (Room::Elite, elites), (Room::Rest, rests), (Room::Unknown, unknowns)],
    );
    assert(nodes@[0].row == 0);
    assert(nodes@[boss as int].row == length && nodes@[boss as int].children@.len() == 0);
    let second = if ascension >= 10 && act == 3 {
        let id = nodes.len();
        nodes.push(Draft {
            col: 3,
            row: length + 1,
            room: Some(Room::Boss),
            parents: Vec::new(),
            children: Vec::new(),
            fixed: true,
        });
        link(&mut nodes, boss, id);
        assert(nodes@[boss as int].children@ =~= seq![id]);
        Some(id)
    } else {
        None
    };
    assert(nodes@[0].row == 0);
    let ghost settled = nodes@;
    if !spoils {
        center_columns(&mut nodes, &mut grid, length);
        let mut r: usize = 1;
        while r < length
            invariant
                late_ok(nodes@, grid@, len),
                len == length,
                1 <= r,
                moved_only(settled, nodes@),
                off_rows_kept(settled, nodes@, len),
            decreases length - r,
        {
            let ghost before = nodes@;
            spread_row(&mut nodes, &mut grid, r, Ghost(len));
            assert forall|i: int| 0 <= i < settled.len() && (settled[i].row == 0 || settled[i].row >= len)
                implies (#[trigger] nodes@[i]).col == settled[i].col by {
                assert(before[i].row == settled[i].row);
            }
            assert(moved_only(settled, nodes@)) by {
                assert forall|i: int| 0 <= i < settled.len() implies {
                    &&& (#[trigger] nodes@[i]).row == settled[i].row
                    &&& nodes@[i].room == settled[i].room
                    &&& nodes@[i].fixed == settled[i].fixed
                    &&& nodes@[i].parents == settled[i].parents
                    &&& nodes@[i].children == settled[i].children
                } by {
                    assert(before[i].row == settled[i].row);
                }
            }
            r = r + 1;
        }
        let ghost before = nodes@;
        straighten(&mut nodes, &mut grid, length);
        assert forall|i: int| 0 <= i < settled.len() && (settled[i].row == 0 || settled[i].row >= len)
            implies (#[trigger] nodes@[i]).col == settled[i].col by {
            assert(before[i].row == settled[i].row);
        }
        assert(moved_only(settled, nodes@)) by {
            assert forall|i: int| 0 <= i < settled.len() implies {
                &&& (#[trigger] nodes@[i]).row == settled[i].row
                &&& nodes@[i].room == settled[i].room
                &&& nodes@[i].fixed == settled[i].fixed
                &&& nodes@[i].parents == settled[i].parents
                &&& nodes@[i].children == settled[i].children
            } by {
                assert(before[i].row == settled[i].row);
            }
        }
    }
    assert(nodes@[ancient as int].room == settled[ancient as int].room);
    export(&nodes, &grid, length, ancient, boss, second, standard)
}

} // verus!
