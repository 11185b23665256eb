use vstd::prelude::*;
use crate::state::{Card, CrystalSphere, CardReward, Game, Phase, Rewards, Rngs};
use crate::content::{Content, CardRarity, PotionRarity, Id, ids_below};
use crate::game::cards_valid;
use crate::rewards::reward_rollable;
use crate::relics::relic_pulled;
use crate::deck::copies;

verus! {

/// Whether cell (`x`, `y`) lies in a corner of the grid, cleared from the start.
pub open spec fn corner(x: int, y: int) -> bool {
    x + y <= 2 || 10 - x + y <= 2 || x + 10 - y <= 2 || 20 - x - y <= 2
}

/// The items buried in turn: kind, width, height.
pub open spec fn crystal_shapes() -> Seq<(u8, u8, u8)> {
    seq![
        (0u8, 4u8, 4u8),
        (1u8, 1u8, 3u8),
        (1u8, 1u8, 3u8),
        (2u8, 2u8, 2u8),
        (3u8, 2u8, 2u8),
        (4u8, 2u8, 2u8),
        (5u8, 2u8, 2u8),
        (6u8, 2u8, 2u8),
        (7u8, 1u8, 1u8),
        (7u8, 1u8, 1u8),
        (7u8, 1u8, 1u8),
        (7u8, 1u8, 1u8),
        (7u8, 1u8, 1u8),
        (8u8, 2u8, 1u8),
        (8u8, 2u8, 1u8),
    ]
}

/// Whether cell (`x`, `y`) lies under `item`.
pub open spec fn covers(item: (u8, u8, u8, u8, u8), x: int, y: int) -> bool {
    item.0 <= x < item.0 + item.2 && item.1 <= y < item.1 + item.3
}

/// The grid is 11 by 11, every item is one of the buried shapes in turn and lies
/// inside the grid, and each cell names exactly the item that covers it.
pub open spec fn crystal_layout(c: CrystalSphere) -> bool {
    &&& c.cells@.len() == 121
    &&& c.clear@.len() == 121
    &&& c.items@.len() <= 15
    &&& forall|i: int| 0 <= i < c.items@.len() ==> {
        let item = #[trigger] c.items@[i];
        &&& (item.4, item.2, item.3) == crystal_shapes()[i]
        &&& item.0 + item.2 <= 11
        &&& item.1 + item.3 <= 11
    }
    &&& forall|x: int, y: int| 0 <= x < 11 && 0 <= y < 11 ==> (#[trigger] c.cells@[x * 11 + y] matches Some(i)
        ==> 0 <= i < c.items@.len() && covers(c.items@[i as int], x, y))
    &&& forall|i: int, x: int, y: int| 0 <= i < c.items@.len() && 0 <= x < 11 && 0 <= y < 11 && #[trigger] covers(
        c.items@[i],
        x,
        y,
    ) ==> c.cells@[x * 11 + y] == Some(i as usize)
}

/// A fresh sphere: the corners cleared, nothing buried under them, nothing revealed.
pub open spec fn fresh_crystal(c: CrystalSphere, remaining: u8) -> bool {
    &&& crystal_layout(c)
    &&& forall|x: int, y: int| 0 <= x < 11 && 0 <= y < 11 ==> #[trigger] c.clear@[x * 11 + y] == corner(x, y)
    &&& forall|x: int, y: int| 0 <= x < 11 && 0 <= y < 11 && corner(x, y) ==> #[trigger] c.cells@[x * 11 + y] is None
    &&& c.revealed@.len() == 0
    &&& c.remaining == remaining
    &&& c.big
}

/// Whether the `width` by `height` block at (`x`, `y`) is all hidden and empty.
fn block_free(c: &CrystalSphere, x: usize, y: usize, width: usize, height: usize) -> (free: bool)
    requires
        c.cells@.len() == 121,
        c.clear@.len() == 121,
        x + width <= 11,
        y + height <= 11,
    ensures
        free == forall|a: int, b: int| x <= a < x + width && y <= b < y + height ==> !c.clear@[a * 11 + b]
            && #[trigger] c.cells@[a * 11 + b] is None,
{
    let mut a: usize = x;
    while a < x + width
        invariant
            x <= a <= x + width,
            x + width <= 11,
            y + height <= 11,
            c.cells@.len() == 121,
            c.clear@.len() == 121,
            forall|i: int, j: int| x <= i < a && y <= j < y + height ==> !c.clear@[i * 11 + j]
                && #[trigger] c.cells@[i * 11 + j] is None,
        decreases x + width - a,
    {
        let mut b: usize = y;
        while b < y + height
            invariant
                x <= a < x + width,
                y <= b <= y + height,
                x + width <= 11,
                y + height <= 11,
                c.cells@.len() == 121,
                c.clear@.len() == 121,
                forall|i: int, j: int| x <= i < a && y <= j < y + height ==> !c.clear@[i * 11 + j]
                    && #[trigger] c.cells@[i * 11 + j] is None,
                forall|j: int| y <= j < b ==> !c.clear@[a * 11 + j] && #[trigger] c.cells@[a * 11 + j] is None,
            decreases y + height - b,
        {
            if c.clear[a * 11 + b] || c.cells[a * 11 + b].is_some() {
                proof {
                    assert(!(!c.clear@[a * 11 + b] && c.cells@[a * 11 + b] is None));
                }
                return false;
            }
            b = b + 1;
        }
        a = a + 1;
    }
    true
}

impl Game {
    /// Lays out a new Crystal Sphere with `remaining` clearings: the corners start
    /// cleared, then each buried shape in turn goes to a random free place among the
    /// hidden cells (drawn with the event's stream), until one no longer fits.
    pub fn start_crystal(&mut self, remaining: u8)
        requires
            old(self).event_rng is Some,
        ensures
            final(self).crystal matches Some(c) && fresh_crystal(c, remaining) && crystal_wf(c),
            final(self).event_rng is Some,
            *final(self) == (Game { crystal: final(self).crystal, event_rng: final(self).event_rng, ..*old(self) }),
    {
        let mut crystal = CrystalSphere {
            cells: Vec::new(),
            clear: Vec::new(),
            items: Vec::new(),
            revealed: Vec::new(),
            remaining,
            big: true,
        };
        let mut x: usize = 0;
        while x < 11
            invariant
                x <= 11,
                crystal.cells@.len() == x * 11,
                crystal.clear@.len() == x * 11,
                crystal.items@.len() == 0,
                crystal.revealed@.len() == 0,
                crystal.remaining == remaining,
                crystal.big,
                forall|i: int, j: int| 0 <= i < x && 0 <= j < 11 ==> #[trigger] crystal.clear@[i * 11 + j] == corner(i, j),
                forall|k: int| 0 <= k < crystal.cells@.len() ==> #[trigger] crystal.cells@[k] is None,
            decreases 11 - x,
        {
            let mut y: usize = 0;
            while y < 11
                invariant
                    x < 11,
                    y <= 11,
                    crystal.cells@.len() == x * 11 + y,
                    crystal.clear@.len() == x * 11 + y,
                    crystal.items@.len() == 0,
                    crystal.revealed@.len() == 0,
                    crystal.remaining == remaining,
                    crystal.big,
                    forall|i: int, j: int| 0 <= i < x && 0 <= j < 11 ==> #[trigger] crystal.clear@[i * 11 + j] == corner(i, j),
                    forall|j: int| 0 <= j < y ==> #[trigger] crystal.clear@[x * 11 + j] == corner(x as int, j),
                    forall|k: int| 0 <= k < crystal.cells@.len() ==> #[trigger] crystal.cells@[k] is None,
                decreases 11 - y,
            {
                let cut = x + y <= 2 || 10 - x + y <= 2 || x + 10 - y <= 2 || 20 - x - y <= 2;
                crystal.clear.push(cut);
                crystal.cells.push(None);
                y = y + 1;
            }
            x = x + 1;
        }
        let shapes: Vec<(u8, u8, u8)> = vec![
            (0, 4, 4),
            (1, 1, 3),
            (1, 1, 3),
            (2, 2, 2),
            (3, 2, 2),
            (4, 2, 2),
            (5, 2, 2),
            (6, 2, 2),
            (7, 1, 1),
            (7, 1, 1),
            (7, 1, 1),
            (7, 1, 1),
            (7, 1, 1),
            (8, 2, 1),
            (8, 2, 1),
        ];
        assert(shapes@ == crystal_shapes());
        let mut rng = match self.event_rng {
            Some(r) => r,
            None => {
                return;
            },
        };
        let mut s: usize = 0;
        while s < shapes.len()
            invariant_except_break
                s == crystal.items@.len(),
            invariant
                s <= 15,
                shapes@ == crystal_shapes(),
                crystal.items@.len() <= s,
                crystal_layout(crystal),
                forall|x: int, y: int| 0 <= x < 11 && 0 <= y < 11 ==> #[trigger] crystal.clear@[x * 11 + y] == corner(x, y),
                forall|x: int, y: int| 0 <= x < 11 && 0 <= y < 11 && corner(x, y) ==> #[trigger] crystal.cells@[x * 11 + y] is None,
                crystal.revealed@.len() == 0,
                crystal.remaining == remaining,
                crystal.big,
            decreases 15 - s,
        {
            let (kind, width, height) = shapes[s];
            let w = width as usize;
            let h = height as usize;
            let mut positions: Vec<(u8, u8)> = Vec::new();
            let mut px: usize = 0;
            while px <= 11 - w
                invariant
                    1 <= w <= 4,
                    1 <= h <= 4,
                    px <= 12 - w,
                    crystal.cells@.len() == 121,
                    crystal.clear@.len() == 121,
                    forall|k: int| 0 <= k < positions@.len() ==> {
                        let p = #[trigger] positions@[k];
                        &&& p.0 + w <= 11
                        &&& p.1 + h <= 11
                        &&& forall|a: int, b: int| p.0 <= a < p.0 + w && p.1 <= b < p.1 + h ==> !crystal.clear@[a * 11 + b]
                            && #[trigger] crystal.cells@[a * 11 + b] is None
                    },
                decreases 12 - w - px,
            {
                let mut py: usize = 0;
                while py <= 11 - h
                    invariant
                        1 <= w <= 4,
                        1 <= h <= 4,
                        px + w <= 11,
                        py <= 12 - h,
                        crystal.cells@.len() == 121,
                        crystal.clear@.len() == 121,
                        forall|k: int| 0 <= k < positions@.len() ==> {
                            let p = #[trigger] positions@[k];
                            &&& p.0 + w <= 11
                            &&& p.1 + h <= 11
                            &&& forall|a: int, b: int| p.0 <= a < p.0 + w && p.1 <= b < p.1 + h ==> !crystal.clear@[a * 11 + b]
                                && #[trigger] crystal.cells@[a * 11 + b] is None
                        },
                    decreases 12 - h - py,
                {
                    if block_free(&crystal, px, py, w, h) {
                        positions.push((px as u8, py as u8));
                    }
                    py = py + 1;
                }
                px = px + 1;
            }
            if positions.len() == 0 {
                break;
            }
            let (x0, y0) = positions[rng.index(positions.len())];
            let item = crystal.items.len();
            let ghost before = crystal;
            crystal.items.push((x0, y0, width, height, kind));
            let mut a: usize = x0 as usize;
            while a < x0 as usize + w
                invariant
                    x0 as usize <= a <= x0 as usize + w,
                    x0 as usize + w <= 11,
                    y0 as usize + h <= 11,
                    item == before.items@.len(),
                    crystal.items@ == before.items@.push((x0, y0, width, height, kind)),
                    crystal.clear == before.clear,
                    crystal.revealed == before.revealed,
                    crystal.remaining == before.remaining,
                    crystal.big == before.big,
                    crystal.cells@.len() == 121,
                    forall|x: int, y: int| 0 <= x < 11 && 0 <= y < 11 ==> #[trigger] crystal.cells@[x * 11 + y] == if x0 <= x < a
                        && y0 <= y < y0 + h {
                        Some(item)
                    } else {
                        before.cells@[x * 11 + y]
                    },
                decreases x0 as usize + w - a,
            {
                let mut b: usize = y0 as usize;
                while b < y0 as usize + h
                    invariant
                        x0 as usize <= a < x0 as usize + w,
                        y0 as usize <= b <= y0 as usize + h,
                        x0 as usize + w <= 11,
                        y0 as usize + h <= 11,
                        crystal.cells@.len() == 121,
                        crystal.items@ == before.items@.push((x0, y0, width, height, kind)),
                        crystal.clear == before.clear,
                        crystal.revealed == before.revealed,
                        crystal.remaining == before.remaining,
                        crystal.big == before.big,
                        forall|x: int, y: int| 0 <= x < 11 && 0 <= y < 11 ==> #[trigger] crystal.cells@[x * 11 + y] == if (x0 <= x < a
                            && y0 <= y < y0 + h) || (x == a && y0 <= y < b) {
                            Some(item)
                        } else {
                            before.cells@[x * 11 + y]
                        },
                    decreases y0 as usize + h - b,
                {
                    crystal.cells.set(a * 11 + b, Some(item));
                    b = b + 1;
                }
                a = a + 1;
            }
            s = s + 1;
        }
        self.event_rng = Some(rng);
        proof {
            lemma_fresh_wf(crystal, remaining);
        }
        self.crystal = Some(crystal);
    }
}


/// Whether every cell under item `i` is cleared.
pub open spec fn uncovered(c: CrystalSphere, i: int) -> bool {
    forall|x: int, y: int| 0 <= x < 11 && 0 <= y < 11 && #[trigger] covers(c.items@[i], x, y) ==> c.clear@[x * 11 + y]
}

/// A sphere in play: laid out, its revealed items exactly those fully uncovered, each
/// once.
pub open spec fn crystal_wf(c: CrystalSphere) -> bool {
    &&& crystal_layout(c)
    &&& c.revealed@.no_duplicates()
    &&& forall|i: int| 0 <= i < c.items@.len() ==> (c.revealed@.contains(i as usize) <==> #[trigger] uncovered(c, i))
    &&& forall|k: int| 0 <= k < c.revealed@.len() ==> #[trigger] c.revealed@[k] < c.items@.len()
}

/// The cells a clearing at (`x`, `y`) takes: the cell and, for a big clearing, the eight
/// around it, as far as they lie on the grid.
pub open spec fn in_reach(big: bool, x: int, y: int, a: int, b: int) -> bool {
    &&& 0 <= a < 11
    &&& 0 <= b < 11
    &&& if big { x - 1 <= a <= x + 1 && y - 1 <= b <= y + 1 } else { a == x && b == y }
}

/// A cell coordinate read as a signed byte.
pub open spec fn signed(v: u8) -> int {
    if v < 128 {
        v as int
    } else {
        v - 256
    }
}

/// A fresh sphere is in play.
proof fn lemma_fresh_wf(c: CrystalSphere, remaining: u8)
    requires
        fresh_crystal(c, remaining),
    ensures
        crystal_wf(c),
{
    assert forall|i: int| 0 <= i < c.items@.len() implies !#[trigger] uncovered(c, i) by {
        let item = c.items@[i];
        assert(covers(item, item.0 as int, item.1 as int));
        assert(c.cells@[item.0 * 11 + item.1] == Some(i as usize));
    }
}

/// A list of distinct values below `n` holds at most `n` of them.
pub proof fn lemma_distinct_below(s: Seq<usize>, n: nat)
    requires
        s.no_duplicates(),
        forall|k: int| 0 <= k < s.len() ==> #[trigger] s[k] < n,
    ensures
        s.len() <= n,
    decreases n,
{
    if n == 0 {
        if s.len() > 0 {
            assert(s[0] < n);
        }
    } else {
        let top = (n - 1) as usize;
        if s.contains(top) {
            let j = choose|j: int| 0 <= j < s.len() && s[j] == top;
            let t = s.remove(j);
            assert forall|k: int| 0 <= k < t.len() implies #[trigger] t[k] < n - 1 by {
                if k < j {
                    assert(t[k] == s[k]);
                } else {
                    assert(t[k] == s[k + 1]);
                }
            }
            assert(t.no_duplicates()) by {
                assert forall|p: int, q: int| 0 <= p < t.len() && 0 <= q < t.len() && p != q implies t[p] != t[q] by {
                    let pp = if p < j { p } else { p + 1 };
                    let qq = if q < j { q } else { q + 1 };
                    assert(t[p] == s[pp] && t[q] == s[qq]);
                }
            }
            lemma_distinct_below(t, (n - 1) as nat);
        } else {
            assert forall|k: int| 0 <= k < s.len() implies #[trigger] s[k] < n - 1 by {
                assert(s.contains(s[k]));
            }
            lemma_distinct_below(s, (n - 1) as nat);
        }
    }
}

/// How many of `revealed`, from entry `from` on, are curses (kind 6).
pub open spec fn curses_among(items: Seq<(u8, u8, u8, u8, u8)>, revealed: Seq<usize>, from: int) -> nat
    decreases revealed.len(),
{
    if revealed.len() <= from || revealed.len() == 0 {
        0
    } else {
        curses_among(items, revealed.drop_last(), from) + if items[revealed.last() as int].4 == 6 { 1nat } else { 0 }
    }
}

/// Clears cell (`a`, `b`); when that uncovers its item fully, the item is revealed.
/// Returns whether a curse (kind 6) was revealed.
fn clear_cell(c: &mut CrystalSphere, a: usize, b: usize) -> (curse: bool)
    requires
        crystal_wf(*old(c)),
        a < 11,
        b < 11,
    ensures
        crystal_wf(*final(c)),
        final(c).clear@ == old(c).clear@.update(a * 11 + b, true),
        final(c).items == old(c).items,
        final(c).cells == old(c).cells,
        final(c).big == old(c).big,
        final(c).remaining == old(c).remaining,
        final(c).revealed@ == old(c).revealed@ || (final(c).revealed@.len() == old(c).revealed@.len() + 1
            && final(c).revealed@.drop_last() == old(c).revealed@),
        curse == (final(c).revealed@.len() == old(c).revealed@.len() + 1 && final(c).items@[final(c).revealed@.last() as int].4 == 6),
{
    let cell = a * 11 + b;
    if c.clear[cell] {
        proof {
            assert(c.clear@ =~= old(c).clear@.update(cell as int, true));
        }
        return false;
    }
    c.clear.set(cell, true);
    let item = match c.cells[cell] {
        Some(item) => item,
        None => {
            proof {
                assert forall|i: int| 0 <= i < c.items@.len() implies (c.revealed@.contains(i as usize) <==> #[trigger] uncovered(*c, i)) by {
                    assert(uncovered(*c, i) == uncovered(*old(c), i)) by {
                        assert forall|p: int, q: int| 0 <= p < 11 && 0 <= q < 11 && #[trigger] covers(c.items@[i], p, q)
                            implies (c.clear@[p * 11 + q] == old(c).clear@[p * 11 + q]) by {
                            assert(old(c).cells@[p * 11 + q] == Some(i as usize));
                        }
                    }
                }
            }
            return false;
        },
    };
    let (ix, iy, width, height, kind) = c.items[item];
    let seen = crate::game::contains_usize(&c.revealed, item);
    let mut all_clear = true;
    let mut p: usize = ix as usize;
    while p < ix as usize + width as usize
        invariant
            ix as usize <= p <= ix as usize + width as usize,
            ix as usize + width as usize <= 11,
            iy as usize + height as usize <= 11,
            c.clear@.len() == 121,
            all_clear == forall|i: int, j: int| ix <= i < p && iy <= j < iy + height ==> #[trigger] c.clear@[i * 11 + j],
        decreases ix as usize + width as usize - p,
    {
        let mut q: usize = iy as usize;
        while q < iy as usize + height as usize
            invariant
                ix as usize <= p < ix as usize + width as usize,
                iy as usize <= q <= iy as usize + height as usize,
                ix as usize + width as usize <= 11,
                iy as usize + height as usize <= 11,
                c.clear@.len() == 121,
                all_clear == ((forall|i: int, j: int| ix <= i < p && iy <= j < iy + height ==> #[trigger] c.clear@[i * 11 + j])
                    && forall|j: int| iy <= j < q ==> #[trigger] c.clear@[p * 11 + j]),
            decreases iy as usize + height as usize - q,
        {
            if !c.clear[p * 11 + q] {
                all_clear = false;
            }
            q = q + 1;
        }
        p = p + 1;
    }
    proof {
        assert(c.items@[item as int] == (ix, iy, width, height, kind));
        if all_clear {
            assert forall|p: int, q: int| 0 <= p < 11 && 0 <= q < 11 && #[trigger] covers(c.items@[item as int], p, q)
                implies c.clear@[p * 11 + q] by {}
        } else {
            let (p, q) = choose|p: int, q: int| ix <= p < ix + width && iy <= q < iy + height && !#[trigger] c.clear@[p * 11 + q];
            assert(covers(c.items@[item as int], p, q));
        }
        assert(all_clear == uncovered(*c, item as int));
    }
    let ghost mid = *c;
    let reveal = !seen && all_clear;
    if reveal {
        c.revealed.push(item);
    }
    proof {
        assert(c.revealed@ == mid.revealed@ || c.revealed@ == mid.revealed@.push(item));
        assert forall|i: int| 0 <= i < c.items@.len() implies (c.revealed@.contains(i as usize) <==> #[trigger] uncovered(*c, i)) by {
            assert(uncovered(*c, i) == uncovered(mid, i));
            if i != item {
                assert(uncovered(mid, i) == uncovered(*old(c), i)) by {
                    assert forall|p: int, q: int| 0 <= p < 11 && 0 <= q < 11 && #[trigger] covers(c.items@[i], p, q)
                        implies (mid.clear@[p * 11 + q] == old(c).clear@[p * 11 + q]) by {
                        assert(old(c).cells@[p * 11 + q] == Some(i as usize));
                    }
                }
                if reveal {
                    assert(c.revealed@.contains(i as usize) ==> old(c).revealed@.contains(i as usize)) by {
                        if c.revealed@.contains(i as usize) {
                            let m = choose|m: int| 0 <= m < c.revealed@.len() && c.revealed@[m] == i as usize;
                            assert(m < old(c).revealed@.len());
                            assert(old(c).revealed@[m] == i as usize);
                        }
                    }
                    assert(old(c).revealed@.contains(i as usize) ==> c.revealed@.contains(i as usize)) by {
                        if old(c).revealed@.contains(i as usize) {
                            let m = choose|m: int| 0 <= m < old(c).revealed@.len() && old(c).revealed@[m] == i as usize;
                            assert(c.revealed@[m] == i as usize);
                        }
                    }
                }
            } else if seen {
                assert(uncovered(*old(c), i));
                assert(uncovered(mid, i)) by {
                    assert forall|p: int, q: int| 0 <= p < 11 && 0 <= q < 11 && #[trigger] covers(c.items@[i], p, q)
                        implies mid.clear@[p * 11 + q] by {
                        assert(old(c).clear@[p * 11 + q]);
                    }
                }
            } else if reveal {
                assert(c.revealed@[c.revealed@.len() - 1] == item);
            }
        }
        if reveal {
            assert forall|p: int, q: int| 0 <= p < c.revealed@.len() && 0 <= q < c.revealed@.len() && p != q
                implies c.revealed@[p] != c.revealed@[q] by {
                if p == old(c).revealed@.len() {
                    assert(old(c).revealed@.contains(old(c).revealed@[q]));
                } else if q == old(c).revealed@.len() {
                    assert(old(c).revealed@.contains(old(c).revealed@[p]));
                }
            }
            assert(c.revealed@.drop_last() =~= old(c).revealed@);
        }
    }
    (reveal && kind == 6)
}

/// Clears the cells a clearing at (`x`, `y`) takes and reveals the items it uncovers
/// fully; returns how many of them are curses (kind 6).
pub fn clear_cells(c: &mut CrystalSphere, x: u8, y: u8) -> (curses: usize)
    requires
        crystal_wf(*old(c)),
        old(c).remaining > 0,
        old(c).big ==> x != 127 && y != 127,
    ensures
        crystal_wf(*final(c)),
        final(c).remaining == old(c).remaining - 1,
        final(c).items == old(c).items,
        final(c).cells == old(c).cells,
        final(c).big == old(c).big,
        forall|a: int, b: int| 0 <= a < 11 && 0 <= b < 11 ==> #[trigger] final(c).clear@[a * 11 + b] == (old(c).clear@[a
            * 11 + b] || in_reach(old(c).big, signed(x), signed(y), a, b)),
        final(c).revealed@.subrange(0, old(c).revealed@.len() as int) == old(c).revealed@,
        curses == curses_among(final(c).items@, final(c).revealed@, old(c).revealed@.len() as int),
{
    let offsets: Vec<(i16, i16)> = if c.big {
        vec![(-1, 0), (1, 0), (0, -1), (0, 1), (-1, -1), (-1, 1), (1, -1), (1, 1), (0, 0)]
    } else {
        vec![(0, 0)]
    };
    let ghost start = *c;
    let sx: i16 = if x < 128 {
        x as i16
    } else {
        x as i16 - 256
    };
    let sy: i16 = if y < 128 {
        y as i16
    } else {
        y as i16 - 256
    };
    let mut curses: usize = 0;
    let mut k: usize = 0;
    while k < offsets.len()
        invariant
            k <= offsets@.len(),
            offsets@.len() <= 9,
            start.big ==> offsets@ == seq![(-1i16, 0i16), (1i16, 0i16), (0i16, -1i16), (0i16, 1i16), (-1i16, -1i16), (-1i16, 1i16), (1i16, -1i16), (1i16, 1i16), (0i16, 0i16)],
            !start.big ==> offsets@ == seq![(0i16, 0i16)],
            crystal_wf(*c),
            c.items == start.items,
            c.cells == start.cells,
            c.big == start.big,
            c.remaining == start.remaining,
            curses <= k,
            curses == curses_among(c.items@, c.revealed@, start.revealed@.len() as int),
            c.revealed@.len() >= start.revealed@.len(),
            c.revealed@.subrange(0, start.revealed@.len() as int) == start.revealed@,
            forall|a: int, b: int| 0 <= a < 11 && 0 <= b < 11 ==> #[trigger] c.clear@[a * 11 + b] == (start.clear@[a * 11 + b]
                || exists|j: int| 0 <= j < k && a == sx + offsets@[j].0 && b == sy + offsets@[j].1),
            sx == signed(x),
            sy == signed(y),
        decreases offsets@.len() - k,
    {
        let (dx, dy) = offsets[k];
        let nx: i16 = sx + dx;
        let ny: i16 = sy + dy;
        if 0 <= nx && nx < 11 && 0 <= ny && ny < 11 {
            let ghost before = *c;
            let curse = clear_cell(c, nx as usize, ny as usize);
            if curse {
                curses = curses + 1;
            }
            proof {
                assert(c.revealed@.subrange(0, start.revealed@.len() as int) =~= start.revealed@) by {
                    if c.revealed@ != before.revealed@ {
                        assert(c.revealed@.drop_last() == before.revealed@);
                        assert(c.revealed@.subrange(0, before.revealed@.len() as int) =~= before.revealed@);
                    }
                }
                if c.revealed@ != before.revealed@ {
                    assert(c.revealed@.drop_last() == before.revealed@);
                }
            }
        }
        k = k + 1;
    }
    c.remaining = c.remaining - 1;
    proof {
        assert forall|a: int, b: int| 0 <= a < 11 && 0 <= b < 11 implies #[trigger] c.clear@[a * 11 + b] == (start.clear@[a
            * 11 + b] || in_reach(start.big, signed(x), signed(y), a, b)) by {
            if in_reach(start.big, signed(x), signed(y), a, b) {
                if start.big {
                    let j: int = if a == sx - 1 && b == sy { 0 } else if a == sx + 1 && b == sy { 1 } else if a == sx && b == sy - 1 {
                        2
                    } else if a == sx && b == sy + 1 { 3 } else if a == sx - 1 && b == sy - 1 { 4 } else if a == sx - 1 && b == sy + 1 {
                        5
                    } else if a == sx + 1 && b == sy - 1 { 6 } else if a == sx + 1 && b == sy + 1 { 7 } else { 8 };
                    assert(a == sx + offsets@[j].0 && b == sy + offsets@[j].1);
                } else {
                    assert(a == sx + offsets@[0].0 && b == sy + offsets@[0].1);
                }
            }
        }
        assert(crystal_wf(*c)) by {
            assert forall|i: int| 0 <= i < c.items@.len() implies (c.revealed@.contains(i as usize) <==> #[trigger] uncovered(*c, i)) by {
                assert(uncovered(*c, i) == uncovered(CrystalSphere { remaining: start.remaining, ..*c }, i));
            }
        }
    }
    curses
}


/// The gold of the revealed purses: 10 for a small one (kind 7), 30 for a big one
/// (kind 8), in the order revealed.
pub open spec fn gold_parts(items: Seq<(u8, u8, u8, u8, u8)>, revealed: Seq<usize>) -> Seq<i32>
    decreases revealed.len(),
{
    if revealed.len() == 0 {
        seq![]
    } else {
        let before = gold_parts(items, revealed.drop_last());
        let kind = items[revealed.last() as int].4;
        if kind == 7 {
            before.push(10i32)
        } else if kind == 8 {
            before.push(30i32)
        } else {
            before
        }
    }
}

/// The sum of `parts`.
pub open spec fn total(parts: Seq<i32>) -> int
    decreases parts.len(),
{
    if parts.len() == 0 {
        0
    } else {
        total(parts.drop_last()) + parts.last()
    }
}

/// How many revealed items have a kind in `lo..=hi`.
pub open spec fn kinds_revealed(items: Seq<(u8, u8, u8, u8, u8)>, revealed: Seq<usize>, lo: u8, hi: u8) -> nat
    decreases revealed.len(),
{
    if revealed.len() == 0 {
        0
    } else {
        let kind = items[revealed.last() as int].4;
        kinds_revealed(items, revealed.drop_last(), lo, hi) + if lo <= kind <= hi { 1nat } else { 0 }
    }
}

/// The rarity of the potion that a potion item offers: rare for kind 2, else common.
pub open spec fn item_potion_rarity(rare: bool) -> PotionRarity {
    if rare {
        PotionRarity::Rare
    } else {
        PotionRarity::Common
    }
}

/// Whether the potions of `g`'s character or act hold one of rarity `rarity`.
pub open spec fn pool_offers(g: Game, content: &Content, rarity: PotionRarity) -> bool {
    let own = content.characters@[g.run.character as int].potion_pool@;
    let shared = content.acts@[g.act as int].potions@;
    exists|x: Id| (own.contains(x) || shared.contains(x)) && #[trigger] content.potions@[x as int].rarity == rarity
}

/// A pool made of the character's and the act's potions holds one of a rarity exactly
/// when they do.
proof fn lemma_pool_offers(g: Game, content: &Content, pool: Seq<Id>, rarity: PotionRarity)
    requires
        ({
            let own = content.characters@[g.run.character as int].potion_pool@;
            let shared = content.acts@[g.act as int].potions@;
            &&& pool.len() == own.len() + shared.len()
            &&& pool.take(own.len() as int).to_multiset() == own.to_multiset()
            &&& pool.skip(own.len() as int).to_multiset() == shared.to_multiset()
        }),
    ensures
        (exists|j: int| 0 <= j < pool.len() && #[trigger] content.potions@[pool[j] as int].rarity == rarity)
            <==> pool_offers(g, content, rarity),
{
    broadcast use vstd::seq_lib::to_multiset_contains;

    let own = content.characters@[g.run.character as int].potion_pool@;
    let shared = content.acts@[g.act as int].potions@;
    let n = own.len() as int;
    let front = pool.take(n);
    let back = pool.skip(n);
    if exists|j: int| 0 <= j < pool.len() && #[trigger] content.potions@[pool[j] as int].rarity == rarity {
        let j = choose|j: int| 0 <= j < pool.len() && #[trigger] content.potions@[pool[j] as int].rarity == rarity;
        let x = pool[j];
        if j < n {
            assert(front[j] == x);
            assert(front.contains(x));
            assert(front.to_multiset().count(x) > 0);
            assert(own.to_multiset().count(x) > 0);
        } else {
            assert(back[j - n] == x);
            assert(back.contains(x));
            assert(back.to_multiset().count(x) > 0);
            assert(shared.to_multiset().count(x) > 0);
        }
        assert(own.contains(x) || shared.contains(x));
    }
    if pool_offers(g, content, rarity) {
        let x = choose|x: Id| (own.contains(x) || shared.contains(x)) && #[trigger] content.potions@[x as int].rarity
            == rarity;
        if own.contains(x) {
            assert(own.to_multiset().count(x) > 0);
            assert(front.to_multiset().count(x) > 0);
            assert(front.contains(x));
            let j = choose|j: int| 0 <= j < front.len() && front[j] == x;
            assert(pool[j] == x);
        } else {
            assert(shared.to_multiset().count(x) > 0);
            assert(back.to_multiset().count(x) > 0);
            assert(back.contains(x));
            let j = choose|j: int| 0 <= j < back.len() && back[j] == x;
            assert(pool[j + n] == x);
        }
    }
}

/// The potions of `pool` of the rarity a potion item offers (see `item_potion_rarity`),
/// in order.
fn potion_options(content: &Content, pool: &Vec<Id>, rare: bool) -> (options: Vec<Id>)
    requires
        ids_below(pool@, content.potions@.len() as int),
    ensures
        ids_below(options@, content.potions@.len() as int),
        options@.len() > 0 <==> exists|j: int| 0 <= j < pool@.len() && #[trigger] content.potions@[pool@[j] as int].rarity
            == item_potion_rarity(rare),
{
    let mut options: Vec<Id> = Vec::new();
    let mut i: usize = 0;
    while i < pool.len()
        invariant
            i <= pool@.len(),
            ids_below(pool@, content.potions@.len() as int),
            ids_below(options@, content.potions@.len() as int),
            options@.len() > 0 <==> exists|j: int| 0 <= j < i && #[trigger] content.potions@[pool@[j] as int].rarity
                == item_potion_rarity(rare),
        decreases pool@.len() - i,
    {
        let r = content.potions[pool[i] as usize].rarity;
        if (rare && r == PotionRarity::Rare) || (!rare && r == PotionRarity::Common) {
            let ghost before = options@;
            options.push(pool[i]);
            proof {
                assert forall|j: int| 0 <= j < options@.len() implies (#[trigger] options@[j]) < content.potions@.len() by {
                    if j < before.len() {
                        assert(options@[j] == before[j]);
                    }
                }
            }
        }
        i = i + 1;
    }
    options
}

/// How many potions the revealed potion items of a Crystal Sphere offer: one per item
/// whose rarity the character's and the act's potions hold.
pub open spec fn potions_due(g: Game, content: &Content, items: Seq<(u8, u8, u8, u8, u8)>, revealed: Seq<usize>) -> int {
    (if pool_offers(g, content, PotionRarity::Common) { kinds_revealed(items, revealed, 1, 1) as int } else { 0 })
        + (if pool_offers(g, content, PotionRarity::Rare) { kinds_revealed(items, revealed, 2, 2) as int } else { 0 })
}

/// The relics that `pulls` gave, in order.
pub open spec fn pulled_ids(pulls: Seq<Option<Id>>) -> Seq<Id>
    decreases pulls.len(),
{
    if pulls.len() == 0 {
        seq![]
    } else {
        match pulls.last() {
            Some(x) => pulled_ids(pulls.drop_last()).push(x),
            None => pulled_ids(pulls.drop_last()),
        }
    }
}

/// `a` and `b` hold the same relic bags.
pub open spec fn same_bags(a: Game, b: Game) -> bool {
    a.relic_deques == b.relic_deques && a.shared_relic_deques == b.shared_relic_deques
}

/// Pull number `j` took `pulls[j]` from the character's bag `rarities[j]`, from the game
/// `pre[j]` to `post[j]`.
pub open spec fn pull_made(
    content: &Content,
    pre: Seq<Game>,
    post: Seq<Game>,
    rarities: Seq<usize>,
    pulls: Seq<Option<Id>>,
    j: int,
) -> bool {
    rarities[j] < 3 && relic_pulled(pre[j], post[j], content, false, rarities[j], false, false, pulls[j])
}

/// The relic bags went from those of `first` to those of `last` through the pulls
/// `pulls`, one after the other, each of the character's bag that `rarities` names (as
/// `Game::pull_relic` takes them); `pre` and `post` are the games around each pull.
#[verifier::opaque]
pub open spec fn relics_pulled_in_turn(
    first: Game,
    last: Game,
    content: &Content,
    pre: Seq<Game>,
    post: Seq<Game>,
    rarities: Seq<usize>,
    pulls: Seq<Option<Id>>,
) -> bool {
    &&& pre.len() == pulls.len() && post.len() == pulls.len() && rarities.len() == pulls.len()
    &&& forall|j: int| 0 <= j < pulls.len() ==> #[trigger] pull_made(content, pre, post, rarities, pulls, j)
    &&& forall|j: int| 0 < j < pulls.len() ==> same_bags(#[trigger] pre[j], post[j - 1])
    &&& pulls.len() > 0 ==> same_bags(pre[0], first)
    &&& same_bags(last, if pulls.len() == 0 { first } else { post.last() })
}

/// The relics `relics` are those that `count` pulls from the relic bags gave, one after
/// the other, from the bags of `first` to those of `last`.
pub open spec fn relics_offered(first: Game, last: Game, content: &Content, count: nat, relics: Seq<Id>) -> bool {
    exists|pre: Seq<Game>, post: Seq<Game>, rarities: Seq<usize>, pulls: Seq<Option<Id>>|
        #[trigger] relics_pulled_in_turn(first, last, content, pre, post, rarities, pulls) && pulls.len() == count
            && relics == pulled_ids(pulls)
}

/// Nothing that keeps the bags changes the pulls.
pub proof fn lemma_pulls_keep_bags(
    first: Game,
    last: Game,
    next: Game,
    content: &Content,
    pre: Seq<Game>,
    post: Seq<Game>,
    rarities: Seq<usize>,
    pulls: Seq<Option<Id>>,
)
    requires
        relics_pulled_in_turn(first, last, content, pre, post, rarities, pulls),
        same_bags(last, next),
    ensures
        relics_pulled_in_turn(first, next, content, pre, post, rarities, pulls),
{
    reveal(relics_pulled_in_turn);
    assert(pre.len() == pulls.len());
    assert(same_bags(next, if pulls.len() == 0 { first } else { post.last() }));
}

/// One more pull, from the bags that the pulls so far left.
pub proof fn lemma_pull_appended(
    first: Game,
    last: Game,
    after: Game,
    content: &Content,
    pre: Seq<Game>,
    post: Seq<Game>,
    rarities: Seq<usize>,
    pulls: Seq<Option<Id>>,
    rarity: usize,
    pull: Option<Id>,
)
    requires
        relics_pulled_in_turn(first, last, content, pre, post, rarities, pulls),
        rarity < 3,
        relic_pulled(last, after, content, false, rarity, false, false, pull),
    ensures
        relics_pulled_in_turn(
            first,
            after,
            content,
            pre.push(last),
            post.push(after),
            rarities.push(rarity),
            pulls.push(pull),
        ),
        pulled_ids(pulls.push(pull)) == match pull {
            Some(x) => pulled_ids(pulls).push(x),
            None => pulled_ids(pulls),
        },
{
    reveal(relics_pulled_in_turn);
    assert(pulls.push(pull).drop_last() =~= pulls);
    let n = pulls.len() as int;
    let pre2 = pre.push(last);
    let post2 = post.push(after);
    let rarities2 = rarities.push(rarity);
    let pulls2 = pulls.push(pull);
    assert forall|j: int| 0 <= j < pulls2.len() implies #[trigger] pull_made(content, pre2, post2, rarities2, pulls2, j) by {
        if j < n {
            assert(pull_made(content, pre, post, rarities, pulls, j));
            assert(pre2[j] == pre[j]);
            assert(post2[j] == post[j]);
            assert(rarities2[j] == rarities[j]);
            assert(pulls2[j] == pulls[j]);
        }
    }
    assert forall|j: int| 0 < j < pulls2.len() implies same_bags(#[trigger] pre2[j], post2[j - 1]) by {
        if j < n {
            assert(pre2[j] == pre[j]);
            assert(post2[j - 1] == post[j - 1]);
        } else if n > 0 {
            assert(post2[j - 1] == post.last());
        }
    }
}

/// A relic pulled is gone from the bags, and nothing comes back: what the bags of the
/// character hold at the end, they held before every pull.
proof fn lemma_bag_kept(
    first: Game,
    last: Game,
    content: &Content,
    pre: Seq<Game>,
    post: Seq<Game>,
    rarities: Seq<usize>,
    pulls: Seq<Option<Id>>,
    b: int,
    x: Id,
    j: int,
)
    requires
        relics_pulled_in_turn(first, last, content, pre, post, rarities, pulls),
        0 <= b < 4,
        last.relic_deques@[b]@.contains(x),
        0 <= j < pulls.len(),
    ensures
        pre[j].relic_deques@[b]@.contains(x),
    decreases pulls.len() - j,
{
    reveal(relics_pulled_in_turn);
    broadcast use Seq::lemma_filter_contains_rev;

    if j + 1 < pulls.len() {
        lemma_bag_kept(first, last, content, pre, post, rarities, pulls, b, x, j + 1);
        assert(same_bags(pre[j + 1], post[j]));
    }
    assert(post[j].relic_deques@[b]@.contains(x));
    assert(pull_made(content, pre, post, rarities, pulls, j));
    if let Some(y) = pulls[j] {
        let kept = post[j].relic_deques@[b]@;
        assert(kept == crate::relics::without_relic(pre[j].relic_deques@[b]@, y));
        assert(kept.contains(x));
    }
}

/// While the rare bag of the character still holds a relic at the end, every pull gave
/// a relic: one relic for each pull.
pub proof fn lemma_pulls_all_given(
    first: Game,
    last: Game,
    content: &Content,
    pre: Seq<Game>,
    post: Seq<Game>,
    rarities: Seq<usize>,
    pulls: Seq<Option<Id>>,
)
    requires
        relics_pulled_in_turn(first, last, content, pre, post, rarities, pulls),
        last.relic_deques@[2]@.len() > 0,
    ensures
        pulled_ids(pulls).len() == pulls.len(),
    decreases pulls.len(),
{
    if pulls.len() > 0 {
        let x = last.relic_deques@[2]@[0];
        let j = pulls.len() - 1;
        lemma_bag_kept(first, last, content, pre, post, rarities, pulls, 2, x, j);
        reveal(relics_pulled_in_turn);
        assert(pull_made(content, pre, post, rarities, pulls, j));
        let r = rarities[j];
        let chain = crate::relics::fallback(r);
        let at = chain.len() - 1;
        assert(chain[at] == 2);
        if pulls[j] is None {
            assert(crate::relics::first_allowed(pre[j].bags(false)@[chain[at] as int]@, content, false, false, None));
            let k = choose|k: int| 0 <= k < pre[j].relic_deques@[2]@.len() && pre[j].relic_deques@[2]@[k] == x;
            assert(crate::relics::allowed(content, false, pre[j].relic_deques@[2]@[k]));
        }
        let shorter = pulls.drop_last();
        assert(relics_pulled_in_turn(first, pre[j], content, pre.drop_last(), post.drop_last(), rarities.drop_last(), shorter))
            by {
            assert forall|i: int| 0 <= i < shorter.len() implies #[trigger] pull_made(
                content,
                pre.drop_last(),
                post.drop_last(),
                rarities.drop_last(),
                shorter,
                i,
            ) by {
                assert(pull_made(content, pre, post, rarities, pulls, i));
            }
            assert forall|i: int| 0 < i < shorter.len() implies same_bags(#[trigger] pre.drop_last()[i], post.drop_last()[i - 1]) by {
                assert(same_bags(pre[i], post[i - 1]));
            }
            if shorter.len() > 0 {
                assert(same_bags(pre[j], post[j - 1]));
            }
        }
        assert(pre[j].relic_deques@[2]@.len() > 0);
        lemma_pulls_all_given(first, pre[j], content, pre.drop_last(), post.drop_last(), rarities.drop_last(), shorter);
    }
}

impl Game {
    /// Ends the Crystal Sphere: each revealed item, in order, adds to the rewards (a
    /// relic, a potion, a card reward of its rarity, or gold); the rewards screen opens
    /// unless there is nothing to take.
    pub fn finish_crystal(&mut self, content: &Content)
        requires
            old(self).wf(content),
            old(self).run.act >= 1,
            old(self).event_rng is Some,
            old(self).crystal matches Some(c) && crystal_wf(c),
            !old(self).in_combat(),
        ensures
            final(self).wf(content),
            final(self).crystal is None,
            final(self).run == old(self).run,
            ({
                let c = old(self).crystal->0;
                let parts = gold_parts(c.items@, c.revealed@);
                &&& final(self).reward_gold_parts@ == parts
                &&& final(self).resume is None || final(self).resume == Some(Phase::OnMap)
                &&& final(self).resume is None ==> final(self).phase == match old(self).resume {
                    Some(p) => p,
                    None => Phase::OnMap,
                }
                &&& final(self).resume is Some ==> (final(self).phase matches Phase::Rewards(r) && {
                    &&& r.gold == total(parts)
                    &&& r.relics@.len() <= kinds_revealed(c.items@, c.revealed@, 0, 0)
                    &&& r.potions@.len() <= kinds_revealed(c.items@, c.revealed@, 1, 2)
                    &&& r.card_rewards@.len() + (if r.cards@.len() > 0 { 1int } else { 0 }) <= kinds_revealed(c.items@, c.revealed@, 3, 5)
                    &&& forall|k: int| 0 <= k < r.card_rewards@.len() ==> #[trigger] r.card_rewards@[k] is Crystal
                    &&& r.removals == 0
                    &&& !(r.gold == 0 && r.cards@.len() == 0 && r.relics@.len() == 0 && r.potions@.len() == 0)
                })
            }),
            ({
                let c = old(self).crystal->0;
                let count = kinds_revealed(c.items@, c.revealed@, 0, 0);
                let potions = potions_due(*old(self), content, c.items@, c.revealed@);
                &&& final(self).resume is None ==> potions == 0
                &&& final(self).resume is Some ==> (final(self).phase matches Phase::Rewards(r) && r.potions@.len() == potions)
                &&& final(self).resume is None ==> relics_offered(*old(self), *final(self), content, count, Seq::empty())
                &&& final(self).resume is Some ==> (final(self).phase matches Phase::Rewards(r) && relics_offered(
                    *old(self),
                    *final(self),
                    content,
                    count,
                    r.relics@,
                ))
            }),
    {
        let crystal = match self.crystal.take() {
            Some(c) => c,
            None => {
                return;
            },
        };
        proof {
            lemma_distinct_below(crystal.revealed@, crystal.items@.len());
        }
        let mut rewards = Rewards::empty();
        self.reward_gold_parts.clear();
        let mut k: usize = 0;
        let ghost mut pre: Seq<Game> = Seq::empty();
        let ghost mut post: Seq<Game> = Seq::empty();
        let ghost mut rarities: Seq<usize> = Seq::empty();
        let ghost mut pulls: Seq<Option<Id>> = Seq::empty();
        assert(relics_pulled_in_turn(*old(self), *self, content, pre, post, rarities, pulls)) by {
            reveal(relics_pulled_in_turn);
        }
        while k < crystal.revealed.len()
            invariant
                relics_pulled_in_turn(*old(self), *self, content, pre, post, rarities, pulls),
                pulls.len() == kinds_revealed(crystal.items@, crystal.revealed@.take(k as int), 0, 0),
                rewards.relics@ == pulled_ids(pulls),
                self.act == old(self).act,
                rewards.potions@.len() == potions_due(*old(self), content, crystal.items@, crystal.revealed@.take(k as int)),
                k <= crystal.revealed@.len() <= 15,
                crystal_wf(crystal),
                crystal == old(self).crystal->0,
                self.wf(content),
                self.run.act >= 1,
                self.event_rng is Some,
                self.crystal is None,
                self.run == old(self).run,
                self.phase == old(self).phase,
                self.resume == old(self).resume,
                !self.in_combat(),
                self.reward_gold_parts@ == gold_parts(crystal.items@, crystal.revealed@.take(k as int)),
                rewards.gold == total(gold_parts(crystal.items@, crystal.revealed@.take(k as int))),
                0 <= rewards.gold <= 30 * k,
                rewards.relics@.len() <= kinds_revealed(crystal.items@, crystal.revealed@.take(k as int), 0, 0),
                rewards.potions@.len() <= kinds_revealed(crystal.items@, crystal.revealed@.take(k as int), 1, 2),
                rewards.card_rewards@.len() + (if rewards.cards@.len() > 0 { 1int } else { 0 }) <= kinds_revealed(crystal.items@, crystal.revealed@.take(k as int), 3, 5),
                forall|j: int| 0 <= j < rewards.card_rewards@.len() ==> #[trigger] rewards.card_rewards@[j] is Crystal,
                rewards.removals == 0,
                cards_valid(rewards.cards@, content),
                ids_below(rewards.relics@, content.relics@.len() as int),
                ids_below(rewards.potions@, content.potions@.len() as int),
            decreases crystal.revealed@.len() - k,
        {
            let ghost g_start = *self;
            let item = crystal.revealed[k];
            let kind = crystal.items[item].4;
            proof {
                assert(crystal.revealed@.take(k + 1).drop_last() =~= crystal.revealed@.take(k as int));
                assert(crystal.revealed@.take(k + 1).last() == item);
            }
            if kind == 0 {
                let mut rng = match self.event_rng {
                    Some(r) => r,
                    None => {
                        return;
                    },
                };
                let roll = rng.unit();
                self.event_rng = Some(rng);
                let rarity = crate::relics::rarity_of_roll(roll);
                let ghost before = rewards.relics@;
                let ghost g_pre = *self;
                proof {
                    lemma_pulls_keep_bags(*old(self), g_start, g_pre, content, pre, post, rarities, pulls);
                }
                let pulled = self.pull_relic(content, false, rarity, false, false);
                proof {
                    lemma_pull_appended(*old(self), g_pre, *self, content, pre, post, rarities, pulls, rarity, pulled);
                    pre = pre.push(g_pre);
                    post = post.push(*self);
                    rarities = rarities.push(rarity);
                    pulls = pulls.push(pulled);
                }
                match pulled {
                    Some(id) => {
                        rewards.relics.push(id);
                        proof {
                            assert forall|j: int| 0 <= j < rewards.relics@.len() implies (#[trigger] rewards.relics@[j]) < content.relics@.len() by {
                                if j < before.len() {
                                    assert(rewards.relics@[j] == before[j]);
                                }
                            }
                        }
                    },
                    None => {},
                }
            } else if kind == 1 || kind == 2 {
                let rare = kind == 2;
                let pool = self.potion_pool(content);
                let options = potion_options(content, &pool, rare);
                proof {
                    lemma_pool_offers(*self, content, pool@, item_potion_rarity(rare));
                }
                if options.len() > 0 {
                    let mut rng = match self.event_rng {
                        Some(r) => r,
                        None => {
                            return;
                        },
                    };
                    let pick = rng.index(options.len());
                    self.event_rng = Some(rng);
                    let ghost before = rewards.potions@;
                    rewards.potions.push(options[pick]);
                    proof {
                        assert forall|j: int| 0 <= j < rewards.potions@.len() implies (#[trigger] rewards.potions@[j]) < content.potions@.len() by {
                            if j < before.len() {
                                assert(rewards.potions@[j] == before[j]);
                            }
                        }
                    }
                }
            } else if 3 <= kind && kind <= 5 {
                let rarity = if kind == 3 {
                    CardRarity::Common
                } else if kind == 4 {
                    CardRarity::Uncommon
                } else {
                    CardRarity::Rare
                };
                if rewards.cards.len() == 0 {
                    rewards.cards = self.make_card_reward(content, CardReward::Crystal(rarity));
                } else {
                    rewards.card_rewards.push(CardReward::Crystal(rarity));
                }
            } else if kind == 7 || kind == 8 {
                let gold: i32 = if kind == 7 {
                    10
                } else {
                    30
                };
                rewards.gold = rewards.gold + gold;
                self.reward_gold_parts.push(gold);
            }
            proof {
                let t = crystal.revealed@.take(k + 1);
                let prev = gold_parts(crystal.items@, t.drop_last());
                assert(gold_parts(crystal.items@, t) == if kind == 7 {
                    prev.push(10i32)
                } else if kind == 8 {
                    prev.push(30i32)
                } else {
                    prev
                });
                assert(prev.push(10i32).drop_last() =~= prev);
                assert(prev.push(30i32).drop_last() =~= prev);
                if kind != 0 {
                    lemma_pulls_keep_bags(*old(self), g_start, *self, content, pre, post, rarities, pulls);
                }
            }
            k = k + 1;
        }
        let ghost g_end = *self;
        let ghost offered = rewards.relics@;
        proof {
            assert(crystal.revealed@.take(crystal.revealed@.len() as int) =~= crystal.revealed@);
        }
        if rewards.gold == 0 && rewards.cards.len() == 0 && rewards.relics.len() == 0 && rewards.potions.len() == 0 {
            self.phase = match self.resume.take() {
                Some(p) => p,
                None => Phase::OnMap,
            };
        } else {
            self.resume = Some(Phase::OnMap);
            self.phase = Phase::Rewards(rewards);
        }
        proof {
            lemma_pulls_keep_bags(*old(self), g_end, *self, content, pre, post, rarities, pulls);
            let count = kinds_revealed(crystal.items@, crystal.revealed@, 0, 0);
            assert(pulls.len() == count);
            if self.resume is None {
                assert(offered =~= Seq::<Id>::empty());
                assert(relics_offered(*old(self), *self, content, count, Seq::empty()));
            } else {
                assert(relics_offered(*old(self), *self, content, count, offered));
            }
        }
    }
}


/// How many cards `curses` Doubts add to `g`'s deck: each enters as `add_card` adds it
/// (twice with the Bing Bong); none when the content has no Doubt.
pub open spec fn doubts_added(g: Game, content: &Content, curses: int) -> int {
    if crate::content::first_named(content.card_names(), "CARD.DOUBT"@, None) {
        0
    } else if copies(g, content) == 2 {
        2 * curses
    } else {
        curses
    }
}

impl Game {
    /// Clears the Crystal Sphere at (`x`, `y`): each curse it reveals adds a Doubt to the
    /// deck (as `add_card` does), and the last clearing ends the sphere.
    pub fn clear_crystal(&mut self, content: &Content, x: u8, y: u8)
        requires
            old(self).wf(content),
            old(self).run.act >= 1,
            old(self).event_rng is Some,
            !old(self).in_combat(),
            old(self).crystal matches Some(c) && crystal_wf(c) && c.remaining > 0 && (c.big ==> x != 127 && y != 127),
        ensures
            final(self).wf(content),
            final(self).run.deck@.len() >= old(self).run.deck@.len(),
            final(self).run.deck@.subrange(0, old(self).run.deck@.len() as int) == old(self).run.deck@,
            forall|k: int| old(self).run.deck@.len() <= k < final(self).run.deck@.len() ==> crate::content::first_named(
                content.card_names(),
                "CARD.DOUBT"@,
                Some(#[trigger] final(self).run.deck@[k].id),
            ),
            old(self).crystal->0.remaining > 1 ==> (final(self).crystal matches Some(c) && crystal_wf(c)
                && c.remaining == old(self).crystal->0.remaining - 1 && c.items == old(self).crystal->0.items
                && forall|a: int, b: int| 0 <= a < 11 && 0 <= b < 11 ==> #[trigger] c.clear@[a * 11 + b] == (old(self).crystal->0.clear@[a
                    * 11 + b] || in_reach(old(self).crystal->0.big, signed(x), signed(y), a, b))),
            old(self).crystal->0.remaining == 1 ==> final(self).crystal is None,
            old(self).crystal->0.remaining > 1 ==> final(self).run.deck@.len() == old(self).run.deck@.len() + doubts_added(
                *old(self),
                content,
                curses_among(
                    final(self).crystal->0.items@,
                    final(self).crystal->0.revealed@,
                    old(self).crystal->0.revealed@.len() as int,
                ) as int,
            ),
    {
        let mut crystal = match self.crystal.take() {
            Some(c) => c,
            None => {
                return;
            },
        };
        let curses = clear_cells(&mut crystal, x, y);
        let finished = crystal.remaining == 0;
        self.crystal = Some(crystal);
        let ghost start = *self;
        let doubt = content.card_id("CARD.DOUBT");
        let mut n: usize = 0;
        while n < curses
            invariant
                n <= curses,
                self.run.deck@.len() == old(self).run.deck@.len() + doubts_added(*old(self), content, n as int),
                copies(*self, content) == copies(*old(self), content),
                self.wf(content),
                self.run.act >= 1,
                self.event_rng is Some,
                !self.in_combat(),
                self.crystal == start.crystal,
                crate::content::first_named(content.card_names(), "CARD.DOUBT"@, doubt),
                self.run.deck@.len() >= old(self).run.deck@.len(),
                self.run.deck@.subrange(0, old(self).run.deck@.len() as int) == old(self).run.deck@,
                forall|k: int| old(self).run.deck@.len() <= k < self.run.deck@.len() ==> crate::content::first_named(
                    content.card_names(),
                    "CARD.DOUBT"@,
                    Some(#[trigger] self.run.deck@[k].id),
                ),
            decreases curses - n,
        {
            match doubt {
                Some(id) => {
                    let ghost before = self.run.deck@;
                    let ghost g_before = *self;
                    self.add_card(content, Card::of(id, 0));
                    proof {
                        assert(content.card_names()[id as int] == "CARD.DOUBT"@);
                        assert(self.run.relics == g_before.run.relics && self.melted_relics == g_before.melted_relics);
                        assert(copies(*self, content) == copies(g_before, content));
                        assert(self.run.deck@.len() == before.len() + copies(g_before, content));
                        assert forall|k: int| old(self).run.deck@.len() <= k < self.run.deck@.len() implies crate::content::first_named(
                            content.card_names(),
                            "CARD.DOUBT"@,
                            Some(#[trigger] self.run.deck@[k].id),
                        ) by {
                            if k >= before.len() {
                                assert(self.run.deck@[k].id == id);
                            } else {
                                assert(self.run.deck@[k] == before[k]);
                            }
                        }
                        assert(self.run.deck@.subrange(0, old(self).run.deck@.len() as int) =~= old(self).run.deck@) by {
                            assert(before.subrange(0, old(self).run.deck@.len() as int) == old(self).run.deck@);
                        }
                    }
                },
                None => {},
            }
            n = n + 1;
        }
        if finished {
            self.finish_crystal(content);
        }
    }
}

} // verus!
