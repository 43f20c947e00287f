//! 8-connected components of a binary mask, each as the list of its pixels.
//!
//! Pixel order inside a component is the flood order: the first pixel is the
//! component's first pixel in raster order, and every later pixel touches one
//! listed before it. Components come out in raster order of their first pixel.

use vstd::prelude::*;
use vstd::set_lib::*;
use crate::grid::{at, fg_at, lemma_at_in_range, lemma_at_injective, lemma_row_before};

verus! {

/// Row-major index of a pixel given as `(x, y)`.
pub open spec fn cell_of(w: int, p: (i64, i64)) -> int {
    at(w, p.0 as int, p.1 as int)
}

/// Whether a pixel given as `(x, y)` is foreground.
pub open spec fn is_fg(mask: Seq<bool>, w: int, h: int, p: (i64, i64)) -> bool {
    fg_at(mask, w, h, p.0 as int, p.1 as int)
}

/// Two distinct pixels that share an edge or a corner.
pub open spec fn touching(p: (i64, i64), q: (i64, i64)) -> bool {
    p != q && -1 <= p.0 - q.0 <= 1 && -1 <= p.1 - q.1 <= 1
}

/// `(k, j)` addresses a listed pixel.
pub open spec fn listed(comps: Seq<Seq<(i64, i64)>>, k: int, j: int) -> bool {
    0 <= k < comps.len() && 0 <= j < comps[k].len()
}

/// Every listed pixel is a foreground pixel.
pub open spec fn all_foreground(mask: Seq<bool>, w: int, h: int, comps: Seq<Seq<(i64, i64)>>) -> bool {
    forall|k: int, j: int| listed(comps, k, j) ==> is_fg(mask, w, h, #[trigger] comps[k][j])
}

/// No pixel is listed twice, in one component or across two.
pub open spec fn listed_once(comps: Seq<Seq<(i64, i64)>>) -> bool {
    forall|k1: int, j1: int, k2: int, j2: int|
        listed(comps, k1, j1) && listed(comps, k2, j2) && #[trigger] comps[k1][j1]
            == #[trigger] comps[k2][j2] ==> k1 == k2 && j1 == j2
}

/// Every foreground pixel is listed.
pub open spec fn covers_foreground(mask: Seq<bool>, w: int, h: int, comps: Seq<Seq<(i64, i64)>>) -> bool {
    forall|x: int, y: int|
        #[trigger] fg_at(mask, w, h, x, y) ==> exists|k: int, j: int|
            listed(comps, k, j) && #[trigger] comps[k][j] == (x as i64, y as i64)
}

/// Touching listed pixels always share a component.
pub open spec fn maximal(comps: Seq<Seq<(i64, i64)>>) -> bool {
    forall|k1: int, j1: int, k2: int, j2: int|
        listed(comps, k1, j1) && listed(comps, k2, j2) && #[trigger] touching(
            comps[k1][j1],
            comps[k2][j2],
        ) ==> k1 == k2
}

/// Pixel `j` of a list touches one listed before it.
pub open spec fn touches_earlier(pixels: Seq<(i64, i64)>, j: int) -> bool {
    exists|i: int| 0 <= i < j && touching(pixels[i], pixels[j])
}

/// Each component is non-empty and every pixel after its first touches an
/// earlier one, so each component is connected.
pub open spec fn grown_from_first(comps: Seq<Seq<(i64, i64)>>) -> bool {
    &&& forall|k: int| 0 <= k < comps.len() ==> #[trigger] comps[k].len() > 0
    &&& forall|k: int, j: int|
        listed(comps, k, j) && 0 < j ==> #[trigger] touches_earlier(comps[k], j)
}

/// A component's first pixel is its first in raster order, and components are
/// listed in raster order of their first pixels.
pub open spec fn raster_ordered(w: int, comps: Seq<Seq<(i64, i64)>>) -> bool {
    &&& forall|k: int, j: int|
        listed(comps, k, j) ==> cell_of(w, comps[k][0]) <= cell_of(w, #[trigger] comps[k][j])
    &&& forall|k1: int, k2: int|
        0 <= k1 < k2 < comps.len() ==> cell_of(w, #[trigger] comps[k1][0]) < cell_of(
            w,
            #[trigger] comps[k2][0],
        )
}

/// The components of a mask: a partition of its foreground into maximal
/// connected sets, in raster order.
pub open spec fn is_component_partition(
    mask: Seq<bool>,
    w: int,
    h: int,
    comps: Seq<Seq<(i64, i64)>>,
) -> bool {
    &&& all_foreground(mask, w, h, comps)
    &&& listed_once(comps)
    &&& covers_foreground(mask, w, h, comps)
    &&& maximal(comps)
    &&& grown_from_first(comps)
    &&& raster_ordered(w, comps)
}

/// The contents of a list of pixel lists.
pub open spec fn pixel_lists(v: Seq<Vec<(i64, i64)>>) -> Seq<Seq<(i64, i64)>> {
    v.map_values(|c: Vec<(i64, i64)>| c@)
}

/// The eight neighbour offsets, in the order the flood visits them.
pub open spec fn offset(d: int) -> (int, int) {
    if d == 0 {
        (1, 0)
    } else if d == 1 {
        (0, 1)
    } else if d == 2 {
        (-1, 0)
    } else if d == 3 {
        (0, -1)
    } else if d == 4 {
        (1, 1)
    } else if d == 5 {
        (1, -1)
    } else if d == 6 {
        (-1, 1)
    } else {
        (-1, -1)
    }
}

fn neighbour_offset(d: usize) -> (r: (i64, i64))
    requires
        d < 8,
    ensures
        r.0 == offset(d as int).0,
        r.1 == offset(d as int).1,
{
    if d == 0 {
        (1, 0)
    } else if d == 1 {
        (0, 1)
    } else if d == 2 {
        (-1, 0)
    } else if d == 3 {
        (0, -1)
    } else if d == 4 {
        (1, 1)
    } else if d == 5 {
        (1, -1)
    } else if d == 6 {
        (-1, 1)
    } else {
        (-1, -1)
    }
}

/// A touching pixel sits at one of the eight offsets.
proof fn lemma_touching_offset(p: (i64, i64), q: (i64, i64)) -> (d: int)
    requires
        touching(p, q),
    ensures
        0 <= d < 8,
        q.0 == p.0 + offset(d).0,
        q.1 == p.1 + offset(d).1,
{
    let dx = q.0 - p.0;
    let dy = q.1 - p.1;
    if dx == 1 && dy == 0 {
        0
    } else if dx == 0 && dy == 1 {
        1
    } else if dx == -1 && dy == 0 {
        2
    } else if dx == 0 && dy == -1 {
        3
    } else if dx == 1 && dy == 1 {
        4
    } else if dx == 1 && dy == -1 {
        5
    } else if dx == -1 && dy == 1 {
        6
    } else {
        7
    }
}

/// What the scan has established about the components found so far: which
/// pixels are claimed (`owner`), at which position (`pos`), and that every
/// finished component is closed under touching.
spec fn settled(
    mask: Seq<bool>,
    w: int,
    h: int,
    comps: Seq<Seq<(i64, i64)>>,
    owner: Seq<int>,
    pos: Seq<int>,
    visited: Seq<bool>,
) -> bool {
    &&& owner.len() == w * h
    &&& pos.len() == w * h
    &&& visited.len() == w * h
    &&& forall|i: int| 0 <= i < w * h ==> (visited[i] <==> 0 <= #[trigger] owner[i])
    &&& forall|i: int| 0 <= i < w * h ==> -1 <= #[trigger] owner[i] < comps.len()
    &&& forall|i: int|
        0 <= i < w * h && 0 <= #[trigger] owner[i] ==> 0 <= pos[i] < comps[owner[i]].len()
            && cell_of(w, comps[owner[i]][pos[i]]) == i
    &&& forall|k: int, j: int|
        listed(comps, k, j) ==> is_fg(mask, w, h, #[trigger] comps[k][j]) && owner[cell_of(
            w,
            comps[k][j],
        )] == k && pos[cell_of(w, comps[k][j])] == j
    &&& forall|k: int, j: int, q: (i64, i64)|
        listed(comps, k, j) && is_fg(mask, w, h, q) && #[trigger] touching(comps[k][j], q) ==> 0
            <= owner[cell_of(w, q)] <= k
    &&& grown_from_first(comps)
    &&& raster_ordered(w, comps)
}

/// The bookkeeping of one flood: `owner`/`pos` extend the claims made
/// before it (`owner0`/`pos0`) with the pixels of component `k`; popped
/// pixels are listed in `pixels`, pushed ones wait in `stack` (at `spos`,
/// each touching its parent `pixels[par[s]]`), and the first `closed` listed
/// pixels have every foreground neighbour claimed.
spec fn flood_inv(
    mask: Seq<bool>,
    w: int,
    h: int,
    k: int,
    seed: (i64, i64),
    owner0: Seq<int>,
    pos0: Seq<int>,
    visited0: Seq<bool>,
    visited: Seq<bool>,
    owner: Seq<int>,
    pos: Seq<int>,
    spos: Seq<int>,
    free: Set<int>,
    stack: Seq<(i64, i64)>,
    par: Seq<int>,
    pixels: Seq<(i64, i64)>,
    closed: int,
) -> bool {
    &&& claims_frame(mask, w, h, k, seed, owner0, pos0, visited0, visited, owner, pos, free)
    &&& pending_ok(mask, w, h, k, owner, pos, spos, stack)
    &&& listed_ok(mask, w, h, k, owner, pos, pixels)
    &&& closed_upto(mask, w, h, owner, pixels, closed)
    &&& tree_ok(seed, stack, par, pixels)
}

/// Claims extend the earlier ones only by pixels of component `k`, none of
/// them before the seed; `free` is the set of unclaimed cells.
spec fn claims_frame(
    mask: Seq<bool>,
    w: int,
    h: int,
    k: int,
    seed: (i64, i64),
    owner0: Seq<int>,
    pos0: Seq<int>,
    visited0: Seq<bool>,
    visited: Seq<bool>,
    owner: Seq<int>,
    pos: Seq<int>,
    free: Set<int>,
) -> bool {
    let n = w * h;
    let seed_cell = cell_of(w, seed);
    &&& visited.len() == n && owner.len() == n && pos.len() == n
    &&& owner0.len() == n && pos0.len() == n && visited0.len() == n
    &&& is_fg(mask, w, h, seed)
    &&& forall|i: int| 0 <= i < n ==> -1 <= #[trigger] owner0[i] < k
    &&& forall|i: int| 0 <= i < n ==> (visited0[i] <==> 0 <= #[trigger] owner0[i])
    &&& forall|i: int|
        0 <= i < n && #[trigger] owner0[i] == -1 ==> owner[i] == -1 || owner[i] == k
    &&& free.finite()
    &&& forall|i: int| #[trigger] free.contains(i) <==> 0 <= i < n && owner[i] == -1
    &&& forall|i: int| 0 <= i < n ==> (visited[i] <==> 0 <= #[trigger] owner[i])
    &&& forall|i: int| 0 <= i < n ==> -1 <= #[trigger] owner[i] <= k
    &&& forall|i: int|
        0 <= i < n && 0 <= #[trigger] owner0[i] ==> owner[i] == owner0[i] && pos[i] == pos0[i]
    &&& forall|i: int| 0 <= i < n && #[trigger] owner[i] == k ==> owner0[i] == -1 && seed_cell <= i
    &&& forall|i: int| 0 <= i < seed_cell && mask[i] ==> visited0[i]
}

/// Claimed but not yet listed pixels of component `k` are exactly the stack.
spec fn pending_ok(
    mask: Seq<bool>,
    w: int,
    h: int,
    k: int,
    owner: Seq<int>,
    pos: Seq<int>,
    spos: Seq<int>,
    stack: Seq<(i64, i64)>,
) -> bool {
    &&& spos.len() == w * h
    &&& forall|i: int|
        0 <= i < w * h && #[trigger] owner[i] == k && pos[i] < 0 ==> 0 <= spos[i] < stack.len()
            && cell_of(w, stack[spos[i]]) == i
    &&& forall|s: int|
        0 <= s < stack.len() ==> is_fg(mask, w, h, #[trigger] stack[s]) && owner[cell_of(
            w,
            stack[s],
        )] == k && pos[cell_of(w, stack[s])] == -1 && spos[cell_of(w, stack[s])] == s
}

/// Listed pixels of component `k` are exactly `pixels`, at their positions.
spec fn listed_ok(
    mask: Seq<bool>,
    w: int,
    h: int,
    k: int,
    owner: Seq<int>,
    pos: Seq<int>,
    pixels: Seq<(i64, i64)>,
) -> bool {
    &&& forall|i: int|
        0 <= i < w * h && #[trigger] owner[i] == k && pos[i] >= 0 ==> pos[i] < pixels.len()
            && cell_of(w, pixels[pos[i]]) == i
    &&& forall|j: int|
        0 <= j < pixels.len() ==> is_fg(mask, w, h, #[trigger] pixels[j]) && owner[cell_of(
            w,
            pixels[j],
        )] == k && pos[cell_of(w, pixels[j])] == j
}

/// The first `closed` listed pixels have all foreground neighbours claimed.
spec fn closed_upto(
    mask: Seq<bool>,
    w: int,
    h: int,
    owner: Seq<int>,
    pixels: Seq<(i64, i64)>,
    closed: int,
) -> bool {
    &&& 0 <= closed <= pixels.len()
    &&& forall|j: int, q: (i64, i64)|
        0 <= j < closed && is_fg(mask, w, h, q) && #[trigger] touching(pixels[j], q) ==> 0
            <= owner[cell_of(w, q)]
}

/// The listing grows from the seed, each pending pixel touching a listed one.
spec fn tree_ok(
    seed: (i64, i64),
    stack: Seq<(i64, i64)>,
    par: Seq<int>,
    pixels: Seq<(i64, i64)>,
) -> bool {
    &&& forall|j: int| 0 < j < pixels.len() ==> #[trigger] touches_earlier(pixels, j)
    &&& par.len() == stack.len()
    &&& pixels.len() > 0 ==> forall|s: int|
        0 <= s < stack.len() ==> 0 <= #[trigger] par[s] < pixels.len() && touching(
            pixels[par[s]],
            stack[s],
        )
    &&& pixels.len() == 0 ==> stack == seq![seed]
    &&& pixels.len() > 0 ==> pixels[0] == seed
}

/// Popping the top of the stack lists it as the next pixel of the component.
proof fn lemma_pop(
    mask: Seq<bool>,
    w: int,
    h: int,
    k: int,
    seed: (i64, i64),
    owner0: Seq<int>,
    pos0: Seq<int>,
    visited0: Seq<bool>,
    visited: Seq<bool>,
    owner: Seq<int>,
    pos: Seq<int>,
    spos: Seq<int>,
    free: Set<int>,
    stack: Seq<(i64, i64)>,
    par: Seq<int>,
    pixels: Seq<(i64, i64)>,
)
    requires
        0 <= w,
        0 <= h,
        stack.len() > 0,
        flood_inv(mask, w, h, k, seed, owner0, pos0, visited0, visited, owner, pos, spos, free,
            stack, par, pixels, pixels.len() as int),
    ensures
        flood_inv(mask, w, h, k, seed, owner0, pos0, visited0, visited, owner,
            pos.update(cell_of(w, stack.last()), pixels.len() as int), spos, free,
            stack.drop_last(), par.drop_last(), pixels.push(stack.last()), pixels.len() as int),
{
    let c = stack.last();
    let top = stack.len() - 1;
    let ci = cell_of(w, c);
    lemma_at_in_range(w, h, c.0 as int, c.1 as int);
    let pos2 = pos.update(ci, pixels.len() as int);
    let stack2 = stack.drop_last();
    let par2 = par.drop_last();
    let pixels2 = pixels.push(c);
    assert(spos[ci] == top);
    assert(pos[ci] == -1);
    assert forall|s: int|
        0 <= s < stack2.len() implies is_fg(mask, w, h, #[trigger] stack2[s]) && owner[cell_of(
            w,
            stack2[s],
        )] == k && pos2[cell_of(w, stack2[s])] == -1 && spos[cell_of(w, stack2[s])] == s by {
        assert(stack2[s] == stack[s]);
        assert(spos[cell_of(w, stack[s])] == s);
        lemma_at_in_range(w, h, stack[s].0 as int, stack[s].1 as int);
    }
    assert forall|j: int|
        0 <= j < pixels2.len() implies is_fg(mask, w, h, #[trigger] pixels2[j]) && owner[cell_of(
            w,
            pixels2[j],
        )] == k && pos2[cell_of(w, pixels2[j])] == j by {
        if j < pixels.len() {
            assert(pixels2[j] == pixels[j]);
            assert(pos[cell_of(w, pixels[j])] == j);
            lemma_at_in_range(w, h, pixels[j].0 as int, pixels[j].1 as int);
        }
    }
    assert forall|i: int|
        0 <= i < w * h && #[trigger] owner[i] == k && pos2[i] >= 0 implies pos2[i] < pixels2.len()
        && cell_of(w, pixels2[pos2[i]]) == i by {
        if i != ci {
            assert(pos2[i] == pos[i]);
            if pos[i] < 0 {
                assert(cell_of(w, stack[spos[i]]) == i);
                assert(spos[i] != top);
            }
        }
    }
    assert forall|i: int|
        0 <= i < w * h && #[trigger] owner[i] == k && pos2[i] < 0 implies 0 <= spos[i]
        < stack2.len() && cell_of(w, stack2[spos[i]]) == i by {
        assert(i != ci);
        assert(cell_of(w, stack[spos[i]]) == i);
        assert(spos[i] != top);
        assert(stack2[spos[i]] == stack[spos[i]]);
    }
    assert forall|j: int, q: (i64, i64)|
        0 <= j < pixels.len() && is_fg(mask, w, h, q) && #[trigger] touching(pixels2[j], q)
        implies 0 <= owner[cell_of(w, q)] by {
        assert(pixels2[j] == pixels[j]);
    }
    if pixels.len() > 0 {
        let parent = par[top];
        assert(0 <= parent < pixels.len());
        assert(touching(pixels[parent], c));
        assert(touching(pixels2[parent], pixels2[pixels.len() as int]));
    }
    assert forall|j: int| 0 < j < pixels2.len() implies #[trigger] touches_earlier(pixels2, j) by {
        if j < pixels.len() {
            assert(touches_earlier(pixels, j));
            let i0 = choose|i: int| 0 <= i < j && touching(pixels[i], pixels[j]);
            assert(pixels2[i0] == pixels[i0]);
            assert(pixels2[j] == pixels[j]);
            assert(touching(pixels2[i0], pixels2[j]));
        } else {
            let parent = par[top];
            assert(0 <= parent < pixels.len() && touching(pixels[parent], stack[top]));
            assert(pixels2[parent] == pixels[parent]);
            assert(pixels2[j] == c);
            assert(touching(pixels2[parent], pixels2[j]));
        }
    }
    assert forall|s: int|
        0 <= s < stack2.len() implies 0 <= #[trigger] par2[s] < pixels2.len() && touching(
        pixels2[par2[s]],
        stack2[s],
    ) by {
        assert(par2[s] == par[s]);
        assert(stack2[s] == stack[s]);
        if pixels.len() == 0 {
            assert(stack.len() == 1);
        }
    }
    assert(claims_frame(mask, w, h, k, seed, owner0, pos0, visited0, visited, owner, pos2, free));
    assert(pending_ok(mask, w, h, k, owner, pos2, spos, stack2));
    assert(listed_ok(mask, w, h, k, owner, pos2, pixels2));
    assert(closed_upto(mask, w, h, owner, pixels2, pixels.len() as int));
    assert(tree_ok(seed, stack2, par2, pixels2));
}

/// Claiming the unclaimed foreground pixel `q` next to the pixel being
/// expanded pushes it onto the stack.
proof fn lemma_push(
    mask: Seq<bool>,
    w: int,
    h: int,
    k: int,
    seed: (i64, i64),
    owner0: Seq<int>,
    pos0: Seq<int>,
    visited0: Seq<bool>,
    visited: Seq<bool>,
    owner: Seq<int>,
    pos: Seq<int>,
    spos: Seq<int>,
    free: Set<int>,
    stack: Seq<(i64, i64)>,
    par: Seq<int>,
    pixels: Seq<(i64, i64)>,
    q: (i64, i64),
)
    requires
        0 <= w,
        0 <= h,
        pixels.len() > 0,
        is_fg(mask, w, h, q),
        owner[cell_of(w, q)] == -1,
        touching(pixels.last(), q),
        flood_inv(mask, w, h, k, seed, owner0, pos0, visited0, visited, owner, pos, spos, free,
            stack, par, pixels, pixels.len() - 1),
    ensures
        ({
            let ni = cell_of(w, q);
            &&& flood_inv(mask, w, h, k, seed, owner0, pos0, visited0, visited.update(ni, true),
                owner.update(ni, k), pos.update(ni, -1), spos.update(ni, stack.len() as int),
                free.remove(ni), stack.push(q), par.push(pixels.len() - 1), pixels, pixels.len()
                - 1)
            &&& free.remove(ni).len() + 1 == free.len()
        }),
{
    let ni = cell_of(w, q);
    lemma_at_in_range(w, h, q.0 as int, q.1 as int);
    let owner2 = owner.update(ni, k);
    let pos2 = pos.update(ni, -1);
    let spos2 = spos.update(ni, stack.len() as int);
    let stack2 = stack.push(q);
    let par2 = par.push(pixels.len() - 1);
    vstd::set::axiom_set_remove_len(free, ni);
    assert(free.contains(ni));
    assert(owner0[ni] == -1);
    if ni < cell_of(w, seed) {
        assert(mask[ni]);
        assert(visited0[ni]);
        assert(false);
    }
    assert forall|s: int|
        0 <= s < stack2.len() implies is_fg(mask, w, h, #[trigger] stack2[s]) && owner2[cell_of(
            w,
            stack2[s],
        )] == k && pos2[cell_of(w, stack2[s])] == -1 && spos2[cell_of(w, stack2[s])] == s by {
        if s < stack.len() {
            assert(stack2[s] == stack[s]);
            assert(owner[cell_of(w, stack[s])] == k);
            lemma_at_in_range(w, h, stack[s].0 as int, stack[s].1 as int);
        }
    }
    assert forall|j: int|
        0 <= j < pixels.len() implies is_fg(mask, w, h, #[trigger] pixels[j]) && owner2[cell_of(
            w,
            pixels[j],
        )] == k && pos2[cell_of(w, pixels[j])] == j by {
        assert(owner[cell_of(w, pixels[j])] == k);
        lemma_at_in_range(w, h, pixels[j].0 as int, pixels[j].1 as int);
    }
    assert forall|i: int|
        0 <= i < w * h && #[trigger] owner2[i] == k && pos2[i] < 0 implies 0 <= spos2[i]
        < stack2.len() && cell_of(w, stack2[spos2[i]]) == i by {
        if i != ni {
            assert(cell_of(w, stack[spos[i]]) == i);
        }
    }
    assert forall|i: int|
        0 <= i < w * h && #[trigger] owner2[i] == k && pos2[i] >= 0 implies pos2[i]
        < pixels.len() && cell_of(w, pixels[pos2[i]]) == i by {
        assert(i != ni);
    }
    assert forall|s: int|
        0 <= s < stack2.len() implies 0 <= #[trigger] par2[s] < pixels.len() && touching(
        pixels[par2[s]],
        stack2[s],
    ) by {
        if s < stack.len() {
            assert(par2[s] == par[s]);
            assert(stack2[s] == stack[s]);
        }
    }
    assert forall|j: int, q2: (i64, i64)|
        0 <= j < pixels.len() - 1 && is_fg(mask, w, h, q2) && #[trigger] touching(pixels[j], q2)
        implies 0 <= owner2[cell_of(w, q2)] by {
        lemma_at_in_range(w, h, q2.0 as int, q2.1 as int);
    }
    let visited2 = visited.update(ni, true);
    let free2 = free.remove(ni);
    assert(claims_frame(mask, w, h, k, seed, owner0, pos0, visited0, visited2, owner2, pos2, free2));
    assert(pending_ok(mask, w, h, k, owner2, pos2, spos2, stack2));
    assert(listed_ok(mask, w, h, k, owner2, pos2, pixels));
    assert(closed_upto(mask, w, h, owner2, pixels, pixels.len() - 1));
    assert(par2.len() == stack2.len());
    assert(pixels.len() > 0 ==> forall|s: int|
        0 <= s < stack2.len() ==> 0 <= #[trigger] par2[s] < pixels.len() && touching(
            pixels[par2[s]],
            stack2[s],
        ));
    assert(tree_ok(seed, stack2, par2, pixels));
}

/// Once all eight neighbours of the last listed pixel are claimed, it is
/// closed too.
proof fn lemma_close_last(
    mask: Seq<bool>,
    w: int,
    h: int,
    k: int,
    seed: (i64, i64),
    owner0: Seq<int>,
    pos0: Seq<int>,
    visited0: Seq<bool>,
    visited: Seq<bool>,
    owner: Seq<int>,
    pos: Seq<int>,
    spos: Seq<int>,
    free: Set<int>,
    stack: Seq<(i64, i64)>,
    par: Seq<int>,
    pixels: Seq<(i64, i64)>,
)
    requires
        pixels.len() > 0,
        flood_inv(mask, w, h, k, seed, owner0, pos0, visited0, visited, owner, pos, spos, free,
            stack, par, pixels, pixels.len() - 1),
        forall|dd: int|
            0 <= dd < 8 && #[trigger] is_fg(
                mask,
                w,
                h,
                (
                    (pixels.last().0 + offset(dd).0) as i64,
                    (pixels.last().1 + offset(dd).1) as i64,
                ),
            ) ==> 0 <= owner[cell_of(
                w,
                ((pixels.last().0 + offset(dd).0) as i64, (pixels.last().1 + offset(dd).1) as i64),
            )],
    ensures
        flood_inv(mask, w, h, k, seed, owner0, pos0, visited0, visited, owner, pos, spos, free,
            stack, par, pixels, pixels.len() as int),
{
    let c = pixels.last();
    assert forall|j: int, q: (i64, i64)|
        0 <= j < pixels.len() && is_fg(mask, w, h, q) && #[trigger] touching(pixels[j], q)
        implies 0 <= owner[cell_of(w, q)] by {
        if j == pixels.len() - 1 {
            let dd = lemma_touching_offset(c, q);
            assert(q == ((c.0 + offset(dd).0) as i64, (c.1 + offset(dd).1) as i64));
        }
    }
}

/// A finished flood extends the settled components by one.
proof fn lemma_flood_done(
    mask: Seq<bool>,
    w: int,
    h: int,
    comps: Seq<Seq<(i64, i64)>>,
    seed: (i64, i64),
    owner0: Seq<int>,
    pos0: Seq<int>,
    visited0: Seq<bool>,
    visited: Seq<bool>,
    owner: Seq<int>,
    pos: Seq<int>,
    spos: Seq<int>,
    free: Set<int>,
    stack: Seq<(i64, i64)>,
    par: Seq<int>,
    pixels: Seq<(i64, i64)>,
)
    requires
        0 <= w,
        0 <= h,
        stack.len() == 0,
        settled(mask, w, h, comps, owner0, pos0, visited0),
        forall|kk: int|
            0 <= kk < comps.len() ==> cell_of(w, #[trigger] comps[kk][0]) < cell_of(w, seed),
        flood_inv(mask, w, h, comps.len() as int, seed, owner0, pos0, visited0, visited, owner,
            pos, spos, free, stack, par, pixels, pixels.len() as int),
    ensures
        settled(mask, w, h, comps.push(pixels), owner, pos, visited),
        pixels.len() > 0,
        pixels[0] == seed,
        forall|i: int| 0 <= i < w * h && visited0[i] ==> visited[i],
{
    let k = comps.len() as int;
    let n = w * h;
    let ext = comps.push(pixels);
    assert forall|i: int| 0 <= i < n && visited0[i] implies visited[i] by {
        assert(0 <= owner0[i]);
    }
    assert forall|i: int|
        0 <= i < n && 0 <= #[trigger] owner[i] implies 0 <= pos[i] < ext[owner[i]].len()
        && cell_of(w, ext[owner[i]][pos[i]]) == i by {
        if owner[i] < k {
            assert(owner0[i] >= 0);
        }
    }
    assert forall|kk: int, j: int|
        listed(ext, kk, j) implies is_fg(mask, w, h, #[trigger] ext[kk][j]) && owner[cell_of(
            w,
            ext[kk][j],
        )] == kk && pos[cell_of(w, ext[kk][j])] == j by {
        if kk < k {
            assert(ext[kk][j] == comps[kk][j]);
            lemma_at_in_range(w, h, comps[kk][j].0 as int, comps[kk][j].1 as int);
        }
    }
    assert forall|kk: int, j: int, q: (i64, i64)|
        listed(ext, kk, j) && is_fg(mask, w, h, q) && #[trigger] touching(ext[kk][j], q) implies 0
        <= owner[cell_of(w, q)] <= kk by {
        lemma_at_in_range(w, h, q.0 as int, q.1 as int);
        if kk < k {
            assert(ext[kk][j] == comps[kk][j]);
        }
    }
    assert forall|kk: int, j: int|
        listed(ext, kk, j) && 0 < j implies #[trigger] touches_earlier(ext[kk], j) by {
        if kk < k {
            assert(ext[kk] == comps[kk]);
        } else {
            assert(ext[kk] == pixels);
        }
    }
    if pixels.len() == 0 {
        assert(stack == seq![seed]);
        assert(false);
    }
    assert forall|kk: int, j: int|
        listed(ext, kk, j) implies cell_of(w, ext[kk][0]) <= cell_of(w, #[trigger] ext[kk][j]) by {
        if kk == k {
            assert(ext[kk] == pixels);
            lemma_at_in_range(w, h, pixels[j].0 as int, pixels[j].1 as int);
            assert(owner[cell_of(w, pixels[j])] == k);
        } else {
            assert(ext[kk][j] == comps[kk][j]);
            assert(ext[kk][0] == comps[kk][0]);
        }
    }
    assert forall|k1: int, k2: int|
        0 <= k1 < k2 < ext.len() implies cell_of(w, #[trigger] ext[k1][0]) < cell_of(
        w,
        #[trigger] ext[k2][0],
    ) by {
        assert(ext[k1] == comps[k1]);
        if k2 < k {
            assert(ext[k2] == comps[k2]);
        }
    }
    assert forall|kk: int| 0 <= kk < ext.len() implies #[trigger] ext[kk].len() > 0 by {
        if kk < k {
            assert(ext[kk] == comps[kk]);
        }
    }
}

/// Flood-fill the component that starts at the unvisited foreground pixel
/// `(sx, sy)`, claiming its pixels in `visited`.
fn flood(
    mask: &[bool],
    w: usize,
    h: usize,
    visited: &mut Vec<bool>,
    sx: usize,
    sy: usize,
    Ghost(comps): Ghost<Seq<Seq<(i64, i64)>>>,
    Ghost(owner0): Ghost<Seq<int>>,
    Ghost(pos0): Ghost<Seq<int>>,
) -> (res: (Vec<(i64, i64)>, Ghost<Seq<int>>, Ghost<Seq<int>>))
    requires
        w <= i64::MAX,
        h <= i64::MAX,
        w * h <= mask@.len(),
        sx < w,
        sy < h,
        mask@[at(w as int, sx as int, sy as int)],
        !old(visited)@[at(w as int, sx as int, sy as int)],
        settled(mask@, w as int, h as int, comps, owner0, pos0, old(visited)@),
        forall|i: int| 0 <= i < at(w as int, sx as int, sy as int) && mask@[i] ==> old(visited)@[i],
        forall|k: int|
            0 <= k < comps.len() ==> cell_of(w as int, #[trigger] comps[k][0]) < at(
                w as int,
                sx as int,
                sy as int,
            ),
    ensures
        settled(mask@, w as int, h as int, comps.push(res.0@), res.1@, res.2@, final(visited)@),
        res.0@.len() > 0,
        res.0@[0] == (sx as i64, sy as i64),
        forall|i: int| 0 <= i < w * h && old(visited)@[i] ==> final(visited)@[i],
{
    let ghost n = w * h;
    let ghost k = comps.len() as int;
    let ghost visited0 = visited@;
    let cells = mask.len();
    proof {
        lemma_at_in_range(w as int, h as int, sx as int, sy as int);
    }
    let si = sy * w + sx;
    let seed: (i64, i64) = (sx as i64, sy as i64);
    visited.set(si, true);
    let ghost mut owner = owner0.update(si as int, k);
    let ghost mut pos = pos0.update(si as int, -1);
    let ghost mut spos = Seq::new(n as nat, |i: int| 0int).update(si as int, 0);
    let ghost mut free = Set::new(|i: int| 0 <= i < n && owner[i] == -1);
    proof {
        lemma_int_range(0, n);
        lemma_len_subset(free, set_int_range(0, n));
    }
    let mut stack: Vec<(i64, i64)> = Vec::new();
    stack.push(seed);
    let ghost mut par: Seq<int> = seq![0int];
    let mut pixels: Vec<(i64, i64)> = Vec::new();
    proof {
        assert(stack@ == seq![seed]);
        assert(cell_of(w as int, seed) == si);
    }
    while stack.len() > 0
        invariant
            w <= i64::MAX,
            h <= i64::MAX,
            n == w * h,
            n <= mask@.len(),
            cells == mask@.len(),
            k == comps.len(),
            visited0 == old(visited)@,
            flood_inv(mask@, w as int, h as int, k, seed, owner0, pos0, visited0, visited@,
                owner, pos, spos, free, stack@, par, pixels@, pixels@.len() as int),
        decreases 2 * free.len() + stack@.len(),
    {
        let ghost measure = 2 * free.len() + stack@.len();
        proof {
            lemma_pop(mask@, w as int, h as int, k, seed, owner0, pos0, visited0, visited@, owner,
                pos, spos, free, stack@, par, pixels@);
            pos = pos.update(cell_of(w as int, stack@.last()), pixels@.len() as int);
            par = par.drop_last();
        }
        let c = stack.pop().unwrap();
        pixels.push(c);
        proof {
            lemma_at_in_range(w as int, h as int, c.0 as int, c.1 as int);
        }
        let mut d: usize = 0;
        while d < 8
            invariant
                w <= i64::MAX,
                h <= i64::MAX,
                n == w * h,
                n <= mask@.len(),
                cells == mask@.len(),
                k == comps.len(),
                d <= 8,
                pixels@.len() > 0,
                c == pixels@.last(),
                0 <= c.0 < w,
                0 <= c.1 < h,
                2 * free.len() + stack@.len() < measure,
                flood_inv(mask@, w as int, h as int, k, seed, owner0, pos0, visited0, visited@,
                    owner, pos, spos, free, stack@, par, pixels@, pixels@.len() - 1),
                forall|dd: int|
                    0 <= dd < d && #[trigger] is_fg(
                        mask@,
                        w as int,
                        h as int,
                        ((c.0 + offset(dd).0) as i64, (c.1 + offset(dd).1) as i64),
                    ) ==> 0 <= cell_of(
                        w as int,
                        ((c.0 + offset(dd).0) as i64, (c.1 + offset(dd).1) as i64),
                    ) < n && 0 <= owner[cell_of(
                        w as int,
                        ((c.0 + offset(dd).0) as i64, (c.1 + offset(dd).1) as i64),
                    )],
            decreases 8 - d,
        {
            let (dx, dy) = neighbour_offset(d);
            let nx = c.0 + dx;
            let ny = c.1 + dy;
            let ghost sd = ((c.0 + offset(d as int).0) as i64, (c.1 + offset(d as int).1) as i64);
            if nx < 0 || ny < 0 || nx >= w as i64 || ny >= h as i64 {
                proof {
                    assert(sd == (nx, ny));
                    assert(!is_fg(mask@, w as int, h as int, sd));
                }
                d = d + 1;
                continue;
            }
            proof {
                lemma_at_in_range(w as int, h as int, nx as int, ny as int);
            }
            let ni = ny as usize * w + nx as usize;
            let ghost q: (i64, i64) = (nx, ny);
            proof {
                assert(cell_of(w as int, q) == ni as int);
            }
            if mask[ni] && !visited[ni] {
                proof {
                    lemma_push(mask@, w as int, h as int, k, seed, owner0, pos0, visited0,
                        visited@, owner, pos, spos, free, stack@, par, pixels@, q);
                    owner = owner.update(ni as int, k);
                    pos = pos.update(ni as int, -1);
                    spos = spos.update(ni as int, stack@.len() as int);
                    par = par.push(pixels@.len() - 1);
                    free = free.remove(ni as int);
                }
                visited.set(ni, true);
                stack.push((nx, ny));
            }
            proof {
                assert(sd == q);
                assert(is_fg(mask@, w as int, h as int, sd) ==> 0 <= owner[cell_of(w as int, sd)]);
            }
            d = d + 1;
        }
        proof {
            lemma_close_last(mask@, w as int, h as int, k, seed, owner0, pos0, visited0, visited@,
                owner, pos, spos, free, stack@, par, pixels@);
        }
    }
    proof {
        lemma_flood_done(mask@, w as int, h as int, comps, seed, owner0, pos0, visited0, visited@,
            owner, pos, spos, free, stack@, par, pixels@);
    }
    (pixels, Ghost(owner), Ghost(pos))
}

/// With the whole raster scanned, the settled components are the
/// partition of the foreground.
proof fn lemma_scan_complete(
    mask: Seq<bool>,
    w: int,
    h: int,
    comps: Seq<Seq<(i64, i64)>>,
    owner: Seq<int>,
    pos: Seq<int>,
    visited: Seq<bool>,
)
    requires
        0 <= w <= i64::MAX,
        0 <= h <= i64::MAX,
        w * h <= mask.len(),
        settled(mask, w, h, comps, owner, pos, visited),
        forall|i: int| 0 <= i < w * h && mask[i] ==> visited[i],
    ensures
        is_component_partition(mask, w, h, comps),
{
    assert forall|k1: int, j1: int, k2: int, j2: int|
        listed(comps, k1, j1) && listed(comps, k2, j2) && #[trigger] comps[k1][j1]
            == #[trigger] comps[k2][j2] implies k1 == k2 && j1 == j2 by {
        assert(owner[cell_of(w, comps[k1][j1])] == k1);
        assert(owner[cell_of(w, comps[k2][j2])] == k2);
    }
    assert forall|x: int, y: int| #[trigger] fg_at(mask, w, h, x, y) implies exists|k: int, j: int|
        listed(comps, k, j) && #[trigger] comps[k][j] == (x as i64, y as i64) by {
        let i = at(w, x, y);
        lemma_at_in_range(w, h, x, y);
        assert(visited[i]);
        let k = owner[i];
        let j = pos[i];
        assert(0 <= k < comps.len());
        let p = comps[k][j];
        assert(is_fg(mask, w, h, p));
        lemma_at_injective(w, p.0 as int, p.1 as int, x, y);
        assert(p == (x as i64, y as i64));
        assert(listed(comps, k, j));
    }
    assert forall|k1: int, j1: int, k2: int, j2: int|
        listed(comps, k1, j1) && listed(comps, k2, j2) && #[trigger] touching(
            comps[k1][j1],
            comps[k2][j2],
        ) implies k1 == k2 by {
        let p = comps[k1][j1];
        let q = comps[k2][j2];
        assert(is_fg(mask, w, h, p));
        assert(is_fg(mask, w, h, q));
        assert(touching(q, p));
        assert(owner[cell_of(w, q)] <= k1);
        assert(owner[cell_of(w, p)] <= k2);
    }
}

/// Connected components of the foreground of a `w` x `h` mask under
/// 8-connectivity, each as the list of its `(x, y)` pixels.
///
/// Hole boundaries are not produced: a component is its whole pixel set.
pub fn connected_components(mask: &[bool], w: usize, h: usize) -> (comps: Vec<Vec<(i64, i64)>>)
    requires
        w * h <= mask@.len(),
        w * h > 0 ==> w <= i64::MAX && h <= i64::MAX,
    ensures
        is_component_partition(mask@, w as int, h as int, pixel_lists(comps@)),
{
    if w == 0 || h == 0 {
        let none: Vec<Vec<(i64, i64)>> = Vec::new();
        proof {
            assert(pixel_lists(none@) =~= Seq::<Seq<(i64, i64)>>::empty());
        }
        return none;
    }
    proof {
        assert(w * h > 0) by (nonlinear_arith)
            requires
                w > 0,
                h > 0,
        ;
    }
    let cells = mask.len();
    let n = w * h;
    let mut visited: Vec<bool> = Vec::new();
    let mut t: usize = 0;
    while t < n
        invariant
            t <= n,
            visited@.len() == t,
            forall|i: int| 0 <= i < t ==> !visited@[i],
        decreases n - t,
    {
        visited.push(false);
        t = t + 1;
    }
    let ghost mut owner: Seq<int> = Seq::new(n as nat, |i: int| -1int);
    let ghost mut pos: Seq<int> = Seq::new(n as nat, |i: int| 0int);
    let ghost mut found: Seq<Seq<(i64, i64)>> = seq![];
    let mut components: Vec<Vec<(i64, i64)>> = Vec::new();
    proof {
        assert(pixel_lists(components@) =~= found);
    }
    let mut sy: usize = 0;
    while sy < h
        invariant
            w <= i64::MAX,
            h <= i64::MAX,
            n == w * h,
            n <= mask@.len(),
            cells == mask@.len(),
            sy <= h,
            settled(mask@, w as int, h as int, found, owner, pos, visited@),
            pixel_lists(components@) == found,
            forall|i: int| 0 <= i < at(w as int, 0, sy as int) && mask@[i] ==> visited@[i],
            forall|k: int|
                0 <= k < found.len() ==> cell_of(w as int, #[trigger] found[k][0]) < at(
                    w as int,
                    0,
                    sy as int,
                ),
        decreases h - sy,
    {
        let mut sx: usize = 0;
        while sx < w
            invariant
                w <= i64::MAX,
                h <= i64::MAX,
                n == w * h,
                n <= mask@.len(),
                cells == mask@.len(),
                sy < h,
                sx <= w,
                settled(mask@, w as int, h as int, found, owner, pos, visited@),
                pixel_lists(components@) == found,
                forall|i: int|
                    0 <= i < at(w as int, sx as int, sy as int) && mask@[i] ==> visited@[i],
                forall|k: int|
                    0 <= k < found.len() ==> cell_of(w as int, #[trigger] found[k][0]) < at(
                        w as int,
                        sx as int,
                        sy as int,
                    ),
            decreases w - sx,
        {
            proof {
                lemma_at_in_range(w as int, h as int, sx as int, sy as int);
            }
            let i = sy * w + sx;
            if mask[i] && !visited[i] {
                let ghost before = visited@;
                let (pixels, Ghost(o), Ghost(p)) = flood(
                    mask,
                    w,
                    h,
                    &mut visited,
                    sx,
                    sy,
                    Ghost(found),
                    Ghost(owner),
                    Ghost(pos),
                );
                proof {
                    let seed = (sx as i64, sy as i64);
                    let k = found.len() as int;
                    found = found.push(pixels@);
                    owner = o;
                    pos = p;
                    assert(found[k][0] == seed);
                    assert(owner[cell_of(w as int, found[k][0])] == k);
                    assert(visited@[i as int]);
                    assert forall|ii: int|
                        0 <= ii < at(w as int, sx as int, sy as int) && mask@[ii] implies visited@[ii] by {
                        assert(before[ii]);
                    }
                }
                let ghost old_components = components@;
                components.push(pixels);
                proof {
                    assert(pixel_lists(components@) =~= found);
                }
            }
            sx = sx + 1;
        }
        proof {
            assert(sy * w + w == (sy + 1) * w) by (nonlinear_arith);
            assert(at(w as int, w as int, sy as int) == at(w as int, 0, sy + 1));
        }
        sy = sy + 1;
    }
    proof {
        assert(at(w as int, 0, h as int) == w * h) by (nonlinear_arith);
        lemma_scan_complete(mask@, w as int, h as int, found, owner, pos, visited@);
    }
    components
}


/// Connectivity is the full 8-neighbourhood: two distinct pixels touch
/// exactly when each coordinate differs by at most one, diagonal neighbours
/// included.
pub proof fn lemma_touching_is_eight_neighbourhood(p: (i64, i64), q: (i64, i64))
    ensures
        touching(p, q) <==> (p != q && (p.0 - q.0) * (p.0 - q.0) <= 1 && (p.1 - q.1) * (p.1 - q.1) <= 1),
{
    let dx = p.0 - q.0;
    let dy = p.1 - q.1;
    assert((-1 <= dx <= 1) <==> dx * dx <= 1) by (nonlinear_arith);
    assert((-1 <= dy <= 1) <==> dy * dy <= 1) by (nonlinear_arith);
}

} // verus!
