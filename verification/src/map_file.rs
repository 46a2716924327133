//! Province adjacency derived from grid layouts (square: 4-connected; hex: 6 neighbours).

use vstd::prelude::*;
use crate::world::{
    grid_index, hex_neighbors, HexMapLayout, MapLayout, ProvinceAdjacency, ProvinceId, ScopeId,
};

verus! {

/// Province `b` is listed as a neighbour of province `a` (raw ids).
pub open spec fn listed(adj: Seq<Seq<u32>>, a: u32, b: u32) -> bool {
    1 <= a <= adj.len() && adj[a - 1].contains(b)
}

/// No neighbour list holds 0 or the same id twice.
pub open spec fn lists_clean(adj: Seq<Seq<u32>>) -> bool {
    forall|i: int| 0 <= i < adj.len() ==> {
        &&& !(#[trigger] adj[i]).contains(0)
        &&& adj[i].no_duplicates()
    }
}

/// Raw id on the square tile `(x, y)` (0 outside the tiles).
pub open spec fn square_tile(l: MapLayout, x: int, y: int) -> u32 {
    let i = y * l.width + x;
    if 0 <= i < l.tiles@.len() { l.tiles@[i] } else { 0 }
}

/// `{p, q}` equals `{a, b}`.
pub open spec fn same_pair(p: u32, q: u32, a: u32, b: u32) -> bool {
    (p == a && q == b) || (p == b && q == a)
}

/// Tile `(x, y)` and its right or lower neighbour hold provinces `a` and `b`.
pub open spec fn square_link(l: MapLayout, a: u32, b: u32, x: int, y: int) -> bool {
    &&& 0 <= x < l.width && 0 <= y < l.height
    &&& (x + 1 < l.width && same_pair(square_tile(l, x, y), square_tile(l, x + 1, y), a, b))
        || (y + 1 < l.height && same_pair(square_tile(l, x, y), square_tile(l, x, y + 1), a, b))
}

/// Provinces `a` and `b` are distinct provinces on edge-sharing tiles.
pub open spec fn square_adjacent(l: MapLayout, a: u32, b: u32) -> bool {
    &&& a != 0 && b != 0 && a != b
    &&& exists|x: int, y: int| #[trigger] square_link(l, a, b, x, y)
}

/// Tile `(x, y)` comes before tile `(x0, y0)` in row-major scan order.
pub open spec fn scanned_before(x: int, y: int, x0: int, y0: int) -> bool {
    y < y0 || (y == y0 && x < x0)
}

/// The neighbour table of `count` provinces with no neighbours.
pub open spec fn no_links(count: u32) -> Seq<Seq<u32>> {
    Seq::new(count as nat, |i: int| Seq::<u32>::empty())
}

/// `b` appended to the neighbours of province `a`, unless `b` is 0, already listed, or
/// `a` is beyond the table.
pub open spec fn with_neighbor(adj: Seq<Seq<u32>>, a: u32, b: u32) -> Seq<Seq<u32>> {
    if b != 0 && a - 1 < adj.len() && !adj[a - 1].contains(b) {
        adj.update(a - 1, adj[a - 1].push(b))
    } else {
        adj
    }
}

/// Tiles holding `t` and `u` touch: when they are distinct provinces, each is appended
/// to the other's neighbours (`u` to `t`'s first).
pub open spec fn with_link(adj: Seq<Seq<u32>>, t: u32, u: u32) -> Seq<Seq<u32>> {
    if t != 0 && u != 0 && t != u {
        with_neighbor(with_neighbor(adj, t, u), u, t)
    } else {
        adj
    }
}

/// The links of square tile `(x, y)`: to its right neighbour, then to the one below.
pub open spec fn square_cell_scan(adj: Seq<Seq<u32>>, l: MapLayout, x: int, y: int) -> Seq<Seq<u32>> {
    let t = square_tile(l, x, y);
    let a1 = if x + 1 < l.width { with_link(adj, t, square_tile(l, x + 1, y)) } else { adj };
    if y + 1 < l.height { with_link(a1, t, square_tile(l, x, y + 1)) } else { a1 }
}

/// The links of the first `x` tiles of row `y`, left to right.
pub open spec fn square_row_scan(adj: Seq<Seq<u32>>, l: MapLayout, y: int, x: int) -> Seq<Seq<u32>>
    decreases x,
{
    if x <= 0 {
        adj
    } else {
        square_cell_scan(square_row_scan(adj, l, y, x - 1), l, x - 1, y)
    }
}

/// The neighbour table built from the first `y` rows of a square grid, row by row: each
/// list in the order its neighbours are first met.
pub open spec fn square_scan(l: MapLayout, count: u32, y: int) -> Seq<Seq<u32>>
    decreases y,
{
    if y <= 0 {
        no_links(count)
    } else {
        square_row_scan(square_scan(l, count, y - 1), l, y - 1, l.width as int)
    }
}

proof fn lemma_listed_after_add(old_adj: Seq<Seq<u32>>, new_adj: Seq<Seq<u32>>, id: u32, nb: u32)
    requires
        id != 0,
        new_adj == (if nb != 0 && id - 1 < old_adj.len() && !old_adj[id - 1].contains(nb) {
            old_adj.update(id - 1, old_adj[id - 1].push(nb))
        } else {
            old_adj
        }),
        lists_clean(old_adj),
    ensures
        forall|a: u32, b: u32| listed(new_adj, a, b) <==> (listed(old_adj, a, b)
            || (a == id && b == nb && nb != 0 && id <= old_adj.len())),
        lists_clean(new_adj),
        new_adj.len() == old_adj.len(),
{
    if nb != 0 && id - 1 < old_adj.len() && !old_adj[id - 1].contains(nb) {
        let k = id - 1;
        assert forall|a: u32, b: u32| listed(new_adj, a, b) <==> (listed(old_adj, a, b)
            || (a == id && b == nb && nb != 0 && id <= old_adj.len())) by {
            if a == id {
                assert(new_adj[k] == old_adj[k].push(nb));
                if b == nb {
                    assert(new_adj[k][old_adj[k].len() as int] == nb);
                } else if old_adj[k].contains(b) {
                    let j = choose|j: int| 0 <= j < old_adj[k].len() && old_adj[k][j] == b;
                    assert(new_adj[k][j] == b);
                } else if new_adj[k].contains(b) {
                    let j = choose|j: int| 0 <= j < new_adj[k].len() && new_adj[k][j] == b;
                    assert(old_adj[k][j] == b);
                }
            }
        }
        assert forall|i: int| 0 <= i < new_adj.len() implies {
            &&& !(#[trigger] new_adj[i]).contains(0)
            &&& new_adj[i].no_duplicates()
        } by {
            if i == k {
                assert(new_adj[i] == old_adj[k].push(nb));
                assert(!old_adj[k].contains(0));
                if new_adj[i].contains(0) {
                    let j = choose|j: int| 0 <= j < new_adj[i].len() && new_adj[i][j] == 0;
                    if j < old_adj[k].len() {
                        assert(old_adj[k][j] == 0);
                    }
                }
                assert forall|j1: int, j2: int| 0 <= j1 < new_adj[i].len() && 0 <= j2 < new_adj[i].len() && j1 != j2
                    implies new_adj[i][j1] != new_adj[i][j2] by {
                    if j1 < old_adj[k].len() && j2 < old_adj[k].len() {
                    } else if j1 < old_adj[k].len() {
                        assert(old_adj[k][j1] == new_adj[i][j1]);
                    } else {
                        assert(old_adj[k][j2] == new_adj[i][j2]);
                    }
                }
            }
        }
    }
}

/// Adds `b` to the neighbours of `a` (a != 0), recording the effect on `listed`.
fn add_link(adj: &mut ProvinceAdjacency, a: u32, b: u32)
    requires
        a != 0,
        lists_clean(old(adj)@),
    ensures
        final(adj)@ == with_neighbor(old(adj)@, a, b),
        forall|p: u32, q: u32| listed(final(adj)@, p, q) <==> (listed(old(adj)@, p, q)
            || (p == a && q == b && b != 0 && a <= old(adj)@.len())),
        lists_clean(final(adj)@),
        final(adj)@.len() == old(adj)@.len(),
{
    let pid = ProvinceId::from_raw(a);
    let ghost before = adj@;
    adj.add_neighbor(pid, b);
    proof {
        lemma_listed_after_add(before, adj@, a, b);
    }
}

/// Province adjacency of a square grid (4-connected): `b` is listed for `a` exactly when
/// `a` is a province within the count and the two are distinct provinces on
/// edge-sharing tiles. Lists hold no 0 and no repeats.
pub fn compute_adjacency_from_layout(layout: &MapLayout, province_count: u32) -> (r: ProvinceAdjacency)
    ensures
        r@.len() == province_count,
        lists_clean(r@),
        forall|a: u32, b: u32| listed(r@, a, b) <==> (a <= province_count && square_adjacent(*layout, a, b)),
        r@ == square_scan(*layout, province_count, layout.height as int),
{
    let mut adj = ProvinceAdjacency::new(province_count as usize);
    let w = layout.width;
    let h = layout.height;
    let ghost l = *layout;
    proof {
        assert forall|a: u32, b: u32| !listed(adj@, a, b) by {}
    }
    let mut y: u32 = 0;
    while y < h
        invariant
            w == l.width,
            h == l.height,
            l == *layout,
            y <= h,
            adj@.len() == province_count,
            lists_clean(adj@),
            adj@ == square_scan(l, province_count, y as int),
            forall|a: u32, b: u32| #[trigger] listed(adj@, a, b) <==> (a <= province_count && a != 0 && b != 0 && a != b
                && exists|x1: int, y1: int| #[trigger] square_link(l, a, b, x1, y1) && scanned_before(x1, y1, 0, y as int)),
        decreases h - y,
    {
        let mut x: u32 = 0;
        while x < w
            invariant
                w == l.width,
                h == l.height,
                l == *layout,
                y < h,
                x <= w,
                adj@.len() == province_count,
                lists_clean(adj@),
                adj@ == square_row_scan(square_scan(l, province_count, y as int), l, y as int, x as int),
                forall|a: u32, b: u32| #[trigger] listed(adj@, a, b) <==> (a <= province_count && a != 0 && b != 0 && a != b
                    && exists|x1: int, y1: int| #[trigger] square_link(l, a, b, x1, y1) && scanned_before(x1, y1, x as int, y as int)),
            decreases w - x,
        {
            let ghost before = adj@;
            let t = layout.get(x, y);
            let mut right: u32 = 0;
            let mut down: u32 = 0;
            if x + 1 < w {
                right = layout.get(x + 1, y);
                if t != 0 && right != 0 && t != right {
                    add_link(&mut adj, t, right);
                    add_link(&mut adj, right, t);
                }
            }
            let ghost mid = adj@;
            if y + 1 < h {
                down = layout.get(x, y + 1);
                if t != 0 && down != 0 && t != down {
                    add_link(&mut adj, t, down);
                    add_link(&mut adj, down, t);
                }
            }
            proof {
                assert(t == square_tile(l, x as int, y as int));
                assert(x + 1 < w ==> right == square_tile(l, x + 1, y as int));
                assert(y + 1 < h ==> down == square_tile(l, x as int, y + 1));
                assert forall|a: u32, b: u32| #[trigger] listed(adj@, a, b) <==> (a <= province_count && a != 0 && b != 0 && a != b
                    && exists|x1: int, y1: int| #[trigger] square_link(l, a, b, x1, y1) && scanned_before(x1, y1, x + 1, y as int)) by {
                    let now = a != 0 && b != 0 && a != b && square_link(l, a, b, x as int, y as int);
                    if listed(adj@, a, b) {
                        if listed(before, a, b) {
                            let (x1, y1) = choose|x1: int, y1: int| #[trigger] square_link(l, a, b, x1, y1) && scanned_before(x1, y1, x as int, y as int);
                            assert(square_link(l, a, b, x1, y1) && scanned_before(x1, y1, x + 1, y as int));
                        } else {
                            assert(square_link(l, a, b, x as int, y as int));
                            assert(scanned_before(x as int, y as int, x + 1, y as int));
                        }
                    }
                    if a <= province_count && a != 0 && b != 0 && a != b
                        && exists|x1: int, y1: int| #[trigger] square_link(l, a, b, x1, y1) && scanned_before(x1, y1, x + 1, y as int) {
                        let (x1, y1) = choose|x1: int, y1: int| #[trigger] square_link(l, a, b, x1, y1) && scanned_before(x1, y1, x + 1, y as int);
                        if scanned_before(x1, y1, x as int, y as int) {
                            assert(listed(before, a, b));
                        } else {
                            assert(x1 == x && y1 == y);
                        }
                    }
                }
            }
            x += 1;
        }
        proof {
            assert forall|a: u32, b: u32| #[trigger] listed(adj@, a, b) <==> (a <= province_count && a != 0 && b != 0 && a != b
                && exists|x1: int, y1: int| #[trigger] square_link(l, a, b, x1, y1) && scanned_before(x1, y1, 0, y + 1)) by {
                if a <= province_count && a != 0 && b != 0 && a != b
                    && exists|x1: int, y1: int| #[trigger] square_link(l, a, b, x1, y1) && scanned_before(x1, y1, 0, y + 1) {
                    let (x1, y1) = choose|x1: int, y1: int| #[trigger] square_link(l, a, b, x1, y1) && scanned_before(x1, y1, 0, y + 1);
                    assert(scanned_before(x1, y1, w as int, y as int));
                }
                if listed(adj@, a, b) {
                    let (x1, y1) = choose|x1: int, y1: int| #[trigger] square_link(l, a, b, x1, y1) && scanned_before(x1, y1, w as int, y as int);
                    assert(scanned_before(x1, y1, 0, y + 1));
                }
            }
        }
        y += 1;
    }
    proof {
        assert forall|a: u32, b: u32| listed(adj@, a, b) <==> (a <= province_count && square_adjacent(l, a, b)) by {
            if square_adjacent(l, a, b) {
                let (x1, y1) = choose|x1: int, y1: int| #[trigger] square_link(l, a, b, x1, y1);
                assert(scanned_before(x1, y1, 0, h as int));
            }
        }
    }
    adj
}

/// `v` holds `b` exactly when `b` is a province other than `a` on a tile pair, met in
/// row-major order before `(x, y)`, that links it to `a`.
pub open spec fn neighbors_found(l: MapLayout, a: u32, v: Seq<u32>, x: int, y: int) -> bool {
    forall|b: u32| #[trigger] v.contains(b) <==> (a != 0 && b != 0 && a != b
        && exists|x1: int, y1: int| #[trigger] square_link(l, a, b, x1, y1) && scanned_before(x1, y1, x, y))
}

/// Appends `u` to `v` when tiles holding `t` and `u` link province `a` (`t == a`) to
/// another province `u`.
fn note_neighbor(v: &mut Vec<u32>, a: u32, t: u32, u: u32)
    ensures
        final(v)@ == (if t == a && u != 0 && u != a { old(v)@.push(u) } else { old(v)@ }),
{
    if t == a && u != 0 && u != a {
        v.push(u);
    }
}

/// The provinces tile-adjacent to province `a` on a square grid (possibly repeated).
pub(crate) fn square_neighbors_of(layout: &MapLayout, a: u32) -> (r: Vec<u32>)
    ensures
        forall|b: u32| #[trigger] r@.contains(b) <==> square_adjacent(*layout, a, b),
{
    let mut out: Vec<u32> = Vec::new();
    let w = layout.width;
    let h = layout.height;
    let ghost l = *layout;
    if a == 0 {
        return out;
    }
    let mut y: u32 = 0;
    while y < h
        invariant
            w == l.width,
            h == l.height,
            l == *layout,
            a != 0,
            y <= h,
            neighbors_found(l, a, out@, 0, y as int),
        decreases h - y,
    {
        let mut x: u32 = 0;
        while x < w
            invariant
                w == l.width,
                h == l.height,
                l == *layout,
                a != 0,
                y < h,
                x <= w,
                neighbors_found(l, a, out@, x as int, y as int),
            decreases w - x,
        {
            let ghost before = out@;
            let t = layout.get(x, y);
            proof {
                assert(t == square_tile(l, x as int, y as int));
            }
            if x + 1 < w {
                let right = layout.get(x + 1, y);
                let ghost o0 = out@;
                note_neighbor(&mut out, a, t, right);
                let ghost o1 = out@;
                note_neighbor(&mut out, a, right, t);
                proof {
                    assert(right == square_tile(l, x + 1, y as int));
                    assert forall|b: u32| #[trigger] out@.contains(b) <==> (o0.contains(b)
                        || (b != 0 && b != a && same_pair(t, right, a, b))) by {
                        if o1 != o0 {
                            assert(o1 == o0.push(right));
                            if o1.contains(b) && !o0.contains(b) {
                                let k = choose|k: int| 0 <= k < o1.len() && o1[k] == b;
                                assert(k == o0.len());
                            }
                            if o0.contains(b) {
                                let k = choose|k: int| 0 <= k < o0.len() && o0[k] == b;
                                assert(o1[k] == b);
                            }
                            assert(o1[o0.len() as int] == right);
                        }
                        if out@ != o1 {
                            assert(out@ == o1.push(t));
                            if out@.contains(b) && !o1.contains(b) {
                                let k = choose|k: int| 0 <= k < out@.len() && out@[k] == b;
                                assert(k == o1.len());
                            }
                            if o1.contains(b) {
                                let k = choose|k: int| 0 <= k < o1.len() && o1[k] == b;
                                assert(out@[k] == b);
                            }
                            assert(out@[o1.len() as int] == t);
                        }
                    }
                }
            }
            let ghost mid = out@;
            if y + 1 < h {
                let down = layout.get(x, y + 1);
                let ghost o0 = out@;
                note_neighbor(&mut out, a, t, down);
                let ghost o1 = out@;
                note_neighbor(&mut out, a, down, t);
                proof {
                    assert(down == square_tile(l, x as int, y + 1));
                    assert forall|b: u32| #[trigger] out@.contains(b) <==> (o0.contains(b)
                        || (b != 0 && b != a && same_pair(t, down, a, b))) by {
                        if o1 != o0 {
                            assert(o1 == o0.push(down));
                            if o1.contains(b) && !o0.contains(b) {
                                let k = choose|k: int| 0 <= k < o1.len() && o1[k] == b;
                                assert(k == o0.len());
                            }
                            if o0.contains(b) {
                                let k = choose|k: int| 0 <= k < o0.len() && o0[k] == b;
                                assert(o1[k] == b);
                            }
                            assert(o1[o0.len() as int] == down);
                        }
                        if out@ != o1 {
                            assert(out@ == o1.push(t));
                            if out@.contains(b) && !o1.contains(b) {
                                let k = choose|k: int| 0 <= k < out@.len() && out@[k] == b;
                                assert(k == o1.len());
                            }
                            if o1.contains(b) {
                                let k = choose|k: int| 0 <= k < o1.len() && o1[k] == b;
                                assert(out@[k] == b);
                            }
                            assert(out@[o1.len() as int] == t);
                        }
                    }
                }
            }
            proof {
                assert forall|b: u32| #[trigger] out@.contains(b) <==> (before.contains(b)
                    || (b != 0 && b != a && square_link(l, a, b, x as int, y as int))) by {
                }
                assert forall|b: u32| #[trigger] out@.contains(b) <==> (a != 0 && b != 0 && a != b
                    && exists|x1: int, y1: int| #[trigger] square_link(l, a, b, x1, y1) && scanned_before(x1, y1, x + 1, y as int)) by {
                    if out@.contains(b) {
                        if before.contains(b) {
                            let (x1, y1) = choose|x1: int, y1: int| #[trigger] square_link(l, a, b, x1, y1) && scanned_before(x1, y1, x as int, y as int);
                            assert(square_link(l, a, b, x1, y1) && scanned_before(x1, y1, x + 1, y as int));
                        } else {
                            assert(scanned_before(x as int, y as int, x + 1, y as int));
                        }
                    }
                    if a != 0 && b != 0 && a != b
                        && exists|x1: int, y1: int| #[trigger] square_link(l, a, b, x1, y1) && scanned_before(x1, y1, x + 1, y as int) {
                        let (x1, y1) = choose|x1: int, y1: int| #[trigger] square_link(l, a, b, x1, y1) && scanned_before(x1, y1, x + 1, y as int);
                        if !scanned_before(x1, y1, x as int, y as int) {
                            assert(x1 == x && y1 == y);
                        }
                    }
                }
            }
            x += 1;
        }
        proof {
            assert forall|b: u32| #[trigger] out@.contains(b) <==> (a != 0 && b != 0 && a != b
                && exists|x1: int, y1: int| #[trigger] square_link(l, a, b, x1, y1) && scanned_before(x1, y1, 0, y + 1)) by {
                if a != 0 && b != 0 && a != b
                    && exists|x1: int, y1: int| #[trigger] square_link(l, a, b, x1, y1) && scanned_before(x1, y1, 0, y + 1) {
                    let (x1, y1) = choose|x1: int, y1: int| #[trigger] square_link(l, a, b, x1, y1) && scanned_before(x1, y1, 0, y + 1);
                    assert(scanned_before(x1, y1, w as int, y as int));
                }
                if out@.contains(b) {
                    let (x1, y1) = choose|x1: int, y1: int| #[trigger] square_link(l, a, b, x1, y1) && scanned_before(x1, y1, w as int, y as int);
                    assert(scanned_before(x1, y1, 0, y + 1));
                }
            }
        }
        y += 1;
    }
    proof {
        assert forall|b: u32| #[trigger] out@.contains(b) <==> square_adjacent(l, a, b) by {
            if square_adjacent(l, a, b) {
                let (x1, y1) = choose|x1: int, y1: int| #[trigger] square_link(l, a, b, x1, y1);
                assert(scanned_before(x1, y1, 0, h as int));
            }
        }
    }
    out
}

/// Adjacency of a square grid is symmetric between provinces within the count.
pub proof fn law_square_adjacency_symmetric(layout: MapLayout, province_count: u32, adj: Seq<Seq<u32>>, a: u32, b: u32)
    requires
        forall|p: u32, q: u32| listed(adj, p, q) <==> (p <= province_count && square_adjacent(layout, p, q)),
        a <= province_count,
        b <= province_count,
    ensures
        listed(adj, a, b) == listed(adj, b, a),
{
    if square_adjacent(layout, a, b) {
        let (x1, y1) = choose|x1: int, y1: int| #[trigger] square_link(layout, a, b, x1, y1);
        assert(square_link(layout, b, a, x1, y1));
    }
    if square_adjacent(layout, b, a) {
        let (x1, y1) = choose|x1: int, y1: int| #[trigger] square_link(layout, b, a, x1, y1);
        assert(square_link(layout, a, b, x1, y1));
    }
}

/// Raw id on the hex `(q, r)` (0 outside the tiles).
pub open spec fn hex_tile(l: HexMapLayout, q: int, r: int) -> u32 {
    let i = r * l.width + q;
    if 0 <= i < l.tiles@.len() { l.tiles@[i] } else { 0 }
}

/// Hex `(q, r)` holds province `a` and its `k`-th axial neighbour, inside the grid, holds `b`.
pub open spec fn hex_link(l: HexMapLayout, a: u32, b: u32, q: int, r: int, k: int) -> bool {
    &&& 0 <= q < l.width && 0 <= r < l.height && 0 <= k < 6
    &&& hex_tile(l, q, r) == a
    &&& {
        let n = hex_neighbors(q as u32, r as u32)[k];
        &&& n.0 < l.width && n.1 < l.height
        &&& hex_tile(l, n.0 as int, n.1 as int) == b
    }
}

/// Provinces `a` and `b` are distinct provinces and some hex of `a` has a neighbour of `b`.
pub open spec fn hex_adjacent(l: HexMapLayout, a: u32, b: u32) -> bool {
    &&& a != 0 && b != 0 && a != b
    &&& exists|q: int, r: int, k: int| #[trigger] hex_link(l, a, b, q, r, k)
}

/// The links of hex `(q, r)` to its first `k` axial neighbours inside the grid, in
/// order: each other province met is appended to the hex's province's neighbours.
pub open spec fn hex_cell_scan(adj: Seq<Seq<u32>>, l: HexMapLayout, q: int, r: int, k: int) -> Seq<Seq<u32>>
    decreases k,
{
    if k <= 0 {
        adj
    } else {
        let prev = hex_cell_scan(adj, l, q, r, k - 1);
        let a = hex_tile(l, q, r);
        let n = hex_neighbors(q as u32, r as u32)[k - 1];
        if a != 0 && n.0 < l.width && n.1 < l.height {
            let b = hex_tile(l, n.0 as int, n.1 as int);
            if b != 0 && b != a { with_neighbor(prev, a, b) } else { prev }
        } else {
            prev
        }
    }
}

proof fn lemma_hex_cell_scan_empty(adj: Seq<Seq<u32>>, l: HexMapLayout, q: int, r: int, k: int)
    requires
        hex_tile(l, q, r) == 0,
    ensures
        hex_cell_scan(adj, l, q, r, k) == adj,
    decreases k,
{
    if k > 0 {
        lemma_hex_cell_scan_empty(adj, l, q, r, k - 1);
    }
}

/// The links of the first `q` hexes of row `r`, left to right.
pub open spec fn hex_row_scan(adj: Seq<Seq<u32>>, l: HexMapLayout, r: int, q: int) -> Seq<Seq<u32>>
    decreases q,
{
    if q <= 0 {
        adj
    } else {
        hex_cell_scan(hex_row_scan(adj, l, r, q - 1), l, q - 1, r, 6)
    }
}

/// The neighbour table built from the first `r` rows of a hex grid, row by row: each
/// list in the order its neighbours are first met.
pub open spec fn hex_scan(l: HexMapLayout, count: u32, r: int) -> Seq<Seq<u32>>
    decreases r,
{
    if r <= 0 {
        no_links(count)
    } else {
        hex_row_scan(hex_scan(l, count, r - 1), l, r - 1, l.width as int)
    }
}

/// Province adjacency of a hex grid (6 neighbours): `b` is listed for `a` exactly when
/// `a` is a province within the count and some hex of `a` borders a hex of `b` (distinct
/// provinces). Lists hold no 0 and no repeats.
pub fn compute_adjacency_from_hex(layout: &HexMapLayout, province_count: u32) -> (res: ProvinceAdjacency)
    ensures
        res@.len() == province_count,
        lists_clean(res@),
        forall|a: u32, b: u32| listed(res@, a, b) <==> (a <= province_count && hex_adjacent(*layout, a, b)),
        res@ == hex_scan(*layout, province_count, layout.height as int),
{
    let mut adj = ProvinceAdjacency::new(province_count as usize);
    let w = layout.width;
    let h = layout.height;
    let ghost l = *layout;
    proof {
        assert forall|a: u32, b: u32| !listed(adj@, a, b) by {}
    }
    let mut r: u32 = 0;
    while r < h
        invariant
            w == l.width,
            h == l.height,
            l == *layout,
            r <= h,
            adj@.len() == province_count,
            lists_clean(adj@),
            adj@ == hex_scan(l, province_count, r as int),
            forall|a: u32, b: u32| #[trigger] listed(adj@, a, b) <==> (a <= province_count && a != 0 && b != 0 && a != b
                && exists|q1: int, r1: int, k1: int| #[trigger] hex_link(l, a, b, q1, r1, k1) && scanned_before(q1, r1, 0, r as int)),
        decreases h - r,
    {
        let mut q: u32 = 0;
        while q < w
            invariant
                w == l.width,
                h == l.height,
                l == *layout,
                r < h,
                q <= w,
                adj@.len() == province_count,
                lists_clean(adj@),
                adj@ == hex_row_scan(hex_scan(l, province_count, r as int), l, r as int, q as int),
                forall|a: u32, b: u32| #[trigger] listed(adj@, a, b) <==> (a <= province_count && a != 0 && b != 0 && a != b
                    && exists|q1: int, r1: int, k1: int| #[trigger] hex_link(l, a, b, q1, r1, k1) && scanned_before(q1, r1, q as int, r as int)),
            decreases w - q,
        {
            let a = layout.get(q, r);
            if a != 0 {
                let ns = layout.neighbors(q, r);
                let mut k: usize = 0;
                while k < 6
                    invariant
                        w == l.width,
                        h == l.height,
                        l == *layout,
                        r < h,
                        q < w,
                        a != 0,
                        a == hex_tile(l, q as int, r as int),
                        ns@ == hex_neighbors(q, r),
                        k <= 6,
                        adj@.len() == province_count,
                        lists_clean(adj@),
                        adj@ == hex_cell_scan(hex_row_scan(hex_scan(l, province_count, r as int), l, r as int, q as int),
                            l, q as int, r as int, k as int),
                        forall|p: u32, b: u32| #[trigger] listed(adj@, p, b) <==> (p <= province_count && p != 0 && b != 0 && p != b
                            && ((exists|q1: int, r1: int, k1: int| #[trigger] hex_link(l, p, b, q1, r1, k1) && scanned_before(q1, r1, q as int, r as int))
                                || (exists|k1: int| 0 <= k1 < k && #[trigger] hex_link(l, p, b, q as int, r as int, k1)))),
                    decreases 6 - k,
                {
                    let (nq, nr) = ns[k];
                    let ghost before = adj@;
                    if nq < w && nr < h {
                        let b = layout.get(nq, nr);
                        if b != 0 && b != a {
                            add_link(&mut adj, a, b);
                        }
                        proof {
                            assert(b == hex_tile(l, nq as int, nr as int));
                            assert(hex_link(l, a, b, q as int, r as int, k as int));
                        }
                    }
                    proof {
                        assert forall|p: u32, b: u32| #[trigger] listed(adj@, p, b) <==> (p <= province_count && p != 0 && b != 0 && p != b
                            && ((exists|q1: int, r1: int, k1: int| #[trigger] hex_link(l, p, b, q1, r1, k1) && scanned_before(q1, r1, q as int, r as int))
                                || (exists|k1: int| 0 <= k1 < k + 1 && #[trigger] hex_link(l, p, b, q as int, r as int, k1)))) by {
                            if exists|k1: int| 0 <= k1 < k + 1 && #[trigger] hex_link(l, p, b, q as int, r as int, k1) {
                                let k1 = choose|k1: int| 0 <= k1 < k + 1 && #[trigger] hex_link(l, p, b, q as int, r as int, k1);
                                if k1 < k {
                                } else {
                                    assert(p == a);
                                }
                            }
                            if listed(adj@, p, b) && !listed(before, p, b) {
                                assert(hex_link(l, p, b, q as int, r as int, k as int));
                            }
                        }
                    }
                    k += 1;
                }
                proof {
                    assert forall|p: u32, b: u32| #[trigger] listed(adj@, p, b) <==> (p <= province_count && p != 0 && b != 0 && p != b
                        && exists|q1: int, r1: int, k1: int| #[trigger] hex_link(l, p, b, q1, r1, k1) && scanned_before(q1, r1, q + 1, r as int)) by {
                        if exists|q1: int, r1: int, k1: int| #[trigger] hex_link(l, p, b, q1, r1, k1) && scanned_before(q1, r1, q + 1, r as int) {
                            let (q1, r1, k1) = choose|q1: int, r1: int, k1: int| #[trigger] hex_link(l, p, b, q1, r1, k1) && scanned_before(q1, r1, q + 1, r as int);
                            if !scanned_before(q1, r1, q as int, r as int) {
                                assert(q1 == q && r1 == r);
                                assert(0 <= k1 < 6 && hex_link(l, p, b, q as int, r as int, k1));
                            }
                        }
                        if exists|k1: int| 0 <= k1 < 6 && #[trigger] hex_link(l, p, b, q as int, r as int, k1) {
                            let k1 = choose|k1: int| 0 <= k1 < 6 && #[trigger] hex_link(l, p, b, q as int, r as int, k1);
                            assert(scanned_before(q as int, r as int, q + 1, r as int));
                        }
                        if exists|q1: int, r1: int, k1: int| #[trigger] hex_link(l, p, b, q1, r1, k1) && scanned_before(q1, r1, q as int, r as int) {
                            let (q1, r1, k1) = choose|q1: int, r1: int, k1: int| #[trigger] hex_link(l, p, b, q1, r1, k1) && scanned_before(q1, r1, q as int, r as int);
                            assert(scanned_before(q1, r1, q + 1, r as int));
                        }
                    }
                }
            } else {
                proof {
                    lemma_hex_cell_scan_empty(adj@, l, q as int, r as int, 6);
                    assert forall|p: u32, b: u32| #[trigger] listed(adj@, p, b) <==> (p <= province_count && p != 0 && b != 0 && p != b
                        && exists|q1: int, r1: int, k1: int| #[trigger] hex_link(l, p, b, q1, r1, k1) && scanned_before(q1, r1, q + 1, r as int)) by {
                        if exists|q1: int, r1: int, k1: int| #[trigger] hex_link(l, p, b, q1, r1, k1) && scanned_before(q1, r1, q + 1, r as int) && p != 0 {
                            let (q1, r1, k1) = choose|q1: int, r1: int, k1: int| #[trigger] hex_link(l, p, b, q1, r1, k1) && scanned_before(q1, r1, q + 1, r as int);
                            if !scanned_before(q1, r1, q as int, r as int) {
                                assert(q1 == q && r1 == r);
                                assert(hex_tile(l, q as int, r as int) == 0);
                            }
                        }
                        if exists|q1: int, r1: int, k1: int| #[trigger] hex_link(l, p, b, q1, r1, k1) && scanned_before(q1, r1, q as int, r as int) {
                            let (q1, r1, k1) = choose|q1: int, r1: int, k1: int| #[trigger] hex_link(l, p, b, q1, r1, k1) && scanned_before(q1, r1, q as int, r as int);
                            assert(scanned_before(q1, r1, q + 1, r as int));
                        }
                    }
                }
            }
            q += 1;
        }
        proof {
            assert forall|p: u32, b: u32| #[trigger] listed(adj@, p, b) <==> (p <= province_count && p != 0 && b != 0 && p != b
                && exists|q1: int, r1: int, k1: int| #[trigger] hex_link(l, p, b, q1, r1, k1) && scanned_before(q1, r1, 0, r + 1)) by {
                if exists|q1: int, r1: int, k1: int| #[trigger] hex_link(l, p, b, q1, r1, k1) && scanned_before(q1, r1, 0, r + 1) {
                    let (q1, r1, k1) = choose|q1: int, r1: int, k1: int| #[trigger] hex_link(l, p, b, q1, r1, k1) && scanned_before(q1, r1, 0, r + 1);
                    assert(scanned_before(q1, r1, w as int, r as int));
                }
                if exists|q1: int, r1: int, k1: int| #[trigger] hex_link(l, p, b, q1, r1, k1) && scanned_before(q1, r1, w as int, r as int) {
                    let (q1, r1, k1) = choose|q1: int, r1: int, k1: int| #[trigger] hex_link(l, p, b, q1, r1, k1) && scanned_before(q1, r1, w as int, r as int);
                    assert(scanned_before(q1, r1, 0, r + 1));
                }
            }
        }
        r += 1;
    }
    proof {
        assert forall|a: u32, b: u32| listed(adj@, a, b) <==> (a <= province_count && hex_adjacent(l, a, b)) by {
            if hex_adjacent(l, a, b) {
                let (q1, r1, k1) = choose|q1: int, r1: int, k1: int| #[trigger] hex_link(l, a, b, q1, r1, k1);
                assert(scanned_before(q1, r1, 0, h as int));
            }
        }
    }
    adj
}

proof fn lemma_hex_link_reverse(l: HexMapLayout, a: u32, b: u32, q: int, r: int, k: int)
    requires
        hex_link(l, a, b, q, r, k),
        a != b,
    ensures
        exists|q2: int, r2: int, k2: int| #[trigger] hex_link(l, b, a, q2, r2, k2),
{
    let n = hex_neighbors(q as u32, r as u32)[k];
    let q2 = n.0 as int;
    let r2 = n.1 as int;
    let back = hex_neighbors(n.0, n.1);
    if k == 0 {
        assert(back[3] == (q as u32, r as u32));
        assert(hex_link(l, b, a, q2, r2, 3));
    } else if k == 1 {
        if r > 0 {
            assert(back[4] == (q as u32, r as u32));
            assert(hex_link(l, b, a, q2, r2, 4));
        } else {
            assert(back[3] == (q as u32, r as u32));
            assert(hex_link(l, b, a, q2, r2, 3));
        }
    } else if k == 2 {
        if r > 0 {
            assert(back[5] == (q as u32, r as u32));
            assert(hex_link(l, b, a, q2, r2, 5));
        }
    } else if k == 3 {
        if q > 0 {
            assert(back[0] == (q as u32, r as u32));
            assert(hex_link(l, b, a, q2, r2, 0));
        }
    } else if k == 4 {
        if q > 0 {
            assert(back[1] == (q as u32, r as u32));
            assert(hex_link(l, b, a, q2, r2, 1));
        } else {
            assert(back[2] == (q as u32, r as u32));
            assert(hex_link(l, b, a, q2, r2, 2));
        }
    } else {
        assert(back[2] == (q as u32, r as u32));
        assert(hex_link(l, b, a, q2, r2, 2));
    }
}

/// Adjacency of a hex grid is symmetric between provinces within the count.
pub proof fn law_hex_adjacency_symmetric(layout: HexMapLayout, province_count: u32, adj: Seq<Seq<u32>>, a: u32, b: u32)
    requires
        forall|p: u32, q: u32| listed(adj, p, q) <==> (p <= province_count && hex_adjacent(layout, p, q)),
        a <= province_count,
        b <= province_count,
    ensures
        listed(adj, a, b) == listed(adj, b, a),
{
    if hex_adjacent(layout, a, b) {
        let (q1, r1, k1) = choose|q1: int, r1: int, k1: int| #[trigger] hex_link(layout, a, b, q1, r1, k1);
        lemma_hex_link_reverse(layout, a, b, q1, r1, k1);
    }
    if hex_adjacent(layout, b, a) {
        let (q1, r1, k1) = choose|q1: int, r1: int, k1: int| #[trigger] hex_link(layout, b, a, q1, r1, k1);
        lemma_hex_link_reverse(layout, b, a, q1, r1, k1);
    }
}


/// A polygon edge, its two end points ordered (lexicographically), so that both
/// traversal directions give the same key.
pub open spec fn ordered_edge_of(a: (i64, i64), b: (i64, i64)) -> ((i64, i64), (i64, i64)) {
    if a.0 < b.0 || (a.0 == b.0 && a.1 <= b.1) { (a, b) } else { (b, a) }
}

/// The edges of polygon `v` (each vertex to the next, the last back to the first),
/// each tagged with the polygon's province `id`.
pub open spec fn polygon_edges(id: u32, v: Seq<(i64, i64)>) -> Seq<(((i64, i64), (i64, i64)), u32)> {
    Seq::new(v.len(), |k: int| (ordered_edge_of(v[k], v[(k + 1) % (v.len() as int)]), id))
}

/// The edges of every polygon that belongs to a province (id not 0), polygon by polygon.
pub open spec fn all_polygon_edges(polys: Seq<(u32, Seq<(i64, i64)>)>) -> Seq<(((i64, i64), (i64, i64)), u32)>
    decreases polys.len(),
{
    if polys.len() == 0 {
        Seq::empty()
    } else {
        all_polygon_edges(polys.drop_last()) + if polys.last().0 == 0 {
            Seq::empty()
        } else {
            polygon_edges(polys.last().0, polys.last().1)
        }
    }
}

/// Entries `p` and `q` of `edges` are the same edge, of provinces `a` and `b`.
pub open spec fn edge_pair(edges: Seq<(((i64, i64), (i64, i64)), u32)>, a: u32, b: u32, p: int, q: int) -> bool {
    &&& 0 <= p < edges.len()
    &&& 0 <= q < edges.len()
    &&& edges[p].1 == a
    &&& edges[q].1 == b
    &&& edges[p].0 == edges[q].0
}

/// Provinces `a` and `b` are distinct provinces whose polygons share an edge.
pub open spec fn shares_edge(edges: Seq<(((i64, i64), (i64, i64)), u32)>, a: u32, b: u32) -> bool {
    &&& a != 0 && b != 0 && a != b
    &&& exists|p: int, q: int| #[trigger] edge_pair(edges, a, b, p, q)
}

/// The polygons with their vertex lists as sequences.
pub open spec fn polygon_views(polys: Seq<(u32, Vec<(i64, i64)>)>) -> Seq<(u32, Seq<(i64, i64)>)> {
    polys.map_values(|p: (u32, Vec<(i64, i64)>)| (p.0, p.1@))
}

fn same_edge(e: ((i64, i64), (i64, i64)), f: ((i64, i64), (i64, i64))) -> (r: bool)
    ensures
        r == (e == f),
{
    e.0.0 == f.0.0 && e.0.1 == f.0.1 && e.1.0 == f.1.0 && e.1.1 == f.1.1
}

fn ordered_edge(a: (i64, i64), b: (i64, i64)) -> (r: ((i64, i64), (i64, i64)))
    ensures
        r == ordered_edge_of(a, b),
{
    if a.0 < b.0 || (a.0 == b.0 && a.1 <= b.1) { (a, b) } else { (b, a) }
}

/// Province adjacency of an irregular map whose polygon vertices are already snapped to
/// integer points: `b` is listed for `a` exactly when `a` is a province within the
/// count and the polygons of the distinct provinces `a` and `b` share an edge (same
/// two end points, either direction). Lists hold no 0 and no repeats.
pub fn compute_adjacency_from_edges(polygons: &[(u32, Vec<(i64, i64)>)], province_count: u32) -> (r: ProvinceAdjacency)
    ensures
        r@.len() == province_count,
        lists_clean(r@),
        forall|a: u32, b: u32|
            listed(r@, a, b) <==> (a <= province_count && shares_edge(all_polygon_edges(polygon_views(polygons@)), a, b)),
{
    let ghost polys = polygon_views(polygons@);
    let mut edges: Vec<(((i64, i64), (i64, i64)), u32)> = Vec::new();
    let np = polygons.len();
    let mut i: usize = 0;
    while i < np
        invariant
            i <= np,
            np == polygons@.len(),
            polys == polygon_views(polygons@),
            edges@ == all_polygon_edges(polys.take(i as int)),
        decreases np - i,
    {
        let id = polygons[i].0;
        let v = &polygons[i].1;
        let nv = v.len();
        let ghost base = edges@;
        proof {
            assert(polys.take(i + 1).drop_last() =~= polys.take(i as int));
            assert(polys[i as int] == (id, v@));
        }
        if id != 0 {
            let mut k: usize = 0;
            while k < nv
                invariant
                    k <= nv,
                    nv == v@.len(),
                    id != 0,
                    edges@ == base + polygon_edges(id, v@).take(k as int),
                decreases nv - k,
            {
                let e = ordered_edge(v[k], v[(k + 1) % nv]);
                edges.push((e, id));
                proof {
                    assert(base + polygon_edges(id, v@).take(k + 1) =~= (base + polygon_edges(id, v@).take(k as int)).push((e, id)));
                }
                k += 1;
            }
            proof {
                assert(polygon_edges(id, v@).take(nv as int) =~= polygon_edges(id, v@));
            }
        } else {
            proof {
                assert(base + Seq::<(((i64, i64), (i64, i64)), u32)>::empty() =~= base);
            }
        }
        i += 1;
    }
    proof {
        assert(polys.take(np as int) =~= polys);
    }
    let ghost es = edges@;
    let m = edges.len();
    let mut adj = ProvinceAdjacency::new(province_count as usize);
    proof {
        assert forall|a: u32, b: u32| !listed(adj@, a, b) by {}
    }
    let mut p: usize = 0;
    while p < m
        invariant
            p <= m,
            m == es.len(),
            es == edges@,
            adj@.len() == province_count,
            lists_clean(adj@),
            forall|a: u32, b: u32| #[trigger] listed(adj@, a, b) <==> (a <= province_count && a != 0 && b != 0 && a != b
                && exists|p1: int, q1: int| #[trigger] edge_pair(es, a, b, p1, q1) && scanned_before(q1, p1, 0, p as int)),
        decreases m - p,
    {
        let mut q: usize = 0;
        while q < m
            invariant
                p < m,
                q <= m,
                m == es.len(),
                es == edges@,
                adj@.len() == province_count,
                lists_clean(adj@),
                forall|a: u32, b: u32| #[trigger] listed(adj@, a, b) <==> (a <= province_count && a != 0 && b != 0 && a != b
                    && exists|p1: int, q1: int| #[trigger] edge_pair(es, a, b, p1, q1) && scanned_before(q1, p1, q as int, p as int)),
            decreases m - q,
        {
            let ghost before = adj@;
            let ea = edges[p].1;
            let eb = edges[q].1;
            if ea != 0 && eb != 0 && ea != eb && same_edge(edges[p].0, edges[q].0) {
                add_link(&mut adj, ea, eb);
            }
            proof {
                assert forall|a: u32, b: u32| #[trigger] listed(adj@, a, b) <==> (a <= province_count && a != 0 && b != 0 && a != b
                    && exists|p1: int, q1: int| #[trigger] edge_pair(es, a, b, p1, q1) && scanned_before(q1, p1, q + 1, p as int)) by {
                    if listed(adj@, a, b) {
                        if listed(before, a, b) {
                            let (p1, q1) = choose|p1: int, q1: int| #[trigger] edge_pair(es, a, b, p1, q1) && scanned_before(q1, p1, q as int, p as int);
                            assert(edge_pair(es, a, b, p1, q1) && scanned_before(q1, p1, q + 1, p as int));
                        } else {
                            assert(edge_pair(es, a, b, p as int, q as int));
                            assert(scanned_before(q as int, p as int, q + 1, p as int));
                        }
                    }
                    if a <= province_count && a != 0 && b != 0 && a != b
                        && exists|p1: int, q1: int| #[trigger] edge_pair(es, a, b, p1, q1) && scanned_before(q1, p1, q + 1, p as int) {
                        let (p1, q1) = choose|p1: int, q1: int| #[trigger] edge_pair(es, a, b, p1, q1) && scanned_before(q1, p1, q + 1, p as int);
                        if scanned_before(q1, p1, q as int, p as int) {
                            assert(listed(before, a, b));
                        } else {
                            assert(p1 == p && q1 == q);
                        }
                    }
                }
            }
            q += 1;
        }
        proof {
            assert forall|a: u32, b: u32| #[trigger] listed(adj@, a, b) <==> (a <= province_count && a != 0 && b != 0 && a != b
                && exists|p1: int, q1: int| #[trigger] edge_pair(es, a, b, p1, q1) && scanned_before(q1, p1, 0, p + 1)) by {
                if a <= province_count && a != 0 && b != 0 && a != b
                    && exists|p1: int, q1: int| #[trigger] edge_pair(es, a, b, p1, q1) && scanned_before(q1, p1, 0, p + 1) {
                    let (p1, q1) = choose|p1: int, q1: int| #[trigger] edge_pair(es, a, b, p1, q1) && scanned_before(q1, p1, 0, p + 1);
                    assert(scanned_before(q1, p1, m as int, p as int));
                }
                if listed(adj@, a, b) {
                    let (p1, q1) = choose|p1: int, q1: int| #[trigger] edge_pair(es, a, b, p1, q1) && scanned_before(q1, p1, m as int, p as int);
                    assert(scanned_before(q1, p1, 0, p + 1));
                }
            }
        }
        p += 1;
    }
    proof {
        assert forall|a: u32, b: u32| listed(adj@, a, b) <==> (a <= province_count && shares_edge(es, a, b)) by {
            if shares_edge(es, a, b) {
                let (p1, q1) = choose|p1: int, q1: int| #[trigger] edge_pair(es, a, b, p1, q1);
                assert(scanned_before(q1, p1, 0, m as int));
            }
        }
    }
    adj
}

/// Adjacency through shared edges is symmetric between provinces within the count.
pub proof fn law_edge_adjacency_symmetric(
    edges: Seq<(((i64, i64), (i64, i64)), u32)>,
    province_count: u32,
    adj: Seq<Seq<u32>>,
    a: u32,
    b: u32,
)
    requires
        forall|p: u32, q: u32| listed(adj, p, q) <==> (p <= province_count && shares_edge(edges, p, q)),
        a <= province_count,
        b <= province_count,
    ensures
        listed(adj, a, b) == listed(adj, b, a),
{
    if shares_edge(edges, a, b) {
        let (p1, q1) = choose|p1: int, q1: int| #[trigger] edge_pair(edges, a, b, p1, q1);
        assert(edge_pair(edges, b, a, q1, p1));
    }
    if shares_edge(edges, b, a) {
        let (p1, q1) = choose|p1: int, q1: int| #[trigger] edge_pair(edges, b, a, p1, q1);
        assert(edge_pair(edges, a, b, q1, p1));
    }
}

} // verus!
