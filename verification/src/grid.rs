use vstd::prelude::*;

verus! {

/// View of a machine cell as a pair of mathematical integers.
pub open spec fn ipos(p: (i32, i32)) -> (int, int) {
    (p.0 as int, p.1 as int)
}

/// View of a machine pair of cells as a pair of integer pairs.
pub open spec fn ipair(e: ((i32, i32), (i32, i32))) -> ((int, int), (int, int)) {
    (ipos(e.0), ipos(e.1))
}

/// The cell view as a function value, for mapping over sequences.
pub open spec fn ipos_fn() -> spec_fn((i32, i32)) -> (int, int) {
    |q: (i32, i32)| ipos(q)
}

/// The pair view as a function value, for mapping over sequences.
pub open spec fn ipair_fn() -> spec_fn(((i32, i32), (i32, i32))) -> ((int, int), (int, int)) {
    |e: ((i32, i32), (i32, i32))| ipair(e)
}

/// A cell (i, j) lies on an x-by-y board when both coordinates are in range.
pub open spec fn spec_in_bounds(x: int, y: int, q: (int, int)) -> bool {
    0 <= q.0 < x && 0 <= q.1 < y
}

/// Two cells are Moore-adjacent: distinct and within one step in each coordinate.
pub open spec fn moore_adjacent(p: (int, int), q: (int, int)) -> bool {
    p != q && -1 <= q.0 - p.0 <= 1 && -1 <= q.1 - p.1 <= 1
}

/// A singleton sequence when the selector admits the cell, else empty.
pub open spec fn sel_cell(q: (int, int), sel: spec_fn((int, int)) -> bool) -> Seq<(int, int)> {
    if sel(q) {
        seq![q]
    } else {
        Seq::<(int, int)>::empty()
    }
}

/// The eight Moore candidates of p in the fixed angular order, restricted to
/// the cells the selector admits.  The order is the one every enumeration of
/// neighbours in this crate follows: left, down-left, down, down-right,
/// right, up-right, up, up-left.
pub open spec fn selected_neighbors(p: (int, int), sel: spec_fn((int, int)) -> bool) -> Seq<
    (int, int),
> {
    sel_cell((p.0, p.1 - 1), sel) + sel_cell((p.0 + 1, p.1 - 1), sel) + sel_cell(
        (p.0 + 1, p.1),
        sel,
    ) + sel_cell((p.0 + 1, p.1 + 1), sel) + sel_cell((p.0, p.1 + 1), sel) + sel_cell(
        (p.0 - 1, p.1 + 1),
        sel,
    ) + sel_cell((p.0 - 1, p.1), sel) + sel_cell((p.0 - 1, p.1 - 1), sel)
}

/// The selector that admits exactly the in-bounds cells.
pub open spec fn in_bounds_sel(x: int, y: int) -> spec_fn((int, int)) -> bool {
    |q: (int, int)| spec_in_bounds(x, y, q)
}

/// The in-bounds Moore neighbours of p in the fixed angular order.
pub open spec fn spec_neighbors(x: int, y: int, p: (int, int)) -> Seq<(int, int)> {
    selected_neighbors(p, in_bounds_sel(x, y))
}

/// Membership in a concatenation is membership in either part.
pub proof fn lemma_add_contains<A>(a: Seq<A>, b: Seq<A>, e: A)
    ensures
        (a + b).contains(e) <==> a.contains(e) || b.contains(e),
{
    if a.contains(e) {
        let i = choose|i: int| 0 <= i < a.len() && a[i] == e;
        assert((a + b)[i] == e);
    }
    if b.contains(e) {
        let i = choose|i: int| 0 <= i < b.len() && b[i] == e;
        assert((a + b)[a.len() + i] == e);
    }
    if (a + b).contains(e) {
        let i = choose|i: int| 0 <= i < (a + b).len() && (a + b)[i] == e;
        if i < a.len() {
            assert(a[i] == e);
        } else {
            assert(b[i - a.len()] == e);
        }
    }
}

pub proof fn lemma_sel_cell_contains(c: (int, int), sel: spec_fn((int, int)) -> bool, q: (int, int))
    ensures
        sel_cell(c, sel).contains(q) <==> (q == c && sel(c)),
{
    if q == c && sel(c) {
        assert(sel_cell(c, sel)[0] == q);
    }
    if sel_cell(c, sel).contains(q) {
        let i = choose|i: int| 0 <= i < sel_cell(c, sel).len() && sel_cell(c, sel)[i] == q;
        assert(sel(c) && i == 0);
    }
}

/// A cell stands among the selected neighbours of p exactly when it is
/// Moore-adjacent to p and admitted by the selector.
pub proof fn lemma_selected_neighbors_elems(p: (int, int), sel: spec_fn((int, int) ) -> bool)
    ensures
        forall|q: (int, int)| #[trigger]
            selected_neighbors(p, sel).contains(q) <==> (moore_adjacent(p, q) && sel(q)),
{
    let c1 = (p.0, p.1 - 1);
    let c2 = (p.0 + 1, p.1 - 1);
    let c3 = (p.0 + 1, p.1);
    let c4 = (p.0 + 1, p.1 + 1);
    let c5 = (p.0, p.1 + 1);
    let c6 = (p.0 - 1, p.1 + 1);
    let c7 = (p.0 - 1, p.1);
    let c8 = (p.0 - 1, p.1 - 1);
    let s1 = sel_cell(c1, sel);
    let s2 = sel_cell(c2, sel);
    let s3 = sel_cell(c3, sel);
    let s4 = sel_cell(c4, sel);
    let s5 = sel_cell(c5, sel);
    let s6 = sel_cell(c6, sel);
    let s7 = sel_cell(c7, sel);
    let s8 = sel_cell(c8, sel);
    assert forall|q: (int, int)| #[trigger]
        selected_neighbors(p, sel).contains(q) <==> (moore_adjacent(p, q) && sel(q)) by {
        lemma_add_contains(s1 + s2 + s3 + s4 + s5 + s6 + s7, s8, q);
        lemma_add_contains(s1 + s2 + s3 + s4 + s5 + s6, s7, q);
        lemma_add_contains(s1 + s2 + s3 + s4 + s5, s6, q);
        lemma_add_contains(s1 + s2 + s3 + s4, s5, q);
        lemma_add_contains(s1 + s2 + s3, s4, q);
        lemma_add_contains(s1 + s2, s3, q);
        lemma_add_contains(s1, s2, q);
        lemma_sel_cell_contains(c1, sel, q);
        lemma_sel_cell_contains(c2, sel, q);
        lemma_sel_cell_contains(c3, sel, q);
        lemma_sel_cell_contains(c4, sel, q);
        lemma_sel_cell_contains(c5, sel, q);
        lemma_sel_cell_contains(c6, sel, q);
        lemma_sel_cell_contains(c7, sel, q);
        lemma_sel_cell_contains(c8, sel, q);
    }
}

/// The adjacency relation is symmetric.
pub proof fn lemma_adjacency_symmetric(p: (int, int), q: (int, int))
    ensures
        moore_adjacent(p, q) <==> moore_adjacent(q, p),
{
}

/// On a board with both sides at least 2, a cell has 3 in-bounds neighbours
/// in a corner, 5 on an edge and 8 in the interior.
pub proof fn lemma_neighbor_count(x: int, y: int, p: (int, int))
    requires
        x >= 2,
        y >= 2,
        spec_in_bounds(x, y, p),
    ensures
        ({
            let rim_i = p.0 == 0 || p.0 == x - 1;
            let rim_j = p.1 == 0 || p.1 == y - 1;
            spec_neighbors(x, y, p).len() == if rim_i && rim_j {
                3int
            } else if rim_i || rim_j {
                5int
            } else {
                8int
            }
        }),
{
}

/// The cell that stands at offset k of the row-major enumeration.
pub open spec fn pos_at(y: int, k: int) -> (int, int) {
    (k / y, k % y)
}

/// The ordered row-major enumeration of the cells of an x-by-y board.
pub fn positions(x: i32, y: i32) -> (r: Vec<(i32, i32)>)
    requires
        1 <= x,
        1 <= y,
        x as int * y as int <= 0x1000_0000,
    ensures
        r@.len() == x as int * y as int,
        forall|k: int| 0 <= k < r@.len() ==> ipos(#[trigger] r@[k]) == pos_at(y as int, k),
        forall|k: int|
            0 <= k < r@.len() ==> spec_in_bounds(x as int, y as int, ipos(#[trigger] r@[k])),
{
    let mut r: Vec<(i32, i32)> = Vec::new();
    let mut i: i32 = 0;
    while i < x
        invariant
            0 <= i <= x,
            1 <= x,
            1 <= y,
            x as int * y as int <= 0x1000_0000,
            r@.len() == i as int * y as int,
            forall|k: int| 0 <= k < r@.len() ==> ipos(#[trigger] r@[k]) == pos_at(y as int, k),
            forall|k: int|
                0 <= k < r@.len() ==> spec_in_bounds(x as int, y as int, ipos(#[trigger] r@[k])),
        decreases x - i,
    {
        let mut j: i32 = 0;
        while j < y
            invariant
                0 <= i < x,
                0 <= j <= y,
                1 <= x,
                1 <= y,
                x as int * y as int <= 0x1000_0000,
                r@.len() == i as int * y as int + j as int,
                forall|k: int| 0 <= k < r@.len() ==> ipos(#[trigger] r@[k]) == pos_at(y as int, k),
                forall|k: int|
                    0 <= k < r@.len() ==> spec_in_bounds(
                        x as int,
                        y as int,
                        ipos(#[trigger] r@[k]),
                    ),
            decreases y - j,
        {
            proof {
                assert((i as int * y as int + j as int) < x as int * y as int) by (nonlinear_arith)
                    requires
                        0 <= i < x,
                        0 <= j < y,
                ;
                vstd::arithmetic::div_mod::lemma_fundamental_div_mod_converse(
                    i as int * y as int + j as int,
                    y as int,
                    i as int,
                    j as int,
                );
            }
            r.push((i, j));
            j = j + 1;
        }
        proof {
            assert((i as int + 1) * y as int == i as int * y as int + y as int)
                by (nonlinear_arith);
        }
        i = i + 1;
    }
    proof {
        assert(i as int * y as int == x as int * y as int);
    }
    r
}

/// Exec test of cell membership on the board.
pub fn in_bounds(x: i32, y: i32, q: (i32, i32)) -> (r: bool)
    ensures
        r == spec_in_bounds(x as int, y as int, ipos(q)),
{
    0 <= q.0 && q.0 < x && 0 <= q.1 && q.1 < y
}

/// The in-bounds Moore neighbours of p, in the fixed angular order.
pub fn cell_neighbors(x: i32, y: i32, p: (i32, i32)) -> (r: Vec<(i32, i32)>)
    requires
        1 <= x,
        1 <= y,
        spec_in_bounds(x as int, y as int, ipos(p)),
    ensures
        r@.map_values(ipos_fn()) == spec_neighbors(x as int, y as int, ipos(p)),
{
    let ghost sel = in_bounds_sel(x as int, y as int);
    let ghost f = ipos_fn();
    let mut r: Vec<(i32, i32)> = Vec::new();
    let c1 = (p.0, p.1 - 1);
    let c2 = (p.0 + 1, p.1 - 1);
    let c3 = (p.0 + 1, p.1);
    let c4 = (p.0 + 1, p.1 + 1);
    let c5 = (p.0, p.1 + 1);
    let c6 = (p.0 - 1, p.1 + 1);
    let c7 = (p.0 - 1, p.1);
    let c8 = (p.0 - 1, p.1 - 1);
    if in_bounds(x, y, c1) {
        r.push(c1);
    }
    proof {
        assert(r@.map_values(f) =~= sel_cell(ipos(c1), sel));
    }
    if in_bounds(x, y, c2) {
        r.push(c2);
    }
    proof {
        assert(r@.map_values(f) =~= sel_cell(ipos(c1), sel) + sel_cell(ipos(c2), sel));
    }
    if in_bounds(x, y, c3) {
        r.push(c3);
    }
    proof {
        assert(r@.map_values(f) =~= sel_cell(ipos(c1), sel) + sel_cell(ipos(c2), sel) + sel_cell(
            ipos(c3),
            sel,
        ));
    }
    if in_bounds(x, y, c4) {
        r.push(c4);
    }
    proof {
        assert(r@.map_values(f) =~= sel_cell(ipos(c1), sel) + sel_cell(ipos(c2), sel) + sel_cell(
            ipos(c3),
            sel,
        ) + sel_cell(ipos(c4), sel));
    }
    if in_bounds(x, y, c5) {
        r.push(c5);
    }
    proof {
        assert(r@.map_values(f) =~= sel_cell(ipos(c1), sel) + sel_cell(ipos(c2), sel) + sel_cell(
            ipos(c3),
            sel,
        ) + sel_cell(ipos(c4), sel) + sel_cell(ipos(c5), sel));
    }
    if in_bounds(x, y, c6) {
        r.push(c6);
    }
    proof {
        assert(r@.map_values(f) =~= sel_cell(ipos(c1), sel) + sel_cell(ipos(c2), sel) + sel_cell(
            ipos(c3),
            sel,
        ) + sel_cell(ipos(c4), sel) + sel_cell(ipos(c5), sel) + sel_cell(ipos(c6), sel));
    }
    if in_bounds(x, y, c7) {
        r.push(c7);
    }
    proof {
        assert(r@.map_values(f) =~= sel_cell(ipos(c1), sel) + sel_cell(ipos(c2), sel) + sel_cell(
            ipos(c3),
            sel,
        ) + sel_cell(ipos(c4), sel) + sel_cell(ipos(c5), sel) + sel_cell(ipos(c6), sel) + sel_cell(
            ipos(c7),
            sel,
        ));
    }
    if in_bounds(x, y, c8) {
        r.push(c8);
    }
    proof {
        assert(r@.map_values(f) =~= sel_cell(ipos(c1), sel) + sel_cell(ipos(c2), sel) + sel_cell(
            ipos(c3),
            sel,
        ) + sel_cell(ipos(c4), sel) + sel_cell(ipos(c5), sel) + sel_cell(ipos(c6), sel) + sel_cell(
            ipos(c7),
            sel,
        ) + sel_cell(ipos(c8), sel));
        assert(r@.map_values(f) =~= spec_neighbors(x as int, y as int, ipos(p)));
    }
    r
}

/// The pairs made of one source cell and each of its listed neighbours.
pub open spec fn pair_with(p: (int, int), qs: Seq<(int, int)>) -> Seq<((int, int), (int, int))> {
    qs.map_values(|q: (int, int)| (p, q))
}

/// Every directed in-bounds Moore pair of the first n row-major cells,
/// sources in row-major order, targets in the fixed angular order.
pub open spec fn spec_all_pairs(x: int, y: int, n: int) -> Seq<((int, int), (int, int))>
    decreases n,
{
    if n <= 0 {
        Seq::empty()
    } else {
        spec_all_pairs(x, y, n - 1) + pair_with(
            pos_at(y, n - 1),
            spec_neighbors(x, y, pos_at(y, n - 1)),
        )
    }
}

/// All directed in-bounds Moore pairs of the board, in the enumeration
/// order that the search's visitation contract depends on.
pub fn neighboring_indices(x: i32, y: i32) -> (r: Vec<((i32, i32), (i32, i32))>)
    requires
        1 <= x,
        1 <= y,
        x as int * y as int <= 0x1000_0000,
    ensures
        r@.map_values(ipair_fn()) == spec_all_pairs(x as int, y as int, x as int * y as int),
        r@.len() == 0 <==> x as int * y as int == 1,
{
    let ps = positions(x, y);
    let mut r: Vec<((i32, i32), (i32, i32))> = Vec::new();
    let mut n: usize = 0;
    while n < ps.len()
        invariant
            1 <= x,
            1 <= y,
            x as int * y as int <= 0x1000_0000,
            ps@.len() == x as int * y as int,
            forall|k: int| 0 <= k < ps@.len() ==> ipos(#[trigger] ps@[k]) == pos_at(y as int, k),
            forall|k: int|
                0 <= k < ps@.len() ==> spec_in_bounds(x as int, y as int, ipos(#[trigger] ps@[k])),
            0 <= n <= ps@.len(),
            r@.map_values(ipair_fn()) == spec_all_pairs(x as int, y as int, n as int),
        decreases ps@.len() - n,
    {
        let p = ps[n];
        let nb = cell_neighbors(x, y, p);
        let ghost nbs = spec_neighbors(x as int, y as int, ipos(p));
        let mut m: usize = 0;
        while m < nb.len()
            invariant
                0 <= m <= nb@.len(),
                nb@.map_values(ipos_fn()) == nbs,
                r@.map_values(ipair_fn()) == spec_all_pairs(x as int, y as int, n as int) + pair_with(
                    ipos(p),
                    nbs.take(m as int),
                ),
            decreases nb@.len() - m,
        {
            let ghost prevv = r@;
            let ghost prevm = r@.map_values(ipair_fn());
            let q = nb[m];
            r.push((p, q));
            proof {
                assert(nb@.map_values(ipos_fn())[m as int] == ipos(q));
                assert(nbs[m as int] == ipos(q));
                assert(r@ == prevv.push((p, q)));
                assert forall|ii: int| 0 <= ii < r@.len() implies r@.map_values(ipair_fn())[ii]
                    == prevm.push(ipair((p, q)))[ii] by {
                    if ii < prevv.len() {
                        assert(r@[ii] == prevv[ii]);
                        assert(prevm[ii] == ipair_fn()(prevv[ii]));
                    } else {
                        assert(r@[ii] == (p, q));
                    }
                }
                assert(r@.map_values(ipair_fn()) =~= prevm.push(ipair((p, q))));
                assert(pair_with(ipos(p), nbs.take(m as int + 1)) =~= pair_with(
                    ipos(p),
                    nbs.take(m as int),
                ).push((ipos(p), ipos(q))));
                assert(spec_all_pairs(x as int, y as int, n as int) + pair_with(
                    ipos(p),
                    nbs.take(m as int),
                ).push((ipos(p), ipos(q))) =~= (spec_all_pairs(x as int, y as int, n as int)
                    + pair_with(ipos(p), nbs.take(m as int))).push((ipos(p), ipos(q))));
                assert(r@.map_values(ipair_fn()) =~= spec_all_pairs(x as int, y as int, n as int)
                    + pair_with(ipos(p), nbs.take(m as int + 1)));
            }
            m = m + 1;
        }
        proof {
            assert(nbs.take(nb@.len() as int) =~= nbs);
            assert(r@.map_values(ipair_fn()) =~= spec_all_pairs(x as int, y as int, n as int + 1));
        }
        n = n + 1;
    }
    proof {
        lemma_all_pairs_elems(x as int, y as int, x as int * y as int);
        if x as int * y as int == 1 {
            assert(x == 1 && y == 1) by (nonlinear_arith)
                requires
                    1 <= x,
                    1 <= y,
                    x as int * y as int == 1,
            ;
            if r@.len() > 0 {
                let e = r@.map_values(ipair_fn())[0];
                assert(spec_all_pairs(x as int, y as int, x as int * y as int).contains(e));
                assert(spec_in_bounds(x as int, y as int, e.0) && spec_in_bounds(
                    x as int,
                    y as int,
                    e.1,
                ) && moore_adjacent(e.0, e.1));
                assert(e.0 == (0int, 0int) && e.1 == (0int, 0int));
            }
        } else {
            assert(x as int * y as int >= 1) by (nonlinear_arith)
                requires
                    1 <= x,
                    1 <= y,
            ;
            lemma_some_pair_exists(x as int, y as int);
            let e = choose|e: ((int, int), (int, int))| #[trigger]
                spec_all_pairs(x as int, y as int, x as int * y as int).contains(e);
            assert(r@.map_values(ipair_fn()).len() == spec_all_pairs(
                x as int,
                y as int,
                x as int * y as int,
            ).len());
        }
    }
    r
}

/// Each cell of the row-major enumeration lies on the board, and each cell
/// of the board has a place in the enumeration.
pub proof fn lemma_pos_at_bounds(x: int, y: int, k: int)
    requires
        1 <= x,
        1 <= y,
        0 <= k < x * y,
    ensures
        spec_in_bounds(x, y, pos_at(y, k)),
{
    vstd::arithmetic::div_mod::lemma_fundamental_div_mod(k, y);
    vstd::arithmetic::div_mod::lemma_mod_bound(k, y);
    let q = k / y;
    let r = k % y;
    assert(q >= 0) by (nonlinear_arith)
        requires
            k == y * q + r,
            0 <= r < y,
            0 <= k,
    ;
    assert(q < x) by (nonlinear_arith)
        requires
            k == y * q + r,
            0 <= r < y,
            k < x * y,
    ;
}

/// The row-major offset of an in-bounds cell.
pub proof fn lemma_pos_at_inverse(x: int, y: int, p: (int, int))
    requires
        1 <= x,
        1 <= y,
        spec_in_bounds(x, y, p),
    ensures
        0 <= p.0 * y + p.1 < x * y,
        pos_at(y, p.0 * y + p.1) == p,
{
    assert(0 <= p.0 * y + p.1 < x * y) by (nonlinear_arith)
        requires
            0 <= p.0 < x,
            0 <= p.1 < y,
    ;
    vstd::arithmetic::div_mod::lemma_fundamental_div_mod_converse(p.0 * y + p.1, y, p.0, p.1);
}

/// A directed pair stands in the enumeration exactly when both cells are in
/// bounds, adjacent, and the source is among the first n cells.
pub proof fn lemma_all_pairs_elems(x: int, y: int, n: int)
    requires
        1 <= x,
        1 <= y,
        n <= x * y,
    ensures
        forall|e: ((int, int), (int, int))| #[trigger]
            spec_all_pairs(x, y, n).contains(e) <==> (spec_in_bounds(x, y, e.0) && spec_in_bounds(
                x,
                y,
                e.1,
            ) && moore_adjacent(e.0, e.1) && e.0.0 * y + e.0.1 < n),
    decreases n,
{
    if n <= 0 {
        assert forall|e: ((int, int), (int, int))|
            !spec_all_pairs(x, y, n).contains(e) by {
            if spec_all_pairs(x, y, n).contains(e) {
                let i = choose|i: int|
                    0 <= i < spec_all_pairs(x, y, n).len() && spec_all_pairs(x, y, n)[i] == e;
            }
        }
    } else {
        lemma_all_pairs_elems(x, y, n - 1);
        let p = pos_at(y, n - 1);
        let nbs = spec_neighbors(x, y, p);
        let tail = pair_with(p, nbs);
        lemma_pos_at_bounds(x, y, n - 1);
        lemma_selected_neighbors_elems(p, in_bounds_sel(x, y));
        vstd::arithmetic::div_mod::lemma_fundamental_div_mod(n - 1, y);
        assert(p.0 * y == y * p.0) by (nonlinear_arith);
        assert(p.0 * y + p.1 == n - 1);
        assert forall|e: ((int, int), (int, int))| #[trigger]
            spec_all_pairs(x, y, n).contains(e) <==> (spec_in_bounds(x, y, e.0) && spec_in_bounds(
                x,
                y,
                e.1,
            ) && moore_adjacent(e.0, e.1) && e.0.0 * y + e.0.1 < n) by {
            lemma_add_contains(spec_all_pairs(x, y, n - 1), tail, e);
            lemma_pos_at_inverse(x, y, p);
            if tail.contains(e) {
                let i = choose|i: int| 0 <= i < tail.len() && tail[i] == e;
                assert(e == (p, nbs[i]));
                assert(nbs.contains(nbs[i]));
            }
            if spec_in_bounds(x, y, e.0) && spec_in_bounds(x, y, e.1) && moore_adjacent(e.0, e.1)
                && e.0.0 * y + e.0.1 < n {
                lemma_pos_at_inverse(x, y, e.0);
                if e.0.0 * y + e.0.1 == n - 1 {
                    assert(e.0 == p);
                    assert(nbs.contains(e.1));
                    let i = choose|i: int| 0 <= i < nbs.len() && nbs[i] == e.1;
                    assert(tail[i] == e);
                    assert(tail.contains(e));
                }
            }
        }
    }
}

/// A board with more than one cell has at least one adjacent pair.
pub proof fn lemma_some_pair_exists(x: int, y: int)
    requires
        1 <= x,
        1 <= y,
        x * y > 1,
    ensures
        exists|e: ((int, int), (int, int))| #[trigger]
            spec_all_pairs(x, y, x * y).contains(e),
{
    lemma_all_pairs_elems(x, y, x * y);
    if x >= 2 {
        let e = (((0int, 0int)), ((1int, 0int)));
        assert(e.0.0 * y + e.0.1 == 0);
        assert(0 < x * y) by (nonlinear_arith)
            requires
                1 <= x,
                1 <= y,
        ;
        assert(spec_all_pairs(x, y, x * y).contains(e));
    } else {
        assert(y >= 2);
        let e = (((0int, 0int)), ((0int, 1int)));
        assert(e.0.0 * y + e.0.1 == 0);
        assert(0 < x * y) by (nonlinear_arith)
            requires
                1 <= x,
                1 <= y,
        ;
        assert(spec_all_pairs(x, y, x * y).contains(e));
    }
}

} // verus!
