use vstd::prelude::*;
use crate::dict::has_prefix_in;
use crate::dict::trie_has_prefix;
use crate::dict::trie_is_word;
use crate::dict::trie_words;
use crate::graph::build_graph;
use crate::graph::cell_index;
use crate::graph::edge_between;
use crate::graph::graph_edges;
use crate::graph::graph_neighbors;
use crate::graph::graph_nodes;
use crate::graph::lemma_index_edge_iff;
use crate::graph::node_index_of;
use crate::graph::spec_index_edges;
use crate::grid::in_bounds;
use crate::grid::ipos;
use crate::grid::lemma_pos_at_inverse;
use crate::grid::lemma_selected_neighbors_elems;
use crate::grid::moore_adjacent;
use crate::grid::pos_at;
use crate::grid::positions;
use crate::grid::sel_cell;
use crate::grid::selected_neighbors;
use crate::grid::spec_in_bounds;
use crate::path::PathComponent;
use crate::path::chars_to_string;
use crate::path::extend;
use petgraph::Undirected;
use petgraph::graph::Graph;
use radix_trie::Trie;
use std::rc::Rc;

verus! {

/// A well-formed x-by-y character board.
pub open spec fn grid_wf(gv: Seq<Seq<char>>, x: int, y: int) -> bool {
    gv.len() == x && forall|i: int| 0 <= i < x ==> (#[trigger] gv[i]).len() == y
}

/// The character the board holds at a cell.
pub open spec fn grid_at(gv: Seq<Seq<char>>, p: (int, int)) -> char {
    gv[p.0][p.1]
}

/// A valid search path: at least one cell, every cell on the board, every
/// character read off the board, consecutive cells Moore-adjacent, and no
/// cell visited twice.
pub open spec fn path_cells_ok(
    gv: Seq<Seq<char>>,
    x: int,
    y: int,
    ps: Seq<(int, int)>,
    cs: Seq<char>,
) -> bool {
    &&& ps.len() == cs.len()
    &&& ps.len() >= 1
    &&& forall|k: int| 0 <= k < ps.len() ==> spec_in_bounds(x, y, #[trigger] ps[k])
    &&& forall|k: int| 0 <= k < ps.len() ==> #[trigger] cs[k] == grid_at(gv, ps[k])
    &&& forall|k: int| 0 <= k < ps.len() - 1 ==> moore_adjacent(#[trigger] ps[k], ps[k + 1])
    &&& forall|k1: int, k2: int|
        0 <= k1 < k2 < ps.len() ==> #[trigger] ps[k1] != #[trigger] ps[k2]
}

/// The admission test of the search: a neighbour cell may extend a path
/// when it is on the board, not yet visited, and the extended string is
/// still a prefix of some dictionary word.
pub open spec fn admissible_sel(
    gv: Seq<Seq<char>>,
    x: int,
    y: int,
    words: Set<Seq<char>>,
    ps: Seq<(int, int)>,
    cs: Seq<char>,
) -> spec_fn((int, int)) -> bool {
    |q: (int, int)|
        spec_in_bounds(x, y, q) && !ps.contains(q) && has_prefix_in(
            words,
            cs.push(grid_at(gv, q)),
        )
}

/// The admissible extensions of a path, in the fixed angular order of the
/// neighbour enumeration.
pub open spec fn spec_cands(
    gv: Seq<Seq<char>>,
    x: int,
    y: int,
    words: Set<Seq<char>>,
    ps: Seq<(int, int)>,
    cs: Seq<char>,
) -> Seq<(int, int)> {
    selected_neighbors(ps.last(), admissible_sel(gv, x, y, words, ps, cs))
}

/// The cell a candidate path ends on, as a function value.
pub open spec fn cand_pos_fn() -> spec_fn(Rc<PathComponent>) -> (int, int) {
    |pc: Rc<PathComponent>| pc.spec_positions().last()
}

/// Every admissible extension of a valid path is again a valid path, joined
/// to it by one Moore step onto a fresh cell whose extended string some
/// dictionary word still extends.
pub proof fn lemma_candidate_extends_wf(
    gv: Seq<Seq<char>>,
    x: int,
    y: int,
    words: Set<Seq<char>>,
    ps: Seq<(int, int)>,
    cs: Seq<char>,
    q: (int, int),
)
    requires
        path_cells_ok(gv, x, y, ps, cs),
        spec_cands(gv, x, y, words, ps, cs).contains(q),
    ensures
        path_cells_ok(gv, x, y, ps.push(q), cs.push(grid_at(gv, q))),
        moore_adjacent(ps.last(), q),
        !ps.contains(q),
        has_prefix_in(words, cs.push(grid_at(gv, q))),
{
    lemma_selected_neighbors_elems(ps.last(), admissible_sel(gv, x, y, words, ps, cs));
    let ps2 = ps.push(q);
    let cs2 = cs.push(grid_at(gv, q));
    assert(ps2.last() == q);
    assert forall|k1: int, k2: int| 0 <= k1 < k2 < ps2.len() implies (#[trigger] ps2[k1])
        != #[trigger] ps2[k2] by {
        if k2 == ps2.len() - 1 {
            if ps2[k1] == q {
                assert(ps[k1] == q);
            }
        }
    }
    assert(ps[ps.len() - 1] == ps.last());
}

/// Powers of nine: one more than the widest possible expansion of a path.
pub open spec fn pow9(n: nat) -> nat
    decreases n,
{
    if n == 0 {
        1nat
    } else {
        9 * pow9((n - 1) as nat)
    }
}

pub proof fn lemma_pow9_pos(n: nat)
    ensures
        pow9(n) >= 1,
    decreases n,
{
    if n > 0 {
        lemma_pow9_pos((n - 1) as nat);
    }
}

/// A self-avoiding path over an x-by-y board covers at most x·y cells.
pub proof fn lemma_path_len_bound(x: int, y: int, ps: Seq<(int, int)>)
    requires
        1 <= x,
        1 <= y,
        forall|k: int| 0 <= k < ps.len() ==> spec_in_bounds(x, y, #[trigger] ps[k]),
        forall|k1: int, k2: int|
            0 <= k1 < k2 < ps.len() ==> #[trigger] ps[k1] != #[trigger] ps[k2],
    ensures
        ps.len() <= x * y,
{
    broadcast use vstd::set::group_set_axioms;

    let f = |p: (int, int)| cell_index(y, p);
    let is = ps.map_values(f);
    assert forall|i: int, j: int|
        0 <= i < is.len() && 0 <= j < is.len() && i != j implies is[i] != is[j] by {
        lemma_pos_at_inverse(x, y, ps[i]);
        lemma_pos_at_inverse(x, y, ps[j]);
        if i < j {
            assert(ps[i] != ps[j]);
        } else {
            assert(ps[j] != ps[i]);
        }
    }
    assert(is.no_duplicates());
    is.unique_seq_to_set();
    assert(is.to_set().subset_of(vstd::set_lib::set_int_range(0, x * y))) by {
        assert forall|e: int| is.to_set().contains(e) implies vstd::set_lib::set_int_range(
            0,
            x * y,
        ).contains(e) by {
            let i = choose|i: int| 0 <= i < is.len() && is[i] == e;
            lemma_pos_at_inverse(x, y, ps[i]);
        }
    }
    vstd::set_lib::lemma_int_range(0, x * y);
    vstd::set_lib::lemma_len_subset(is.to_set(), vstd::set_lib::set_int_range(0, x * y));
}

/// Every consecutive pair of cells on a valid search path is joined by an
/// edge of the cell graph, and no cell repeats: the walks the search
/// produces are graph walks and self-avoiding.
pub proof fn lemma_path_is_graph_walk(
    gv: Seq<Seq<char>>,
    x: int,
    y: int,
    ps: Seq<(int, int)>,
    cs: Seq<char>,
)
    requires
        1 <= x,
        1 <= y,
        path_cells_ok(gv, x, y, ps, cs),
    ensures
        forall|k: int|
            0 <= k < ps.len() - 1 ==> edge_between(
                spec_index_edges(x, y),
                cell_index(y, #[trigger] ps[k]) as nat,
                cell_index(y, ps[k + 1]) as nat,
            ),
        forall|k1: int, k2: int|
            0 <= k1 < k2 < ps.len() ==> #[trigger] ps[k1] != #[trigger] ps[k2],
{
    assert forall|k: int| 0 <= k < ps.len() - 1 implies edge_between(
        spec_index_edges(x, y),
        cell_index(y, #[trigger] ps[k]) as nat,
        cell_index(y, ps[k + 1]) as nat,
    ) by {
        lemma_index_edge_iff(x, y, ps[k], ps[k + 1]);
    }
}

/// Linear scan for a node index among the graph's answer.
fn usize_in(v: &Vec<usize>, t: usize) -> (r: bool)
    ensures
        r == v@.contains(t),
{
    let mut k: usize = 0;
    while k < v.len()
        invariant
            0 <= k <= v@.len(),
            forall|i: int| 0 <= i < k ==> v@[i] != t,
        decreases v@.len() - k,
    {
        if v[k] == t {
            return true;
        }
        k = k + 1;
    }
    proof {
        if v@.contains(t) {
            let i = choose|i: int| 0 <= i < v@.len() && v@[i] == t;
        }
    }
    false
}

/// The character the board holds at an in-bounds cell.
fn grid_char(grid: &Vec<Vec<char>>, x: i32, y: i32, q: (i32, i32)) -> (c: char)
    requires
        grid_wf(grid.deep_view(), x as int, y as int),
        spec_in_bounds(x as int, y as int, ipos(q)),
    ensures
        c == grid_at(grid.deep_view(), ipos(q)),
{
    proof {
        assert(grid.deep_view()[q.0 as int] == grid@[q.0 as int]@);
    }
    let row = &grid[q.0 as usize];
    let c = row[q.1 as usize];
    c
}

/// Whether the path has already visited a cell.
fn path_visits(current_path: &Rc<PathComponent>, q: (i32, i32)) -> (r: bool)
    ensures
        r == current_path.spec_positions().contains(ipos(q)),
{
    let v = current_path.positions_so_far();
    let ghost ps = current_path.spec_positions();
    let mut k: usize = 0;
    while k < v.len()
        invariant
            ps == current_path.spec_positions(),
            v@.len() == ps.len(),
            forall|i: int| 0 <= i < v@.len() ==> ipos(#[trigger] v@[i]) == ps[v@.len() - 1 - i],
            0 <= k <= v@.len(),
            forall|i: int| 0 <= i < k ==> ipos(#[trigger] v@[i]) != ipos(q),
        decreases v@.len() - k,
    {
        let c = v[k];
        if c.0 == q.0 && c.1 == q.1 {
            proof {
                assert(ps[v@.len() - 1 - k] == ipos(q));
                assert(ps.contains(ipos(q)));
            }
            return true;
        }
        k = k + 1;
    }
    proof {
        if ps.contains(ipos(q)) {
            let i = choose|i: int| 0 <= i < ps.len() && ps[i] == ipos(q);
            assert(ipos(v@[ps.len() - 1 - i]) == ps[i]);
        }
    }
    false
}

/// Test one neighbour candidate of the current path, consulting the cell
/// graph for adjacency, and extend the path onto it when it is admissible.
fn try_extend(
    grid: &Vec<Vec<char>>,
    trie: &Trie<String, ()>,
    current_path: &Rc<PathComponent>,
    nbv: &Vec<usize>,
    x: i32,
    y: i32,
    q: (i32, i32),
) -> (o: Option<Rc<PathComponent>>)
    requires
        1 <= x,
        1 <= y,
        x as int * y as int <= 0x0800_0000,
        grid_wf(grid.deep_view(), x as int, y as int),
        path_cells_ok(
            grid.deep_view(),
            x as int,
            y as int,
            current_path.spec_positions(),
            current_path.spec_chars(),
        ),
        moore_adjacent(current_path.spec_positions().last(), ipos(q)),
        forall|m: usize|
            #[trigger] nbv@.contains(m) <==> edge_between(
                spec_index_edges(x as int, y as int),
                cell_index(y as int, current_path.spec_positions().last()) as nat,
                m as nat,
            ),
    ensures
        ({
            let gv = grid.deep_view();
            let ps = current_path.spec_positions();
            let cs = current_path.spec_chars();
            let sel = admissible_sel(gv, x as int, y as int, trie_words(*trie), ps, cs);
            match o {
                Option::Some(pc) => sel(ipos(q)) && pc.spec_positions() == ps.push(ipos(q))
                    && pc.spec_chars() == cs.push(grid_at(gv, ipos(q))),
                Option::None => !sel(ipos(q)),
            }
        }),
{
    proof {
        current_path.lemma_lens();
        current_path.lemma_ends();
        assert(spec_in_bounds(
            x as int,
            y as int,
            current_path.spec_positions()[current_path.spec_positions().len() - 1],
        ));
    }
    if !in_bounds(x, y, q) {
        return Option::None;
    }
    let ghost last = current_path.spec_positions().last();
    let qi = node_index_of(x, y, q);
    if !usize_in(nbv, qi) {
        proof {
            lemma_index_edge_iff(x as int, y as int, last, ipos(q));
            assert(nbv@.contains(qi));
            assert(false);
        }
        return Option::None;
    }
    if path_visits(current_path, q) {
        return Option::None;
    }
    let qc = grid_char(grid, x, y, q);
    let mut cv = current_path.chars_vec();
    cv.push(qc);
    let cand = chars_to_string(&cv);
    if !trie_has_prefix(trie, &cand) {
        return Option::None;
    }
    Option::Some(extend(current_path, q, qc))
}

/// Compute the admissible extensions of the current path, in the fixed
/// angular enumeration order: for each neighbour the cell graph confirms,
/// keep it when it is unvisited and the grown string still begins some
/// dictionary word, and allocate one shared path link for it.
#[verifier::rlimit(100)]
pub fn build_to_visit(
    grid: &Vec<Vec<char>>,
    trie: &Trie<String, ()>,
    current_path: &Rc<PathComponent>,
    graph: &Graph<(), (), Undirected, u32>,
    x: i32,
    y: i32,
) -> (r: Vec<Rc<PathComponent>>)
    requires
        1 <= x,
        1 <= y,
        x as int * y as int <= 0x0800_0000,
        grid_wf(grid.deep_view(), x as int, y as int),
        graph_nodes(*graph) == x as int * y as int,
        graph_edges(*graph) == spec_index_edges(x as int, y as int),
        path_cells_ok(
            grid.deep_view(),
            x as int,
            y as int,
            current_path.spec_positions(),
            current_path.spec_chars(),
        ),
    ensures
        ({
            let gv = grid.deep_view();
            let ps = current_path.spec_positions();
            let cs = current_path.spec_chars();
            let cands = spec_cands(gv, x as int, y as int, trie_words(*trie), ps, cs);
            r@.map_values(cand_pos_fn()) == cands && forall|k: int|
                0 <= k < r@.len() ==> (#[trigger] r@[k]).spec_positions() == ps.push(cands[k])
                    && r@[k].spec_chars() == cs.push(grid_at(gv, cands[k]))
        }),
{
    proof {
        current_path.lemma_lens();
        current_path.lemma_ends();
        assert(spec_in_bounds(
            x as int,
            y as int,
            current_path.spec_positions()[current_path.spec_positions().len() - 1],
        ));
    }
    let ghost gv = grid.deep_view();
    let ghost ps = current_path.spec_positions();
    let ghost cs = current_path.spec_chars();
    let ghost sel = admissible_sel(gv, x as int, y as int, trie_words(*trie), ps, cs);
    let p = current_path.position;
    let pi = node_index_of(x, y, p);
    let nbv = graph_neighbors(graph, pi);
    let mut r: Vec<Rc<PathComponent>> = Vec::new();
    let c1 = (p.0, p.1 - 1);
    let c2 = (p.0 + 1, p.1 - 1);
    let c3 = (p.0 + 1, p.1);
    let c4 = (p.0 + 1, p.1 + 1);
    let c5 = (p.0, p.1 + 1);
    let c6 = (p.0 - 1, p.1 + 1);
    let c7 = (p.0 - 1, p.1);
    let c8 = (p.0 - 1, p.1 - 1);
    let ghost t1 = sel_cell(ipos(c1), sel);
    let ghost t2 = t1 + sel_cell(ipos(c2), sel);
    let ghost t3 = t2 + sel_cell(ipos(c3), sel);
    let ghost t4 = t3 + sel_cell(ipos(c4), sel);
    let ghost t5 = t4 + sel_cell(ipos(c5), sel);
    let ghost t6 = t5 + sel_cell(ipos(c6), sel);
    let ghost t7 = t6 + sel_cell(ipos(c7), sel);
    let ghost t8 = t7 + sel_cell(ipos(c8), sel);
    if let Option::Some(pc) = try_extend(grid, trie, current_path, &nbv, x, y, c1) {
        r.push(pc);
    }
    proof {
        assert(r@.map_values(cand_pos_fn()) =~= t1);
        assert(forall|k: int|
            0 <= k < r@.len() ==> (#[trigger] r@[k]).spec_positions() == ps.push(t1[k])
                && r@[k].spec_chars() == cs.push(grid_at(gv, t1[k])));
    }
    if let Option::Some(pc) = try_extend(grid, trie, current_path, &nbv, x, y, c2) {
        r.push(pc);
    }
    proof {
        assert(r@.map_values(cand_pos_fn()) =~= t2);
        assert(forall|k: int|
            0 <= k < r@.len() ==> (#[trigger] r@[k]).spec_positions() == ps.push(t2[k])
                && r@[k].spec_chars() == cs.push(grid_at(gv, t2[k])));
    }
    if let Option::Some(pc) = try_extend(grid, trie, current_path, &nbv, x, y, c3) {
        r.push(pc);
    }
    proof {
        assert(r@.map_values(cand_pos_fn()) =~= t3);
        assert(forall|k: int|
            0 <= k < r@.len() ==> (#[trigger] r@[k]).spec_positions() == ps.push(t3[k])
                && r@[k].spec_chars() == cs.push(grid_at(gv, t3[k])));
    }
    if let Option::Some(pc) = try_extend(grid, trie, current_path, &nbv, x, y, c4) {
        r.push(pc);
    }
    proof {
        assert(r@.map_values(cand_pos_fn()) =~= t4);
        assert(forall|k: int|
            0 <= k < r@.len() ==> (#[trigger] r@[k]).spec_positions() == ps.push(t4[k])
                && r@[k].spec_chars() == cs.push(grid_at(gv, t4[k])));
    }
    if let Option::Some(pc) = try_extend(grid, trie, current_path, &nbv, x, y, c5) {
        r.push(pc);
    }
    proof {
        assert(r@.map_values(cand_pos_fn()) =~= t5);
        assert(forall|k: int|
            0 <= k < r@.len() ==> (#[trigger] r@[k]).spec_positions() == ps.push(t5[k])
                && r@[k].spec_chars() == cs.push(grid_at(gv, t5[k])));
    }
    if let Option::Some(pc) = try_extend(grid, trie, current_path, &nbv, x, y, c6) {
        r.push(pc);
    }
    proof {
        assert(r@.map_values(cand_pos_fn()) =~= t6);
        assert(forall|k: int|
            0 <= k < r@.len() ==> (#[trigger] r@[k]).spec_positions() == ps.push(t6[k])
                && r@[k].spec_chars() == cs.push(grid_at(gv, t6[k])));
    }
    if let Option::Some(pc) = try_extend(grid, trie, current_path, &nbv, x, y, c7) {
        r.push(pc);
    }
    proof {
        assert(r@.map_values(cand_pos_fn()) =~= t7);
        assert(forall|k: int|
            0 <= k < r@.len() ==> (#[trigger] r@[k]).spec_positions() == ps.push(t7[k])
                && r@[k].spec_chars() == cs.push(grid_at(gv, t7[k])));
    }
    if let Option::Some(pc) = try_extend(grid, trie, current_path, &nbv, x, y, c8) {
        r.push(pc);
    }
    proof {
        assert(r@.map_values(cand_pos_fn()) =~= t8);
        assert(forall|k: int|
            0 <= k < r@.len() ==> (#[trigger] r@[k]).spec_positions() == ps.push(t8[k])
                && r@[k].spec_chars() == cs.push(grid_at(gv, t8[k])));
        assert(spec_cands(gv, x as int, y as int, trie_words(*trie), ps, cs) =~= t8);
    }
    r
}

/// The fixed deployment board: a four-by-four grid of characters.
pub fn build_grid() -> (r: Vec<Vec<char>>)
    ensures
        grid_wf(r.deep_view(), 4, 4),
        r.deep_view() =~~= seq![
            seq!['a', 't', 'g', 'c'],
            seq!['l', 'r', 'j', 'e'],
            seq!['j', 'r', 'f', 'g'],
            seq!['m', 'h', 'e', 's'],
        ],
{
    let r = vec![
        vec!['a', 't', 'g', 'c'],
        vec!['l', 'r', 'j', 'e'],
        vec!['j', 'r', 'f', 'g'],
        vec!['m', 'h', 'e', 's'],
    ];
    proof {
        assert(r.deep_view() =~~= seq![
            seq!['a', 't', 'g', 'c'],
            seq!['l', 'r', 'j', 'e'],
            seq!['j', 'r', 'f', 'g'],
            seq!['m', 'h', 'e', 's'],
        ]);
    }
    r
}

/// Some self-avoiding Moore walk over the board spells the word.
pub open spec fn spells(gv: Seq<Seq<char>>, x: int, y: int, w: Seq<char>) -> bool {
    exists|ps: Seq<(int, int)>| path_cells_ok(gv, x, y, ps, w)
}

/// The model of a path link: the cell and character sequences it spells.
pub open spec fn path_model(pc: Rc<PathComponent>) -> (Seq<(int, int)>, Seq<char>) {
    (pc.spec_positions(), pc.spec_chars())
}

/// The path model as a function value, for mapping over the stack.
pub open spec fn path_model_fn() -> spec_fn(Rc<PathComponent>) -> (Seq<(int, int)>, Seq<char>) {
    |pc: Rc<PathComponent>| path_model(pc)
}

/// What one popped path emits: its word, when stored and long enough.
pub open spec fn emit_of(words: Set<Seq<char>>, cs: Seq<char>) -> Seq<Seq<char>> {
    if words.contains(cs) && cs.len() > 3 {
        seq![cs]
    } else {
        Seq::<Seq<char>>::empty()
    }
}

/// The models of a path's admissible extensions, in enumeration order.
pub open spec fn kids_of(
    gv: Seq<Seq<char>>,
    x: int,
    y: int,
    words: Set<Seq<char>>,
    p: (Seq<(int, int)>, Seq<char>),
) -> Seq<(Seq<(int, int)>, Seq<char>)> {
    spec_cands(gv, x, y, words, p.0, p.1).map_values(
        |q: (int, int)| (p.0.push(q), p.1.push(grid_at(gv, q))),
    )
}

/// Every model on the stack is a valid search path.
pub open spec fn stack_wf_m(
    gv: Seq<Seq<char>>,
    x: int,
    y: int,
    s: Seq<(Seq<(int, int)>, Seq<char>)>,
) -> bool {
    forall|k: int| 0 <= k < s.len() ==> path_cells_ok(gv, x, y, (#[trigger] s[k]).0, s[k].1)
}

/// The termination budget of one modelled path.
pub open spec fn cost_m(p: (Seq<(int, int)>, Seq<char>), b: nat) -> nat {
    if p.0.len() <= b {
        pow9((b - p.0.len()) as nat)
    } else {
        0
    }
}

/// The termination budget of a modelled stack.
pub open spec fn measure_m(s: Seq<(Seq<(int, int)>, Seq<char>)>, b: nat) -> nat
    decreases s.len(),
{
    if s.len() == 0 {
        0
    } else {
        measure_m(s.drop_last(), b) + cost_m(s.last(), b)
    }
}

pub proof fn lemma_measure_m_add(
    s: Seq<(Seq<(int, int)>, Seq<char>)>,
    t: Seq<(Seq<(int, int)>, Seq<char>)>,
    b: nat,
)
    ensures
        measure_m(s + t, b) == measure_m(s, b) + measure_m(t, b),
    decreases t.len(),
{
    if t.len() == 0 {
        assert(s + t =~= s);
    } else {
        lemma_measure_m_add(s, t.drop_last(), b);
        assert((s + t).drop_last() =~= s + t.drop_last());
        assert((s + t).last() == t.last());
    }
}

pub proof fn lemma_measure_m_uniform(s: Seq<(Seq<(int, int)>, Seq<char>)>, b: nat, c: nat)
    requires
        forall|k: int| 0 <= k < s.len() ==> cost_m(#[trigger] s[k], b) == c,
    ensures
        measure_m(s, b) == s.len() * c,
    decreases s.len(),
{
    if s.len() == 0 {
    } else {
        lemma_measure_m_uniform(s.drop_last(), b, c);
        assert(cost_m(s[s.len() - 1], b) == c);
        assert(s.len() * c == (s.len() - 1) * c + c) by (nonlinear_arith);
    }
}

/// Expanding the top of a valid stack strictly shrinks its budget: at most
/// eight children, each one cell deeper, each nine times cheaper.
pub proof fn lemma_dfs_step_decreases(
    gv: Seq<Seq<char>>,
    x: int,
    y: int,
    words: Set<Seq<char>>,
    s: Seq<(Seq<(int, int)>, Seq<char>)>,
)
    requires
        1 <= x,
        1 <= y,
        stack_wf_m(gv, x, y, s),
        s.len() > 0,
    ensures
        measure_m(s.drop_last() + kids_of(gv, x, y, words, s.last()), (x * y) as nat)
            < measure_m(s, (x * y) as nat),
        stack_wf_m(gv, x, y, s.drop_last() + kids_of(gv, x, y, words, s.last())),
    decreases s.len(),
{
    let b = (x * y) as nat;
    let top = s.last();
    assert(path_cells_ok(gv, x, y, (s[s.len() - 1]).0, s[s.len() - 1].1));
    lemma_path_len_bound(x, y, top.0);
    assert(x * y >= 1) by (nonlinear_arith)
        requires
            1 <= x,
            1 <= y,
    ;
    let cands = spec_cands(gv, x, y, words, top.0, top.1);
    let kids = kids_of(gv, x, y, words, top);
    let rest = s.drop_last();
    assert forall|k: int| 0 <= k < kids.len() implies path_cells_ok(
        gv,
        x,
        y,
        (#[trigger] kids[k]).0,
        kids[k].1,
    ) && kids[k].0.len() == top.0.len() + 1 by {
        assert(cands.contains(cands[k]));
        lemma_candidate_extends_wf(gv, x, y, words, top.0, top.1, cands[k]);
        assert(kids[k] == (top.0.push(cands[k]), top.1.push(grid_at(gv, cands[k]))));
    }
    lemma_measure_m_add(rest, kids, b);
    assert(measure_m(s, b) == measure_m(rest, b) + cost_m(top, b));
    let top_len = top.0.len();
    assert(cands.len() <= 8);
    if kids.len() == 0 {
        lemma_pow9_pos((b - top_len) as nat);
        assert(measure_m(kids, b) == 0);
    } else {
        lemma_path_len_bound(x, y, kids[0].0);
        assert(top_len + 1 <= b);
        let c = pow9((b - top_len - 1) as nat);
        assert forall|k: int| 0 <= k < kids.len() implies cost_m(#[trigger] kids[k], b) == c by {
            assert(kids[k].0.len() == top_len + 1);
        }
        lemma_measure_m_uniform(kids, b, c);
        lemma_pow9_pos((b - top_len - 1) as nat);
        assert(kids.len() * c <= 8 * c) by (nonlinear_arith)
            requires
                kids.len() <= 8,
                c >= 0,
        ;
        assert(pow9((b - top_len) as nat) == 9 * pow9((b - top_len - 1) as nat));
        assert(cost_m(top, b) == pow9((b - top_len) as nat));
    }
    assert forall|k: int| 0 <= k < (rest + kids).len() implies path_cells_ok(
        gv,
        x,
        y,
        (#[trigger] (rest + kids)[k]).0,
        (rest + kids)[k].1,
    ) by {
        if k < rest.len() {
            assert((rest + kids)[k] == s[k]);
        } else {
            assert((rest + kids)[k] == kids[k - rest.len()]);
        }
    }
}

/// The whole remaining output of the search from a given stack: pop the
/// top, emit its word when it qualifies, and go on with its admissible
/// extensions pushed in enumeration order.  This pins the emission order of
/// the engine completely.
pub open spec fn dfs_stack(
    gv: Seq<Seq<char>>,
    x: int,
    y: int,
    words: Set<Seq<char>>,
    s: Seq<(Seq<(int, int)>, Seq<char>)>,
) -> Seq<Seq<char>>
    decreases measure_m(s, (x * y) as nat),
        when 1 <= x && 1 <= y && stack_wf_m(gv, x, y, s)
{
    if s.len() == 0 {
        Seq::<Seq<char>>::empty()
    } else {
        let top = s.last();
        proof {
            lemma_dfs_step_decreases(gv, x, y, words, s);
        }
        emit_of(words, top.1) + dfs_stack(
            gv,
            x,
            y,
            words,
            s.drop_last() + kids_of(gv, x, y, words, top),
        )
    }
}

/// The root path model of an origin cell.
pub open spec fn root_model(gv: Seq<Seq<char>>, p: (int, int)) -> (Seq<(int, int)>, Seq<char>) {
    (seq![p], seq![grid_at(gv, p)])
}

/// The words the search reports over the first n row-major origins, in
/// emission order: the search's output is this sequence and nothing else,
/// so identical inputs give identical output.
pub open spec fn search_spec(
    gv: Seq<Seq<char>>,
    x: int,
    y: int,
    words: Set<Seq<char>>,
    n: int,
) -> Seq<Seq<char>>
    decreases n,
{
    if n <= 0 {
        Seq::<Seq<char>>::empty()
    } else {
        search_spec(gv, x, y, words, n - 1) + dfs_stack(
            gv,
            x,
            y,
            words,
            seq![root_model(gv, pos_at(y, n - 1))],
        )
    }
}

/// The string view as a function value, for mapping over the output.
pub open spec fn str_view_fn() -> spec_fn(String) -> Seq<char> {
    |s: String| s@
}

/// What every emitted word satisfies: it is a stored word of more than
/// three characters that some self-avoiding walk over the board spells.
pub open spec fn sound_emit(
    gv: Seq<Seq<char>>,
    x: int,
    y: int,
    words: Set<Seq<char>>,
    w: Seq<char>,
) -> bool {
    words.contains(w) && w.len() > 3 && spells(gv, x, y, w)
}

/// Every path waiting on the stack is a valid search path.
pub open spec fn stack_ok(
    gv: Seq<Seq<char>>,
    x: int,
    y: int,
    s: Seq<Rc<PathComponent>>,
) -> bool {
    forall|k: int|
        0 <= k < s.len() ==> path_cells_ok(
            gv,
            x,
            y,
            (#[trigger] s[k]).spec_positions(),
            s[k].spec_chars(),
        )
}

/// Run the word search over every origin of the board, row-major, each
/// origin depth first with an explicit stack of shared path links.  A
/// popped path is emitted when it spells a stored word of more than three
/// characters; its admissible extensions are pushed in the fixed angular
/// order, so they are visited in the reverse of that order.  Duplicate
/// discoveries of one word along different walks are all reported.
#[verifier::rlimit(100)]
pub fn search_words(grid: &Vec<Vec<char>>, trie: &Trie<String, ()>, x: i32, y: i32) -> (out: Vec<
    String,
>)
    requires
        1 <= x,
        1 <= y,
        x as int * y as int <= 0x0800_0000,
        grid_wf(grid.deep_view(), x as int, y as int),
    ensures
        out@.map_values(str_view_fn()) == search_spec(
            grid.deep_view(),
            x as int,
            y as int,
            trie_words(*trie),
            x as int * y as int,
        ),
        forall|k: int|
            0 <= k < out@.len() ==> sound_emit(
                grid.deep_view(),
                x as int,
                y as int,
                trie_words(*trie),
                (#[trigger] out@[k])@,
            ),
{
    let g = build_graph(x, y);
    let origins = positions(x, y);
    let ghost gv = grid.deep_view();
    let ghost words = trie_words(*trie);
    let ghost b = (x as int * y as int) as nat;
    let mut out: Vec<String> = Vec::new();
    let mut oi: usize = 0;
    while oi < origins.len()
        invariant
            1 <= x,
            1 <= y,
            x as int * y as int <= 0x0800_0000,
            gv == grid.deep_view(),
            words == trie_words(*trie),
            b == (x as int * y as int) as nat,
            grid_wf(gv, x as int, y as int),
            graph_nodes(g) == x as int * y as int,
            graph_edges(g) == spec_index_edges(x as int, y as int),
            origins@.len() == x as int * y as int,
            forall|k: int|
                0 <= k < origins@.len() ==> spec_in_bounds(
                    x as int,
                    y as int,
                    ipos(#[trigger] origins@[k]),
                ),
            forall|k: int|
                0 <= k < origins@.len() ==> ipos(#[trigger] origins@[k]) == pos_at(y as int, k),
            0 <= oi <= origins@.len(),
            out@.map_values(str_view_fn()) == search_spec(gv, x as int, y as int, words,
                oi as int),
            forall|k: int|
                0 <= k < out@.len() ==> sound_emit(gv, x as int, y as int, words, (
                #[trigger] out@[k])@),
        decreases origins@.len() - oi,
    {
        let origin = origins[oi];
        let c0 = grid_char(grid, x, y, origin);
        let root = Rc::new(
            PathComponent { position: origin, character: c0, previous: Option::None },
        );
        proof {
            assert(root.spec_positions() == seq![ipos(origin)]);
            assert(root.spec_chars() == seq![c0]);
        }
        let mut to_visit = build_to_visit(grid, trie, &root, &g, x, y);
        proof {
            let xi = x as int;
            let yi = y as int;
            let cands = spec_cands(gv, xi, yi, words, root.spec_positions(), root.spec_chars());
            assert forall|k: int| 0 <= k < to_visit@.len() implies path_cells_ok(
                gv,
                xi,
                yi,
                (#[trigger] to_visit@[k]).spec_positions(),
                to_visit@[k].spec_chars(),
            ) by {
                assert(cands.contains(cands[k]));
                lemma_candidate_extends_wf(gv, xi, yi, words, root.spec_positions(),
                    root.spec_chars(), cands[k]);
            }
            let rm = root_model(gv, ipos(origin));
            assert(rm.0 =~= root.spec_positions());
            assert(rm.1 =~= root.spec_chars());
            assert(stack_wf_m(gv, xi, yi, seq![rm])) by {
                assert(seq![rm][0] == rm);
            }
            assert(seq![rm].last() == rm);
            assert(emit_of(words, rm.1) == Seq::<Seq<char>>::empty());
            assert(seq![rm].drop_last() =~= Seq::<(Seq<(int, int)>, Seq<char>)>::empty());
            let kids = kids_of(gv, xi, yi, words, rm);
            assert(Seq::<(Seq<(int, int)>, Seq<char>)>::empty() + kids =~= kids);
            assert(dfs_stack(gv, xi, yi, words, seq![rm]) == emit_of(words, rm.1) + dfs_stack(
                gv,
                xi,
                yi,
                words,
                kids,
            ));
            assert(to_visit@.map_values(path_model_fn()) =~= kids) by {
                assert(to_visit@.map_values(cand_pos_fn()) == cands);
                assert forall|k: int| 0 <= k < to_visit@.len() implies to_visit@.map_values(
                    path_model_fn(),
                )[k] == kids[k] by {
                    assert((#[trigger] to_visit@[k]).spec_positions() == root.spec_positions()
                        .push(cands[k]));
                    assert(to_visit@[k].spec_chars() == root.spec_chars().push(
                        grid_at(gv, cands[k]),
                    ));
                }
            }
            assert(Seq::<Seq<char>>::empty() + dfs_stack(gv, xi, yi, words, kids) =~= dfs_stack(
                gv,
                xi,
                yi,
                words,
                kids,
            ));
            assert(dfs_stack(gv, xi, yi, words, to_visit@.map_values(path_model_fn()))
                == dfs_stack(gv, xi, yi, words, seq![root_model(gv, ipos(origin))]));
        }
        while to_visit.len() > 0
            invariant
                1 <= x,
                1 <= y,
                x as int * y as int <= 0x0800_0000,
                gv == grid.deep_view(),
                words == trie_words(*trie),
                b == (x as int * y as int) as nat,
                grid_wf(gv, x as int, y as int),
                graph_nodes(g) == x as int * y as int,
                graph_edges(g) == spec_index_edges(x as int, y as int),
                stack_ok(gv, x as int, y as int, to_visit@),
                0 <= oi < origins@.len(),
                origins@.len() == x as int * y as int,
                ipos(origin) == pos_at(y as int, oi as int),
                out@.map_values(str_view_fn()) + dfs_stack(gv, x as int, y as int, words,
                    to_visit@.map_values(path_model_fn())) == search_spec(gv, x as int, y as int,
                    words, oi as int) + dfs_stack(gv, x as int, y as int, words, seq![root_model(
                    gv,
                    ipos(origin),
                )]),
                forall|k: int|
                    0 <= k < out@.len() ==> sound_emit(gv, x as int, y as int, words, (
                    #[trigger] out@[k])@),
            decreases measure_m(to_visit@.map_values(path_model_fn()), b),
        {
            let ghost pre_stack = to_visit@;
            let ghost pre_out = out@;
            let top = to_visit.pop().unwrap();
            proof {
                assert(to_visit@ =~= pre_stack.drop_last());
                assert(pre_stack[pre_stack.len() - 1] == top);
                assert(path_cells_ok(gv, x as int, y as int, top.spec_positions(),
                    top.spec_chars()));
                top.lemma_lens();
            }
            let cvec = top.chars_vec();
            let is_long = cvec.len() > 3;
            let w = chars_to_string(&cvec);
            let is_stored = trie_is_word(trie, &w);
            if is_long && is_stored {
                proof {
                    assert(path_cells_ok(gv, x as int, y as int, top.spec_positions(), w@));
                    assert(spells(gv, x as int, y as int, w@));
                }
                out.push(w);
            }
            proof {
                assert(out@.map_values(str_view_fn()) =~= pre_out.map_values(str_view_fn())
                    + emit_of(words, top.spec_chars()));
            }
            let mut kids = build_to_visit(grid, trie, &top, &g, x, y);
            let ghost mid_stack = to_visit@;
            let ghost kseq = kids@;
            let ghost top_len = top.spec_positions().len();
            proof {
                let cands = spec_cands(gv, x as int, y as int, words, top.spec_positions(),
                    top.spec_chars());
                assert forall|k: int| 0 <= k < kseq.len() implies path_cells_ok(
                    gv,
                    x as int,
                    y as int,
                    (#[trigger] kseq[k]).spec_positions(),
                    kseq[k].spec_chars(),
                ) && kseq[k].spec_positions().len() == top_len + 1 by {
                    assert(cands.contains(cands[k]));
                    lemma_candidate_extends_wf(gv, x as int, y as int, words,
                        top.spec_positions(), top.spec_chars(), cands[k]);
                    assert(kseq[k].spec_positions() == top.spec_positions().push(cands[k]));
                }
            }
            to_visit.append(&mut kids);
            proof {
                let cands = spec_cands(gv, x as int, y as int, words, top.spec_positions(),
                    top.spec_chars());
                assert(to_visit@ == mid_stack + kseq);
                assert forall|k: int| 0 <= k < to_visit@.len() implies path_cells_ok(
                    gv,
                    x as int,
                    y as int,
                    (#[trigger] to_visit@[k]).spec_positions(),
                    to_visit@[k].spec_chars(),
                ) by {
                    if k < mid_stack.len() {
                        assert(to_visit@[k] == pre_stack[k]);
                        assert(path_cells_ok(gv, x as int, y as int,
                            pre_stack[k].spec_positions(), pre_stack[k].spec_chars()));
                    } else {
                        assert(to_visit@[k] == kseq[k - mid_stack.len()]);
                    }
                }
                assert(kseq.len() == cands.len());
                let xi = x as int;
                let yi = y as int;
                let models_pre = pre_stack.map_values(path_model_fn());
                let models_new = to_visit@.map_values(path_model_fn());
                let tm = path_model(top);
                assert forall|k: int| 0 <= k < models_pre.len() implies path_cells_ok(
                    gv,
                    xi,
                    yi,
                    (#[trigger] models_pre[k]).0,
                    models_pre[k].1,
                ) by {
                    assert(models_pre[k] == path_model(pre_stack[k]));
                }
                assert(stack_wf_m(gv, xi, yi, models_pre));
                assert(models_pre.len() > 0 && models_pre.last() == tm);
                let kids_m = kids_of(gv, xi, yi, words, tm);
                assert(kids_m =~= kseq.map_values(path_model_fn())) by {
                    assert forall|k: int| 0 <= k < kseq.len() implies kseq.map_values(
                        path_model_fn(),
                    )[k] == kids_m[k] by {
                        assert((#[trigger] kseq[k]).spec_positions() == top.spec_positions()
                            .push(cands[k]));
                        assert(kseq[k].spec_chars() == top.spec_chars().push(
                            grid_at(gv, cands[k]),
                        ));
                    }
                }
                assert(models_pre.drop_last() + kids_m =~= models_new);
                lemma_dfs_step_decreases(gv, xi, yi, words, models_pre);
                assert(measure_m(models_new, b) < measure_m(models_pre, b));
                assert(dfs_stack(gv, xi, yi, words, models_pre) == emit_of(words, tm.1)
                    + dfs_stack(gv, xi, yi, words, models_new));
                assert(pre_out.map_values(str_view_fn()) + dfs_stack(gv, xi, yi, words,
                    models_pre) == search_spec(gv, xi, yi, words, oi as int) + dfs_stack(gv, xi,
                    yi, words, seq![root_model(gv, ipos(origin))]));
                assert(out@.map_values(str_view_fn()) + dfs_stack(gv, xi, yi, words, models_new)
                    =~= pre_out.map_values(str_view_fn()) + (emit_of(words, tm.1) + dfs_stack(
                    gv,
                    xi,
                    yi,
                    words,
                    models_new,
                )));
            }
        }
        proof {
            let xi = x as int;
            let yi = y as int;
            assert(to_visit@.map_values(path_model_fn()) =~= Seq::<(
                Seq<(int, int)>,
                Seq<char>,
            )>::empty());
            assert(stack_wf_m(gv, xi, yi, Seq::<(Seq<(int, int)>, Seq<char>)>::empty()));
            assert(dfs_stack(gv, xi, yi, words, Seq::<(Seq<(int, int)>, Seq<char>)>::empty())
                == Seq::<Seq<char>>::empty());
            assert(out@.map_values(str_view_fn()) + Seq::<Seq<char>>::empty() =~= out@.map_values(
                str_view_fn(),
            ));
            assert(out@.map_values(str_view_fn()) == search_spec(gv, xi, yi, words, oi as int)
                + dfs_stack(gv, xi, yi, words, seq![root_model(gv, ipos(origin))]));
            assert(search_spec(gv, xi, yi, words, oi as int + 1) == search_spec(gv, xi, yi,
                words, oi as int) + dfs_stack(gv, xi, yi, words, seq![root_model(
                gv,
                pos_at(yi, oi as int),
            )]));
        }
        oi = oi + 1;
    }
    proof {
        assert(oi as int == x as int * y as int);
    }
    out
}

} // verus!
