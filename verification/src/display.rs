use vstd::prelude::*;
use crate::grid::ipos;
use crate::grid::ipos_fn;
use crate::path::PathComponent;
use std::rc::Rc;
use vstd::string::StringExecFns;

verus! {

/// The character of one decimal digit.
pub open spec fn digit_char(d: nat) -> char {
    if d == 0 {
        '0'
    } else if d == 1 {
        '1'
    } else if d == 2 {
        '2'
    } else if d == 3 {
        '3'
    } else if d == 4 {
        '4'
    } else if d == 5 {
        '5'
    } else if d == 6 {
        '6'
    } else if d == 7 {
        '7'
    } else if d == 8 {
        '8'
    } else {
        '9'
    }
}

/// The base-ten digits of a natural number, most significant first.
pub open spec fn dec_digits(n: nat) -> Seq<char>
    decreases n,
{
    if n < 10 {
        seq![digit_char(n)]
    } else {
        dec_digits(n / 10).push(digit_char(n % 10))
    }
}

/// The base-ten rendering of an integer, with a leading '-' when negative.
pub open spec fn dec_str(n: int) -> Seq<char> {
    if n < 0 {
        seq!['-'] + dec_digits((-n) as nat)
    } else {
        dec_digits(n as nat)
    }
}

/// Relies on i32's Display implementation: base-ten digits with a leading
/// '-' for a negative value.
#[verifier::external_body]
fn i32_to_string(n: i32) -> (r: String)
    ensures
        r@ == dec_str(n as int),
{
    format!("{}", n)
}

/// A cell rendered as its two coordinates joined by a comma.
pub open spec fn pos_str(p: (int, int)) -> Seq<char> {
    dec_str(p.0) + seq![','] + dec_str(p.1)
}

/// Render one cell.
pub fn print_position(position: &(i32, i32)) -> (r: String)
    ensures
        r@ == pos_str(ipos(*position)),
{
    let mut s = i32_to_string(position.0);
    let t = i32_to_string(position.1);
    proof {
        reveal_strlit(",");
    }
    s.append(",");
    s.append(t.as_str());
    s
}

/// A list of cells rendered in order, each followed by one space.
pub open spec fn tuples_str(ps: Seq<(int, int)>) -> Seq<char>
    decreases ps.len(),
{
    if ps.len() == 0 {
        Seq::<char>::empty()
    } else {
        tuples_str(ps.drop_last()) + pos_str(ps.last()) + seq![' ']
    }
}

/// Render a list of cells.
pub fn print_path_from_tuples(tuples: Vec<(i32, i32)>) -> (r: String)
    ensures
        r@ == tuples_str(tuples@.map_values(ipos_fn())),
{
    let ghost ts = tuples@.map_values(ipos_fn());
    let mut s = String::new();
    let mut k: usize = 0;
    while k < tuples.len()
        invariant
            ts == tuples@.map_values(ipos_fn()),
            0 <= k <= tuples@.len(),
            s@ == tuples_str(ts.take(k as int)),
        decreases tuples@.len() - k,
    {
        let piece = print_position(&tuples[k]);
        proof {
            reveal_strlit(" ");
            assert(ts.take(k as int + 1).drop_last() =~= ts.take(k as int));
            assert(ts.take(k as int + 1).last() == ipos(tuples@[k as int]));
        }
        s.append(piece.as_str());
        s.append(" ");
        k = k + 1;
    }
    proof {
        assert(ts.take(tuples@.len() as int) =~= ts);
    }
    s
}

/// Render the cells of a path, origin first.
pub fn print_path_from_pc(path: Rc<PathComponent>) -> (r: String)
    ensures
        r@ == tuples_str(path.spec_positions()),
{
    let local_positions = path.positions_so_far();
    let ghost ps = path.spec_positions();
    let mut reversed: Vec<(i32, i32)> = Vec::new();
    let n = local_positions.len();
    let mut k: usize = n;
    while k > 0
        invariant
            0 <= k <= n,
            n == local_positions@.len(),
            n == ps.len(),
            forall|i: int|
                0 <= i < n ==> ipos(#[trigger] local_positions@[i]) == ps[n - 1 - i],
            reversed@.len() == n - k,
            forall|i: int| 0 <= i < reversed@.len() ==> ipos(#[trigger] reversed@[i]) == ps[i],
        decreases k,
    {
        k = k - 1;
        reversed.push(local_positions[k]);
    }
    proof {
        assert(reversed@.map_values(ipos_fn()) =~= ps);
    }
    print_path_from_tuples(reversed)
}

/// A stack of paths rendered top first, one per line.
pub open spec fn stack_str(s: Seq<Rc<PathComponent>>) -> Seq<char>
    decreases s.len(),
{
    if s.len() == 0 {
        Seq::<char>::empty()
    } else {
        stack_str(s.drop_first()) + tuples_str(s.first().spec_positions()) + seq!['\n']
    }
}

/// Render the whole stack, its top first, with a closing rule.
pub fn print_path_stack(stack: &Vec<Rc<PathComponent>>) -> (r: String)
    ensures
        r@ == stack_str(stack@) + seq!['=', '=', '=', '=', '\n', '\n'],
{
    let mut s = String::new();
    let n = stack.len();
    let mut k: usize = n;
    while k > 0
        invariant
            0 <= k <= n,
            n == stack@.len(),
            s@ == stack_str(stack@.skip(k as int)),
        decreases k,
    {
        k = k - 1;
        let frame = crate::path::rc_clone(&stack[k]);
        let line = print_path_from_pc(frame);
        proof {
            reveal_strlit("\n");
            assert(stack@.skip(k as int).drop_first() =~= stack@.skip(k as int + 1));
            assert(stack@.skip(k as int).first() == stack@[k as int]);
        }
        s.append(line.as_str());
        s.append("\n");
    }
    proof {
        reveal_strlit("====\n\n");
        assert(stack@.skip(0) =~= stack@);
        assert(("====\n\n")@ =~= seq!['=', '=', '=', '=', '\n', '\n']);
    }
    s.append("====\n\n");
    s
}

} // verus!
