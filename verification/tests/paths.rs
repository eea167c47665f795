use boggle_search::display::print_path_from_pc;
use boggle_search::display::print_path_from_tuples;
use boggle_search::display::print_path_stack;
use boggle_search::display::print_position;
use boggle_search::path::PathComponent;
use boggle_search::path::extend;
use std::rc::Rc;

fn chain() -> Rc<PathComponent> {
    let root = Rc::new(PathComponent { position: (0, 0), character: 'a', previous: None });
    let mid = extend(&root, (0, 1), 'b');
    extend(&mid, (1, 1), 'c')
}

#[test]
fn characters_accumulate_origin_first() {
    let tip = chain();
    assert_eq!(tip.characters_so_far(), "abc");
}

#[test]
fn positions_accumulate_newest_first() {
    let tip = chain();
    assert_eq!(tip.positions_so_far(), vec![(1, 1), (0, 1), (0, 0)]);
}

#[test]
fn iter_walks_back_to_the_origin() {
    let tip = chain();
    let entries = tip.iter();
    assert_eq!(entries, vec![((1, 1), 'c'), ((0, 1), 'b'), ((0, 0), 'a')]);
}

#[test]
fn extending_does_not_disturb_siblings() {
    let root = Rc::new(PathComponent { position: (0, 0), character: 'x', previous: None });
    let left = extend(&root, (0, 1), 'y');
    let right = extend(&root, (1, 0), 'z');
    assert_eq!(left.characters_so_far(), "xy");
    assert_eq!(right.characters_so_far(), "xz");
    assert_eq!(root.characters_so_far(), "x");
}

#[test]
fn positions_render_with_a_comma() {
    assert_eq!(print_position(&(1, 2)), "1,2");
    assert_eq!(print_position(&(-3, 40)), "-3,40");
    assert_eq!(print_position(&(0, 0)), "0,0");
}

#[test]
fn tuple_paths_render_space_separated() {
    assert_eq!(print_path_from_tuples(vec![(0, 0), (1, 2)]), "0,0 1,2 ");
    assert_eq!(print_path_from_tuples(vec![]), "");
}

#[test]
fn path_chains_render_origin_first() {
    let tip = chain();
    assert_eq!(print_path_from_pc(tip), "0,0 0,1 1,1 ");
}

#[test]
fn stacks_render_top_first_with_a_rule() {
    let root = Rc::new(PathComponent { position: (0, 0), character: 'a', previous: None });
    let top = extend(&root, (1, 1), 'b');
    let stack = vec![root.clone(), top];
    let rendered = print_path_stack(&stack);
    assert_eq!(rendered, "0,0 1,1 \n0,0 \n====\n\n");
}
