use boggle_search::dict::build_trie;
use boggle_search::dict::contains_prefix;
use boggle_search::dict::is_word;
use boggle_search::engine::build_grid;
use boggle_search::engine::search_words;
use boggle_search::grid::cell_neighbors;
use boggle_search::grid::neighboring_indices;
use boggle_search::grid::positions;

fn words(list: &[&str]) -> Vec<String> {
    list.iter().map(|w| w.to_string()).collect()
}

#[test]
fn positions_are_row_major() {
    assert_eq!(positions(2, 3), vec![(0, 0), (0, 1), (0, 2), (1, 0), (1, 1), (1, 2)]);
    assert_eq!(positions(1, 1), vec![(0, 0)]);
}

#[test]
fn neighboring_indices_two_by_two() {
    let expected = vec![
        ((0, 0), (1, 0)),
        ((0, 0), (1, 1)),
        ((0, 0), (0, 1)),
        ((0, 1), (0, 0)),
        ((0, 1), (1, 0)),
        ((0, 1), (1, 1)),
        ((1, 0), (1, 1)),
        ((1, 0), (0, 1)),
        ((1, 0), (0, 0)),
        ((1, 1), (1, 0)),
        ((1, 1), (0, 1)),
        ((1, 1), (0, 0)),
    ];
    assert_eq!(neighboring_indices(2, 2), expected);
}

#[test]
fn corner_edge_interior_neighbor_counts() {
    assert_eq!(cell_neighbors(3, 3, (0, 0)).len(), 3);
    assert_eq!(cell_neighbors(3, 3, (0, 1)).len(), 5);
    assert_eq!(cell_neighbors(3, 3, (1, 1)).len(), 8);
    assert_eq!(cell_neighbors(3, 3, (2, 2)).len(), 3);
    assert_eq!(
        cell_neighbors(3, 3, (1, 1)),
        vec![(1, 0), (2, 0), (2, 1), (2, 2), (1, 2), (0, 2), (0, 1), (0, 0)]
    );
}

#[test]
fn neighboring_indices_one_by_one_is_empty() {
    assert!(neighboring_indices(1, 1).is_empty());
}

#[test]
fn dictionary_answers_membership_and_prefixes() {
    let trie = build_trie(&words(&["cat", "cats"]));
    assert!(is_word(&trie, &"cat".to_string()));
    assert!(is_word(&trie, &"cats".to_string()));
    assert!(!is_word(&trie, &"ca".to_string()));
    assert!(!is_word(&trie, &"catsup".to_string()));
    assert!(contains_prefix(&trie, &"".to_string()));
    assert!(contains_prefix(&trie, &"ca".to_string()));
    assert!(contains_prefix(&trie, &"cats".to_string()));
    assert!(!contains_prefix(&trie, &"cb".to_string()));
    assert!(!contains_prefix(&trie, &"catss".to_string()));
}

#[test]
fn empty_dictionary_has_no_prefixes_at_all() {
    let trie = build_trie(&words(&[]));
    assert!(!contains_prefix(&trie, &"".to_string()));
    assert!(!contains_prefix(&trie, &"a".to_string()));
    assert!(!is_word(&trie, &"".to_string()));
}

#[test]
fn two_by_two_grid_emits_cats_only() {
    let grid = vec![vec!['c', 'a'], vec!['t', 's']];
    let trie = build_trie(&words(&["cat", "cats", "car", "care"]));
    let out = search_words(&grid, &trie, 2, 2);
    assert_eq!(out, vec!["cats".to_string()]);
}

#[test]
fn three_letter_word_is_never_emitted() {
    let grid = vec![vec!['c', 'a'], vec!['t', 's']];
    let trie = build_trie(&words(&["cat"]));
    let out = search_words(&grid, &trie, 2, 2);
    assert!(out.is_empty());
}

#[test]
fn one_by_one_grid_emits_nothing() {
    let grid = vec![vec!['a']];
    let trie = build_trie(&words(&["a", "at", "aaaa"]));
    let out = search_words(&grid, &trie, 1, 1);
    assert!(out.is_empty());
}

#[test]
fn duplicate_discoveries_are_all_reported() {
    let grid = vec![vec!['o', 't'], vec!['t', 'o']];
    let trie = build_trie(&words(&["otto"]));
    let out = search_words(&grid, &trie, 2, 2);
    assert_eq!(out.len(), 4);
    for w in &out {
        assert_eq!(w, "otto");
    }
}

#[test]
fn repeated_runs_give_identical_output() {
    let grid = vec![vec!['o', 't'], vec!['t', 'o']];
    let trie = build_trie(&words(&["otto", "tot", "toot"]));
    let first = search_words(&grid, &trie, 2, 2);
    let second = search_words(&grid, &trie, 2, 2);
    assert_eq!(first, second);
}

#[test]
fn default_grid_has_the_fixed_letters() {
    let grid = build_grid();
    assert_eq!(grid.len(), 4);
    for row in &grid {
        assert_eq!(row.len(), 4);
    }
    assert_eq!(grid[0], vec!['a', 't', 'g', 'c']);
    assert_eq!(grid[1], vec!['l', 'r', 'j', 'e']);
    assert_eq!(grid[2], vec!['j', 'r', 'f', 'g']);
    assert_eq!(grid[3], vec!['m', 'h', 'e', 's']);
}

#[test]
fn default_grid_finds_a_snaking_word() {
    let grid = build_grid();
    let trie = build_trie(&words(&["tral", "mhra", "gcet"]));
    let out = search_words(&grid, &trie, 4, 4);
    assert_eq!(out, vec!["tral".to_string()]);
}

#[test]
fn pruning_does_not_lose_words_sharing_prefixes() {
    let grid = vec![vec!['s', 't'], vec!['a', 'r']];
    let trie = build_trie(&words(&["star", "start", "sat", "rats", "tars"]));
    let out = search_words(&grid, &trie, 2, 2);
    assert!(out.contains(&"star".to_string()));
    assert!(out.contains(&"rats".to_string()));
    assert!(out.contains(&"tars".to_string()));
    assert!(!out.contains(&"start".to_string()));
    assert!(!out.contains(&"sat".to_string()));
}
