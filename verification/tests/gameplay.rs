use rand::SeedableRng;
use rand_xoshiro::Xoshiro256PlusPlus;
use spelltower::annealers::{solution_cost, Cost, Coster};
use spelltower::board::{deletable, Board, Cell, Coord};
use spelltower::parse::parse_puzzle;
use spelltower::paths::find_paths;
use spelltower::scoring::{
    apply_all, best_word_score, longest_word, score_letter, score_path, score_solution,
};
use spelltower::solver::{nudge_solution, solve_greedy};
use spelltower::words::Node;

fn board_from(text: &str) -> Board {
    parse_puzzle(&text.as_bytes().to_vec()).unwrap()
}

fn coord(row: usize, col: usize) -> Coord {
    Coord { row, col }
}

fn trie_of(words: &[&str]) -> Node {
    let mut root = Node::new();
    for w in words {
        root.add_word(&w.chars().collect());
    }
    root
}

#[test]
fn letter_scores() {
    assert_eq!(score_letter('A'), 1);
    assert_eq!(score_letter('C'), 4);
    assert_eq!(score_letter('T'), 2);
    assert_eq!(score_letter('Q'), 12);
    assert_eq!(score_letter('Z'), 11);
    assert_eq!(score_letter('_'), 0);
}

#[test]
fn cat_path_scores_twenty_one() {
    let b = board_from("puzzle\n3x3\nCAT\nXXX\nXXX");
    let path = vec![coord(0, 0), coord(0, 1), coord(0, 2)];
    // (C=4 + A=1 + T=2) * length 3 * (1 + no bonus tiles)
    assert_eq!(score_path(&b, &path), 21);
}

#[test]
fn score_path_is_deterministic() {
    let b = board_from("puzzle\n3x3\nCAT\nXXX\nXXX");
    let path = vec![coord(0, 0), coord(0, 1), coord(0, 2)];
    assert_eq!(score_path(&b, &path), score_path(&b, &path));
}

#[test]
fn cat_delete_clears_top_row() {
    let mut b = board_from("puzzle\n3x3\nCAT\nXXX\nXXX");
    let path = vec![coord(0, 0), coord(0, 1), coord(0, 2)];
    b.delete_path(&path);
    for c in 0..3 {
        assert_eq!(b.get(0, c), Cell::Empty);
        assert_eq!(b.get(1, c), Cell::Letter('X', false));
        assert_eq!(b.get(2, c), Cell::Letter('X', false));
    }
}

#[test]
fn gravity_settles_columns() {
    let mut b = board_from("puzzle\n2x3\nAB\nCD\nEF");
    b.delete_path(&vec![coord(1, 0)]);
    assert_eq!(b.get(0, 0), Cell::Empty);
    assert_eq!(b.get(1, 0), Cell::Letter('A', false));
    assert_eq!(b.get(2, 0), Cell::Letter('E', false));
    assert_eq!(b.get(0, 1), Cell::Letter('B', false));
    assert_eq!(b.get(1, 1), Cell::Letter('D', false));
    assert_eq!(b.get(2, 1), Cell::Letter('F', false));
    // the gravity invariant: no tile sits above an empty cell
    for c in 0..2 {
        for r in 0..2 {
            if b.get(r, c) != Cell::Empty {
                assert_ne!(b.get(r + 1, c), Cell::Empty);
            }
        }
    }
}

#[test]
fn q_clears_its_whole_row() {
    let b = board_from("puzzle\n3x2\nQAB\nCDE");
    let dels = deletable(&b, &vec![coord(0, 0)]);
    assert_eq!(dels, vec![coord(0, 0), coord(0, 1), coord(0, 2)]);
}

#[test]
fn long_path_clears_orthogonal_neighbors() {
    let b = board_from("puzzle\n3x3\nABC\nDEF\nGHI");
    let path = vec![coord(0, 0), coord(0, 1), coord(0, 2), coord(1, 2), coord(1, 1)];
    let dels = deletable(&b, &path);
    assert_eq!(
        dels,
        vec![
            coord(0, 0),
            coord(0, 1),
            coord(0, 2),
            coord(1, 0),
            coord(1, 1),
            coord(1, 2),
            coord(2, 1),
            coord(2, 2),
        ]
    );
}

#[test]
fn blank_neighbor_is_cleared() {
    let b = board_from("puzzle\n2x2\nA_\nBC");
    let dels = deletable(&b, &vec![coord(0, 0)]);
    assert_eq!(dels, vec![coord(0, 0), coord(0, 1)]);
}

#[test]
fn trie_walks_letter_by_letter() {
    let root = trie_of(&["CAT"]);
    assert!(!root.is_end());
    assert!(root.get('X').is_none());
    assert!(root.get('c').is_none());
    let c = root.get('C').unwrap();
    assert!(!c.is_end());
    let a = c.get('A').unwrap();
    let t = a.get('T').unwrap();
    assert!(t.is_end());
    assert!(t.get('S').is_none());
}

#[test]
fn trie_keeps_earlier_words() {
    let root = trie_of(&["CAT", "CATS", "DOG"]);
    let t = root.get('C').unwrap().get('A').unwrap().get('T').unwrap();
    assert!(t.is_end());
    assert!(t.get('S').unwrap().is_end());
    let g = root.get('D').unwrap().get('O').unwrap().get('G').unwrap();
    assert!(g.is_end());
}

#[test]
fn finder_sees_cat() {
    let b = board_from("puzzle\n3x3\nCAT\nXXX\nXXX");
    let root = trie_of(&["CAT"]);
    let paths = find_paths(&b, &root);
    assert!(paths.contains(&vec![coord(0, 0), coord(0, 1), coord(0, 2)]));
}

#[test]
fn finder_emits_prefix_and_longer_word() {
    let b = board_from("puzzle\n4x1\nCATS");
    let root = trie_of(&["CAT", "CATS"]);
    let paths = find_paths(&b, &root);
    assert!(paths.contains(&vec![coord(0, 0), coord(0, 1), coord(0, 2)]));
    assert!(paths.contains(&vec![coord(0, 0), coord(0, 1), coord(0, 2), coord(0, 3)]));
}

#[test]
fn finder_on_empty_board_finds_nothing() {
    let cells = vec![Cell::Empty; 9];
    let b = Board::from_cells(3, 3, cells);
    let root = trie_of(&["CAT"]);
    assert_eq!(find_paths(&b, &root).len(), 0);
}

#[test]
fn greedy_leaves_no_candidates() {
    let b = board_from("puzzle\n3x3\nCAT\nXXX\nXXX");
    let root = trie_of(&["CAT"]);
    let sol = solve_greedy(&b, &root);
    assert_eq!(sol.len(), 1);
    let after = apply_all(&b, &sol);
    assert_eq!(find_paths(&after, &root).len(), 0);
}

#[test]
fn score_solution_replays_incrementally() {
    // 1 wide, 2 high: A on top of B.
    let b = board_from("puzzle\n1x2\nAB");
    let root = trie_of(&["A", "B"]);
    let sol = solve_greedy(&b, &root);
    assert_eq!(sol.len(), 2);
    // Greedy plays B (4 points) first, then A (1 point) after it settles;
    // the cleared board earns both 1000-point bonuses.
    let step0 = score_path(&b, &sol[0]);
    assert_eq!(step0, 4);
    let mut working = b.clone_board();
    working.delete_path(&sol[0]);
    let step1 = score_path(&working, &sol[1]);
    assert_eq!(step1, 1);
    assert_eq!(score_solution(&b, &sol), step0 + step1 + 2000);
}

#[test]
fn full_clear_earns_the_bonus() {
    let b = board_from("puzzle\n1x1\nA");
    let sol = vec![vec![coord(0, 0)]];
    // 1 point for the word, 1000 for almost-cleared, 1000 for fully cleared.
    assert_eq!(score_solution(&b, &sol), 2001);
}

#[test]
fn leftover_board_misses_the_clear_bonus() {
    let b = board_from("puzzle\n1x2\nAB");
    let sol = vec![vec![coord(1, 0)]];
    // 4 points for B; one tile left per column still earns almost-cleared.
    assert_eq!(score_solution(&b, &sol), 1004);
}

#[test]
fn longest_and_best_word() {
    let b = board_from("puzzle\n1x2\nAB");
    let root = trie_of(&["A", "B"]);
    let sol = solve_greedy(&b, &root);
    assert_eq!(longest_word(&sol), 1);
    assert_eq!(best_word_score(&b, &sol), 4);
    assert_eq!(longest_word(&Vec::new()), 0);
}

#[test]
fn coster_targets() {
    assert_eq!(Coster::TotalScore.target(), None);
    assert_eq!(Coster::LongestWord.target(), None);
    assert_eq!(Coster::BestWord.target(), None);
    assert_eq!(Coster::FewestWords.target(), Some(1));
    assert_eq!(Coster::FewestLeftovers.target(), Some(0));
}

#[test]
fn coster_costs() {
    let b = board_from("puzzle\n1x2\nAB");
    let root = trie_of(&["A", "B"]);
    let sol = solve_greedy(&b, &root);
    assert_eq!(Coster::TotalScore.cost(&b, &sol), -2005);
    assert_eq!(Coster::LongestWord.cost(&b, &sol), -1);
    assert_eq!(Coster::BestWord.cost(&b, &sol), -4);
    assert_eq!(Coster::FewestWords.cost(&b, &sol), 2);
    assert_eq!(Coster::FewestLeftovers.cost(&b, &sol), 0);
}

#[test]
fn leftovers_reject_when_forbidden() {
    let b = board_from("puzzle\n1x2\nAB");
    let sol = vec![vec![coord(1, 0)]];
    assert_eq!(solution_cost(&Coster::TotalScore, false, &b, &sol), Cost::Infinite);
    assert_eq!(solution_cost(&Coster::TotalScore, true, &b, &sol), Cost::Finite(-1004));
    let clearing = vec![vec![coord(1, 0)], vec![coord(1, 0)]];
    assert_eq!(
        solution_cost(&Coster::FewestWords, false, &b, &clearing),
        Cost::Finite(2)
    );
}

#[test]
fn nudge_rebuilds_a_full_solution() {
    let b = board_from("puzzle\n3x3\nCAT\nXXX\nXXX");
    let root = trie_of(&["CAT"]);
    let mut sol = solve_greedy(&b, &root);
    let mut rng = Xoshiro256PlusPlus::seed_from_u64(7);
    nudge_solution(&b, &root, &mut sol, &mut rng);
    let after = apply_all(&b, &sol);
    assert_eq!(find_paths(&after, &root).len(), 0);
    for p in &sol {
        assert!(!p.is_empty());
    }
}

#[test]
fn nudge_on_exhausted_board_empties_the_solution() {
    let b = Board::from_cells(2, 2, vec![Cell::Empty; 4]);
    let root = trie_of(&["CAT"]);
    let mut sol: Vec<Vec<Coord>> = Vec::new();
    let mut rng = Xoshiro256PlusPlus::seed_from_u64(1);
    nudge_solution(&b, &root, &mut sol, &mut rng);
    assert!(sol.is_empty());
}

#[test]
fn finder_returns_each_path_once() {
    let b = board_from("puzzle\n4x1\nCATS");
    let root = trie_of(&["CAT", "CATS", "AT", "A"]);
    let paths = find_paths(&b, &root);
    for i in 0..paths.len() {
        for j in (i + 1)..paths.len() {
            assert_ne!(paths[i], paths[j]);
        }
    }
}

#[test]
fn greedy_breaks_ties_deterministically() {
    // Three single-letter words that all score one point: the tie-break
    // order plays them left to right, and two runs agree.
    let b = board_from("puzzle\n3x1\nAEA");
    let root = trie_of(&["A", "E"]);
    let sol = solve_greedy(&b, &root);
    assert_eq!(
        sol,
        vec![vec![coord(0, 0)], vec![coord(0, 1)], vec![coord(0, 2)]]
    );
    assert_eq!(sol, solve_greedy(&b, &root));
}
