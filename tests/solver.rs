use std::collections::{HashSet, VecDeque};

use slider_solver::{
    board_from_text, cost, expand, matches_target, normalize, parse_board, perform_moves, solve,
    try_parse_board, Board,
};

const TEST_INPUT: &str = "
######
#1AA2#
#1AA2#
#4335#
#4675#
#8  9#
######
";

const TEST_TARGET: &str = "
######
#    #
#    #
#    #
# AA #
# AA #
######
";

fn cells(b: &Board) -> Vec<u8> {
    b.board.clone()
}

#[test]
fn check_expected() {
    let source = parse_board(TEST_INPUT);
    let target = parse_board(TEST_TARGET);

    let (_, _, result) = solve(&source, &target);

    assert!(result.is_some());
    assert!(result.unwrap().1 == 81); // minimal moves is 81
}

#[test]
fn parse_relabels_fungible_pieces_in_order() {
    let b = parse_board("\n#####\n#xA #\n#yx #\n#####\n");
    assert_eq!(b.len_i, 4);
    assert_eq!(b.len_j, 5);
    let expected: Vec<u8> = vec![
        b'#', b'#', b'#', b'#', b'#', //
        b'#', 1, b'A', b' ', b'#', //
        b'#', 2, 1, b' ', b'#', //
        b'#', b'#', b'#', b'#', b'#',
    ];
    assert_eq!(cells(&b), expected);
}

#[test]
fn parse_ignores_surrounding_whitespace() {
    let b = try_parse_board("  \n###\n# #\n###\n  ");
    assert!(b.is_some());
    let b = b.unwrap();
    assert_eq!(b.len_i, 3);
    assert_eq!(b.len_j, 3);
}

#[test]
fn parse_strips_carriage_returns() {
    let b = parse_board("###\r\n#a#\r\n###");
    assert_eq!(b.len_i, 3);
    assert_eq!(b.len_j, 3);
    assert_eq!(cells(&b)[4], 1);
}

#[test]
fn parse_rejects_ragged_rows() {
    assert!(try_parse_board("###\n##\n###").is_none());
}

#[test]
fn parse_rejects_empty_text() {
    assert!(try_parse_board("   \n  ").is_none());
}

#[test]
fn board_from_text_reads_lines() {
    let b = board_from_text(&b"##\n#z".to_vec());
    assert_eq!(b.len_i, 2);
    assert_eq!(b.len_j, 2);
    assert_eq!(cells(&b), vec![b'#', b'#', b'#', 1]);
}

#[test]
fn empties_in_row_major_order() {
    let b = parse_board(TEST_INPUT);
    assert_eq!(b.empties(), [(5, 2), (5, 3)]);
}

#[test]
fn new_builds_canonical_board() {
    let b = Board::new(vec![vec![b'#', b'q', b'p'], vec![b'p', b'B', b'q']]);
    assert_eq!(b.len_i, 2);
    assert_eq!(b.len_j, 3);
    assert_eq!(cells(&b), vec![b'#', 1, 2, 2, b'B', 1]);
}

#[test]
fn normalize_twice_changes_nothing() {
    let mut b = parse_board(TEST_INPUT);
    let once = b.clone();
    normalize(&mut b);
    assert_eq!(b, once);
}

#[test]
fn relabelled_fungible_pieces_give_the_same_board() {
    let a = parse_board("#####\n#ab #\n#bc #\n#####");
    let b = parse_board("#####\n#zx #\n#xq #\n#####");
    assert_eq!(a, b);
}

#[test]
fn all_wildcard_target_matches_anything() {
    let source = parse_board(TEST_INPUT);
    let target = Board { len_i: source.len_i, len_j: source.len_j, board: vec![b' '; source.board.len()] };
    assert!(matches_target(&source, &target));
    assert_eq!(cost(&source, &target), 0);
}

#[test]
fn fully_specified_target_matches_only_itself() {
    let source = parse_board(TEST_INPUT);
    assert!(matches_target(&source, &source.clone()));
    let other = parse_board("######\n#1AA2#\n#1AA2#\n#4335#\n#4675#\n# 8 9#\n######");
    assert!(!matches_target(&other, &source));
}

#[test]
fn cost_counts_distinct_misplaced_symbols() {
    let source = parse_board(TEST_INPUT);
    let target = parse_board(TEST_TARGET);
    // The target's AA cells hold 6, 7 and two empty cells; empty cells
    // are not counted.
    assert_eq!(cost(&source, &target), 2);
}

#[test]
fn cost_counts_a_symbol_once() {
    let source = parse_board("#####\n#AA #\n#  B#\n#####");
    let target = parse_board("#####\n#B  #\n# AA#\n#####");
    // A sits where B belongs; B and an empty cell sit where A belongs, and
    // the empty cell is not counted.
    assert_eq!(cost(&source, &target), 2);
}

#[test]
fn moves_of_a_single_piece() {
    // A can go right one or two cells: two successors.
    let b = parse_board("######\n#A  ##\n######");
    let mut out = Vec::new();
    perform_moves(&b, &mut out);
    assert_eq!(out.len(), 2);
    assert_eq!(cells(&out[0]), cells(&parse_board("######\n#  A##\n######")));
    assert_eq!(cells(&out[1]), cells(&parse_board("######\n# A ##\n######")));
}

#[test]
fn moves_never_enter_walls_or_other_pieces() {
    let b = parse_board(TEST_INPUT);
    let mut out = Vec::new();
    perform_moves(&b, &mut out);
    assert!(!out.is_empty());
    for s in &out {
        for k in 0..s.board.len() {
            assert_eq!(s.board[k] == b'#', b.board[k] == b'#');
        }
        assert_eq!(s.board.iter().filter(|c| **c == b' ').count(), 2);
    }
}

#[test]
fn moves_include_chained_pushes() {
    // 1 can move down one cell, or down and then right.
    let b = parse_board("#####\n#1A##\n#  ##\n#####");
    let mut out = Vec::new();
    perform_moves(&b, &mut out);
    let down = parse_board("#####\n# A##\n#1 ##\n#####");
    let down_right = parse_board("#####\n# A##\n# 1##\n#####");
    assert!(out.contains(&down));
    assert!(out.contains(&down_right));
}

#[test]
fn expand_counts_and_costs() {
    let b = parse_board("######\n#A  ##\n######");
    let mut visited = 0usize;
    let mut generated = 3usize;
    let r = expand(&b, &mut visited, &mut generated);
    assert_eq!(visited, 1);
    assert_eq!(generated, 5);
    assert_eq!(r.len(), 2);
    assert!(r.iter().all(|(_, c)| *c == 1));
}

#[test]
fn solve_finds_short_path() {
    let source = parse_board("######\n#A  ##\n######");
    let target = parse_board("######\n#  A##\n######");
    let (visited, _, result) = solve(&source, &target);
    assert!(visited >= 1);
    let (path, turns) = result.unwrap();
    assert_eq!(turns, 1);
    assert_eq!(path.len(), 2);
    assert_eq!(path[0], source);
    assert!(matches_target(&path[1], &target));
}

#[test]
fn solve_at_goal_takes_no_turn() {
    let source = parse_board(TEST_INPUT);
    let target = parse_board("######\n#    #\n# AA #\n#    #\n#    #\n#    #\n######");
    let (visited, generated, result) = solve(&source, &target);
    assert_eq!((visited, generated), (0, 0));
    let (path, turns) = result.unwrap();
    assert_eq!(turns, 0);
    assert_eq!(path, vec![source]);
}

#[test]
fn solve_reports_no_solution() {
    let source = parse_board("######\n#A#  #\n######");
    let target = parse_board("######\n#  #A#\n######");
    let (visited, generated, result) = solve(&source, &target);
    assert!(result.is_none());
    assert_eq!(visited, 1);
    assert_eq!(generated, 0);
}

#[test]
fn render_shows_labels_as_letters() {
    let b = parse_board("#####\n#zA #\n#yz #\n#####");
    let text = String::from_utf8(b.render()).unwrap();
    assert_eq!(text, "#####\n#aA #\n#ba #\n#####");
}

#[test]
fn parse_of_rendered_board_is_the_same_board() {
    let b = parse_board(TEST_INPUT);
    let text = String::from_utf8(b.render()).unwrap();
    assert_eq!(parse_board(&text), b);
}

/// Fewest turns to a board matching `target`, by breadth-first search.
fn fewest_turns(source: &Board, target: &Board) -> Option<i32> {
    let mut seen: HashSet<Board> = HashSet::new();
    let mut queue: VecDeque<(Board, i32)> = VecDeque::new();
    seen.insert(source.clone());
    queue.push_back((source.clone(), 0));
    while let Some((b, d)) = queue.pop_front() {
        if matches_target(&b, target) {
            return Some(d);
        }
        let mut out = Vec::new();
        perform_moves(&b, &mut out);
        for n in out {
            if seen.insert(n.clone()) {
                queue.push_back((n, d + 1));
            }
        }
    }
    None
}

#[test]
fn search_cost_equals_breadth_first_cost() {
    let cases = [
        ("######\n#A  ##\n######", "######\n#  A##\n######"),
        ("#####\n#1A##\n#  ##\n#####", "#####\n#  ##\n# A##\n#####"),
        ("#####\n#AB #\n#C  #\n#####", "#####\n#  C#\n#   #\n#####"),
        ("#####\n#AB #\n#Ca #\n#####", "#####\n#   #\n#  A#\n#####"),
        ("######\n#A#  #\n######", "######\n#  #A#\n######"),
    ];
    for (s, t) in cases {
        let source = parse_board(s);
        let target = parse_board(t);
        let (_, _, result) = solve(&source, &target);
        assert_eq!(result.map(|r| r.1), fewest_turns(&source, &target));
    }
}

#[test]
fn estimate_can_exceed_turns_left() {
    // Moving x down makes y and z the first fungible pieces: one turn fixes
    // both mismatched symbols, while the estimate counts two.
    let source = parse_board("######\n#xyz##\n#  ###\n######");
    let target = parse_board("######\n# ab##\n#  ###\n######");
    assert_eq!(cost(&source, &target), 2);
    assert_eq!(fewest_turns(&source, &target), Some(1));
    let (_, _, result) = solve(&source, &target);
    assert_eq!(result.unwrap().1, 1);
}

#[test]
fn estimate_is_zero_at_goal() {
    let source = parse_board(TEST_INPUT);
    assert_eq!(cost(&source, &source.clone()), 0);
    let target = parse_board(TEST_TARGET);
    assert!(cost(&source, &target) > 0);
    assert!(!matches_target(&source, &target));
}

#[test]
fn estimate_skips_empty_cells_and_walls() {
    let source = parse_board("####\n#  #\n####");
    let target = parse_board("####\n#A #\n####");
    assert_eq!(cost(&source, &target), 0);
    assert!(!matches_target(&source, &target));
}

#[test]
fn parse_skips_empty_lines() {
    let b = parse_board("###\n\n#a#\r\n\r\n###");
    assert_eq!(b.len_i, 3);
    assert_eq!(b.len_j, 3);
    assert_eq!(b, parse_board("###\n#a#\n###"));
}

#[test]
fn many_fungible_pieces_never_read_as_walls_or_empty_cells() {
    // 40 distinct fungible symbols: their labels skip the bytes of an
    // empty cell, a wall and the uppercase letters.
    let symbols: Vec<u8> = (b'a'..=b'z').chain(b'0'..=b'9').chain([b'!', b'$', b'%', b'&']).collect();
    assert_eq!(symbols.len(), 40);
    let mut rows: Vec<Vec<u8>> = vec![vec![b'#'; 12]];
    for r in 0..4 {
        let mut row = vec![b'#'];
        row.extend_from_slice(&symbols[r * 10..r * 10 + 10]);
        row.push(b'#');
        rows.push(row);
    }
    rows.push(vec![b'#', b' ', b' ', b'#', b'#', b'#', b'#', b'#', b'#', b'#', b'#', b'#']);
    rows.push(vec![b'#'; 12]);
    let b = Board::new(rows);
    let walls = |x: &Board| x.board.iter().filter(|c| **c == b'#').count();
    let spaces = |x: &Board| x.board.iter().filter(|c| **c == b' ').count();
    assert_eq!(spaces(&b), 2);
    assert!(b.board.iter().all(|c| !c.is_ascii_uppercase()));
    let mut again = b.clone();
    normalize(&mut again);
    assert_eq!(again, b);
    let mut out = Vec::new();
    perform_moves(&b, &mut out);
    assert!(!out.is_empty());
    for s in &out {
        assert_eq!(walls(s), walls(&b));
        assert_eq!(spaces(s), 2);
    }
}

#[test]
fn solve_discards_repeated_boards() {
    // B shuttles among three places; each board is expanded once.
    let source = parse_board("#######\n#A#  B#\n#######");
    let target = parse_board("#######\n#  A  #\n#######");
    let (visited, generated, result) = solve(&source, &target);
    assert!(result.is_none());
    assert_eq!((visited, generated), (3, 6));
}
