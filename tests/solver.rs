use tango::board::{at, inside, parse_board, Board, Cell};
use tango::constraints::{adjacent, parse_constraints, Constraint, Mask};
use tango::rules::can_set;
use tango::search::{helper, solve};

fn board_of(text: &str) -> Board {
    let mut b: Board = [Cell::Blank; 36];
    assert!(parse_board(text, &mut b));
    b
}

fn mask_of(rules: &[(u8, u8, bool)]) -> Mask {
    let list: Vec<Constraint> = rules
        .iter()
        .map(|&(from, to, eq)| Constraint { from, to, eq })
        .collect();
    let mut mask: Mask = [0u8; 36];
    parse_constraints(&list, &mut mask);
    mask
}

fn text_of(b: &Board) -> String {
    b.iter().map(|c| c.digit() as char).collect()
}

fn solves_to(board: &str, rules: &[(u8, u8, bool)], solution: &str) {
    let mut b = board_of(board);
    let mask = mask_of(rules);
    assert!(solve(&mut b, &mask));
    assert_eq!(text_of(&b), solution);
}

#[test]
fn first_puzzle() {
    solves_to(
        "222222222222220022221022221122220022",
        &[
            (2, 3, false),
            (6, 7, true),
            (10, 11, false),
            (12, 18, false),
            (17, 23, true),
            (24, 30, false),
            (29, 35, false),
        ],
        "100101001101110010011010001101110010",
    );
}

#[test]
fn second_puzzle() {
    solves_to(
        "222222220022202212212202221122222222",
        &[
            (0, 1, true),
            (4, 5, false),
            (0, 6, true),
            (5, 11, true),
            (24, 30, false),
            (30, 31, true),
            (29, 35, false),
            (34, 35, false),
        ],
        "001101010011101010110100001101110010",
    );
}

#[test]
fn third_puzzle() {
    solves_to(
        "212222102222222222222222222210222212",
        &[
            (3, 9, false),
            (14, 15, false),
            (16, 17, false),
            (18, 19, false),
            (20, 21, true),
            (26, 32, true),
        ],
        "011001100110011001101100100110010011",
    );
}

#[test]
fn fourth_puzzle() {
    solves_to(
        "222222222222222202222120222020222212",
        &[
            (0, 1, true),
            (2, 8, true),
            (6, 12, true),
            (14, 20, false),
            (18, 19, true),
        ],
        "110100010011001101110100101010001011",
    );
}

fn assert_solved(b: &Board, rules: &[(u8, u8, bool)]) {
    for l in 0..6 {
        for horiz in [true, false] {
            let line: Vec<Cell> = (0..6)
                .map(|p| if horiz { b[l * 6 + p] } else { b[p * 6 + l] })
                .collect();
            assert_eq!(line.iter().filter(|&&c| c == Cell::Sun).count(), 3);
            assert_eq!(line.iter().filter(|&&c| c == Cell::Moon).count(), 3);
            for p in 0..4 {
                assert!(!(line[p] == line[p + 1] && line[p + 1] == line[p + 2]));
            }
        }
    }
    for &(from, to, eq) in rules {
        assert_eq!(b[from as usize] == b[to as usize], eq);
    }
}

#[test]
fn solution_meets_every_rule() {
    let rules = [(0, 1, true), (2, 8, true), (6, 12, true), (14, 20, false), (18, 19, true)];
    let mut b = board_of("222222222222222202222120222020222212");
    assert!(solve(&mut b, &mask_of(&rules)));
    assert_solved(&b, &rules);
}

#[test]
fn empty_board_solves_to_a_full_valid_board() {
    let mut b: Board = [Cell::Blank; 36];
    let rules = [(0, 6, false), (14, 15, true)];
    assert!(solve(&mut b, &mask_of(&rules)));
    assert_solved(&b, &rules);
}

#[test]
fn complete_board_is_left_unchanged() {
    let text = "100101001101110010011010001101110010";
    let mut b = board_of(text);
    let mask = mask_of(&[(2, 3, false), (6, 7, true)]);
    assert!(solve(&mut b, &mask));
    assert_eq!(text_of(&b), text);
}

#[test]
fn row_with_four_suns_fails_and_unwinds() {
    let text = "001001222222222222222222222222222222";
    let mut b = board_of(text);
    let before = b;
    assert!(!solve(&mut b, &[0u8; 36]));
    assert_eq!(b, before);
}

#[test]
fn row_with_four_moons_and_a_blank_fails() {
    let text = "110112222222222222222222222222222222";
    let mut b = board_of(text);
    let before = b;
    assert!(!solve(&mut b, &[0u8; 36]));
    assert_eq!(b, before);
}

#[test]
fn contradictory_rules_fail_and_unwind() {
    let text = "222222222222222222222222222222222222";
    let mut b = board_of(text);
    let before = b;
    let mask = mask_of(&[(0, 1, true), (1, 2, true), (0, 6, true), (6, 12, true)]);
    // three equal values in the first row are forced
    assert!(!solve(&mut b, &mask));
    assert_eq!(b, before);
}

#[test]
fn helper_past_the_end_succeeds() {
    let mut b = board_of("100101001101110010011010001101110010");
    assert!(helper(&mut b, 36, &[0u8; 36]));
}

#[test]
fn non_adjacent_constraint_is_ignored() {
    assert_eq!(mask_of(&[(0, 35, true)]), [0u8; 36]);
    assert_eq!(mask_of(&[(5, 6, false)]), [0u8; 36]);
    assert_eq!(mask_of(&[(0, 2, true)]), [0u8; 36]);
    assert_eq!(mask_of(&[(40, 41, true)]), [0u8; 36]);
    assert_eq!(
        mask_of(&[(0, 1, true), (0, 35, false), (7, 13, false)]),
        mask_of(&[(0, 1, true), (7, 13, false)])
    );
}

#[test]
fn encoding_is_symmetric() {
    let m = mask_of(&[(0, 1, true)]);
    assert_eq!(m[0], 1 << 1);
    assert_eq!(m[1], 1 << 3);
    let m = mask_of(&[(1, 0, true)]);
    assert_eq!(m[0], 1 << 1);
    assert_eq!(m[1], 1 << 3);
    let m = mask_of(&[(0, 6, false)]);
    assert_eq!(m[0], 1 << 6);
    assert_eq!(m[6], 1 << 4);
    let m = mask_of(&[(20, 14, true)]);
    assert_eq!(m[20], 1 << 0);
    assert_eq!(m[14], 1 << 2);
    for (k, &x) in m.iter().enumerate() {
        if k != 20 && k != 14 {
            assert_eq!(x, 0);
        }
    }
}

#[test]
fn encoding_twice_is_the_same() {
    assert_eq!(mask_of(&[(3, 4, false)]), mask_of(&[(3, 4, false), (3, 4, false)]));
}

#[test]
fn adjacency_offsets() {
    assert_eq!(adjacent(0, 1), -1);
    assert_eq!(adjacent(1, 0), 1);
    assert_eq!(adjacent(6, 0), 6);
    assert_eq!(adjacent(0, 6), -6);
    assert_eq!(adjacent(5, 6), 0);
    assert_eq!(adjacent(0, 35), 0);
    assert_eq!(adjacent(3, 3), 0);
    assert_eq!(adjacent(36, 37), 0);
    assert_eq!(adjacent(200, 194), 0);
}

#[test]
fn count_rule() {
    let b = board_of("000222222222222222222222222222222222");
    assert!(!can_set(&b, 4, &[0u8; 36], Cell::Sun));
    assert!(can_set(&b, 4, &[0u8; 36], Cell::Moon) == false);
    let b = board_of("010220222222222222222222222222222222");
    assert!(!can_set(&b, 3, &[0u8; 36], Cell::Sun));
    assert!(can_set(&b, 3, &[0u8; 36], Cell::Moon));
    let b = board_of("022222122222022222022222222222222222");
    assert!(!can_set(&b, 24, &[0u8; 36], Cell::Sun));
    assert!(can_set(&b, 24, &[0u8; 36], Cell::Moon));
}

#[test]
fn run_rule() {
    let b = board_of("002222222222222222222222222222222222");
    assert!(!can_set(&b, 2, &[0u8; 36], Cell::Sun));
    assert!(can_set(&b, 2, &[0u8; 36], Cell::Moon));
    let b = board_of("020222222222222222222222222222222222");
    assert!(!can_set(&b, 1, &[0u8; 36], Cell::Sun));
    let b = board_of("222222122222122222222222222222222222");
    assert!(!can_set(&b, 0, &[0u8; 36], Cell::Moon));
    assert!(can_set(&b, 0, &[0u8; 36], Cell::Sun));
    let b = board_of("012022222222222222222222222222222222");
    assert!(can_set(&b, 2, &[0u8; 36], Cell::Sun));
}

#[test]
fn adjacency_rule() {
    let b = board_of("022222222222222222222222222222222222");
    let eq = mask_of(&[(0, 1, true)]);
    assert!(can_set(&b, 1, &eq, Cell::Sun));
    assert!(!can_set(&b, 1, &eq, Cell::Moon));
    let ne = mask_of(&[(1, 0, false)]);
    assert!(!can_set(&b, 1, &ne, Cell::Sun));
    assert!(can_set(&b, 1, &ne, Cell::Moon));
    let below = mask_of(&[(7, 1, false)]);
    assert!(can_set(&b, 1, &below, Cell::Sun));
    assert!(can_set(&b, 1, &below, Cell::Moon));
}

#[test]
fn off_grid_rule_bits_impose_nothing() {
    let b = board_of("222222022222222222222222222222222222");
    let mut mask: Mask = [0u8; 36];
    mask[5] = 0b0010_0010;
    assert!(can_set(&b, 5, &mask, Cell::Moon));
    assert!(can_set(&b, 5, &mask, Cell::Sun));
}

#[test]
fn board_text() {
    let b = board_of("012222222222222222222222222222222222");
    assert_eq!(b[0], Cell::Sun);
    assert_eq!(b[1], Cell::Moon);
    assert_eq!(b[2], Cell::Blank);
    let mut out: Board = [Cell::Moon; 36];
    assert!(!parse_board("01222", &mut out));
    assert_eq!(out, [Cell::Moon; 36]);
    assert!(!parse_board("312222222222222222222222222222222222", &mut out));
    assert!(!parse_board("0122222222222222222222222222222222222", &mut out));
    assert_eq!(out, [Cell::Moon; 36]);
    assert_eq!(Cell::Moon.digit(), b'1');
}

#[test]
fn grid_access() {
    let b = board_of("222222222222222222222222222222222210");
    assert_eq!(at(&b, 5, 5), Cell::Sun);
    assert_eq!(at(&b, 5, 4), Cell::Moon);
    assert!(inside(5, 5));
    assert!(!inside(6, 0));
    assert!(!inside(0, 6));
    assert!(!inside(1, 6));
}
