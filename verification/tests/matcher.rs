use match3::char_board::{board_from_str, CharBoard, CharGem};
use match3::line::LineMatcherSettings;
use match3::rect_board::RectBoard;
use match3::BoardMatch;

fn sorted_groups(matches: &[BoardMatch<CharGem>]) -> Vec<(char, Vec<usize>)> {
    let mut out: Vec<(char, Vec<usize>)> = matches
        .iter()
        .map(|m| (m.color().0, m.cells().clone()))
        .collect();
    out.sort();
    out
}

#[test]
fn test_dev() {
    let b = board_from_str("rr*g");
    let settings = LineMatcherSettings::common_match3();
    let matches = b.find_matches_linear(&settings);
    assert_eq!(sorted_groups(&matches), vec![('r', vec![0, 1, 2])]);
}

#[test]
fn scenario_straight_line() {
    let b = board_from_str("rrr");
    let settings = LineMatcherSettings::common_match3();
    let matches = b.find_matches_linear(&settings);
    assert_eq!(matches.len(), 1);
    assert_eq!(matches[0].color().0, 'r');
    assert_eq!(matches[0].cells(), &vec![0, 1, 2]);
}

#[test]
fn scenario_incomplete_line() {
    let b = board_from_str("rr-");
    let settings = LineMatcherSettings::common_match3();
    let matches = b.find_matches_linear(&settings);
    assert_eq!(matches.len(), 0);
}

#[test]
fn scenario_wildcard_backfill() {
    let b = board_from_str("*rr");
    let settings = LineMatcherSettings::common_match3();
    let matches = b.find_matches_linear(&settings);
    assert_eq!(matches.len(), 1);
    assert_eq!(matches[0].color().0, 'r');
    assert_eq!(matches[0].cells(), &vec![0, 1, 2]);
}

#[test]
fn scenario_neighbour_merge() {
    let text = "rrr--\n--rrr";
    let merged = board_from_str(text)
        .find_matches_linear(&LineMatcherSettings::common_match3().with_merge_neighbours(true));
    assert_eq!(sorted_groups(&merged), vec![('r', vec![0, 1, 2, 7, 8, 9])]);

    let split = board_from_str(text)
        .find_matches_linear(&LineMatcherSettings::common_match3().with_merge_neighbours(false));
    assert_eq!(
        sorted_groups(&split),
        vec![('r', vec![0, 1, 2]), ('r', vec![7, 8, 9])]
    );
}

#[test]
fn intersecting_runs_merge_without_neighbour_merging() {
    // A horizontal and a vertical run share the corner cell, so they unify
    // even with neighbour merging off.
    let text = "rrr\nr--\nr--";
    let matches =
        board_from_str(text).find_matches_linear(&LineMatcherSettings::common_match3());
    assert_eq!(sorted_groups(&matches), vec![('r', vec![0, 1, 2, 3, 6])]);
}

#[test]
fn min_group_size_discards_small_runs() {
    let settings = LineMatcherSettings::common_match3().with_min_group_size(Some(4));
    let none = board_from_str("rrr").find_matches_linear(&settings);
    assert_eq!(none.len(), 0);
    let some = board_from_str("rrrr").find_matches_linear(&settings);
    assert_eq!(sorted_groups(&some), vec![('r', vec![0, 1, 2, 3])]);
}

#[test]
fn line_size_two_matches_pairs() {
    let settings = LineMatcherSettings::new(2, None, false);
    let matches = board_from_str("rr-").find_matches_linear(&settings);
    assert_eq!(sorted_groups(&matches), vec![('r', vec![0, 1])]);
}

#[test]
fn wildcards_may_sit_in_two_groups() {
    // A wildcard extends runs of two different colors; both keep it, so the
    // no-overlap property holds only for boards where matching is transitive.
    let matches =
        board_from_str("rr*gg").find_matches_linear(&LineMatcherSettings::common_match3());
    assert_eq!(
        sorted_groups(&matches),
        vec![('g', vec![2, 3, 4]), ('r', vec![0, 1, 2])]
    );
}

#[test]
fn no_overlap_without_wildcards() {
    let boards = ["rrrgg\nbbbgg\nrgbrg", "rrr\nrrr\nrrr", "rgb\nrgb\nrgb"];
    for text in boards {
        for merge in [false, true] {
            let settings = LineMatcherSettings::common_match3().with_merge_neighbours(merge);
            let matches = board_from_str(text).find_matches_linear(&settings);
            let mut seen: Vec<usize> = vec![];
            for m in &matches {
                for &c in m.cells() {
                    assert!(!seen.contains(&c), "cell {} appears in two groups", c);
                    seen.push(c);
                }
            }
        }
    }
}

#[test]
fn determinism_same_input_same_groups() {
    let text = "rrbgg\nbb*gg\nrrbgp";
    for merge in [false, true] {
        let settings = LineMatcherSettings::common_match3().with_merge_neighbours(merge);
        let a = board_from_str(text).find_matches_linear(&settings);
        let b = board_from_str(text).find_matches_linear(&settings);
        assert_eq!(sorted_groups(&a), sorted_groups(&b));
    }
}

fn lcg_next(state: &mut u64) -> u64 {
    *state = state
        .wrapping_mul(6364136223846793005)
        .wrapping_add(1442695040888963407);
    *state >> 33
}

fn random_board(state: &mut u64, width: usize, height: usize) -> CharBoard {
    let alphabet = ['r', 'g', 'b', 'w', 'p', '*'];
    let cells: Vec<CharGem> = (0..width * height)
        .map(|_| CharGem(alphabet[(lcg_next(state) % alphabet.len() as u64) as usize]))
        .collect();
    RectBoard::new(width, height, cells)
}

fn check_straight_matches(board: &CharBoard) -> Option<String> {
    let w = board.width;
    let h = board.height;
    let b = &board.board;
    for y in 0..h {
        for x in 0..w {
            let i = y * w + x;
            if !(b[i].0 != '*' && b[i].0 != '-' && b[i].0 != ' ') {
                continue;
            }
            if x + 2 < w && b[i] == b[i + 1] && b[i] == b[i + 2] {
                return Some(format!("unmatched horizontal group at x={x}, y={y}"));
            }
            if y + 2 < h && b[i] == b[i + w] && b[i] == b[i + w * 2] {
                return Some(format!("unmatched vertical group at x={x}, y={y}"));
            }
        }
    }
    None
}

#[test]
fn random_tests() {
    let mut state: u64 = 12345;
    for round in 0..200 {
        let width = 3 + (lcg_next(&mut state) % 61) as usize;
        let height = 3 + (lcg_next(&mut state) % 61) as usize;
        let board = random_board(&mut state, width, height);
        let settings = LineMatcherSettings::common_match3();
        let matches = board.find_matches_linear(&settings);
        let mut cleared = board.clone();
        for m in &matches {
            for &x in m.cells().iter() {
                cleared.board[x].0 = ' ';
            }
        }
        if let Some(err) = check_straight_matches(&cleared) {
            panic!("round {round}: {err}");
        }
    }
}
