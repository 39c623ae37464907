use match3::char_board::{board_from_str, CharBoard, CharGem};
use match3::line::LineMatcherSettings;
use match3::refilling::{remove_matched, GravityRefill, GravityRefillAction};
use match3::BoardGem;

#[test]
fn scenario_gravity() {
    // One lane, top to bottom: empty, token, empty, token.
    let board = board_from_str("-\nr\n-\nr");
    let lanes = board.vertical_lines();
    let actions = GravityRefill::refill(&board.board, &lanes);
    assert_eq!(
        actions,
        vec![
            GravityRefillAction::Fall { from: 1, to: 2, height: 1 },
            GravityRefillAction::FallIn { pos: 0, height: 2 },
            GravityRefillAction::FallIn { pos: 1, height: 2 },
        ]
    );
}

fn count_empty_in_lane(board: &CharBoard, lane: &[usize]) -> usize {
    lane.iter()
        .filter(|&&p| {
            let c = board.board[p].color();
            c.0 == ' ' || c.0 == '-'
        })
        .count()
}

#[test]
fn refill_conservation() {
    let texts = ["r-g\n-b-\nrr-", "---\n---\nrgb", "rgb\nrgb\nrgb", "-r-\nr-r\n-r-"];
    for text in texts {
        let board = board_from_str(text);
        let lanes = board.vertical_lines();
        let actions = GravityRefill::refill(&board.board, &lanes);
        for lane in &lanes {
            let empties = count_empty_in_lane(&board, lane);
            let fall_ins = actions
                .iter()
                .filter(|a| match a {
                    GravityRefillAction::FallIn { pos, .. } => lane.contains(pos),
                    _ => false,
                })
                .count();
            assert_eq!(fall_ins, empties, "lane {:?} of {:?}", lane, text);
        }
    }
}

#[test]
fn applying_refill_compacts_every_lane() {
    let texts = ["r-g\n-b-\nrr-", "-r-\nr-r\n-r-", "--\n--"];
    for text in texts {
        let mut board = board_from_str(text);
        let lanes = board.vertical_lines();
        let actions = GravityRefill::refill(&board.board, &lanes);
        for action in &actions {
            action.apply(&mut board.board, CharGem('#'));
        }
        for lane in &lanes {
            for &p in lane {
                let c = board.board[p].color();
                assert!(c.0 != ' ' && c.0 != '-', "cell {p} still empty in {text:?}");
            }
        }
    }
}

#[test]
fn fall_apply_swaps_cells() {
    let mut board = board_from_str("r\n-");
    let action = GravityRefillAction::Fall { from: 0, to: 1, height: 1 };
    assert_eq!(action.target(), 1);
    assert_eq!(action.height(), 1);
    action.apply(&mut board.board, CharGem('#'));
    assert_eq!(board.board, vec![CharGem('-'), CharGem('r')]);
}

#[test]
fn fall_in_apply_uses_fresh_gem() {
    let mut board = board_from_str("-");
    let action = GravityRefillAction::FallIn { pos: 0, height: 1 };
    assert_eq!(action.target(), 0);
    assert_eq!(action.height(), 1);
    action.apply(&mut board.board, CharGem('y'));
    assert_eq!(board.board, vec![CharGem('y')]);
}

#[test]
fn remove_matched_clears_only_matched_cells() {
    let mut board = board_from_str("rrrg\nbgbg");
    let matches = board.find_matches_linear(&LineMatcherSettings::common_match3());
    remove_matched(&mut board.board, &matches, CharGem(' '));
    let text: String = board.board.iter().map(|g| g.0).collect();
    assert_eq!(text, "   gbgbg");
}

#[test]
fn match_then_refill_round() {
    let mut board = board_from_str("rrr\ngbg\nbgb");
    let matches = board.find_matches_linear(&LineMatcherSettings::common_match3());
    remove_matched(&mut board.board, &matches, CharGem(' '));
    let lanes = board.vertical_lines();
    let actions = GravityRefill::refill(&board.board, &lanes);
    // The top row was cleared: each lane compacts by two falls and one fall-in.
    assert_eq!(
        actions
            .iter()
            .filter(|a| matches!(a, GravityRefillAction::FallIn { .. }))
            .count(),
        3
    );
    for action in &actions {
        action.apply(&mut board.board, CharGem('#'));
    }
    let text: String = board.board.iter().map(|g| g.0).collect();
    assert_eq!(text, "###gbgbgb");
}
