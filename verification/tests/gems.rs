use match3::char_board::CharGem;
use match3::combat_gem;
use match3::gem::{GemColor, GemVisuals};
use match3::line::LineMatcherSettings;
use match3::rect_board::RectBoard;
use match3::refilling::RefillableGem;
use match3::{BoardGem, MatchColor, SimpleGem};

#[test]
fn char_gem_match_rules() {
    assert!(CharGem('r').matches(&CharGem('r')));
    assert!(!CharGem('r').matches(&CharGem('g')));
    assert!(CharGem('*').matches(&CharGem('g')));
    assert!(CharGem('g').matches(&CharGem('*')));
    assert!(CharGem('r').can_start_match());
    assert!(!CharGem('*').can_start_match());
    assert!(!CharGem('-').can_start_match());
    assert!(!CharGem('*').hint_is_unmatchable());
    assert!(CharGem('-').hint_is_unmatchable());
    assert!(CharGem(' ').is_empty());
    assert!(!CharGem('r').is_empty());
}

#[test]
fn palette_gem_color_matches_itself_only() {
    assert!(GemColor::Red.matches(&GemColor::Red));
    assert!(!GemColor::Red.matches(&GemColor::Blue));
    assert!(!GemColor::Empty.can_start_match());
    assert!(GemColor::Dark.can_start_match());
    assert!(!GemColor::Empty.hint_is_unmatchable());
    let gem: match3::gem::Gem = SimpleGem(GemColor::Green);
    assert_eq!(gem.color(), GemColor::Green);
}

#[test]
fn palette_gems_match_on_a_board() {
    let cells: Vec<match3::gem::Gem> = vec![
        SimpleGem(GemColor::Red),
        SimpleGem(GemColor::Red),
        SimpleGem(GemColor::Red),
        SimpleGem(GemColor::Blue),
    ];
    let board = RectBoard::new(4, 1, cells);
    let matches = board.find_matches_linear(&LineMatcherSettings::common_match3());
    assert_eq!(matches.len(), 1);
    assert_eq!(matches[0].cells(), &vec![0, 1, 2]);
}

#[test]
fn combat_gem_colors_compare_by_id() {
    let a = combat_gem::GemColor::Color(combat_gem::GemColorId(3));
    let b = combat_gem::GemColor::Color(combat_gem::GemColorId(3));
    let c = combat_gem::GemColor::Color(combat_gem::GemColorId(4));
    assert!(a.matches(&b));
    assert!(!a.matches(&c));
    assert!(!combat_gem::GemColor::Empty.matches(&combat_gem::GemColor::Empty));
    assert!(!combat_gem::GemColor::Empty.can_start_match());
    assert!(combat_gem::GemColor::Empty.hint_is_unmatchable());
    assert!(combat_gem::GemColor::Empty.is_empty());
    assert!(!a.is_empty());
}

#[test]
fn gem_visuals_variant_checks() {
    assert!(GemVisuals::Normal.is_normal());
    assert!(GemVisuals::Faded.is_faded());
    assert!(GemVisuals::Held.is_held());
    assert!(GemVisuals::Cracking.is_cracking());
    assert!(!GemVisuals::Normal.is_cracking());
}
