use catalyst_toolbox::models::{is_approved_flag, parse_ada_rewards, AdaRewards, Challenge, Funnel};
use catalyst_toolbox::text::contains_str;
use catalyst_toolbox::{clean_str, CleanString};

#[test]
fn clean_str_removes_marks() {
    assert_eq!(clean_str("**Bold** - a/b"), "Bold  ab");
    assert_eq!(clean_str(""), "");
    assert_eq!(CleanString::new("x-y").to_string(), "xy");
    assert_eq!(CleanString::new("a*b").as_str(), "ab");
}

#[test]
fn community_funnel() {
    let f = Funnel {
        id: 1,
        title: CleanString::new("F6: Challenge Setting"),
        description: CleanString::new(""),
    };
    assert!(f.is_community());
    let g = Funnel { id: 2, title: CleanString::new("Fund 6"), description: CleanString::new("") };
    assert!(!g.is_community());
}

#[test]
fn ada_amounts() {
    assert_eq!(parse_ada_rewards("$1,250,000 in ada"), Some(1_250_000));
    assert_eq!(parse_ada_rewards("$500 in ada  \n"), Some(500));
    assert_eq!(parse_ada_rewards("0 ada for this one"), Some(0));
    assert_eq!(parse_ada_rewards("$1.5 in ada"), None);
    assert_eq!(parse_ada_rewards("$ in ada"), None);
    assert_eq!(parse_ada_rewards("500 in ada"), None);
    assert_eq!(parse_ada_rewards("$99999999999999999999 in ada"), None);
    assert_eq!(parse_ada_rewards("$\u{0661}2 in ada"), None);
    assert_eq!(AdaRewards::parse("$7 in ada").map(u64::from), Some(7));
    assert_eq!(parse_ada_rewards("$7\u{00b2} in ada"), None);
    assert_eq!(AdaRewards::new(3).amount(), 3);
}

#[test]
fn challenge_titles() {
    assert_eq!(Challenge::clean_title("F5: Distributed decision making"), "Distributed decision making");
    assert_eq!(Challenge::clean_title("Fund"), "Fund");
    assert_eq!(Challenge::clean_title("Open call"), "Open call");
}

#[test]
fn approved_flag() {
    assert!(is_approved_flag("approved"));
    assert!(!is_approved_flag("Approved"));
    assert!(!is_approved_flag(""));
}

#[test]
fn text_helpers() {
    assert!(contains_str("abcabd", "abd"));
    assert!(!contains_str("ab", "abc"));
}
