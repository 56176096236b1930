use yinyidict::letters::lower_str;

/// White space, as trimming takes it off.
fn blank(c: char) -> bool {
    c.is_whitespace()
}

#[test]
fn lower_case_of_every_character() {
    for c in '\0'..=char::MAX {
        let s = c.to_string();
        let l = lower_str(&s);
        assert!(l.chars().count() >= 1, "{c:?}");
        assert_eq!(lower_str(&l), l, "{c:?}");
        assert!(!l.contains(|x: char| x.is_ascii_uppercase() || x == 'Σ'), "{c:?}");
        assert_eq!(l.contains(blank), blank(c), "{c:?}");
        if blank(c) {
            assert_eq!(l, s);
        }
        assert_eq!(l.contains('ü'), c == 'ü' || c == 'Ü', "{c:?}");
        // between others a character has the same lower case, but for the sigma
        if c != 'Σ' {
            assert_eq!(lower_str(&format!("Q{c}中")), format!("q{l}中"));
        }
    }
}

#[test]
fn lower_case_goes_through_the_whole_text() {
    assert_eq!(lower_str("Zhōng·ÀÉ İ ẞ"), "zhōng·àé i̇ ß");
    assert_eq!(lower_str("ΟΔΥΣΣΕΥΣ Σ"), "οδυσσευς σ");
    assert_eq!(lower_str(&lower_str("ΟΔΥΣΣΕΥΣ Σ")), "οδυσσευς σ");
    assert_eq!(lower_str(""), "");
    assert_eq!(lower_str("LÜ 农历新年"), "lü 农历新年");
}
