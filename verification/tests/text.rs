use assistant_prompts::lines::join;
use assistant_prompts::candidate::Match;
use assistant_prompts::ordering::sort_matches;
use assistant_prompts::text::{byte_len, is_range_of, text_for_range};

#[test]
fn ranges_lie_on_character_boundaries_within_the_text() {
    let text = "aé€b";
    assert_eq!(byte_len(text), 7);
    assert!(is_range_of(text, 0, 0));
    assert!(is_range_of(text, 0, 7));
    assert!(is_range_of(text, 1, 3));
    assert!(is_range_of(text, 3, 6));
    assert!(is_range_of(text, 7, 7));
    assert!(!is_range_of(text, 2, 3));
    assert!(!is_range_of(text, 3, 4));
    assert!(!is_range_of(text, 3, 1));
    assert!(!is_range_of(text, 0, 8));
    assert!(!is_range_of(text, 8, 8));
    assert!(is_range_of("", 0, 0));
    assert!(!is_range_of("", 0, 1));
}

#[test]
fn slices_are_taken_by_byte_offsets() {
    let text = "aé€b";
    assert_eq!(text_for_range(text, 0, 7), text);
    assert_eq!(text_for_range(text, 1, 3), "é");
    assert_eq!(text_for_range(text, 3, 6), "€");
    assert_eq!(text_for_range(text, 1, 6), "é€");
    assert_eq!(text_for_range(text, 6, 7), "b");
    assert_eq!(text_for_range(text, 3, 3), "");
    assert_eq!(text_for_range(text, 7, 7), "");
}

#[test]
fn joined_lines_keep_their_own_line_breaks() {
    let lines = vec!["first\n".to_string(), "second".to_string()];
    assert_eq!(join(&lines), "first\n\nsecond");
}

#[test]
fn candidates_are_ordered_by_start_and_then_by_longer_first() {
    let given = vec![
        Match { collapse: 5..9, keep: vec![] },
        Match { collapse: 2..4, keep: vec![2..3] },
        Match { collapse: 2..8, keep: vec![] },
        Match { collapse: 0..1, keep: vec![] },
        Match { collapse: 2..4, keep: vec![3..4] },
        Match { collapse: 5..9, keep: vec![8..9] },
    ];
    let sorted = sort_matches(given);
    let ranges: Vec<_> = sorted.iter().map(|m| (m.collapse.clone(), m.keep.clone())).collect();
    assert_eq!(
        ranges,
        vec![
            (0..1, vec![]),
            (2..8, vec![]),
            (2..4, vec![2..3]),
            (2..4, vec![3..4]),
            (5..9, vec![]),
            (5..9, vec![8..9]),
        ]
    );
    assert!(sort_matches(vec![]).is_empty());
}
