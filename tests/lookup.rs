use line_col::LineColLookup;

#[test]
fn empty_str() {
    let text = "";
    let lookup = LineColLookup::new(text);
    assert_eq!(lookup.get(0), (1, 1));
}

#[test]
fn line_col_iter_by_codepoints() {
    let text = "a\nab\nabc";
    let lookup = LineColLookup::new(text);
    assert_eq!(lookup.get(0), (1, 1));
    assert_eq!(lookup.get(1), (1, 2));
    assert_eq!(lookup.get(2), (2, 1));
    assert_eq!(lookup.get(3), (2, 2));
    assert_eq!(lookup.get(4), (2, 3));
    assert_eq!(lookup.get(5), (3, 1));
    assert_eq!(lookup.get(6), (3, 2));
    assert_eq!(lookup.get(7), (3, 3));
    assert_eq!(lookup.get(8), (3, 4));
}

#[test]
fn emoji_text_by_grapheme_clusters() {
    let text = "The 👨‍👩‍👦 emoji is made of 5 code points and 18 bytes in UTF-8.";
    let lookup = LineColLookup::new(text);
    assert_eq!(lookup.get_by_cluster(4), (1, 5));
    assert_eq!(lookup.get_by_cluster(22), (1, 6));
}

#[test]
fn emoji_text_by_codepoints() {
    let text = "The 👨‍👩‍👦 emoji is made of 5 code points and 18 bytes in UTF-8.";
    let lookup = LineColLookup::new(text);
    assert_eq!(lookup.get(4), (1, 5));
    assert_eq!(lookup.get(22), (1, 23));
}

#[test]
fn two_lines_with_end_of_text() {
    let text = "One\nTwo";
    let lookup = LineColLookup::new(text);
    assert_eq!(lookup.get(0), (1, 1));
    assert_eq!(lookup.get(1), (1, 2));
    assert_eq!(lookup.get(2), (1, 3));
    assert_eq!(lookup.get(3), (1, 4));
    assert_eq!(lookup.get(4), (2, 1));
    assert_eq!(lookup.get(5), (2, 2));
    assert_eq!(lookup.get(6), (2, 3));
    assert_eq!(lookup.get(7), (2, 4));
}

#[test]
fn consecutive_line_feeds_make_an_empty_line() {
    let text = "a\n\nb";
    let lookup = LineColLookup::new(text);
    assert_eq!(lookup.get(1), (1, 2));
    assert_eq!(lookup.get(2), (2, 1));
    assert_eq!(lookup.get(3), (3, 1));
    assert_eq!(lookup.get(4), (3, 2));
}

#[test]
fn text_of_line_feeds_only() {
    let text = "\n\n\n";
    let lookup = LineColLookup::new(text);
    assert_eq!(lookup.get(0), (1, 1));
    assert_eq!(lookup.get(1), (2, 1));
    assert_eq!(lookup.get(2), (3, 1));
    assert_eq!(lookup.get(3), (4, 1));
}

#[test]
fn single_line_without_line_feed() {
    let text = "abcdef";
    let lookup = LineColLookup::new(text);
    assert_eq!(lookup.get(0), (1, 1));
    assert_eq!(lookup.get(3), (1, 4));
    assert_eq!(lookup.get(6), (1, 7));
}

#[test]
fn every_offset_is_in_range() {
    let text = "ab\n\ncde\nf\n";
    let lookup = LineColLookup::new(text);
    let total_lines = 5;
    for i in 0..=text.len() {
        let (line, col) = lookup.get(i);
        assert!(line >= 1 && line <= total_lines);
        assert!(col >= 1);
    }
}

#[test]
fn locations_never_go_backwards() {
    let text = "ab\n\ncde\nf\n";
    let lookup = LineColLookup::new(text);
    for i in 0..=text.len() {
        for j in i..=text.len() {
            let (li, ci) = lookup.get(i);
            let (lj, cj) = lookup.get(j);
            assert!(li <= lj);
            if li == lj {
                assert!(ci <= cj);
            }
        }
    }
}

#[test]
fn line_starts_are_column_one() {
    let text = "ab\n\ncde\nf\n";
    let lookup = LineColLookup::new(text);
    assert_eq!(lookup.get(0), (1, 1));
    assert_eq!(lookup.get(3), (2, 1));
    assert_eq!(lookup.get(4), (3, 1));
    assert_eq!(lookup.get(8), (4, 1));
    assert_eq!(lookup.get(10), (5, 1));
}

#[test]
fn end_of_text_is_on_the_last_line() {
    let text = "first\nsecond line";
    let lookup = LineColLookup::new(text);
    assert_eq!(lookup.get(text.len()), (2, 12));
}

#[test]
fn clusters_counted_from_the_line_start() {
    // "e" followed by a combining acute accent is one cluster of three bytes.
    let text = "x\ne\u{301}b";
    let lookup = LineColLookup::new(text);
    assert_eq!(lookup.get_by_cluster(0), (1, 1));
    assert_eq!(lookup.get_by_cluster(2), (2, 1));
    assert_eq!(lookup.get_by_cluster(5), (2, 2));
    assert_eq!(lookup.get_by_cluster(6), (2, 3));
    assert_eq!(lookup.get(5), (2, 4));
    assert_eq!(lookup.get(6), (2, 5));
}

#[test]
fn clusters_of_empty_text() {
    let lookup = LineColLookup::new("");
    assert_eq!(lookup.get_by_cluster(0), (1, 1));
}
