use glyphwire::find::{Find, Highlight};

#[test]
fn literal_unicode_search_counts_and_wraps() {
    let mut find = Find::new();
    find.query = "café.*".into();
    let text = "🦀 CAFÉ.* then café.* and cafe";
    find.refresh(text);
    assert_eq!(find.matches().len(), 2);
    let (start, end) = find.matches()[0];
    assert_eq!(&text[start..end], "CAFÉ.*");
    find.advance(true);
    assert_eq!(find.current(), 1);
    find.advance(false);
    assert_eq!(find.current(), 0);
    find.refresh("nothing");
    assert!(find.matches().is_empty());
    assert_eq!(find.current(), 0);
    find.advance(true);
    find.query.clear();
    find.refresh(text);
    assert!(find.matches().is_empty());
}

fn painted_text(find: &Find, text: &str) -> String {
    find.layout(text).iter().map(|section| &text[section.start..section.end]).collect()
}

#[test]
fn layout_highlights_matches_and_tolerates_edits() {
    let mut find = Find::new();
    find.open = true;
    find.query = "a".into();
    find.refresh("a a");
    let sections = find.layout("a a");
    assert_eq!(painted_text(&find, "a a"), "a a");
    assert_eq!(
        sections.iter().filter(|section| section.highlight != Highlight::Plain).count(),
        2
    );
    for changed in ["", "🦀", "éa", "aaaa"] {
        assert_eq!(painted_text(&find, changed), changed);
    }
}

#[test]
fn current_match_is_painted_apart() {
    let mut find = Find::new();
    find.open = true;
    find.query = "ab".into();
    find.refresh("xAB ab");
    find.advance(false);
    let sections = find.layout("xAB ab");
    let kinds: Vec<(usize, usize, Highlight)> =
        sections.iter().map(|s| (s.start, s.end, s.highlight)).collect();
    assert_eq!(
        kinds,
        vec![
            (0, 1, Highlight::Plain),
            (1, 3, Highlight::Match),
            (3, 4, Highlight::Plain),
            (4, 6, Highlight::Current),
            (6, 6, Highlight::Plain),
        ]
    );
    find.open = false;
    let closed = find.layout("xAB ab");
    assert_eq!(closed.len(), 1);
    assert_eq!((closed[0].start, closed[0].end, closed[0].highlight), (0, 6, Highlight::Plain));
}

#[test]
fn advancing_wraps_both_ways_and_round_trips() {
    let mut find = Find::new();
    find.query = "o".into();
    find.refresh("one two four");
    assert_eq!(find.matches().len(), 3);
    find.advance(true);
    assert_eq!(find.current(), 2);
    assert!(find.scroll_to_match);
    find.advance(false);
    assert_eq!(find.current(), 0);
    find.advance(false);
    find.advance(false);
    assert_eq!(find.current(), 2);
    find.advance(false);
    assert_eq!(find.current(), 0);
}

#[test]
fn refresh_keeps_current_on_a_match() {
    let mut find = Find::new();
    find.query = "x".into();
    find.refresh("x x x x");
    find.advance(true);
    assert_eq!(find.current(), 3);
    find.refresh("x x");
    assert_eq!(find.current(), 1);
    find.refresh("none");
    assert_eq!(find.current(), 0);
    find.apply_matches(None);
    assert!(find.matches().is_empty());
}

#[test]
fn summary_reports_the_search_state() {
    let mut find = Find::new();
    assert_eq!(find.summary(), "Case-insensitive");
    find.query = "zz".into();
    find.refresh("abc");
    assert_eq!(find.summary(), "No matches");
    find.refresh("zz ZZ zZ");
    find.advance(false);
    assert_eq!(find.summary(), "2 of 3");
}

#[test]
fn opening_searches_focuses_and_scrolls() {
    let mut find = Find::new();
    find.query = "needle".into();
    find.open_find("hay NEEDLE hay");
    assert!(find.open && find.focus && find.scroll_to_match);
    assert_eq!(find.matches().to_vec(), vec![(4, 10)]);
    find.reset_current();
    assert_eq!(find.current(), 0);
}

#[test]
fn every_match_of_a_search_is_painted() {
    let mut find = Find::new();
    find.open = true;
    find.query = "ä".into();
    let text = "Ärger, ärger, ÄÄ";
    find.refresh(text);
    let sections = find.layout(text);
    assert_eq!(sections.len(), 2 * find.matches().len() + 1);
    assert_eq!(find.matches().len(), 4);
    for (k, (start, end)) in find.matches().iter().enumerate() {
        let section = sections[2 * k + 1];
        assert_eq!((section.start, section.end), (*start, *end));
        let expected = if k == 0 { Highlight::Current } else { Highlight::Match };
        assert_eq!(section.highlight, expected);
    }
    assert_eq!(painted_text(&find, text), text);
}

#[test]
fn editing_the_query_searches_again_from_the_first_match() {
    let mut find = Find::new();
    find.query = "b".into();
    find.refresh("b B b");
    find.advance(false);
    find.advance(false);
    assert_eq!(find.current(), 2);
    find.scroll_to_match = false;
    assert!(!find.reveals_source());
    find.query = "bb".into();
    find.query_edited("bb BB x");
    assert_eq!(find.matches().to_vec(), vec![(0, 2), (3, 5)]);
    assert_eq!(find.current(), 0);
    assert!(find.scroll_to_match && find.reveals_source());
    find.query_edited("nothing here");
    assert!(!find.reveals_source());
}
