use zaohelper::chapters::{ChapterAtom, ChapterDisplay};
use zaohelper::mkv::{title_matches, MkvMetadata};
use zaohelper::time::Duration;

fn atom(title: &str, start: &str, end: Option<&str>) -> ChapterAtom {
    ChapterAtom {
        start_time: start.to_string(),
        end_time: end.map(|e| e.to_string()),
        display: ChapterDisplay { title: title.to_string() },
    }
}

fn meta(chapters: Vec<ChapterAtom>) -> MkvMetadata {
    MkvMetadata {
        path: "show/ep.mkv".to_string(),
        duration: Duration { secs: 1200, nanos: 0 },
        chapters,
    }
}

#[test]
fn title_matching_lowercases() {
    assert!(title_matches("OP"));
    assert!(title_matches("OPENING"));
    assert!(title_matches("Opening Theme"));
    assert!(title_matches("op"));
    assert!(!title_matches("Credits"));
    assert!(!title_matches("Ending"));
    assert!(!title_matches(""));
}

#[test]
fn fallback_to_next_chapter_start() {
    let m = meta(vec![
        atom("Prologue", "0:00:00.000000000", Some("0:02:00.000000000")),
        atom("OP", "0:02:00.000000000", None),
        atom("Episode", "0:03:40.000000000", None),
    ]);
    let (start, end) = m.extract_opening_times();
    assert_eq!(start, Some(Duration { secs: 120, nanos: 0 }));
    assert_eq!(end, Some(Duration { secs: 220, nanos: 0 }));
}

#[test]
fn fully_specified_match_wins_immediately() {
    let m = meta(vec![
        atom("OP", "0:01:30.000000000", Some("0:03:10.000000000")),
        atom("Opening", "0:09:00.000000000", Some("0:10:00.000000000")),
    ]);
    let (start, end) = m.extract_opening_times();
    assert_eq!(start, Some(Duration { secs: 90, nanos: 0 }));
    assert_eq!(end, Some(Duration { secs: 190, nanos: 0 }));
}

#[test]
fn no_match_gives_nothing() {
    let m = meta(vec![
        atom("Prologue", "0:00:00.000000000", None),
        atom("Episode", "0:03:40.000000000", None),
    ]);
    assert_eq!(m.extract_opening_times(), (None, None));
}

#[test]
fn empty_chapter_list_gives_nothing() {
    let m = meta(vec![]);
    assert_eq!(m.extract_opening_times(), (None, None));
}

#[test]
fn match_without_end_and_without_next_is_unresolved() {
    let m = meta(vec![
        atom("Prologue", "0:00:00.000000000", None),
        atom("OP", "0:02:00.000000000", None),
    ]);
    let (start, end) = m.extract_opening_times();
    assert_eq!(start, Some(Duration { secs: 120, nanos: 0 }));
    assert_eq!(end, None);
}

// An inverted interval (start past end) in the source is reported as found:
// the extractor does not order the endpoints, it is an accepted source
// anomaly that downstream consumers must treat as a boundary case.
#[test]
fn inverted_interval_is_reported_as_found() {
    let m = meta(vec![atom(
        "OP",
        "0:10:00.000000000",
        Some("0:05:00.000000000"),
    )]);
    let (start, end) = m.extract_opening_times();
    let s = start.unwrap();
    let e = end.unwrap();
    assert_eq!(s.secs, 600);
    assert_eq!(e.secs, 300);
    assert!(s.secs > e.secs);
}

#[test]
fn malformed_start_of_match_leaves_start_unset() {
    let m = meta(vec![
        atom("OP", "bogus", Some("0:05:00.000000000")),
    ]);
    let (start, end) = m.extract_opening_times();
    assert_eq!(start, None);
    assert_eq!(end, Some(Duration { secs: 300, nanos: 0 }));
}

#[test]
fn later_partial_match_overrides_earlier_partial_match() {
    let m = meta(vec![
        atom("OP", "0:01:00.000000000", None),
        atom("Part A", "0:02:00.000000000", None),
        atom("Opening 2", "0:05:00.000000000", None),
        atom("Part B", "0:06:30.000000000", None),
    ]);
    let (start, end) = m.extract_opening_times();
    assert_eq!(start, Some(Duration { secs: 300, nanos: 0 }));
    assert_eq!(end, Some(Duration { secs: 390, nanos: 0 }));
}
