use zaohelper::file::EntryKind;
use zaohelper::utils::{classify_outcomes, merge_splits, ChapterProbe, ListDirSplit};

fn file(p: &str) -> EntryKind {
    EntryKind::File(p.to_string())
}

#[test]
fn classifies_by_probe_outcome() {
    let items = vec![
        (file("a.mkv"), ChapterProbe::Found(3)),
        (file("b.mkv"), ChapterProbe::Found(0)),
        (file("c.mkv"), ChapterProbe::Failed),
        (EntryKind::Directory("d".to_string()), ChapterProbe::Found(0)),
        (EntryKind::Other("e".to_string()), ChapterProbe::Found(5)),
    ];
    let split = classify_outcomes("root".to_string(), &items);
    assert_eq!(split.path_source, "root");
    assert_eq!(split.num_with_chapters, 1);
    assert_eq!(split.num_without_chapters, 1);
    assert_eq!(split.num_skipped, 1);
    assert_eq!(split.with_chapters[0].path(), "a.mkv");
    assert_eq!(split.without_chapters[0].path(), "b.mkv");
    assert_eq!(split.skipped[0].path(), "c.mkv");
}

// The with and without counts together equal the files visited minus the
// failed extractions, and no entry stands in both lists.
#[test]
fn counts_partition_the_files() {
    let items = vec![
        (file("a"), ChapterProbe::Found(1)),
        (file("b"), ChapterProbe::Found(0)),
        (file("c"), ChapterProbe::Failed),
        (file("d"), ChapterProbe::Found(2)),
        (file("e"), ChapterProbe::Failed),
        (EntryKind::Other("x".to_string()), ChapterProbe::Failed),
    ];
    let files_visited = 5u32;
    let failed = 2u32;
    let split = classify_outcomes("root".to_string(), &items);
    assert_eq!(
        split.num_with_chapters + split.num_without_chapters,
        files_visited - failed
    );
    assert_eq!(split.num_skipped, failed);
    for w in &split.with_chapters {
        for o in &split.without_chapters {
            assert_ne!(w.path(), o.path());
        }
    }
}

// A file for which the extractor returned zero chapters lands in
// `without_chapters`.
#[test]
fn zero_chapters_classifies_as_without() {
    let items = vec![(file("plain.mkv"), ChapterProbe::Found(0))];
    let split = classify_outcomes("root".to_string(), &items);
    assert_eq!(split.num_with_chapters, 0);
    assert_eq!(split.num_without_chapters, 1);
    assert_eq!(split.without_chapters[0].path(), "plain.mkv");
}

#[test]
fn classifies_empty_input() {
    let split = classify_outcomes("root".to_string(), &vec![]);
    assert_eq!(split.num_with_chapters, 0);
    assert_eq!(split.num_without_chapters, 0);
    assert_eq!(split.num_skipped, 0);
}

#[test]
fn merge_concatenates_and_recounts() {
    let a = classify_outcomes(
        "root".to_string(),
        &vec![
            (file("a"), ChapterProbe::Found(1)),
            (file("b"), ChapterProbe::Found(0)),
        ],
    );
    let b = classify_outcomes(
        "sub".to_string(),
        &vec![
            (file("c"), ChapterProbe::Found(4)),
            (file("d"), ChapterProbe::Failed),
        ],
    );
    let m = merge_splits(a, b);
    assert_eq!(m.path_source, "root");
    assert_eq!(m.num_with_chapters, 2);
    assert_eq!(m.num_without_chapters, 1);
    assert_eq!(m.num_skipped, 1);
    assert_eq!(m.with_chapters[0].path(), "a");
    assert_eq!(m.with_chapters[1].path(), "c");
}

#[test]
fn default_split_is_empty_and_consistent() {
    let d = ListDirSplit::default();
    assert_eq!(d.path_source, "");
    assert_eq!(d.num_with_chapters, 0);
    assert_eq!(d.with_chapters.len(), 0);
    assert_eq!(d.without_chapters.len(), 0);
    assert_eq!(d.skipped.len(), 0);
}
