use zaohelper::ai_labels::{
    build_zaoai_label, has_label_extension, label_output_path, normalized_time, with_extension,
    NormalizedTime, ZaoaiLabel, ZaoaiLabelsLoader, ZAOAI_LABEL_VERSION,
};
use zaohelper::chapters::{ChapterAtom, ChapterDisplay, VideoMetadata};
use zaohelper::error::LibError;
use zaohelper::mkv::MkvMetadata;
use zaohelper::time::Duration;

fn atom(title: &str, start: &str, end: Option<&str>) -> ChapterAtom {
    ChapterAtom {
        start_time: start.to_string(),
        end_time: end.map(|e| e.to_string()),
        display: ChapterDisplay { title: title.to_string() },
    }
}

// One chapter "OP" from 0:01:30 to 0:03:10 in a 1200 s episode.
// 0:01:30 is 90 s, so the start normalizes to 90/1200 = 0.075; 0:03:10 is
// 190 s, so the end normalizes to 190/1200.
#[test]
fn builds_label_with_normalized_endpoints() {
    let mkv = MkvMetadata {
        path: "src/show/ep.mkv".to_string(),
        duration: Duration { secs: 1200, nanos: 0 },
        chapters: vec![atom("OP", "0:01:30.000000000", Some("0:03:10.000000000"))],
    };
    let label = build_zaoai_label(mkv, "src".to_string()).unwrap();
    assert_eq!(label.path, "src/show/ep.mkv");
    assert_eq!(label.path_source, "src");
    assert_eq!(label.version, ZAOAI_LABEL_VERSION);
    assert_eq!(label.opening_start_time, Some(Duration { secs: 90, nanos: 0 }));
    assert_eq!(label.opening_end_time, Some(Duration { secs: 190, nanos: 0 }));
    assert_eq!(label.opening_start_frame, None);
    assert_eq!(label.opening_end_frame, None);
    let start = label.opening_start_normalized.unwrap();
    let end = label.opening_end_normalized.unwrap();
    assert_eq!(start.num as f64 / start.den as f64, 0.075);
    assert_eq!(end.num as f64 / end.den as f64, 190.0 / 1200.0);
    assert_eq!(label.metadata.duration.secs, 1200);
    assert_eq!(label.metadata.container_format.as_deref(), Some("mkv"));
    assert_eq!(label.metadata.chapters.len(), 1);
    assert!(!label.has_opening());
    let outputs = label.expected_outputs();
    assert_eq!(outputs.len(), 2);
    assert_eq!(outputs[0], start);
    assert_eq!(outputs[1], end);
}

// A file with no usable opening interval contributes no label.
#[test]
fn unresolved_interval_builds_no_label() {
    let mkv = MkvMetadata {
        path: "a.mkv".to_string(),
        duration: Duration { secs: 1200, nanos: 0 },
        chapters: vec![],
    };
    assert!(build_zaoai_label(mkv, "src".to_string()).is_none());
    let partial = MkvMetadata {
        path: "b.mkv".to_string(),
        duration: Duration { secs: 1200, nanos: 0 },
        chapters: vec![atom("OP", "0:01:30.000000000", None)],
    };
    assert!(build_zaoai_label(partial, "src".to_string()).is_none());
}

// Normalized endpoints are in the unit interval whenever the duration is
// positive, and absent when the duration is zero.
#[test]
fn normalized_fields_stay_in_unit_interval() {
    let half = normalized_time(
        &Duration { secs: 600, nanos: 0 },
        &Duration { secs: 1200, nanos: 0 },
    )
    .unwrap();
    assert!(half.num <= half.den && half.den > 0);
    assert_eq!(half, NormalizedTime { num: 600_000_000_000, den: 1_200_000_000_000 });

    let full = normalized_time(
        &Duration { secs: 1200, nanos: 0 },
        &Duration { secs: 1200, nanos: 0 },
    )
    .unwrap();
    assert_eq!(full.num, full.den);

    let zero_duration = normalized_time(
        &Duration { secs: 1, nanos: 0 },
        &Duration { secs: 0, nanos: 0 },
    );
    assert!(zero_duration.is_none());

    let past_end = normalized_time(
        &Duration { secs: 1300, nanos: 0 },
        &Duration { secs: 1200, nanos: 0 },
    );
    assert!(past_end.is_none());
}

#[test]
fn zero_duration_label_has_no_normalized_fields() {
    let mkv = MkvMetadata {
        path: "a.mkv".to_string(),
        duration: Duration { secs: 0, nanos: 0 },
        chapters: vec![atom("OP", "0:01:30.000000000", Some("0:03:10.000000000"))],
    };
    let label = build_zaoai_label(mkv, "src".to_string()).unwrap();
    assert!(label.opening_start_normalized.is_none());
    assert!(label.opening_end_normalized.is_none());
    assert_eq!(label.opening_start_time, Some(Duration { secs: 90, nanos: 0 }));
}

#[test]
fn label_output_path_mirrors_the_tree() {
    let out = label_output_path("library/show/ep01.mkv", "library", "out").unwrap();
    assert_eq!(out, "out/show/ep01.zlbl");
    let err = label_output_path("elsewhere/ep01.mkv", "library", "out");
    assert_eq!(err, Err(LibError::Path));
}

// Distinct source files of one extension never share a label destination.
#[test]
fn label_output_paths_never_collide() {
    let a = label_output_path("library/show/ep01.mkv", "library", "out").unwrap();
    let b = label_output_path("library/show/ep02.mkv", "library", "out").unwrap();
    let c = label_output_path("library/other/ep01.mkv", "library", "out").unwrap();
    assert_ne!(a, b);
    assert_ne!(a, c);
    assert_ne!(b, c);
}

#[test]
fn with_extension_replaces_or_appends() {
    assert_eq!(with_extension("a/b/c.mkv", "zlbl"), "a/b/c.zlbl");
    assert_eq!(with_extension("a/b/c", "zlbl"), "a/b/c.zlbl");
    assert_eq!(with_extension("a.tar.gz", "zlbl"), "a.tar.zlbl");
}

#[test]
fn loader_keeps_only_label_files() {
    let loader = ZaoaiLabelsLoader::new(
        "root".to_string(),
        vec![
            "root/a.zlbl".to_string(),
            "root/b.mkv".to_string(),
            "root/sub/c.zlbl".to_string(),
            "root/noext".to_string(),
        ],
    );
    assert_eq!(loader.path_source, "root");
    assert_eq!(loader.len, 2);
    assert_eq!(loader.label_file_paths, vec!["root/a.zlbl", "root/sub/c.zlbl"]);
}

#[test]
fn label_extension_check() {
    assert!(has_label_extension("x/y.zlbl"));
    assert!(!has_label_extension("x/y.mkv"));
    assert!(!has_label_extension("x/zlbl"));
    assert!(!has_label_extension("x/.zlbl"));
}

#[test]
fn has_opening_needs_both_frames() {
    let mut label = ZaoaiLabel {
        path: String::new(),
        path_source: String::new(),
        metadata: VideoMetadata::default(),
        version: ZAOAI_LABEL_VERSION,
        opening_start_time: None,
        opening_end_time: None,
        opening_start_frame: Some(10),
        opening_end_frame: None,
        opening_start_normalized: None,
        opening_end_normalized: None,
    };
    assert!(!label.has_opening());
    label.opening_end_frame = Some(20);
    assert!(label.has_opening());
}
