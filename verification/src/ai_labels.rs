//! Training labels: one persisted record per source file whose opening
//! interval resolved, with endpoints kept both as elapsed time and as a
//! fraction of the episode's duration.

use vstd::prelude::*;
use crate::chapters::{ChapterAtom, VideoMetadata};
use crate::error::LibError;
use crate::file::{
    lemma_extension_after_join, lemma_extension_is_suffix, lemma_last_index_of, last_index_of,
    relative_path_from_base, spec_extension, spec_strip_prefix, extension_of,
};
use crate::mkv::{spec_extract_opening, MkvMetadata};
use crate::strutil::str_eq;
use crate::time::Duration;

verus! {

/// Version tag of the persisted label schema.
pub const ZAOAI_LABEL_VERSION: u8 = 1;

/// An opening endpoint as a fraction of the total duration: `num`
/// nanoseconds into a `den`-nanosecond episode.
#[derive(Clone, Copy, Debug, PartialEq, Eq, Structural)]
pub struct NormalizedTime {
    pub num: u128,
    pub den: u128,
}

impl NormalizedTime {
    /// In the unit interval: a positive duration bounds the endpoint.
    pub open spec fn wf(self) -> bool {
        0 < self.den && self.num <= self.den
    }
}

/// The persisted per-file training target. Frame endpoints and time or
/// normalized endpoints come from different producers and may diverge: a
/// resolved opening is judged by the frame fields alone.
#[derive(Clone, Debug)]
pub struct ZaoaiLabel {
    pub path: String,
    pub path_source: String,
    pub metadata: VideoMetadata,
    pub version: u8,
    pub opening_start_time: Option<Duration>,
    pub opening_end_time: Option<Duration>,
    pub opening_start_frame: Option<u32>,
    pub opening_end_frame: Option<u32>,
    pub opening_start_normalized: Option<NormalizedTime>,
    pub opening_end_normalized: Option<NormalizedTime>,
}

impl ZaoaiLabel {
    /// The label carries a resolved opening: both frame endpoints present.
    pub fn has_opening(&self) -> (r: bool)
        ensures
            r == (self.opening_start_frame is Some && self.opening_end_frame is Some),
    {
        self.opening_start_frame.is_some() && self.opening_end_frame.is_some()
    }

    /// The training outputs: both normalized endpoints, which the caller
    /// must know to be present.
    pub fn expected_outputs(&self) -> (r: Vec<NormalizedTime>)
        requires
            self.opening_start_normalized is Some,
            self.opening_end_normalized is Some,
        ensures
            r@.len() == 2,
            r@[0] == self.opening_start_normalized.unwrap(),
            r@[1] == self.opening_end_normalized.unwrap(),
    {
        let start = self.opening_start_normalized.unwrap();
        let end = self.opening_end_normalized.unwrap();
        let mut v: Vec<NormalizedTime> = Vec::new();
        v.push(start);
        v.push(end);
        v
    }
}

/// The normalized position of `t` within `total`: present exactly when the
/// total is positive and the endpoint does not pass it (an endpoint past
/// the end is rejected rather than silently emitted).
pub open spec fn spec_normalized(t: Duration, total: Duration) -> Option<NormalizedTime> {
    if 0 < total.total_nanos() && t.total_nanos() <= total.total_nanos() {
        Some(NormalizedTime { num: t.total_nanos() as u128, den: total.total_nanos() as u128 })
    } else {
        None
    }
}

/// Computes the normalized position of `t` within `total`.
pub fn normalized_time(t: &Duration, total: &Duration) -> (r: Option<NormalizedTime>)
    ensures
        r == spec_normalized(*t, *total),
        r matches Some(x) ==> x.wf(),
{
    let num: u128 = t.secs as u128 * 1_000_000_000 + t.nanos as u128;
    let den: u128 = total.secs as u128 * 1_000_000_000 + total.nanos as u128;
    if den > 0 && num <= den {
        Some(NormalizedTime { num, den })
    } else {
        None
    }
}

/// Law: a normalized endpoint, when present, lies in the unit interval,
/// and a zero total duration yields no normalized endpoint.
pub proof fn lemma_normalized_unit_range(t: Duration, total: Duration)
    ensures
        spec_normalized(t, total) matches Some(x) ==> x.wf(),
        total.total_nanos() == 0 ==> spec_normalized(t, total) is None,
{
}

/// Builds the label record for one source file from its probed metadata.
/// `None` when the opening interval is unresolved: the file contributes no
/// label, which is not an error. The record keeps the opening endpoints as
/// parsed, leaves the frame endpoints to their own producer, and fills the
/// normalized endpoints where the duration admits them.
pub fn build_zaoai_label(mkv: MkvMetadata, path_source: String) -> (r: Option<ZaoaiLabel>)
    ensures
        r is Some <==> (spec_extract_opening(mkv.chapters@).0 is Some && spec_extract_opening(
            mkv.chapters@,
        ).1 is Some),
        r matches Some(l) ==> ({
            &&& l.path == mkv.path
            &&& l.path_source == path_source
            &&& l.version == ZAOAI_LABEL_VERSION
            &&& l.opening_start_time == spec_extract_opening(mkv.chapters@).0
            &&& l.opening_end_time == spec_extract_opening(mkv.chapters@).1
            &&& l.opening_start_frame is None
            &&& l.opening_end_frame is None
            &&& l.opening_start_normalized == spec_normalized(
                spec_extract_opening(mkv.chapters@).0.unwrap(),
                mkv.duration,
            )
            &&& l.opening_end_normalized == spec_normalized(
                spec_extract_opening(mkv.chapters@).1.unwrap(),
                mkv.duration,
            )
            &&& l.opening_start_normalized matches Some(x) ==> x.wf()
            &&& l.opening_end_normalized matches Some(x) ==> x.wf()
            &&& l.metadata.duration == mkv.duration
            &&& l.metadata.chapters@ == mkv.chapters@
            &&& l.metadata.container_format matches Some(f) && f@ == "mkv"@
            &&& l.metadata.frame_count is None
            &&& l.metadata.frame_rate_millis == 0
            &&& l.metadata.width == 0
            &&& l.metadata.height == 0
            &&& l.metadata.video_codec is None
            &&& l.metadata.audio_codec is None
            &&& l.metadata.audio_language is None
            &&& l.metadata.audio_channels is None
            &&& l.metadata.subtitle_languages@ == Seq::<String>::empty()
            &&& l.metadata.is_vfr == false
            &&& l.metadata.tags@ == Seq::<String>::empty()
        }),
{
    let (op_start, op_end) = mkv.extract_opening_times();
    let op_start = match op_start {
        Some(s) => s,
        None => {
            return None;
        },
    };
    let op_end = match op_end {
        Some(e) => e,
        None => {
            return None;
        },
    };
    let path = mkv.path.clone();
    let duration = mkv.duration;
    let metadata = mkv.to_video_metadata();
    Some(
        ZaoaiLabel {
            path,
            path_source,
            metadata,
            version: ZAOAI_LABEL_VERSION,
            opening_start_time: Some(op_start),
            opening_end_time: Some(op_end),
            opening_start_frame: None,
            opening_end_frame: None,
            opening_start_normalized: normalized_time(&op_start, &duration),
            opening_end_normalized: normalized_time(&op_end, &duration),
        },
    )
}

/// `path` with its extension replaced by `ext` (appended when there is
/// none), as the platform's extension rewrite does it.
pub open spec fn spec_with_extension(path: Seq<char>, ext: Seq<char>) -> Seq<char> {
    match spec_extension(path) {
        Some(e) => path.take(path.len() - e.len()) + ext,
        None => path + seq!['.'] + ext,
    }
}

/// Replaces the extension of `path` by `ext`.
pub fn with_extension(path: &str, ext: &str) -> (r: String)
    ensures
        r@ == spec_with_extension(path@, ext@),
{
    proof {
        reveal_strlit(".");
    }
    let n = path.unicode_len();
    match extension_of(path) {
        Some(e) => {
            let el = e.unicode_len();
            proof {
                lemma_last_index_of(path@, '/');
                let nm = path@.skip(last_index_of(path@, '/') + 1);
                lemma_last_index_of(nm, '.');
                assert(e@.len() <= path@.len() - 2);
            }
            let prefix = path.substring_char(0, n - el);
            let r = String::from_str(prefix).concat(ext);
            proof {
                assert(r@ =~= spec_with_extension(path@, ext@));
            }
            r
        },
        None => {
            let r = String::from_str(path).concat(".").concat(ext);
            proof {
                assert("."@ =~= seq!['.']);
                assert(r@ =~= spec_with_extension(path@, ext@));
            }
            r
        },
    }
}

/// Where the label of `file` goes: its path relative to the source root,
/// re-rooted at `out_root`, with the extension replaced by `zlbl`.
pub open spec fn spec_label_output_path(
    file: Seq<char>,
    source: Seq<char>,
    out_root: Seq<char>,
) -> Option<Seq<char>> {
    match spec_strip_prefix(file, source) {
        None => None,
        Some(rel) => Some(spec_with_extension(out_root + seq!['/'] + rel, "zlbl"@)),
    }
}

/// Derives the destination of one label file; `Err(Path)` when the source
/// file is not under the source root. Source paths that differ anywhere
/// outside their extension get distinct destinations, so the pipeline's
/// concurrent label writers — which all feed sources of one extension —
/// never share an output path.
pub fn label_output_path(file_path: &str, path_source: &str, out_root: &str) -> (r: Result<
    String,
    LibError,
>)
    ensures
        r matches Ok(p) ==> spec_label_output_path(file_path@, path_source@, out_root@) == Some(
            p@,
        ),
        r is Err ==> spec_label_output_path(file_path@, path_source@, out_root@) is None && r
            == Err::<String, LibError>(LibError::Path),
{
    proof {
        reveal_strlit("/");
    }
    let rel = match relative_path_from_base(file_path, path_source) {
        Ok(rel) => rel,
        Err(_) => {
            return Err(LibError::Path);
        },
    };
    let joined = String::from_str(out_root).concat("/").concat(rel);
    proof {
        assert("/"@ =~= seq!['/']);
        assert(joined@ =~= out_root@ + seq!['/'] + spec_strip_prefix(
            file_path@,
            path_source@,
        ).unwrap());
    }
    Ok(with_extension(joined.as_str(), "zlbl"))
}

/// Law: concurrent label writers never share an output path. Two distinct
/// source files strictly under the source root, carrying one and the same
/// extension (as the with-chapters set does: all of them `mkv`), map to
/// distinct label destinations.
pub proof fn lemma_label_output_paths_distinct(
    f1: Seq<char>,
    f2: Seq<char>,
    source: Seq<char>,
    out_root: Seq<char>,
    e: Seq<char>,
)
    requires
        f1 != f2,
        f1 != source,
        f2 != source,
        spec_extension(f1) == Some(e),
        spec_extension(f2) == Some(e),
        spec_strip_prefix(f1, source) is Some,
        spec_strip_prefix(f2, source) is Some,
    ensures
        spec_label_output_path(f1, source, out_root) is Some,
        spec_label_output_path(f2, source, out_root) is Some,
        spec_label_output_path(f1, source, out_root) != spec_label_output_path(
            f2,
            source,
            out_root,
        ),
{
    let rel1 = spec_strip_prefix(f1, source).unwrap();
    let rel2 = spec_strip_prefix(f2, source).unwrap();
    assert(f1 =~= source + seq!['/'] + rel1);
    assert(f2 =~= source + seq!['/'] + rel2);
    assert(rel1 != rel2) by {
        if rel1 == rel2 {
            assert(f1 =~= f2);
        }
    }
    lemma_extension_after_join(source, rel1);
    lemma_extension_after_join(source, rel2);
    lemma_extension_after_join(out_root, rel1);
    lemma_extension_after_join(out_root, rel2);
    let p1 = out_root + seq!['/'] + rel1;
    let p2 = out_root + seq!['/'] + rel2;
    assert(spec_extension(p1) == Some(e));
    assert(spec_extension(p2) == Some(e));
    assert(p1 != p2) by {
        if p1 == p2 {
            assert(p1.skip(out_root.len() as int + 1) =~= rel1);
            assert(p2.skip(out_root.len() as int + 1) =~= rel2);
        }
    }
    lemma_extension_is_suffix(p1, e);
    lemma_extension_is_suffix(p2, e);
    let o1 = spec_with_extension(p1, "zlbl"@);
    let o2 = spec_with_extension(p2, "zlbl"@);
    let l1 = p1.len() - e.len();
    let l2 = p2.len() - e.len();
    assert(o1 == p1.take(l1 as int) + "zlbl"@);
    assert(o2 == p2.take(l2 as int) + "zlbl"@);
    if o1 == o2 {
        assert(l1 == l2);
        assert(p1 =~= p2) by {
            assert forall|t: int| 0 <= t < p1.len() implies p1[t] == p2[t] by {
                if t < l1 {
                    assert(p1[t] == o1[t]);
                    assert(p2[t] == o2[t]);
                } else {
                    assert(p1.skip(l1 as int)[t - l1] == p1[t]);
                    assert(p2.skip(l2 as int)[t - l2] == p2[t]);
                    assert(p1[t] == e[t - l1]);
                    assert(p2[t] == e[t - l2]);
                }
            }
        }
        assert(false);
    }
}

/// `path` names a label file: its extension is `zlbl`.
pub open spec fn is_label_file(path: Seq<char>) -> bool {
    spec_extension(path) matches Some(e) && e == "zlbl"@
}

/// Whether `path` carries the label extension.
pub fn has_label_extension(path: &str) -> (r: bool)
    ensures
        r == is_label_file(path@),
{
    match extension_of(path) {
        Some(e) => str_eq(e, "zlbl"),
        None => false,
    }
}

/// The label files among `entries`, in order.
pub open spec fn label_files_of(entries: Seq<String>) -> Seq<String>
    decreases entries.len(),
{
    if entries.len() == 0 {
        Seq::empty()
    } else {
        let rest = label_files_of(entries.drop_last());
        if is_label_file(entries.last()@) {
            rest.push(entries.last())
        } else {
            rest
        }
    }
}

/// Re-reads persisted labels for training: holds the source root and the
/// label files found below it. The caller lists the files; deserializing
/// each record is the surrounding application's step.
#[derive(Debug)]
pub struct ZaoaiLabelsLoader {
    pub path_source: String,
    pub len: usize,
    pub label_file_paths: Vec<String>,
}

impl ZaoaiLabelsLoader {
    /// Keeps, of all files below the source root (listed by the caller),
    /// those with the label extension.
    pub fn new(path_source: String, entries: Vec<String>) -> (r: Self)
        ensures
            r.path_source == path_source,
            r.label_file_paths@ == label_files_of(entries@),
            r.len == r.label_file_paths@.len(),
    {
        let ghost gentries = entries@;
        let n = entries.len();
        let mut kept: Vec<String> = Vec::new();
        let mut i: usize = 0;
        while i < n
            invariant
                gentries == entries@,
                n == gentries.len(),
                0 <= i <= n,
                kept@ == label_files_of(gentries.take(i as int)),
            decreases n - i,
        {
            proof {
                assert(gentries.take(i + 1).drop_last() =~= gentries.take(i as int));
                assert(gentries.take(i + 1).last() == gentries[i as int]);
            }
            let p = &entries[i];
            if has_label_extension(p.as_str()) {
                kept.push(p.clone());
            }
            i = i + 1;
        }
        proof {
            assert(gentries.take(n as int) =~= gentries);
        }
        let len = kept.len();
        ZaoaiLabelsLoader { path_source, len, label_file_paths: kept }
    }
}

} // verus!
