//! Per-file media metadata, the opening-interval extraction policy, and the
//! numbered catalog naming scheme.

use vstd::prelude::*;
use crate::chapters::{ChapterAtom, Chapters, VideoMetadata};
use crate::error::LibError;
use crate::file::{spec_extension, extension_of, EntryKind};
use crate::strutil::{
    digits_val, ends_with, is_digit, lemma_padded_digits_val, lower_of, lowercase, nat_digits,
    padded_digits, seq_contains, str_contains, str_ends_with, str_eq, u64_to_padded_string, zeros,
};
use crate::time::{spec_parse_timestamp, parse_time, Duration};

verus! {

/// Chapter and duration metadata of one media file.
#[derive(Clone, Debug)]
pub struct MkvMetadata {
    pub path: String,
    pub duration: Duration,
    pub chapters: Vec<ChapterAtom>,
}

/// A chapter title marks the opening when its lowercase text contains
/// `"op"` or `"opening"`.
pub open spec fn spec_title_matches(title: Seq<char>) -> bool {
    seq_contains(lower_of(title), "op"@) || seq_contains(lower_of(title), "opening"@)
}

pub open spec fn chapter_matches(c: ChapterAtom) -> bool {
    spec_title_matches(c.display.title@)
}

/// The chapter's own start timestamp, parsed.
pub open spec fn chapter_start(c: ChapterAtom) -> Option<Duration> {
    spec_parse_timestamp(c.start_time@)
}

/// The chapter's own end timestamp, parsed; none when absent or malformed.
pub open spec fn chapter_end(c: ChapterAtom) -> Option<Duration> {
    match c.end_time {
        Some(e) => spec_parse_timestamp(e@),
        None => None,
    }
}

/// A matching chapter whose start and end timestamps both parse.
pub open spec fn chapter_full(c: ChapterAtom) -> bool {
    chapter_matches(c) && chapter_start(c) is Some && chapter_end(c) is Some
}

/// Index of the first fully specified matching chapter at or past `i`.
pub open spec fn first_full_match(chs: Seq<ChapterAtom>, i: int) -> Option<int>
    decreases chs.len() - i
        when 0 <= i <= chs.len()
{
    if i >= chs.len() {
        None
    } else if chapter_full(chs[i]) {
        Some(i)
    } else {
        first_full_match(chs, i + 1)
    }
}

/// Index of the last matching chapter.
pub open spec fn last_match_in(chs: Seq<ChapterAtom>) -> Option<int>
    decreases chs.len(),
{
    if chs.len() == 0 {
        None
    } else if chapter_matches(chs.last()) {
        Some(chs.len() - 1)
    } else {
        last_match_in(chs.drop_last())
    }
}

/// The extraction policy, start and end stated separately: the first fully
/// specified match wins outright; otherwise the last matching chapter
/// supplies what it can, borrowing the next chapter's start as the end when
/// its own end is missing. An endpoint stays unset when its text does not
/// parse.
pub open spec fn spec_extract_opening(chs: Seq<ChapterAtom>) -> (
    Option<Duration>,
    Option<Duration>,
) {
    match first_full_match(chs, 0) {
        Some(j) => (chapter_start(chs[j]), chapter_end(chs[j])),
        None => match last_match_in(chs) {
            Some(k) => {
                let st = chapter_start(chs[k]);
                if st is Some {
                    if k + 1 < chs.len() {
                        (st, chapter_start(chs[k + 1]))
                    } else {
                        (st, None)
                    }
                } else {
                    (st, chapter_end(chs[k]))
                }
            },
            None => (None, None),
        },
    }
}

/// Whether a chapter title marks the opening.
pub fn title_matches(title: &str) -> (r: bool)
    ensures
        r == spec_title_matches(title@),
{
    let lowered = lowercase(title);
    if str_contains(lowered.as_str(), "op") {
        return true;
    }
    str_contains(lowered.as_str(), "opening")
}

impl MkvMetadata {
    /// Finds the opening interval among the chapters. Both endpoints come
    /// back, or one, or none; only a pair makes a resolved interval. The
    /// policy does not order the endpoints: a source may carry an inverted
    /// interval, and it is reported as found.
    pub fn extract_opening_times(&self) -> (r: (Option<Duration>, Option<Duration>))
        ensures
            r == spec_extract_opening(self.chapters@),
            r.0 matches Some(d) ==> d.wf(),
            r.1 matches Some(d) ==> d.wf(),
    {
        let ghost chs = self.chapters@;
        let n = self.chapters.len();
        let mut last_m: Option<usize> = None;
        let mut i: usize = 0;
        while i < n
            invariant
                chs == self.chapters@,
                n == chs.len(),
                0 <= i <= n,
                first_full_match(chs, 0) == first_full_match(chs, i as int),
                last_m matches Some(k) ==> k < i && last_match_in(chs.take(i as int)) == Some(
                    k as int,
                ),
                last_m is None ==> last_match_in(chs.take(i as int)) is None,
            decreases n - i,
        {
            let ch = &self.chapters[i];
            proof {
                assert(chs.take(i + 1).drop_last() =~= chs.take(i as int));
                assert(chs.take(i + 1).last() == chs[i as int]);
            }
            if title_matches(ch.display.title.as_str()) {
                let st = parse_time(ch.start_time.as_str());
                let en = match &ch.end_time {
                    Some(e) => parse_time(e.as_str()),
                    None => None,
                };
                proof {
                    assert(st == chapter_start(chs[i as int]));
                    assert(en == chapter_end(chs[i as int]));
                }
                if st.is_some() && en.is_some() {
                    proof {
                        assert(chapter_full(chs[i as int]));
                        assert(first_full_match(chs, i as int) == Some(i as int));
                    }
                    return (st, en);
                }
                last_m = Some(i);
            }
            i = i + 1;
        }
        proof {
            assert(chs.take(n as int) =~= chs);
            assert(first_full_match(chs, n as int) is None);
        }
        match last_m {
            None => (None, None),
            Some(k) => {
                let ch = &self.chapters[k];
                let st = parse_time(ch.start_time.as_str());
                if st.is_some() {
                    if k + 1 < n {
                        let en = parse_time(self.chapters[k + 1].start_time.as_str());
                        (st, en)
                    } else {
                        (st, None)
                    }
                } else {
                    let en = match &ch.end_time {
                        Some(e) => parse_time(e.as_str()),
                        None => None,
                    };
                    proof {
                        assert(en == chapter_end(chs[k as int]));
                    }
                    (None, en)
                }
            },
        }
    }

    /// Widens per-file metadata into the general record: the container is
    /// `mkv`, duration and chapters carry over, the rest stays empty.
    pub fn to_video_metadata(self) -> (r: VideoMetadata)
        ensures
            r.duration == self.duration,
            r.chapters@ == self.chapters@,
            r.container_format matches Some(f) && f@ == "mkv"@,
            r.frame_count is None,
            r.frame_rate_millis == 0,
            r.width == 0,
            r.height == 0,
            r.video_codec is None,
            r.audio_codec is None,
            r.audio_language is None,
            r.audio_channels is None,
            r.subtitle_languages@ == Seq::<String>::empty(),
            r.is_vfr == false,
            r.tags@ == Seq::<String>::empty(),
    {
        let mut m = VideoMetadata::default();
        m.duration = self.duration;
        m.chapters = self.chapters;
        m.container_format = Some(String::from_str("mkv"));
        m
    }
}

/// The compute side of probing one directory entry: accepts only a file
/// with the `mkv` extension; the chapter list (from the external extractor,
/// none meaning no chapter track) and the duration (from the external
/// prober) are handed in.
pub fn mkv_metadata_from(entry: &EntryKind, chapters: Option<Chapters>, duration: Duration) -> (r:
    Result<MkvMetadata, LibError>)
    ensures
        (r is Ok) <==> (entry is File && (spec_extension(entry.spec_path()) matches Some(e) && e
            == "mkv"@)),
        r matches Ok(m) ==> ({
            &&& m.path@ == entry.spec_path()
            &&& m.duration == duration
            &&& m.chapters@ == (match chapters {
                Some(c) => c@,
                None => Seq::<ChapterAtom>::empty(),
            })
        }),
        r is Err ==> r == Err::<MkvMetadata, LibError>(LibError::Precondition),
{
    proof {
        reveal_strlit("mkv");
    }
    let path = match entry {
        EntryKind::File(p) => p,
        _ => {
            return Err(LibError::Precondition);
        },
    };
    let ext_ok = match extension_of(path.as_str()) {
        Some(e) => str_eq(e, "mkv"),
        None => false,
    };
    if !ext_ok {
        return Err(LibError::Precondition);
    }
    let atoms = match chapters {
        Some(c) => c.into_atoms(),
        None => Vec::new(),
    };
    proof {
        if atoms@.len() == 0 {
            assert(atoms@ =~= Seq::<ChapterAtom>::empty());
        }
    }
    Ok(MkvMetadata { path: path.clone(), duration, chapters: atoms })
}

/// Whether the character of `s` at `idx` is a decimal digit.
fn char_is_digit(s: &str, idx: usize) -> (r: bool)
    requires
        idx < s@.len(),
    ensures
        r == is_digit(s@[idx as int]),
{
    let v: u32 = s.get_char(idx) as u32;
    v >= 48 && v <= 57
}

/// The least `t` such that every character of `name` in `[t, m)` is a digit.
pub open spec fn digit_run_start(name: Seq<char>, m: int) -> int
    decreases m
        when 0 <= m <= name.len()
{
    if m <= 0 {
        0
    } else if is_digit(name[m - 1]) {
        digit_run_start(name, m - 1)
    } else {
        m
    }
}

/// The file name ends in `_<digits>.json` with at least one digit: a
/// `.json` suffix, a run of one or more digits before it, and an
/// underscore just before the run.
pub open spec fn spec_numbered_json(name: Seq<char>) -> bool {
    &&& ends_with(name, ".json"@)
    &&& name.len() >= 5
    &&& digit_run_start(name, name.len() - 5) < name.len() - 5
    &&& digit_run_start(name, name.len() - 5) > 0
    &&& name[digit_run_start(name, name.len() - 5) - 1] == '_'
}

/// Whether a file name already carries a catalog number.
pub fn ends_with_numbered_json(name: &str) -> (r: bool)
    ensures
        r == spec_numbered_json(name@),
{
    proof {
        reveal_strlit(".json");
    }
    let n = name.unicode_len();
    if !str_ends_with(name, ".json") {
        return false;
    }
    assert(n >= 5);
    let m = n - 5;
    let mut t: usize = m;
    while t > 0 && char_is_digit(name, t - 1)
        invariant
            n == name@.len(),
            m == n - 5,
            0 <= t <= m,
            digit_run_start(name@, m as int) == digit_run_start(name@, t as int),
        decreases t,
    {
        t = t - 1;
    }
    proof {
        assert(digit_run_start(name@, t as int) == t as int);
    }
    if t < m && t > 0 {
        let c = name.get_char(t - 1);
        c == '_'
    } else {
        false
    }
}

/// The name with its catalog number and `.json` suffix cut off: everything
/// before the underscore of the final `_<digits>.json`.
pub open spec fn spec_catalog_base(name: Seq<char>) -> Seq<char> {
    name.take(digit_run_start(name, name.len() - 5) - 1)
}

/// Splits a numbered catalog name into the part before its number.
pub fn catalog_base(name: &str) -> (r: &str)
    requires
        spec_numbered_json(name@),
    ensures
        r@ == spec_catalog_base(name@),
{
    let n = name.unicode_len();
    let m = n - 5;
    let mut t: usize = m;
    while t > 0 && char_is_digit(name, t - 1)
        invariant
            n == name@.len(),
            n >= 5,
            m == n - 5,
            0 <= t <= m,
            digit_run_start(name@, m as int) == digit_run_start(name@, t as int),
        decreases t,
    {
        t = t - 1;
    }
    proof {
        assert(digit_run_start(name@, t as int) == t as int);
    }
    name.substring_char(0, t - 1)
}

/// The stem of a file name: what stands before its extension.
pub open spec fn spec_stem(name: Seq<char>) -> Seq<char> {
    match spec_extension(name) {
        Some(e) => name.take(name.len() - e.len() - 1),
        None => name,
    }
}

/// The name of catalog slot `i`: `<base>_<i padded to three digits>.json`.
pub open spec fn spec_candidate(base: Seq<char>, i: nat) -> Seq<char> {
    base + seq!['_'] + padded_digits(i, 3) + ".json"@
}

/// Builds the file name of catalog slot `i`.
pub fn catalog_candidate(base: &str, i: u64) -> (r: String)
    ensures
        r@ == spec_candidate(base@, i as nat),
{
    proof {
        reveal_strlit("_");
        reveal_strlit(".json");
    }
    let num = u64_to_padded_string(i, 3);
    let r = String::from_str(base).concat("_").concat(num.as_str()).concat(".json");
    proof {
        assert("_"@ =~= seq!['_']);
        assert(r@ =~= spec_candidate(base@, i as nat));
    }
    r
}

/// Law: distinct catalog slots get distinct file names, so repeated catalog
/// writes never collide.
pub proof fn lemma_catalog_candidates_distinct(base: Seq<char>, i: nat, j: nat)
    requires
        i <= 999,
        j <= 999,
        i != j,
    ensures
        spec_candidate(base, i) != spec_candidate(base, j),
{
    lemma_padded_digits_val(i, 3);
    lemma_padded_digits_val(j, 3);
    lemma_small_nat_digits_len(i);
    lemma_small_nat_digits_len(j);
    let pi = padded_digits(i, 3);
    let pj = padded_digits(j, 3);
    assert(pi.len() == 3);
    assert(pj.len() == 3);
    if spec_candidate(base, i) == spec_candidate(base, j) {
        let si = spec_candidate(base, i);
        let b = base.len() as int;
        assert(si.subrange(b + 1, b + 4) =~= pi);
        assert(spec_candidate(base, j).subrange(b + 1, b + 4) =~= pj);
        assert(pi == pj);
        assert(digits_val(pi) == digits_val(pj));
        assert(false);
    }
}

/// A numeral of a value up to 999 has at most three digits.
pub proof fn lemma_small_nat_digits_len(n: nat)
    requires
        n <= 999,
    ensures
        nat_digits(n).len() <= 3,
{
    if n >= 10 {
        assert(nat_digits(n / 10).len() <= 2) by {
            if n / 10 >= 10 {
                assert(nat_digits(n / 10 / 10).len() == 1);
            }
        }
    }
}

/// Slot `i` of `base` is already present among the names in `taken`.
pub open spec fn slot_taken(taken: Seq<String>, base: Seq<char>, i: nat) -> bool {
    exists|t: int| 0 <= t < taken.len() && taken[t]@ == spec_candidate(base, i)
}

/// The catalog shape of a proposed name: kept when it already ends
/// `_<digits>.json`, else its stem gets `_001.json`.
pub open spec fn spec_normalized_catalog(name: Seq<char>) -> Seq<char> {
    if spec_numbered_json(name) {
        name
    } else {
        spec_stem(name) + seq!['_'] + padded_digits(1, 3) + ".json"@
    }
}

/// Rewrites a proposed catalog file name into the numbered shape.
pub fn normalize_catalog_name(name: &str) -> (r: String)
    ensures
        r@ == spec_normalized_catalog(name@),
{
    if ends_with_numbered_json(name) {
        return String::from_str(name);
    }
    let n = name.unicode_len();
    let stem = match extension_of(name) {
        Some(e) => {
            let el = e.unicode_len();
            proof {
                crate::file::lemma_last_index_of(name@, '/');
                let nm = name@.skip(crate::file::last_index_of(name@, '/') + 1);
                crate::file::lemma_last_index_of(nm, '.');
                assert(e@.len() <= name@.len() - 2);
            }
            name.substring_char(0, n - el - 1)
        },
        None => name,
    };
    let r = catalog_candidate(stem, 1);
    proof {
        assert(r@ =~= spec_normalized_catalog(name@));
    }
    r
}

/// `c` names the first free catalog slot of `base`: some slot in `[1, 999]`
/// that is not taken, every earlier slot taken.
pub open spec fn next_slot_ok(taken: Seq<String>, base: Seq<char>, c: Seq<char>) -> bool {
    exists|i: nat|
        1 <= i <= 999 && c == spec_candidate(base, i) && !slot_taken(taken, base, i) && (forall|
            j: nat,
        |
            1 <= j < i ==> slot_taken(taken, base, j))
}

/// Every catalog slot of `base` in `[1, 999]` is taken.
pub open spec fn all_slots_taken(taken: Seq<String>, base: Seq<char>) -> bool {
    forall|i: nat| 1 <= i <= 999 ==> slot_taken(taken, base, i)
}

/// Picks the first free catalog slot, scanning `_001` to `_999` against the
/// file names in `taken`; fails with `Exhaustion` when every slot is taken.
/// The name handed in is first normalized to the numbered shape.
pub fn find_next_available_file(out_name: &str, taken: &Vec<String>) -> (r: Result<
    String,
    LibError,
>)
    ensures
        r matches Ok(c) ==> next_slot_ok(
            taken@,
            spec_catalog_base(spec_normalized_catalog(out_name@)),
            c@,
        ),
        r is Err ==> all_slots_taken(
            taken@,
            spec_catalog_base(spec_normalized_catalog(out_name@)),
        ) && r == Err::<String, LibError>(LibError::Exhaustion),
{
    let normalized = normalize_catalog_name(out_name);
    proof {
        assert(spec_numbered_json(normalized@)) by {
            if !spec_numbered_json(out_name@) {
                lemma_normalized_is_numbered(out_name@);
            }
        }
    }
    let base = catalog_base(normalized.as_str());
    let ghost gbase = spec_catalog_base(spec_normalized_catalog(out_name@));
    let mut i: u64 = 1;
    while i <= 999
        invariant
            gbase == base@,
            gbase == spec_catalog_base(spec_normalized_catalog(out_name@)),
            1 <= i <= 1000,
            forall|j: nat| 1 <= j < i ==> slot_taken(taken@, gbase, j),
        decreases 1000 - i,
    {
        let cand = catalog_candidate(base, i);
        let mut found = false;
        let mut t: usize = 0;
        while t < taken.len() && !found
            invariant
                cand@ == spec_candidate(gbase, i as nat),
                0 <= t <= taken@.len(),
                found ==> slot_taken(taken@, gbase, i as nat),
                !found ==> forall|u: int| 0 <= u < t ==> taken@[u]@ != cand@,
            decreases taken@.len() - t + (if found { 0int } else { 1int }),
        {
            if str_eq(taken[t].as_str(), cand.as_str()) {
                found = true;
            } else {
                t = t + 1;
            }
        }
        if !found {
            proof {
                assert(!slot_taken(taken@, gbase, i as nat)) by {
                    if slot_taken(taken@, gbase, i as nat) {
                        let u = choose|u: int|
                            0 <= u < taken@.len() && taken@[u]@ == spec_candidate(
                                gbase,
                                i as nat,
                            );
                        assert(taken@[u]@ != cand@);
                    }
                }
                assert(next_slot_ok(taken@, gbase, cand@)) by {
                    let k = i as nat;
                    assert(1 <= k <= 999 && cand@ == spec_candidate(gbase, k) && !slot_taken(
                        taken@,
                        gbase,
                        k,
                    ) && (forall|j: nat| 1 <= j < k ==> slot_taken(taken@, gbase, j)));
                }
            }
            return Ok(cand);
        }
        i = i + 1;
    }
    proof {
        assert(all_slots_taken(taken@, gbase));
    }
    Err(LibError::Exhaustion)
}

/// The `_001.json` rewrite really has the numbered shape.
pub proof fn lemma_normalized_is_numbered(name: Seq<char>)
    requires
        !spec_numbered_json(name),
    ensures
        spec_numbered_json(spec_normalized_catalog(name)),
{
    let stem = spec_stem(name);
    let s = spec_normalized_catalog(name);
    lemma_padded_digits_val(1, 3);
    lemma_small_nat_digits_len(1);
    let pad = padded_digits(1, 3);
    assert(pad.len() == 3);
    assert(pad =~= zeros(2) + nat_digits(1));
    reveal_strlit(".json");
    assert(s.len() == stem.len() + 9);
    let m = s.len() - 5;
    assert(s.skip(s.len() - 5) =~= ".json"@);
    assert(ends_with(s, ".json"@));
    assert(s[m - 1] == pad[2] && s[m - 2] == pad[1] && s[m - 3] == pad[0]);
    assert(is_digit(s[m - 1]) && is_digit(s[m - 2]) && is_digit(s[m - 3]));
    assert(s[m - 4] == '_');
    assert(!is_digit('_'));
    assert(digit_run_start(s, m - 3) == m - 3);
    assert(digit_run_start(s, m - 2) == digit_run_start(s, m - 3));
    assert(digit_run_start(s, m - 1) == digit_run_start(s, m - 2));
    assert(digit_run_start(s, m) == digit_run_start(s, m - 1));
}

} // verus!
