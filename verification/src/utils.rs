//! The with/without/skipped classification of a probed file set, and its
//! order-independent merge. The external chapter extractor's outcome per
//! file is handed in; directory recursion and fan-out are the surrounding
//! application's concern and end in [`merge_splits`].

use vstd::prelude::*;
use crate::file::EntryKind;

verus! {

/// The outcome of probing one entry for chapters: the number of chapter
/// atoms found (zero meaning an empty or missing chapter track), or a
/// failed extraction.
#[derive(Clone, Copy, Debug)]
pub enum ChapterProbe {
    Found(usize),
    Failed,
}

/// A classification of a file set: the entries with chapter metadata, the
/// entries without, and the entries skipped over failures, with derived
/// counts.
#[derive(Debug)]
pub struct ListDirSplit {
    pub path_source: String,
    pub num_with_chapters: u32,
    pub num_without_chapters: u32,
    pub num_skipped: u32,
    pub with_chapters: Vec<EntryKind>,
    pub without_chapters: Vec<EntryKind>,
    pub skipped: Vec<EntryKind>,
}

impl ListDirSplit {
    /// The counts are derived from the lists, never independent.
    pub open spec fn counts_consistent(&self) -> bool {
        &&& self.num_with_chapters == self.with_chapters@.len()
        &&& self.num_without_chapters == self.without_chapters@.len()
        &&& self.num_skipped == self.skipped@.len()
    }

    /// Recomputes the three counts from the lists.
    pub fn recompute_counts(&mut self)
        requires
            old(self).with_chapters@.len() <= u32::MAX,
            old(self).without_chapters@.len() <= u32::MAX,
            old(self).skipped@.len() <= u32::MAX,
        ensures
            final(self).counts_consistent(),
            final(self).path_source == old(self).path_source,
            final(self).with_chapters == old(self).with_chapters,
            final(self).without_chapters == old(self).without_chapters,
            final(self).skipped == old(self).skipped,
    {
        self.num_with_chapters = self.with_chapters.len() as u32;
        self.num_without_chapters = self.without_chapters.len() as u32;
        self.num_skipped = self.skipped.len() as u32;
    }
}

impl Default for ListDirSplit {
    /// The empty classification.
    fn default() -> (r: Self)
        ensures
            r.path_source@ == Seq::<char>::empty(),
            r.num_with_chapters == 0,
            r.num_without_chapters == 0,
            r.num_skipped == 0,
            r.with_chapters@ == Seq::<EntryKind>::empty(),
            r.without_chapters@ == Seq::<EntryKind>::empty(),
            r.skipped@ == Seq::<EntryKind>::empty(),
            r.counts_consistent(),
    {
        let r = ListDirSplit {
            path_source: String::new(),
            num_with_chapters: 0,
            num_without_chapters: 0,
            num_skipped: 0,
            with_chapters: Vec::new(),
            without_chapters: Vec::new(),
            skipped: Vec::new(),
        };
        proof {
            assert(r.with_chapters@ =~= Seq::<EntryKind>::empty());
            assert(r.without_chapters@ =~= Seq::<EntryKind>::empty());
            assert(r.skipped@ =~= Seq::<EntryKind>::empty());
        }
        r
    }
}

/// A probed file that carries at least one chapter atom.
pub open spec fn is_with(item: (EntryKind, ChapterProbe)) -> bool {
    item.0 is File && (item.1 matches ChapterProbe::Found(n) && n > 0)
}

/// A probed file whose chapter track is empty or missing.
pub open spec fn is_without(item: (EntryKind, ChapterProbe)) -> bool {
    item.0 is File && (item.1 matches ChapterProbe::Found(n) && n == 0)
}

/// A file whose probe failed: it joins neither list and counts as skipped.
pub open spec fn is_skipped(item: (EntryKind, ChapterProbe)) -> bool {
    item.0 is File && item.1 is Failed
}

/// The entries classified as carrying chapters, in input order.
pub open spec fn with_of(items: Seq<(EntryKind, ChapterProbe)>) -> Seq<EntryKind>
    decreases items.len(),
{
    if items.len() == 0 {
        Seq::empty()
    } else {
        let rest = with_of(items.drop_last());
        if is_with(items.last()) {
            rest.push(items.last().0)
        } else {
            rest
        }
    }
}

/// The entries classified as lacking chapters, in input order.
pub open spec fn without_of(items: Seq<(EntryKind, ChapterProbe)>) -> Seq<EntryKind>
    decreases items.len(),
{
    if items.len() == 0 {
        Seq::empty()
    } else {
        let rest = without_of(items.drop_last());
        if is_without(items.last()) {
            rest.push(items.last().0)
        } else {
            rest
        }
    }
}

/// The entries skipped over failed probes, in input order.
pub open spec fn skipped_of(items: Seq<(EntryKind, ChapterProbe)>) -> Seq<EntryKind>
    decreases items.len(),
{
    if items.len() == 0 {
        Seq::empty()
    } else {
        let rest = skipped_of(items.drop_last());
        if is_skipped(items.last()) {
            rest.push(items.last().0)
        } else {
            rest
        }
    }
}

/// How many of the probed items are files.
pub open spec fn file_count(items: Seq<(EntryKind, ChapterProbe)>) -> nat
    decreases items.len(),
{
    if items.len() == 0 {
        0
    } else {
        file_count(items.drop_last()) + if items.last().0 is File {
            1nat
        } else {
            0nat
        }
    }
}

/// The classification decision over one directory level of probed files:
/// a file with at least one chapter atom goes to `with_chapters`, one whose
/// track is empty or missing to `without_chapters`, one whose probe failed
/// to `skipped`; directories and other entries contribute nothing here (the
/// caller classifies a directory by recursing and merging). Counts are
/// derived from the lists.
pub fn classify_outcomes(path_source: String, items: &Vec<(EntryKind, ChapterProbe)>) -> (r:
    ListDirSplit)
    requires
        items@.len() <= u32::MAX,
    ensures
        r.path_source == path_source,
        r.with_chapters@ == with_of(items@),
        r.without_chapters@ == without_of(items@),
        r.skipped@ == skipped_of(items@),
        r.counts_consistent(),
        r.num_with_chapters + r.num_without_chapters + r.num_skipped == file_count(items@),
{
    let ghost gitems = items@;
    let n = items.len();
    let mut with_chapters: Vec<EntryKind> = Vec::new();
    let mut without_chapters: Vec<EntryKind> = Vec::new();
    let mut skipped: Vec<EntryKind> = Vec::new();
    let mut i: usize = 0;
    while i < n
        invariant
            gitems == items@,
            n == gitems.len(),
            0 <= i <= n,
            with_chapters@ == with_of(gitems.take(i as int)),
            without_chapters@ == without_of(gitems.take(i as int)),
            skipped@ == skipped_of(gitems.take(i as int)),
        decreases n - i,
    {
        proof {
            assert(gitems.take(i + 1).drop_last() =~= gitems.take(i as int));
            assert(gitems.take(i + 1).last() == gitems[i as int]);
        }
        let item = &items[i];
        match item.0 {
            EntryKind::File(_) => {
                match item.1 {
                    ChapterProbe::Found(count) => {
                        if count > 0 {
                            with_chapters.push(item.0.clone());
                        } else {
                            without_chapters.push(item.0.clone());
                        }
                    },
                    ChapterProbe::Failed => {
                        skipped.push(item.0.clone());
                    },
                }
            },
            _ => {},
        }
        i = i + 1;
    }
    proof {
        assert(gitems.take(n as int) =~= gitems);
        lemma_selection_lengths(gitems);
        lemma_classification_partition(gitems);
    }
    let mut r = ListDirSplit {
        path_source,
        num_with_chapters: 0,
        num_without_chapters: 0,
        num_skipped: 0,
        with_chapters,
        without_chapters,
        skipped,
    };
    r.recompute_counts();
    r
}

/// Each selected list is no longer than the file count.
pub proof fn lemma_selection_lengths(items: Seq<(EntryKind, ChapterProbe)>)
    ensures
        with_of(items).len() <= items.len(),
        without_of(items).len() <= items.len(),
        skipped_of(items).len() <= items.len(),
        file_count(items) <= items.len(),
    decreases items.len(),
{
    if items.len() > 0 {
        lemma_selection_lengths(items.drop_last());
    }
}

/// Law: the classification partitions the probed files. Every probed file
/// lands in exactly one of the three lists, so the with and without counts
/// together equal the number of files visited minus the failed extractions.
pub proof fn lemma_classification_partition(items: Seq<(EntryKind, ChapterProbe)>)
    ensures
        with_of(items).len() + without_of(items).len() + skipped_of(items).len() == file_count(
            items,
        ),
        with_of(items).len() + without_of(items).len() == file_count(items) - skipped_of(
            items,
        ).len(),
    decreases items.len(),
{
    if items.len() > 0 {
        lemma_classification_partition(items.drop_last());
    }
}

/// Membership in a selected list comes only from a witness item.
pub proof fn lemma_with_of_members(items: Seq<(EntryKind, ChapterProbe)>, e: EntryKind)
    ensures
        with_of(items).contains(e) ==> exists|i: int|
            0 <= i < items.len() && is_with(#[trigger] items[i]) && items[i].0 == e,
        without_of(items).contains(e) ==> exists|i: int|
            0 <= i < items.len() && is_without(#[trigger] items[i]) && items[i].0 == e,
    decreases items.len(),
{
    if items.len() > 0 {
        let prev = items.drop_last();
        lemma_with_of_members(prev, e);
        let rest_w = with_of(prev);
        let full_w = with_of(items);
        if full_w.contains(e) {
            let k = choose|k: int| 0 <= k < full_w.len() && full_w[k] == e;
            if is_with(items.last()) && k == full_w.len() - 1 {
                assert(is_with(items[items.len() - 1]) && items[items.len() - 1].0 == e);
            } else {
                assert(rest_w[k] == e);
                assert(rest_w.contains(e));
                let i = choose|i: int|
                    0 <= i < prev.len() && is_with(#[trigger] prev[i]) && prev[i].0 == e;
                assert(items[i] == prev[i]);
                assert(is_with(items[i]) && items[i].0 == e);
            }
        }
        let rest_o = without_of(prev);
        let full_o = without_of(items);
        if full_o.contains(e) {
            let k = choose|k: int| 0 <= k < full_o.len() && full_o[k] == e;
            if is_without(items.last()) && k == full_o.len() - 1 {
                assert(is_without(items[items.len() - 1]) && items[items.len() - 1].0 == e);
            } else {
                assert(rest_o[k] == e);
                assert(rest_o.contains(e));
                let i = choose|i: int|
                    0 <= i < prev.len() && is_without(#[trigger] prev[i]) && prev[i].0 == e;
                assert(items[i] == prev[i]);
                assert(is_without(items[i]) && items[i].0 == e);
            }
        }
    }
}

/// No two probed items name the same path.
pub open spec fn distinct_entries(items: Seq<(EntryKind, ChapterProbe)>) -> bool {
    forall|i: int, j: int|
        0 <= i < j < items.len() ==> (#[trigger] items[i]).0.spec_path() != (
        #[trigger] items[j]).0.spec_path()
}

/// Law: when the probed paths are distinct, as a directory walk yields
/// them, the with and without lists are disjoint: no entry stands in both.
pub proof fn lemma_classification_disjoint(items: Seq<(EntryKind, ChapterProbe)>, e: EntryKind)
    requires
        distinct_entries(items),
    ensures
        !(with_of(items).contains(e) && without_of(items).contains(e)),
{
    lemma_with_of_members(items, e);
    if with_of(items).contains(e) && without_of(items).contains(e) {
        let i = choose|i: int| 0 <= i < items.len() && is_with(#[trigger] items[i]) && items[i].0 == e;
        let j = choose|j: int|
            0 <= j < items.len() && is_without(#[trigger] items[j]) && items[j].0 == e;
        assert(i != j);
        assert(items[i].0.spec_path() == items[j].0.spec_path());
    }
}

/// Merges two partial classifications by list concatenation, recomputing
/// the counts; order-independent up to list order, as the concurrent walk
/// requires. The source path of the first operand is kept.
pub fn merge_splits(a: ListDirSplit, b: ListDirSplit) -> (r: ListDirSplit)
    requires
        a.with_chapters@.len() + b.with_chapters@.len() <= u32::MAX,
        a.without_chapters@.len() + b.without_chapters@.len() <= u32::MAX,
        a.skipped@.len() + b.skipped@.len() <= u32::MAX,
    ensures
        r.path_source == a.path_source,
        r.with_chapters@ == a.with_chapters@ + b.with_chapters@,
        r.without_chapters@ == a.without_chapters@ + b.without_chapters@,
        r.skipped@ == a.skipped@ + b.skipped@,
        r.counts_consistent(),
{
    let ListDirSplit {
        path_source,
        num_with_chapters: _,
        num_without_chapters: _,
        num_skipped: _,
        mut with_chapters,
        mut without_chapters,
        mut skipped,
    } = a;
    let mut b = b;
    with_chapters.append(&mut b.with_chapters);
    without_chapters.append(&mut b.without_chapters);
    skipped.append(&mut b.skipped);
    let mut r = ListDirSplit {
        path_source,
        num_with_chapters: 0,
        num_without_chapters: 0,
        num_skipped: 0,
        with_chapters,
        without_chapters,
        skipped,
    };
    r.recompute_counts();
    r
}

/// Joins the configured third-party tool directory with a binary name. The
/// directory is explicit configuration, not a compiled-in constant.
pub fn get_third_party_binary(tool_dir: &str, name: &str) -> (r: String)
    ensures
        r@ == tool_dir@ + seq!['/'] + name@,
{
    proof {
        reveal_strlit("/");
    }
    let r = String::from_str(tool_dir).concat("/").concat(name);
    proof {
        assert("/"@ =~= seq!['/']);
        assert(r@ =~= tool_dir@ + seq!['/'] + name@);
    }
    r
}

} // verus!
