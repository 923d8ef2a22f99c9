//! The filesystem entry model and path manipulation. Paths are plain
//! `/`-separated strings; the surrounding application performs the actual
//! directory reads and hands raw listings in.

use vstd::prelude::*;
use crate::error::LibError;
use crate::strutil::rfind_char;

verus! {

/// A directory entry: a file, a directory, or anything else (symlink,
/// device, ...), each carrying its path.
#[derive(Debug)]
pub enum EntryKind {
    File(String),
    Directory(String),
    Other(String),
}

impl Clone for EntryKind {
    fn clone(&self) -> (r: Self)
        ensures
            r == *self,
    {
        match self {
            EntryKind::File(p) => EntryKind::File(p.clone()),
            EntryKind::Directory(p) => EntryKind::Directory(p.clone()),
            EntryKind::Other(p) => EntryKind::Other(p.clone()),
        }
    }
}

impl EntryKind {
    /// The path carried by the entry, whatever its kind.
    pub open spec fn spec_path(&self) -> Seq<char> {
        match self {
            EntryKind::File(p) => p@,
            EntryKind::Directory(p) => p@,
            EntryKind::Other(p) => p@,
        }
    }

    /// The path carried by the entry.
    pub fn path(&self) -> (r: &String)
        ensures
            r@ == self.spec_path(),
    {
        match self {
            EntryKind::File(p) => p,
            EntryKind::Directory(p) => p,
            EntryKind::Other(p) => p,
        }
    }

    pub fn is_file(&self) -> (r: bool)
        ensures
            r == (self is File),
    {
        match self {
            EntryKind::File(_) => true,
            _ => false,
        }
    }
}

/// One raw directory child as the platform walker reports it: the
/// classified entry and, for a directory, whether it has no children.
#[derive(Clone, Debug)]
pub struct RawEntry {
    pub entry: EntryKind,
    pub dir_is_empty: bool,
}

/// A raw child stays in the listing unless it is an empty directory and
/// culling is on.
pub open spec fn keep_entry(r: RawEntry, cull_empty_folders: bool) -> bool {
    match r.entry {
        EntryKind::Directory(_) => !(cull_empty_folders && r.dir_is_empty),
        _ => true,
    }
}

/// The entries of one directory level after culling, in listing order.
pub open spec fn spec_listing(raw: Seq<RawEntry>, cull_empty_folders: bool) -> Seq<EntryKind>
    decreases raw.len(),
{
    if raw.len() == 0 {
        Seq::empty()
    } else {
        let rest = spec_listing(raw.drop_last(), cull_empty_folders);
        if keep_entry(raw.last(), cull_empty_folders) {
            rest.push(raw.last().entry)
        } else {
            rest
        }
    }
}

/// The selection step of the tree walker: keeps one directory level's
/// children, dropping empty subdirectories when `cull_empty_folders` is set.
/// The raw children and their emptiness flags come from the platform walker.
pub fn build_listing(raw: Vec<RawEntry>, cull_empty_folders: bool) -> (r: Vec<EntryKind>)
    ensures
        r@ == spec_listing(raw@, cull_empty_folders),
{
    let mut out: Vec<EntryKind> = Vec::new();
    let n = raw.len();
    let mut i: usize = 0;
    while i < n
        invariant
            n == raw@.len(),
            0 <= i <= n,
            out@ == spec_listing(raw@.take(i as int), cull_empty_folders),
        decreases n - i,
    {
        proof {
            assert(raw@.take(i + 1).drop_last() =~= raw@.take(i as int));
            assert(raw@.take(i + 1).last() == raw@[i as int]);
        }
        let item = &raw[i];
        let keep = match &item.entry {
            EntryKind::Directory(_) => !(cull_empty_folders && item.dir_is_empty),
            _ => true,
        };
        if keep {
            out.push(item.entry.clone());
        }
        i = i + 1;
    }
    proof {
        assert(raw@.take(n as int) =~= raw@);
    }
    out
}

/// The file paths of a listing, in order.
pub open spec fn files_of(listing: Seq<EntryKind>) -> Seq<String>
    decreases listing.len(),
{
    if listing.len() == 0 {
        Seq::empty()
    } else {
        let rest = files_of(listing.drop_last());
        match listing.last() {
            EntryKind::File(p) => rest.push(p),
            _ => rest,
        }
    }
}

/// The directory paths of a listing, in order.
pub open spec fn dirs_of(listing: Seq<EntryKind>) -> Seq<String>
    decreases listing.len(),
{
    if listing.len() == 0 {
        Seq::empty()
    } else {
        let rest = dirs_of(listing.drop_last());
        match listing.last() {
            EntryKind::Directory(p) => rest.push(p),
            _ => rest,
        }
    }
}

/// One step of the recursive "list all files" walk: the files of one
/// directory's listing join the collected output, its subdirectories queue
/// up for their own listing, and other entries drop. The surrounding
/// application drives the loop, feeding each pending directory's listing
/// back in.
pub fn collect_files_step(
    acc: &mut Vec<String>,
    pending: &mut Vec<String>,
    listing: &Vec<EntryKind>,
)
    ensures
        final(acc)@ == old(acc)@ + files_of(listing@),
        final(pending)@ == old(pending)@ + dirs_of(listing@),
{
    let n = listing.len();
    let mut i: usize = 0;
    while i < n
        invariant
            n == listing@.len(),
            0 <= i <= n,
            acc@ == old(acc)@ + files_of(listing@.take(i as int)),
            pending@ == old(pending)@ + dirs_of(listing@.take(i as int)),
        decreases n - i,
    {
        proof {
            assert(listing@.take(i + 1).drop_last() =~= listing@.take(i as int));
            assert(listing@.take(i + 1).last() == listing@[i as int]);
        }
        match &listing[i] {
            EntryKind::File(p) => {
                acc.push(p.clone());
                proof {
                    assert(acc@ =~= old(acc)@ + files_of(listing@.take(i + 1)));
                }
            },
            EntryKind::Directory(p) => {
                pending.push(p.clone());
                proof {
                    assert(pending@ =~= old(pending)@ + dirs_of(listing@.take(i + 1)));
                }
            },
            EntryKind::Other(_) => {},
        }
        i = i + 1;
    }
    proof {
        assert(listing@.take(n as int) =~= listing@);
    }
}

/// What stripping `base` from `path` yields: the remainder after `base`
/// and one separator, the empty remainder when they are equal, and nothing
/// when `base` does not lead `path` at a component boundary.
pub open spec fn spec_strip_prefix(path: Seq<char>, base: Seq<char>) -> Option<Seq<char>> {
    if path == base {
        Some(Seq::empty())
    } else if path.len() > base.len() && path.take(base.len() as int) == base && path[base.len() as int]
        == '/' {
        Some(path.skip(base.len() as int + 1))
    } else {
        None
    }
}

/// The path of `file_path` relative to `base_dir`; `Err(Path)` when
/// `base_dir` is not a prefix of `file_path` at a component boundary.
pub fn relative_path_from_base<'a>(file_path: &'a str, base_dir: &str) -> (r: Result<
    &'a str,
    LibError,
>)
    ensures
        r matches Ok(rel) ==> spec_strip_prefix(file_path@, base_dir@) == Some(rel@),
        r is Err ==> spec_strip_prefix(file_path@, base_dir@) is None && r == Err::<
            &'a str,
            LibError,
        >(LibError::Path),
{
    let n = file_path.unicode_len();
    let bn = base_dir.unicode_len();
    if n < bn {
        return Err(LibError::Path);
    }
    let ghost head = file_path@.take(bn as int);
    let mut j: usize = 0;
    while j < bn
        invariant
            n == file_path@.len(),
            bn == base_dir@.len(),
            bn <= n,
            head == file_path@.take(bn as int),
            0 <= j <= bn,
            forall|t: int| 0 <= t < j ==> file_path@[t] == base_dir@[t],
        decreases bn - j,
    {
        if file_path.get_char(j) != base_dir.get_char(j) {
            proof {
                assert(head[j as int] == file_path@[j as int]);
                assert(head != base_dir@);
                if file_path@ == base_dir@ {
                    assert(file_path@[j as int] == base_dir@[j as int]);
                }
            }
            return Err(LibError::Path);
        }
        j = j + 1;
    }
    proof {
        assert(head =~= file_path@.take(bn as int));
    }
    if n == bn {
        proof {
            assert(file_path@ =~= base_dir@);
        }
        let rel = file_path.substring_char(n, n);
        proof {
            assert(rel@ =~= Seq::<char>::empty());
        }
        return Ok(rel);
    }
    proof {
        assert(head =~= base_dir@) by {
            assert forall|t: int| 0 <= t < bn implies head[t] == base_dir@[t] by {}
        }
        assert(file_path@ != base_dir@);
    }
    if file_path.get_char(bn) != '/' {
        return Err(LibError::Path);
    }
    Ok(file_path.substring_char(bn + 1, n))
}

/// The same strip as [`relative_path_from_base`], reported as an option.
pub fn relative_after<'a>(path: &'a str, base: &str) -> (r: Option<&'a str>)
    ensures
        r matches Some(rel) ==> spec_strip_prefix(path@, base@) == Some(rel@),
        r is None ==> spec_strip_prefix(path@, base@) is None,
{
    match relative_path_from_base(path, base) {
        Ok(rel) => Some(rel),
        Err(_) => None,
    }
}

/// The longest run of non-separator characters leading `rel`.
pub open spec fn first_component(rel: Seq<char>) -> Seq<char>
    decreases rel.len(),
{
    if rel.len() == 0 {
        Seq::empty()
    } else if rel[0] == '/' {
        Seq::empty()
    } else {
        seq![rel[0]] + first_component(rel.skip(1))
    }
}

pub proof fn lemma_first_component(rel: Seq<char>, j: int)
    requires
        0 <= j <= rel.len(),
        forall|t: int| 0 <= t < j ==> rel[t] != '/',
        j < rel.len() ==> rel[j] == '/',
    ensures
        first_component(rel) == rel.take(j),
    decreases j,
{
    if j == 0 {
        assert(first_component(rel) =~= rel.take(0));
    } else {
        assert(rel[0] != '/');
        lemma_first_component(rel.skip(1), j - 1);
        assert(rel.take(j) =~= seq![rel[0]] + rel.skip(1).take(j - 1));
    }
}

/// `base` extended by the first component of `path` past `base`; nothing
/// when the strip fails or leaves no remainder.
pub open spec fn spec_relative_before(path: Seq<char>, base: Seq<char>) -> Option<Seq<char>> {
    match spec_strip_prefix(path, base) {
        None => None,
        Some(rel) => {
            if rel.len() == 0 {
                None
            } else {
                Some(base + seq!['/'] + first_component(rel))
            }
        },
    }
}

/// Shortens `path` to `base` plus the single next component.
pub fn relative_before(path: &str, base: &str) -> (r: Option<String>)
    ensures
        r matches Some(p) ==> spec_relative_before(path@, base@) == Some(p@),
        r is None ==> spec_relative_before(path@, base@) is None,
{
    proof {
        reveal_strlit("/");
    }
    let rel = match relative_after(path, base) {
        Some(rel) => rel,
        None => {
            return None;
        },
    };
    let rn = rel.unicode_len();
    if rn == 0 {
        return None;
    }
    let mut j: usize = 0;
    while j < rn && rel.get_char(j) != '/'
        invariant
            rn == rel@.len(),
            0 <= j <= rn,
            forall|t: int| 0 <= t < j ==> rel@[t] != '/',
        decreases rn - j,
    {
        j = j + 1;
    }
    proof {
        lemma_first_component(rel@, j as int);
    }
    let comp = rel.substring_char(0, j);
    let out = String::from_str(base).concat("/").concat(comp);
    proof {
        assert("/"@ =~= seq!['/']);
        assert(out@ =~= base@ + seq!['/'] + first_component(rel@));
    }
    Some(out)
}

/// The index of the last `c` in `s`, `-1` when absent.
pub open spec fn last_index_of(s: Seq<char>, c: char) -> int
    decreases s.len(),
{
    if s.len() == 0 {
        -1
    } else if s.last() == c {
        s.len() - 1
    } else {
        last_index_of(s.drop_last(), c)
    }
}

pub proof fn lemma_last_index_of(s: Seq<char>, c: char)
    ensures
        -1 <= last_index_of(s, c) < s.len(),
        last_index_of(s, c) >= 0 ==> s[last_index_of(s, c)] == c,
        forall|j: int| last_index_of(s, c) < j < s.len() ==> s[j] != c,
    decreases s.len(),
{
    if s.len() > 0 {
        lemma_last_index_of(s.drop_last(), c);
        if s.last() != c {
            assert forall|j: int| last_index_of(s, c) < j < s.len() implies s[j] != c by {
                if j < s.len() - 1 {
                    assert(s.drop_last()[j] == s[j]);
                }
            }
            if last_index_of(s, c) >= 0 {
                assert(s.drop_last()[last_index_of(s, c)] == s[last_index_of(s, c)]);
            }
        }
    }
}

/// The extension of the file name of `path`: the part after the last `.`
/// of the last `/`-separated component, none when that component has no
/// `.` past its first character.
pub open spec fn spec_extension(path: Seq<char>) -> Option<Seq<char>> {
    let name = path.skip(last_index_of(path, '/') + 1);
    let dot = last_index_of(name, '.');
    if dot <= 0 {
        None
    } else {
        Some(name.skip(dot + 1))
    }
}

/// Joining a path on the left cannot change the file name, so it cannot
/// change the extension.
pub proof fn lemma_extension_after_join(a: Seq<char>, rel: Seq<char>)
    ensures
        spec_extension(a + seq!['/'] + rel) == spec_extension(rel),
{
    let p = a + seq!['/'] + rel;
    lemma_last_index_of(p, '/');
    lemma_last_index_of(rel, '/');
    let lr = last_index_of(rel, '/');
    let q: int = if lr >= 0 {
        a.len() + 1 + lr
    } else {
        a.len() as int
    };
    assert(p[q] == '/') by {
        if lr >= 0 {
            assert(p[q] == rel[lr]);
        } else {
            assert(p[a.len() as int] == '/');
        }
    }
    assert forall|j: int| q < j < p.len() implies p[j] != '/' by {
        assert(p[j] == rel[j - a.len() - 1]);
    }
    let lp = last_index_of(p, '/');
    assert(lp >= q);
    assert(lp <= q);
    assert(p.skip(lp + 1) =~= rel.skip(lr + 1));
}

/// A path with an extension carries it as its suffix, past at least a
/// name character and the dot.
pub proof fn lemma_extension_is_suffix(p: Seq<char>, e: Seq<char>)
    requires
        spec_extension(p) == Some(e),
    ensures
        p.len() >= e.len() + 2,
        p.skip(p.len() - e.len()) == e,
{
    lemma_last_index_of(p, '/');
    let q = last_index_of(p, '/');
    let name = p.skip(q + 1);
    lemma_last_index_of(name, '.');
    let dot = last_index_of(name, '.');
    assert(dot >= 1);
    assert(e == name.skip(dot + 1));
    assert(name.len() == p.len() - q - 1);
    assert(e.len() == name.len() - dot - 1);
    assert forall|t: int| 0 <= t < e.len() implies p.skip(p.len() - e.len())[t] == e[t] by {
        assert(p.skip(p.len() - e.len())[t] == p[p.len() - e.len() + t]);
        assert(name[dot + 1 + t] == p[q + 1 + dot + 1 + t]);
        assert(e[t] == name[dot + 1 + t]);
    }
    assert(p.skip(p.len() - e.len()) =~= e);
}

/// The extension of the file name of `path`.
pub fn extension_of(path: &str) -> (r: Option<&str>)
    ensures
        r matches Some(e) ==> spec_extension(path@) == Some(e@),
        r is None ==> spec_extension(path@) is None,
{
    let n = path.unicode_len();
    let name_start: usize = match rfind_char(path, '/') {
        Some(i) => {
            proof {
                lemma_last_index_of(path@, '/');
                assert(last_index_of(path@, '/') == i as int);
            }
            i + 1
        },
        None => {
            proof {
                lemma_last_index_of(path@, '/');
                assert(last_index_of(path@, '/') == -1);
            }
            0
        },
    };
    let name = path.substring_char(name_start, n);
    let nn = name.unicode_len();
    match rfind_char(name, '.') {
        None => {
            proof {
                lemma_last_index_of(name@, '.');
                assert(last_index_of(name@, '.') == -1);
            }
            None
        },
        Some(d) => {
            proof {
                lemma_last_index_of(name@, '.');
                assert(last_index_of(name@, '.') == d as int);
            }
            if d == 0 {
                None
            } else {
                Some(name.substring_char(d + 1, nn))
            }
        },
    }
}

} // verus!
