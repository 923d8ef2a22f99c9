//! Elapsed-time values and the four-component timestamp format
//! (`hours:minutes:seconds.nanoseconds`, separated by `:` or `.`).

use vstd::prelude::*;
use crate::strutil::{
    all_digits, digits_val, is_digit, lemma_nat_digits_val, lemma_padded_digits_val, nat_digits,
    padded_digits, parse_u64_digits, u64_to_padded_string, u64_to_string,
};

verus! {

/// An elapsed time: whole seconds plus a sub-second nanosecond part.
#[derive(Clone, Copy, Debug, PartialEq, Eq, Structural)]
pub struct Duration {
    pub secs: u64,
    pub nanos: u32,
}

impl Duration {
    /// The nanosecond part stays below one second.
    pub open spec fn wf(self) -> bool {
        self.nanos < 1_000_000_000
    }

    /// Total elapsed time in nanoseconds.
    pub open spec fn total_nanos(self) -> nat {
        self.secs as nat * 1_000_000_000 + self.nanos as nat
    }

    /// Builds a normalized duration, carrying whole seconds out of `nanos`.
    pub fn new(secs: u64, nanos: u32) -> (r: Duration)
        requires
            secs + nanos as nat / 1_000_000_000 <= u64::MAX,
        ensures
            r.wf(),
            r.total_nanos() == secs as nat * 1_000_000_000 + nanos as nat,
    {
        let carry: u32 = nanos / 1_000_000_000;
        let r = Duration { secs: secs + carry as u64, nanos: nanos % 1_000_000_000 };
        proof {
            assert(nanos as nat == 1_000_000_000 * (nanos as nat / 1_000_000_000) + nanos as nat
                % 1_000_000_000);
        }
        r
    }

    /// Whole seconds, rounded down.
    pub fn as_secs(&self) -> (r: u64)
        ensures
            r == self.secs,
    {
        self.secs
    }

    pub fn is_zero(&self) -> (r: bool)
        ensures
            r == (self.total_nanos() == 0),
    {
        self.secs == 0 && self.nanos == 0
    }
}

/// The two component separators of a timestamp.
pub open spec fn is_sep(c: char) -> bool {
    c == ':' || c == '.'
}

/// The indices of the separator characters of `s`, in increasing order.
pub open spec fn sep_indices(s: Seq<char>) -> Seq<int>
    decreases s.len(),
{
    if s.len() == 0 {
        Seq::empty()
    } else if is_sep(s.last()) {
        sep_indices(s.drop_last()).push(s.len() - 1)
    } else {
        sep_indices(s.drop_last())
    }
}

pub proof fn lemma_sep_indices_complete(s: Seq<char>)
    ensures
        forall|k: int|
            0 <= k < sep_indices(s).len() ==> 0 <= #[trigger] sep_indices(s)[k] < s.len()
                && is_sep(s[sep_indices(s)[k]]),
        forall|j: int| 0 <= j < s.len() && is_sep(s[j]) ==> sep_indices(s).contains(j),
        forall|k1: int, k2: int|
            0 <= k1 < k2 < sep_indices(s).len() ==> #[trigger] sep_indices(s)[k1]
                < #[trigger] sep_indices(s)[k2],
    decreases s.len(),
{
    if s.len() > 0 {
        lemma_sep_indices_complete(s.drop_last());
        let prev = sep_indices(s.drop_last());
        assert forall|j: int| 0 <= j < s.len() && is_sep(s[j]) implies sep_indices(s).contains(
            j,
        ) by {
            if j < s.len() - 1 {
                assert(s.drop_last()[j] == s[j]);
                assert(prev.contains(j));
                let k = choose|k: int| 0 <= k < prev.len() && prev[k] == j;
                assert(sep_indices(s)[k] == j);
            } else {
                assert(is_sep(s.last()));
                assert(sep_indices(s).last() == j);
            }
        }
    }
}

/// Exactly three separators stand at `p0 < p1 < p2` and nowhere else.
pub open spec fn sep_triple(s: Seq<char>, p0: int, p1: int, p2: int) -> bool {
    &&& 0 <= p0 < p1 < p2 < s.len()
    &&& is_sep(s[p0])
    &&& is_sep(s[p1])
    &&& is_sep(s[p2])
    &&& forall|i: int|
        0 <= i < s.len() && i != p0 && i != p1 && i != p2 ==> !is_sep(#[trigger] s[i])
}

pub proof fn lemma_sep_triple_unique(
    s: Seq<char>,
    p0: int,
    p1: int,
    p2: int,
    q0: int,
    q1: int,
    q2: int,
)
    requires
        sep_triple(s, p0, p1, p2),
        sep_triple(s, q0, q1, q2),
    ensures
        p0 == q0 && p1 == q1 && p2 == q2,
{
    assert(q0 == p0 || q0 == p1 || q0 == p2);
    assert(q1 == p0 || q1 == p1 || q1 == p2);
    assert(q2 == p0 || q2 == p1 || q2 == p2);
    assert(p0 == q0 || p0 == q1 || p0 == q2);
    assert(p1 == q0 || p1 == q1 || p1 == q2);
    assert(p2 == q0 || p2 == q1 || p2 == q2);
}

/// The four components of a timestamp, split at its three separators;
/// `None` unless the string has exactly three separators.
pub open spec fn timestamp_parts(s: Seq<char>) -> Option<(Seq<char>, Seq<char>, Seq<char>, Seq<char>)> {
    if exists|p: (int, int, int)| sep_triple(s, p.0, p.1, p.2) {
        let p = choose|p: (int, int, int)| sep_triple(s, p.0, p.1, p.2);
        Some(
            (
                s.take(p.0),
                s.subrange(p.0 + 1, p.1),
                s.subrange(p.1 + 1, p.2),
                s.skip(p.2 + 1),
            ),
        )
    } else {
        None
    }
}

/// A nonempty digit run whose value fits the given bound.
pub open spec fn numeral_ok(x: Seq<char>, bound: nat) -> bool {
    x.len() > 0 && all_digits(x) && digits_val(x) <= bound
}

/// Combines parsed hours, minutes, seconds and nanoseconds into a normalized
/// duration; `None` when the second count leaves `u64`.
pub open spec fn combine_hms(h: nat, m: nat, s: nat, ns: nat) -> Option<Duration> {
    let total = h * 3600 + m * 60 + s;
    let carry = ns / 1_000_000_000;
    if total + carry > u64::MAX {
        None
    } else {
        Some(Duration { secs: (total + carry) as u64, nanos: (ns % 1_000_000_000) as u32 })
    }
}

/// What `parse_time` returns: the string must have exactly four components,
/// each a nonempty digit run, hours/minutes/seconds fitting `u64` and
/// nanoseconds fitting `u32`, and the combined second count must fit `u64`.
pub open spec fn spec_parse_timestamp(s: Seq<char>) -> Option<Duration> {
    match timestamp_parts(s) {
        Some(parts) => {
            if numeral_ok(parts.0, u64::MAX as nat) && numeral_ok(parts.1, u64::MAX as nat)
                && numeral_ok(parts.2, u64::MAX as nat) && numeral_ok(parts.3, u32::MAX as nat) {
                combine_hms(
                    digits_val(parts.0),
                    digits_val(parts.1),
                    digits_val(parts.2),
                    digits_val(parts.3),
                )
            } else {
                None
            }
        },
        None => None,
    }
}

/// Parses a four-component timestamp (`hours:minutes:seconds.nanoseconds`,
/// separated by `:` or `.`); fails on any other shape, on a non-digit
/// component, or when the value leaves its machine range.
pub fn parse_time(s: &str) -> (r: Option<Duration>)
    ensures
        r == spec_parse_timestamp(s@),
        r matches Some(d) ==> d.wf(),
{
    let n = s.unicode_len();
    let mut seps: Vec<usize> = Vec::new();
    let mut i: usize = 0;
    while i < n
        invariant
            n == s@.len(),
            0 <= i <= n,
            seps@.map_values(|x: usize| x as int) == sep_indices(s@.take(i as int)),
        decreases n - i,
    {
        let c = s.get_char(i);
        proof {
            assert(s@.take(i + 1).drop_last() =~= s@.take(i as int));
            assert(s@.take(i + 1).last() == s@[i as int]);
        }
        if c == ':' || c == '.' {
            seps.push(i);
            proof {
                assert(seps@.map_values(|x: usize| x as int) =~= sep_indices(s@.take(i + 1)));
            }
        } else {
            proof {
                assert(seps@.map_values(|x: usize| x as int) =~= sep_indices(s@.take(i + 1)));
            }
        }
        i = i + 1;
    }
    proof {
        assert(s@.take(n as int) =~= s@);
    }
    let ghost sidx = sep_indices(s@);
    if seps.len() != 3 {
        proof {
            lemma_sep_indices_complete(s@);
            if exists|p: (int, int, int)| sep_triple(s@, p.0, p.1, p.2) {
                let p = choose|p: (int, int, int)| sep_triple(s@, p.0, p.1, p.2);
                assert(sidx.contains(p.0));
                assert(sidx.contains(p.1));
                assert(sidx.contains(p.2));
                let k0 = choose|k: int| 0 <= k < sidx.len() && sidx[k] == p.0;
                let k1 = choose|k: int| 0 <= k < sidx.len() && sidx[k] == p.1;
                let k2 = choose|k: int| 0 <= k < sidx.len() && sidx[k] == p.2;
                if sidx.len() < 3 {
                    assert(false);
                } else {
                    assert(is_sep(s@[sidx[0]]));
                    assert(is_sep(s@[sidx[1]]));
                    assert(is_sep(s@[sidx[2]]));
                    assert(is_sep(s@[sidx[3]]));
                    assert(false);
                }
            }
        }
        return None;
    }
    let p0 = *seps.get(0).unwrap();
    let p1 = *seps.get(1).unwrap();
    let p2 = *seps.get(2).unwrap();
    proof {
        lemma_sep_indices_complete(s@);
        assert(sidx[0] == p0 as int && sidx[1] == p1 as int && sidx[2] == p2 as int);
        assert forall|j: int|
            0 <= j < s@.len() && j != p0 as int && j != p1 as int && j != p2 as int implies !is_sep(
            #[trigger] s@[j],
        ) by {
            if is_sep(s@[j]) {
                assert(sidx.contains(j));
                let k = choose|k: int| 0 <= k < sidx.len() && sidx[k] == j;
                assert(k == 0 || k == 1 || k == 2);
            }
        }
        assert(sep_triple(s@, p0 as int, p1 as int, p2 as int));
    }
    let a = s.substring_char(0, p0);
    let b = s.substring_char(p0 + 1, p1);
    let c = s.substring_char(p1 + 1, p2);
    let d = s.substring_char(p2 + 1, n);
    proof {
        let ghost pt = (p0 as int, p1 as int, p2 as int);
        assert(sep_triple(s@, pt.0, pt.1, pt.2));
        assert(exists|p: (int, int, int)| sep_triple(s@, p.0, p.1, p.2));
        let q = choose|p: (int, int, int)| sep_triple(s@, p.0, p.1, p.2);
        lemma_sep_triple_unique(s@, q.0, q.1, q.2, pt.0, pt.1, pt.2);
        assert(timestamp_parts(s@) == Some((a@, b@, c@, d@)));
    }
    let hv = match parse_u64_digits(a) {
        Some(v) => v,
        None => {
            return None;
        },
    };
    let mv = match parse_u64_digits(b) {
        Some(v) => v,
        None => {
            return None;
        },
    };
    let sv = match parse_u64_digits(c) {
        Some(v) => v,
        None => {
            return None;
        },
    };
    let nv = match parse_u64_digits(d) {
        Some(v) => v,
        None => {
            return None;
        },
    };
    if nv > u32::MAX as u64 {
        return None;
    }
    let total: u128 = hv as u128 * 3600 + mv as u128 * 60 + sv as u128;
    let carry: u128 = (nv / 1_000_000_000) as u128;
    if total + carry > u64::MAX as u128 {
        return None;
    }
    let r = Duration { secs: (total + carry) as u64, nanos: (nv % 1_000_000_000) as u32 };
    proof {
        assert(combine_hms(hv as nat, mv as nat, sv as nat, nv as nat) == Some(r));
    }
    Some(r)
}

/// The canonical text of a duration: unpadded hours, two-digit minutes and
/// seconds, nine-digit nanoseconds.
pub open spec fn spec_format_timestamp(d: Duration) -> Seq<char> {
    let h = d.secs as nat / 3600;
    let m = (d.secs as nat % 3600) / 60;
    let s = (d.secs as nat % 3600) % 60;
    nat_digits(h) + seq![':'] + padded_digits(m, 2) + seq![':'] + padded_digits(s, 2) + seq!['.']
        + padded_digits(d.nanos as nat, 9)
}

/// Formats a duration as `hours:minutes:seconds.nanoseconds`.
pub fn format_timestamp(d: &Duration) -> (r: String)
    ensures
        r@ == spec_format_timestamp(*d),
{
    proof {
        reveal_strlit(":");
        reveal_strlit(".");
    }
    let h: u64 = d.secs / 3600;
    let rem: u64 = d.secs % 3600;
    let m: u64 = rem / 60;
    let s: u64 = rem % 60;
    let mut out = u64_to_string(h);
    out = out.concat(":");
    out = out.concat(u64_to_padded_string(m, 2).as_str());
    out = out.concat(":");
    out = out.concat(u64_to_padded_string(s, 2).as_str());
    out = out.concat(".");
    out = out.concat(u64_to_padded_string(d.nanos as u64, 9).as_str());
    proof {
        assert(":"@ =~= seq![':']);
        assert("."@ =~= seq!['.']);
        assert(out@ =~= spec_format_timestamp(*d));
    }
    out
}

/// Law: parsing the canonical text of a normalized duration gives that
/// duration back exactly.
pub proof fn lemma_parse_format_round_trip(d: Duration)
    requires
        d.wf(),
    ensures
        spec_parse_timestamp(spec_format_timestamp(d)) == Some(d),
{
    let h = d.secs as nat / 3600;
    let m = (d.secs as nat % 3600) / 60;
    let sc = (d.secs as nat % 3600) % 60;
    let ns = d.nanos as nat;
    let a = nat_digits(h);
    let b = padded_digits(m, 2);
    let c = padded_digits(sc, 2);
    let dd = padded_digits(ns, 9);
    lemma_nat_digits_val(h);
    lemma_padded_digits_val(m, 2);
    lemma_padded_digits_val(sc, 2);
    lemma_padded_digits_val(ns, 9);
    let s = spec_format_timestamp(d);
    let p0 = a.len() as int;
    let p1 = p0 + 1 + b.len();
    let p2 = p1 + 1 + c.len();
    assert(s.len() == a.len() + 1 + b.len() + 1 + c.len() + 1 + dd.len());
    assert(s[p0] == ':');
    assert(s[p1] == ':');
    assert(s[p2] == '.');
    assert forall|i: int|
        0 <= i < s.len() && i != p0 && i != p1 && i != p2 implies !is_sep(#[trigger] s[i]) by {
        if i < p0 {
            assert(s[i] == a[i]);
            assert(is_digit(s[i]));
        } else if i < p1 {
            assert(s[i] == b[i - p0 - 1]);
            assert(is_digit(s[i]));
        } else if i < p2 {
            assert(s[i] == c[i - p1 - 1]);
            assert(is_digit(s[i]));
        } else {
            assert(s[i] == dd[i - p2 - 1]);
            assert(is_digit(s[i]));
        }
    }
    assert(sep_triple(s, p0, p1, p2));
    let ghost pt = (p0, p1, p2);
    assert(sep_triple(s, pt.0, pt.1, pt.2));
    assert(exists|p: (int, int, int)| sep_triple(s, p.0, p.1, p.2));
    let q = choose|p: (int, int, int)| sep_triple(s, p.0, p.1, p.2);
    lemma_sep_triple_unique(s, q.0, q.1, q.2, pt.0, pt.1, pt.2);
    assert(s.take(p0) =~= a);
    assert(s.subrange(p0 + 1, p1) =~= b);
    assert(s.subrange(p1 + 1, p2) =~= c);
    assert(s.skip(p2 + 1) =~= dd);
    assert(timestamp_parts(s) == Some((a, b, c, dd)));
    vstd::arithmetic::div_mod::lemma_fundamental_div_mod(d.secs as int, 3600);
    vstd::arithmetic::div_mod::lemma_fundamental_div_mod(d.secs as int % 3600, 60);
    assert(h * 3600 + m * 60 + sc == d.secs);
    assert(ns / 1_000_000_000 == 0);
    assert(ns % 1_000_000_000 == ns);
    assert(combine_hms(h, m, sc, ns) == Some(d));
}

/// Law: for any string that parses as a timestamp, formatting the parsed
/// value and parsing it again preserves the total elapsed time to
/// nanosecond precision.
pub proof fn lemma_format_parse_preserves_elapsed(s: Seq<char>)
    requires
        spec_parse_timestamp(s) is Some,
    ensures
        ({
            let d = spec_parse_timestamp(s).unwrap();
            spec_parse_timestamp(spec_format_timestamp(d)) == Some(d)
        }),
        spec_parse_timestamp(spec_format_timestamp(spec_parse_timestamp(s).unwrap())).unwrap()
            .total_nanos() == spec_parse_timestamp(s).unwrap().total_nanos(),
{
    let d = spec_parse_timestamp(s).unwrap();
    assert(d.wf());
    lemma_parse_format_round_trip(d);
}

} // verus!
