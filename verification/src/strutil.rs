//! Character-level string utilities: decimal digits, substring search, and
//! the small path/name manipulations the rest of the crate builds on.

use vstd::prelude::*;

verus! {

/// True of the ten ASCII digit characters.
pub open spec fn is_digit(c: char) -> bool {
    48 <= c as u32 <= 57
}

/// Numeric value of a digit character; zero for anything else.
pub open spec fn digit_of(c: char) -> nat {
    if is_digit(c) {
        (c as u32 - 48) as nat
    } else {
        0
    }
}

/// Every character of `s` is an ASCII digit.
pub open spec fn all_digits(s: Seq<char>) -> bool {
    forall|i: int| 0 <= i < s.len() ==> is_digit(#[trigger] s[i])
}

/// The value of `s` read as a most-significant-first decimal numeral.
pub open spec fn digits_val(s: Seq<char>) -> nat
    decreases s.len(),
{
    if s.len() == 0 {
        0
    } else {
        digits_val(s.drop_last()) * 10 + digit_of(s.last())
    }
}

pub open spec fn pow10(n: nat) -> nat
    decreases n,
{
    if n == 0 {
        1
    } else {
        10 * pow10((n - 1) as nat)
    }
}

pub proof fn lemma_pow10_pos(n: nat)
    ensures
        pow10(n) >= 1,
    decreases n,
{
    if n > 0 {
        lemma_pow10_pos((n - 1) as nat);
    }
}

/// Concatenating numerals multiplies the high part by the weight of the low part.
pub proof fn lemma_digits_val_concat(a: Seq<char>, b: Seq<char>)
    ensures
        digits_val(a + b) == digits_val(a) * pow10(b.len()) + digits_val(b),
    decreases b.len(),
{
    if b.len() == 0 {
        assert(a + b =~= a);
        assert(pow10(b.len()) == 1);
        assert(digits_val(b) == 0);
        assert(digits_val(a) * 1 == digits_val(a));
        assert(digits_val(a + b) == digits_val(a) * pow10(b.len()) + digits_val(b));
    } else {
        let n1 = (b.len() - 1) as nat;
        lemma_digits_val_concat(a, b.drop_last());
        assert((a + b).drop_last() =~= a + b.drop_last());
        assert((a + b).last() == b.last());
        assert(digits_val(a + b) == digits_val(a + b.drop_last()) * 10 + digit_of(b.last()));
        assert(digits_val(a + b.drop_last()) == digits_val(a) * pow10(n1) + digits_val(
            b.drop_last(),
        ));
        assert(pow10(b.len()) == 10 * pow10(n1));
        assert(digits_val(b) == digits_val(b.drop_last()) * 10 + digit_of(b.last()));
        assert((digits_val(a) * pow10(n1) + digits_val(b.drop_last())) * 10 + digit_of(b.last())
            == digits_val(a) * (10 * pow10(n1)) + (digits_val(b.drop_last()) * 10 + digit_of(
            b.last(),
        ))) by (nonlinear_arith);
        assert(digits_val(a + b) == digits_val(a) * pow10(b.len()) + digits_val(b));
    }
}

/// A numeral is at least as large as any of its prefixes.
pub proof fn lemma_digits_val_prefix(s: Seq<char>, i: int)
    requires
        0 <= i <= s.len(),
    ensures
        digits_val(s.take(i)) <= digits_val(s),
{
    assert(s =~= s.take(i) + s.skip(i));
    lemma_digits_val_concat(s.take(i), s.skip(i));
    lemma_pow10_pos(s.skip(i).len());
    assert(digits_val(s.take(i)) * 1 <= digits_val(s.take(i)) * pow10(s.skip(i).len()))
        by (nonlinear_arith)
        requires pow10(s.skip(i).len()) >= 1;
}

/// Parses a nonempty, all-digit string as an unsigned decimal number.
/// Returns `None` on an empty string, a non-digit character, or a value
/// above `u64::MAX`.
pub fn parse_u64_digits(s: &str) -> (r: Option<u64>)
    ensures
        r is Some <==> (s@.len() > 0 && all_digits(s@) && digits_val(s@) <= u64::MAX),
        r is Some ==> r.unwrap() as nat == digits_val(s@),
{
    let n = s.unicode_len();
    if n == 0 {
        return None;
    }
    let mut i: usize = 0;
    let mut acc: u64 = 0;
    while i < n
        invariant
            0 <= i <= n,
            n == s@.len(),
            all_digits(s@.take(i as int)),
            acc as nat == digits_val(s@.take(i as int)),
        decreases n - i,
    {
        let c = s.get_char(i);
        let v: u32 = c as u32;
        proof {
            assert(s@.take(i + 1).drop_last() =~= s@.take(i as int));
            assert(s@.take(i + 1).last() == s@[i as int]);
        }
        if v < 48 || v > 57 {
            assert(!is_digit(s@[i as int]));
            return None;
        }
        let d: u64 = (v - 48) as u64;
        if acc > (u64::MAX - d) / 10 {
            proof {
                let q = ((u64::MAX - d) / 10) as int;
                assert(u64::MAX - d == 10 * q + (u64::MAX - d) % 10);
                assert(digits_val(s@.take(i + 1)) > u64::MAX);
                if all_digits(s@) {
                    lemma_digits_val_prefix(s@, i + 1);
                }
            }
            return None;
        }
        acc = acc * 10 + d;
        i = i + 1;
    }
    proof {
        assert(s@.take(n as int) =~= s@);
    }
    Some(acc)
}

/// The digit character for a value below ten.
pub open spec fn char_of_digit(d: nat) -> char {
    if d == 0 {
        '0'
    } else if d == 1 {
        '1'
    } else if d == 2 {
        '2'
    } else if d == 3 {
        '3'
    } else if d == 4 {
        '4'
    } else if d == 5 {
        '5'
    } else if d == 6 {
        '6'
    } else if d == 7 {
        '7'
    } else if d == 8 {
        '8'
    } else {
        '9'
    }
}

/// The canonical decimal numeral of `n`: no leading zeros, `"0"` for zero.
pub open spec fn nat_digits(n: nat) -> Seq<char>
    decreases n,
{
    if n < 10 {
        seq![char_of_digit(n)]
    } else {
        nat_digits(n / 10).push(char_of_digit(n % 10))
    }
}

/// Reading the canonical numeral back gives the number it was made from.
pub proof fn lemma_nat_digits_val(n: nat)
    ensures
        digits_val(nat_digits(n)) == n,
        all_digits(nat_digits(n)),
        nat_digits(n).len() >= 1,
    decreases n,
{
    if n < 10 {
        assert(nat_digits(n).drop_last() =~= Seq::<char>::empty());
        assert(digit_of(char_of_digit(n)) == n);
        assert(digits_val(nat_digits(n)) == digits_val(Seq::<char>::empty()) * 10 + digit_of(
            char_of_digit(n),
        ));
    } else {
        lemma_nat_digits_val(n / 10);
        assert(nat_digits(n).drop_last() =~= nat_digits(n / 10));
        assert(digit_of(char_of_digit(n % 10)) == n % 10);
        assert(n / 10 * 10 + n % 10 == n);
        assert forall|i: int| 0 <= i < nat_digits(n).len() implies is_digit(
            #[trigger] nat_digits(n)[i],
        ) by {
            if i < nat_digits(n).len() - 1 {
                assert(nat_digits(n)[i] == nat_digits(n / 10)[i]);
            }
        }
    }
}

/// The digit string for a value below ten.
fn digit_str(d: u64) -> (r: &'static str)
    requires
        d < 10,
    ensures
        r@ =~= seq![char_of_digit(d as nat)],
{
    proof {
        reveal_strlit("0");
        reveal_strlit("1");
        reveal_strlit("2");
        reveal_strlit("3");
        reveal_strlit("4");
        reveal_strlit("5");
        reveal_strlit("6");
        reveal_strlit("7");
        reveal_strlit("8");
        reveal_strlit("9");
    }
    match d {
        0 => "0",
        1 => "1",
        2 => "2",
        3 => "3",
        4 => "4",
        5 => "5",
        6 => "6",
        7 => "7",
        8 => "8",
        _ => "9",
    }
}

/// Prints `v` as its canonical decimal numeral.
pub fn u64_to_string(v: u64) -> (r: String)
    ensures
        r@ == nat_digits(v as nat),
{
    if v == 0 {
        let r = String::from_str(digit_str(0));
        proof {
            assert(r@ =~= nat_digits(0));
        }
        return r;
    }
    let mut n: u64 = v;
    let mut out: String = String::new();
    while n > 0
        invariant
            n > 0 ==> nat_digits(v as nat) == nat_digits(n as nat) + out@,
            n == 0 ==> out@ == nat_digits(v as nat),
            v > 0,
        decreases n,
    {
        let ghost n_old: nat = n as nat;
        let ghost out_old: Seq<char> = out@;
        let d: u64 = n % 10;
        let piece = digit_str(d);
        let rest = out;
        out = String::from_str(piece).concat(rest.as_str());
        n = n / 10;
        proof {
            if n_old < 10 {
                assert(nat_digits(n_old) =~= seq![char_of_digit(n_old % 10)]);
                assert(out@ =~= nat_digits(n_old) + out_old);
                assert(out@ =~= nat_digits(v as nat));
            } else {
                assert(nat_digits(n_old) =~= nat_digits(n_old / 10) + seq![
                    char_of_digit(n_old % 10),
                ]);
                assert(nat_digits(n as nat) + out@ =~= (nat_digits(n_old / 10) + seq![
                    char_of_digit(n_old % 10),
                ]) + out_old);
                assert(nat_digits(n as nat) + out@ =~= nat_digits(v as nat));
            }
        }
    }
    out
}

/// A run of `k` zero characters.
pub open spec fn zeros(k: nat) -> Seq<char> {
    Seq::new(k, |i: int| '0')
}

/// The numeral of `n`, left-padded with zeros to at least `w` characters.
pub open spec fn padded_digits(n: nat, w: nat) -> Seq<char> {
    let d = nat_digits(n);
    if d.len() >= w {
        d
    } else {
        zeros((w - d.len()) as nat) + d
    }
}

pub proof fn lemma_zeros_val(k: nat)
    ensures
        digits_val(zeros(k)) == 0,
        all_digits(zeros(k)),
    decreases k,
{
    if k > 0 {
        lemma_zeros_val((k - 1) as nat);
        assert(zeros(k).drop_last() =~= zeros((k - 1) as nat));
        assert(zeros(k).last() == '0');
    }
}

/// Zero padding changes neither the digit property nor the value.
pub proof fn lemma_padded_digits_val(n: nat, w: nat)
    ensures
        digits_val(padded_digits(n, w)) == n,
        all_digits(padded_digits(n, w)),
        padded_digits(n, w).len() >= w,
        padded_digits(n, w).len() >= 1,
{
    lemma_nat_digits_val(n);
    let d = nat_digits(n);
    if d.len() < w {
        let k = (w - d.len()) as nat;
        lemma_zeros_val(k);
        lemma_digits_val_concat(zeros(k), d);
        assert(0 * pow10(d.len()) == 0);
        assert forall|i: int| 0 <= i < (zeros(k) + d).len() implies is_digit(
            #[trigger] (zeros(k) + d)[i],
        ) by {
            if i < k {
                assert((zeros(k) + d)[i] == '0');
            } else {
                assert((zeros(k) + d)[i] == d[i - k]);
            }
        }
    }
}

/// Prints `v` in decimal, left-padded with zeros to at least `width` characters.
pub fn u64_to_padded_string(v: u64, width: usize) -> (r: String)
    ensures
        r@ == padded_digits(v as nat, width as nat),
{
    let ghost d: Seq<char> = nat_digits(v as nat);
    let mut out = u64_to_string(v);
    proof {
        lemma_nat_digits_val(v as nat);
        assert(out@ =~= zeros(0) + d);
    }
    let mut len = out.as_str().unicode_len();
    while len < width
        invariant
            len == out@.len(),
            len >= d.len(),
            d == nat_digits(v as nat),
            d.len() >= 1,
            len > d.len() ==> len <= width,
            out@ == zeros((len - d.len()) as nat) + d,
        decreases width - len,
    {
        let rest = out;
        out = String::from_str(digit_str(0)).concat(rest.as_str());
        len = len + 1;
        proof {
            assert(out@ =~= zeros((len - d.len()) as nat) + d);
        }
    }
    proof {
        if d.len() >= width as nat {
            assert(len == d.len());
            assert(out@ =~= d);
            assert(out@ =~= padded_digits(v as nat, width as nat));
        } else {
            assert(len == width);
            assert(out@ =~= padded_digits(v as nat, width as nat));
        }
    }
    out
}

/// `needle` occurs in `h` starting at index `i`.
pub open spec fn contains_at(h: Seq<char>, needle: Seq<char>, i: int) -> bool {
    0 <= i && i + needle.len() <= h.len() && h.subrange(i, i + needle.len()) == needle
}

/// `h` has `needle` as a contiguous subsequence.
pub open spec fn seq_contains(h: Seq<char>, needle: Seq<char>) -> bool {
    exists|i: int| contains_at(h, needle, i)
}

/// Substring search, character by character.
pub fn str_contains(h: &str, needle: &str) -> (r: bool)
    ensures
        r == seq_contains(h@, needle@),
{
    let hn = h.unicode_len();
    let nn = needle.unicode_len();
    if nn > hn {
        proof {
            assert forall|i: int| !contains_at(h@, needle@, i) by {}
        }
        return false;
    }
    if nn == 0 {
        proof {
            assert(h@.subrange(0, 0) =~= needle@);
            assert(contains_at(h@, needle@, 0));
        }
        return true;
    }
    let mut i: usize = 0;
    while i <= hn - nn
        invariant
            hn == h@.len(),
            nn == needle@.len(),
            1 <= nn <= hn,
            0 <= i <= hn - nn + 1,
            forall|k: int| 0 <= k < i ==> !contains_at(h@, needle@, k),
        decreases hn - nn - i + 1,
    {
        let mut j: usize = 0;
        let mut matched = true;
        while j < nn && matched
            invariant
                hn == h@.len(),
                nn == needle@.len(),
                nn <= hn,
                i <= hn - nn,
                0 <= j <= nn,
                matched ==> forall|t: int| 0 <= t < j ==> h@[i + t] == needle@[t],
                !matched ==> !contains_at(h@, needle@, i as int),
            decreases nn - j + (if matched { 1int } else { 0int }),
        {
            if h.get_char(i + j) != needle.get_char(j) {
                proof {
                    let sub = h@.subrange(i as int, i + nn);
                    assert(sub[j as int] == h@[i + j]);
                    assert(sub != needle@);
                }
                matched = false;
            } else {
                j = j + 1;
            }
        }
        if matched {
            proof {
                assert(h@.subrange(i as int, i + nn) =~= needle@);
                assert(contains_at(h@, needle@, i as int));
            }
            return true;
        }
        i = i + 1;
    }
    proof {
        assert forall|k: int| !contains_at(h@, needle@, k) by {
            if 0 <= k <= hn - nn {
                assert(!contains_at(h@, needle@, k));
            }
        }
    }
    false
}

/// `s` ends with `suffix`.
pub open spec fn ends_with(s: Seq<char>, suffix: Seq<char>) -> bool {
    s.len() >= suffix.len() && s.skip(s.len() - suffix.len()) == suffix
}

pub fn str_ends_with(s: &str, suffix: &str) -> (r: bool)
    ensures
        r == ends_with(s@, suffix@),
{
    let sn = s.unicode_len();
    let xn = suffix.unicode_len();
    if xn > sn {
        return false;
    }
    let off = sn - xn;
    let ghost tail = s@.skip(sn - xn);
    let mut j: usize = 0;
    while j < xn
        invariant
            sn == s@.len(),
            xn == suffix@.len(),
            xn <= sn,
            off == sn - xn,
            tail == s@.skip(sn - xn),
            0 <= j <= xn,
            forall|t: int| 0 <= t < j ==> s@[off + t] == suffix@[t],
        decreases xn - j,
    {
        if s.get_char(off + j) != suffix.get_char(j) {
            proof {
                assert(tail[j as int] == s@[off + j]);
                assert(tail != suffix@);
            }
            return false;
        }
        j = j + 1;
    }
    proof {
        assert(tail =~= suffix@);
    }
    true
}

/// Index of the last occurrence of `c` in `s`.
pub fn rfind_char(s: &str, c: char) -> (r: Option<usize>)
    ensures
        r matches Some(i) ==> i < s@.len() && s@[i as int] == c && (forall|j: int|
            i < j < s@.len() ==> s@[j] != c),
        r is None ==> forall|j: int| 0 <= j < s@.len() ==> s@[j] != c,
{
    let n = s.unicode_len();
    let mut i: usize = n;
    while i > 0
        invariant
            n == s@.len(),
            0 <= i <= n,
            forall|j: int| i <= j < n ==> s@[j] != c,
        decreases i,
    {
        i = i - 1;
        if s.get_char(i) == c {
            return Some(i);
        }
    }
    None
}

/// Character-wise string equality.
pub fn str_eq(a: &str, b: &str) -> (r: bool)
    ensures
        r == (a@ == b@),
{
    let an = a.unicode_len();
    let bn = b.unicode_len();
    if an != bn {
        return false;
    }
    let mut j: usize = 0;
    while j < an
        invariant
            an == a@.len(),
            bn == b@.len(),
            an == bn,
            0 <= j <= an,
            forall|t: int| 0 <= t < j ==> a@[t] == b@[t],
        decreases an - j,
    {
        if a.get_char(j) != b.get_char(j) {
            return false;
        }
        j = j + 1;
    }
    proof {
        assert(a@ =~= b@);
    }
    true
}

/// The lowercase image of a character sequence, as `str::to_lowercase`
/// computes it. Stating the full Unicode lowering table is out of scope, so
/// only the name is given; the result depends on the characters alone.
pub uninterp spec fn lower_of(s: Seq<char>) -> Seq<char>;

/// Relies on `str::to_lowercase`: returns the lowercase equivalent of `s`,
/// a function of the characters alone; an empty string stays empty.
#[verifier::external_body]
pub(crate) fn lowercase(s: &str) -> (r: String)
    ensures
        r@ == lower_of(s@),
        s@.len() == 0 ==> r@.len() == 0,
{
    s.to_lowercase()
}

} // verus!
