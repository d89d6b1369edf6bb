//! Byte-level text helpers for the ASCII header block: whitespace trimming,
//! prefix tests, splitting a comma-separated list, and parsing small
//! unsigned integers.

use vstd::prelude::*;

verus! {

/// ASCII whitespace as the header trimming understands it: space,
/// horizontal tab, line feed, vertical tab, form feed, carriage return.
pub open spec fn is_ws(b: u8) -> bool {
    b == 32 || (9 <= b && b <= 13)
}

/// `s` without its leading whitespace.
pub open spec fn trim_front(s: Seq<u8>) -> Seq<u8>
    decreases s.len(),
{
    if s.len() > 0 && is_ws(s[0]) {
        trim_front(s.drop_first())
    } else {
        s
    }
}

/// `s` without its trailing whitespace.
pub open spec fn trim_back(s: Seq<u8>) -> Seq<u8>
    decreases s.len(),
{
    if s.len() > 0 && is_ws(s.last()) {
        trim_back(s.drop_last())
    } else {
        s
    }
}

/// `s` without leading and trailing whitespace.
pub open spec fn trim_spec(s: Seq<u8>) -> Seq<u8> {
    trim_back(trim_front(s))
}

/// Whether `s` begins with `prefix`.
pub open spec fn has_prefix(s: Seq<u8>, prefix: Seq<u8>) -> bool {
    s.len() >= prefix.len() && (forall|k: int| 0 <= k < prefix.len() ==> s[k] == prefix[k])
}

/// Index of the first comma in `s`, or `s.len()` if there is none.
pub open spec fn first_comma(s: Seq<u8>) -> int
    decreases s.len(),
{
    if s.len() == 0 {
        0
    } else if s[0] == 44 {
        0
    } else {
        1 + first_comma(s.drop_first())
    }
}

pub proof fn lemma_first_comma(s: Seq<u8>)
    ensures
        0 <= first_comma(s) <= s.len(),
        first_comma(s) < s.len() ==> s[first_comma(s)] == 44,
        forall|k: int| 0 <= k < first_comma(s) ==> s[k] != 44,
    decreases s.len(),
{
    if s.len() > 0 && s[0] != 44 {
        lemma_first_comma(s.drop_first());
        assert(forall|k: int| 1 <= k < first_comma(s) ==> s[k] == s.drop_first()[k - 1]);
    }
}

/// The pieces of `s` between its commas, in order. A text with no comma is
/// one piece; every comma separates two pieces, so the empty text is one
/// empty piece.
pub open spec fn split_commas(s: Seq<u8>) -> Seq<Seq<u8>>
    decreases s.len(),
{
    let c = first_comma(s);
    if c >= s.len() {
        seq![s]
    } else {
        proof {
            lemma_first_comma(s);
        }
        seq![s.take(c)] + split_commas(s.skip(c + 1))
    }
}

/// The comma-separated pieces of `s`, each trimmed of surrounding
/// whitespace.
pub open spec fn split_trim_commas(s: Seq<u8>) -> Seq<Seq<u8>> {
    split_commas(s).map(|i: int, p: Seq<u8>| trim_spec(p))
}

/// ASCII decimal digit.
pub open spec fn is_digit(b: u8) -> bool {
    48 <= b && b <= 57
}

/// A non-empty run of decimal digits.
pub open spec fn all_digits(s: Seq<u8>) -> bool {
    s.len() > 0 && (forall|k: int| 0 <= k < s.len() ==> is_digit(s[k]))
}

/// Numeric value of a digit string, most significant digit first.
pub open spec fn digits_val(s: Seq<u8>) -> int
    decreases s.len(),
{
    if s.len() == 0 {
        0
    } else {
        digits_val(s.drop_last()) * 10 + (s.last() - 48)
    }
}

/// Value of `s` read as a `u8`: an optional leading plus sign, then digits.
/// Anything unparsable, empty, or too large for eight bits counts as zero.
pub open spec fn parse_u8_spec(s: Seq<u8>) -> u8 {
    let t = if s.len() > 0 && s[0] == 43 {
        s.drop_first()
    } else {
        s
    };
    if all_digits(t) && digits_val(t) <= 255 {
        digits_val(t) as u8
    } else {
        0
    }
}

proof fn lemma_digits_val_nonneg(s: Seq<u8>)
    requires
        forall|k: int| 0 <= k < s.len() ==> is_digit(s[k]),
    ensures
        digits_val(s) >= 0,
    decreases s.len(),
{
    if s.len() > 0 {
        assert(forall|k: int| 0 <= k < s.drop_last().len() ==> s.drop_last()[k] == s[k]);
        lemma_digits_val_nonneg(s.drop_last());
    }
}

/// Appending digits never shrinks the value: the whole string is worth at
/// least any of its prefixes.
proof fn lemma_digits_val_mono(s: Seq<u8>, k: int)
    requires
        0 <= k <= s.len(),
        forall|j: int| 0 <= j < s.len() ==> is_digit(s[j]),
    ensures
        digits_val(s) >= digits_val(s.take(k)),
    decreases s.len() - k,
{
    if k == s.len() {
        assert(s.take(k) =~= s);
    } else {
        lemma_digits_val_mono(s, k + 1);
        let t = s.take(k + 1);
        assert(t.drop_last() =~= s.take(k));
        assert(forall|j: int| 0 <= j < t.len() ==> t[j] == s[j]);
        lemma_digits_val_nonneg(s.take(k));
        assert(digits_val(t) == digits_val(s.take(k)) * 10 + (s[k] - 48));
    }
}

/// True iff `b` is whitespace in the sense of [`is_ws`].
pub fn is_ws_byte(b: u8) -> (r: bool)
    ensures
        r == is_ws(b),
{
    b == 32 || (9 <= b && b <= 13)
}

/// Copies `s[i..j]` into a fresh vector.
pub fn bytes_range(s: &[u8], i: usize, j: usize) -> (r: Vec<u8>)
    requires
        i <= j <= s@.len(),
    ensures
        r@ == s@.subrange(i as int, j as int),
{
    vstd::slice::slice_to_vec(vstd::slice::slice_subrange(s, i, j))
}

/// `s` with surrounding whitespace removed.
pub fn trim_bytes(s: &[u8]) -> (r: Vec<u8>)
    ensures
        r@ == trim_spec(s@),
{
    let mut i: usize = 0;
    proof {
        assert(s@.skip(0) =~= s@);
    }
    while i < s.len() && is_ws_byte(s[i])
        invariant
            0 <= i <= s@.len(),
            trim_front(s@) == trim_front(s@.skip(i as int)),
        decreases s@.len() - i,
    {
        proof {
            assert(s@.skip(i as int).drop_first() =~= s@.skip(i + 1));
        }
        i = i + 1;
    }
    proof {
        assert(trim_front(s@) == s@.skip(i as int));
    }
    let mut j: usize = s.len();
    while j > i && is_ws_byte(s[j - 1])
        invariant
            i <= j <= s@.len(),
            trim_back(s@.skip(i as int)) == trim_back(s@.subrange(i as int, j as int)),
        decreases j,
    {
        proof {
            assert(s@.subrange(i as int, j as int).drop_last() =~= s@.subrange(i as int, j - 1));
        }
        j = j - 1;
    }
    proof {
        assert(s@.skip(i as int) =~= s@.subrange(i as int, s@.len() as int));
        assert(trim_back(s@.subrange(i as int, j as int)) == s@.subrange(i as int, j as int));
    }
    bytes_range(s, i, j)
}

/// Whether `s` begins with `prefix`, byte for byte.
pub fn bytes_have_prefix(s: &[u8], prefix: &[u8]) -> (r: bool)
    ensures
        r == has_prefix(s@, prefix@),
{
    if s.len() < prefix.len() {
        return false;
    }
    let mut k: usize = 0;
    while k < prefix.len()
        invariant
            0 <= k <= prefix@.len() <= s@.len(),
            forall|m: int| 0 <= m < k ==> s@[m] == prefix@[m],
        decreases prefix@.len() - k,
    {
        if s[k] != prefix[k] {
            return false;
        }
        k = k + 1;
    }
    true
}

/// Whether `a` and `b` hold the same bytes.
pub fn bytes_eq(a: &[u8], b: &[u8]) -> (r: bool)
    ensures
        r == (a@ == b@),
{
    if a.len() != b.len() {
        return false;
    }
    let mut k: usize = 0;
    while k < a.len()
        invariant
            0 <= k <= a@.len() == b@.len(),
            forall|m: int| 0 <= m < k ==> a@[m] == b@[m],
        decreases a@.len() - k,
    {
        if a[k] != b[k] {
            return false;
        }
        k = k + 1;
    }
    proof {
        assert(a@ =~= b@);
    }
    true
}

/// Position of the first comma at or after `start`, or the end of `s`.
fn find_comma_from(s: &[u8], start: usize) -> (c: usize)
    requires
        start <= s@.len(),
    ensures
        start <= c <= s@.len(),
        c - start == first_comma(s@.skip(start as int)),
        c < s@.len() ==> s@[c as int] == 44,
{
    let mut c = start;
    while c < s.len()
        invariant
            start <= c <= s@.len(),
            first_comma(s@.skip(start as int)) == (c - start) + first_comma(s@.skip(c as int)),
        decreases s@.len() - c,
    {
        if s[c] == 44 {
            return c;
        }
        proof {
            assert(s@.skip(c as int).drop_first() =~= s@.skip(c + 1));
        }
        c = c + 1;
    }
    c
}

/// The comma-separated pieces of `s`, each trimmed, in order.
pub fn split_and_trim(s: &[u8]) -> (r: Vec<Vec<u8>>)
    ensures
        r.deep_view() == split_trim_commas(s@),
{
    let mut out: Vec<Vec<u8>> = Vec::new();
    let mut rest: usize = 0;
    proof {
        assert(s@.skip(0) =~= s@);
        assert(out.deep_view() + split_trim_commas(s@) =~= split_trim_commas(s@));
    }
    loop
        invariant_except_break
            rest <= s@.len(),
            split_trim_commas(s@) == out.deep_view() + split_trim_commas(s@.skip(rest as int)),
        ensures
            out.deep_view() == split_trim_commas(s@),
        decreases s@.len() - rest,
    {
        let ghost out0 = out.deep_view();
        let ghost t = s@.skip(rest as int);
        let c = find_comma_from(s, rest);
        let piece = trim_bytes(vstd::slice::slice_subrange(s, rest, c));
        out.push(piece);
        proof {
            assert(piece.deep_view() =~= piece@);
            assert(out.deep_view() =~= out0.push(piece@));
            assert(t.take(c - rest) =~= s@.subrange(rest as int, c as int));
            lemma_first_comma(t);
        }
        if c == s.len() {
            proof {
                assert(t =~= s@.subrange(rest as int, c as int));
                assert(split_commas(t) =~= seq![t]);
                assert(split_trim_commas(t) =~= seq![trim_spec(t)]);
                assert(out.deep_view() =~= split_trim_commas(s@));
            }
            break;
        }
        proof {
            assert(split_commas(t) =~= seq![t.take(c - rest)] + split_commas(t.skip(c - rest + 1)));
            assert(t.skip(c - rest + 1) =~= s@.skip(c + 1));
            assert(split_trim_commas(t) =~= seq![trim_spec(t.take(c - rest))] + split_trim_commas(
                s@.skip(c + 1),
            ));
            assert(split_trim_commas(s@) =~= out.deep_view() + split_trim_commas(s@.skip(c + 1)));
        }
        rest = c + 1;
    }
    out
}

/// Value of `s` read as a `u8` with a default of zero, as
/// [`parse_u8_spec`] states it.
pub fn parse_u8_or_zero(s: &[u8]) -> (r: u8)
    ensures
        r == parse_u8_spec(s@),
{
    let start: usize = if s.len() > 0 && s[0] == 43 {
        1
    } else {
        0
    };
    let ghost t = if start == 1 {
        s@.drop_first()
    } else {
        s@
    };
    proof {
        assert(t =~= s@.subrange(start as int, s@.len() as int));
    }
    if s.len() == start {
        return 0;
    }
    let mut acc: u32 = 0;
    let mut k = start;
    while k < s.len()
        invariant
            start <= k <= s@.len(),
            t == s@.subrange(start as int, s@.len() as int),
            t == (if s@.len() > 0 && s@[0] == 43 {
                s@.drop_first()
            } else {
                s@
            }),
            forall|j: int| start <= j < k ==> is_digit(s@[j]),
            acc <= 255,
            acc == digits_val(s@.subrange(start as int, k as int)),
        decreases s@.len() - k,
    {
        let b = s[k];
        if b < 48 || b > 57 {
            proof {
                assert(t[k - start] == s@[k as int]);
                assert(!all_digits(t));
            }
            return 0;
        }
        proof {
            let u = s@.subrange(start as int, k + 1);
            assert(u.drop_last() =~= s@.subrange(start as int, k as int));
            assert(u.last() == s@[k as int]);
        }
        acc = acc * 10 + ((b - 48) as u32);
        k = k + 1;
        if acc > 255 {
            proof {
                assert(forall|j: int|
                    0 <= j < k - start ==> t[j] == s@[j + start] && is_digit(t[j]));
                if all_digits(t) {
                    assert(t.take(k - start) =~= s@.subrange(start as int, k as int));
                    lemma_digits_val_mono(t, k - start);
                }
            }
            return 0;
        }
    }
    proof {
        assert(t =~= s@.subrange(start as int, s@.len() as int));
        assert(forall|j: int| 0 <= j < t.len() ==> t[j] == s@[j + start] && is_digit(t[j]));
        assert(all_digits(t));
        assert(digits_val(t) == acc);
    }
    acc as u8
}

} // verus!
