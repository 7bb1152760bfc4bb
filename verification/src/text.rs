//! Verified text utilities: decimal parsing and rendering of identifiers,
//! and ASCII case-insensitive substring search.
//!
//! Token resolution treats a token made of decimal digits as an identifier
//! reference; search lowers ASCII letters before comparing.  Both notions
//! are pinned down here as spec functions, with executable counterparts
//! proved against them.

use vstd::prelude::*;
use vstd::string::StrSliceExecFns;
use vstd::string::StringExecFns;
use vstd::string::StringSliceAdditionalSpecFns;

verus! {

/// A decimal digit.
pub open spec fn is_digit(c: char) -> bool {
    48 <= c as int && c as int <= 57
}

/// Every character of `s` is a decimal digit.
pub open spec fn all_digits(s: Seq<char>) -> bool {
    forall|i: int| 0 <= i < s.len() ==> is_digit(#[trigger] s[i])
}

/// The value of `s` read as a decimal numeral, most significant digit first.
pub open spec fn dec_val(s: Seq<char>) -> int
    decreases s.len(),
{
    if s.len() == 0 {
        0
    } else {
        dec_val(s.drop_last()) * 10 + (s.last() as int - 48)
    }
}

/// `s` is a non-empty digit string whose value fits in `usize`.
pub open spec fn is_numeric(s: Seq<char>) -> bool {
    s.len() > 0 && all_digits(s) && dec_val(s) <= usize::MAX as int
}

proof fn lemma_dec_val_nonneg(s: Seq<char>)
    requires
        all_digits(s),
    ensures
        dec_val(s) >= 0,
    decreases s.len(),
{
    if s.len() > 0 {
        assert(all_digits(s.drop_last()));
        lemma_dec_val_nonneg(s.drop_last());
    }
}

proof fn lemma_dec_val_prefix(s: Seq<char>, k: int)
    requires
        all_digits(s),
        0 <= k <= s.len(),
    ensures
        dec_val(s) >= dec_val(s.take(k)),
    decreases s.len(),
{
    lemma_dec_val_nonneg(s.take(k));
    assert(all_digits(s.take(k)));
    if k < s.len() {
        let d = s.drop_last();
        assert(all_digits(d));
        assert(d.take(k) =~= s.take(k));
        lemma_dec_val_prefix(d, k);
        lemma_dec_val_nonneg(d);
    } else {
        assert(s.take(k) =~= s);
    }
}

/// Reads a token as a non-negative integer: `Some` exactly when the token
/// is a non-empty string of decimal digits whose value fits in `usize`.
pub fn parse_usize(s: &str) -> (r: Option<usize>)
    ensures
        r is Some <==> is_numeric(s@),
        r matches Some(v) ==> v as int == dec_val(s@),
{
    let n = s.unicode_len();
    if n == 0 {
        return None;
    }
    let mut i: usize = 0;
    while i < n
        invariant
            0 <= i <= n,
            n == s@.len(),
            forall|j: int| 0 <= j < i ==> is_digit(#[trigger] s@[j]),
        decreases n - i,
    {
        let c = s.get_char(i);
        let u = c as u32;
        if u < 48 || u > 57 {
            assert(!is_digit(s@[i as int]));
            return None;
        }
        i += 1;
    }
    assert(all_digits(s@));
    let mut acc: usize = 0;
    let mut i: usize = 0;
    while i < n
        invariant
            0 <= i <= n,
            n == s@.len(),
            all_digits(s@),
            acc as int == dec_val(s@.take(i as int)),
        decreases n - i,
    {
        let c = s.get_char(i);
        let u = c as u32;
        assert(is_digit(s@[i as int]));
        let d: usize = (u - 48) as usize;
        proof {
            assert(s@.take(i + 1).drop_last() =~= s@.take(i as int));
            assert(s@.take(i + 1).last() == s@[i as int]);
        }
        if acc > (usize::MAX - d) / 10 {
            proof {
                lemma_dec_val_nonneg(s@.take(i as int));
                assert(dec_val(s@.take(i + 1)) > usize::MAX as int) by {
                    assert(acc as int * 10 + d as int > usize::MAX as int) by (nonlinear_arith)
                        requires
                            acc as int > (usize::MAX as int - d) / 10,
                            0 <= d <= 9,
                            usize::MAX as int >= 9,
                    ;
                }
                lemma_dec_val_prefix(s@, i + 1);
            }
            return None;
        }
        assert(acc * 10 + d <= usize::MAX) by (nonlinear_arith)
            requires
                acc as int <= (usize::MAX as int - d) / 10,
                0 <= d <= 9,
        ;
        acc = acc * 10 + d;
        i += 1;
    }
    assert(s@.take(n as int) =~= s@);
    Some(acc)
}

/// The character of a single decimal digit.
pub open spec fn digit_char(d: nat) -> char {
    if d == 0 {
        '0'
    } else if d == 1 {
        '1'
    } else if d == 2 {
        '2'
    } else if d == 3 {
        '3'
    } else if d == 4 {
        '4'
    } else if d == 5 {
        '5'
    } else if d == 6 {
        '6'
    } else if d == 7 {
        '7'
    } else if d == 8 {
        '8'
    } else {
        '9'
    }
}

/// The decimal numeral of `n`, most significant digit first, no leading
/// zeros (a single `'0'` for zero).
pub open spec fn dec_str(n: nat) -> Seq<char>
    decreases n,
{
    if n < 10 {
        seq![digit_char(n)]
    } else {
        dec_str(n / 10).push(digit_char(n % 10))
    }
}

fn digit_str(d: usize) -> (r: &'static str)
    requires
        d < 10,
    ensures
        r@ == seq![digit_char(d as nat)],
{
    proof {
        reveal_strlit("0");
        reveal_strlit("1");
        reveal_strlit("2");
        reveal_strlit("3");
        reveal_strlit("4");
        reveal_strlit("5");
        reveal_strlit("6");
        reveal_strlit("7");
        reveal_strlit("8");
        reveal_strlit("9");
    }
    let r = match d {
        0 => "0",
        1 => "1",
        2 => "2",
        3 => "3",
        4 => "4",
        5 => "5",
        6 => "6",
        7 => "7",
        8 => "8",
        _ => "9",
    };
    assert(r@ =~= seq![digit_char(d as nat)]);
    r
}

/// Renders an identifier as its decimal numeral.
pub fn usize_to_string(n: usize) -> (s: String)
    ensures
        s@ == dec_str(n as nat),
    decreases n,
{
    if n < 10 {
        String::from_str(digit_str(n))
    } else {
        let mut s = usize_to_string(n / 10);
        s.append(digit_str(n % 10));
        assert(s@ =~= dec_str(n as nat));
        s
    }
}

/// A field token that means "leave this field unchanged": the empty string
/// or a single underscore.
pub open spec fn is_empty_tok(s: Seq<char>) -> bool {
    s.len() == 0 || s =~= seq!['_']
}

/// Tells whether a field token means "leave this field unchanged".
pub fn get_is_empty_text(txt: &str) -> (r: bool)
    ensures
        r == is_empty_tok(txt@),
{
    let n = txt.unicode_len();
    if n == 0 {
        true
    } else if n == 1 {
        let c = txt.get_char(0);
        if c == '_' {
            assert(txt@ =~= seq!['_']);
            true
        } else {
            assert(!(txt@ =~= seq!['_']));
            false
        }
    } else {
        false
    }
}

/// The field-boundary sentinel: a single `'$'`.
pub open spec fn is_sentinel(s: Seq<char>) -> bool {
    s =~= seq!['$']
}

/// Tells whether a token is the field-boundary sentinel `$`.
pub fn is_sentinel_token(txt: &str) -> (r: bool)
    ensures
        r == is_sentinel(txt@),
{
    let n = txt.unicode_len();
    if n == 1 {
        let c = txt.get_char(0);
        if c == '$' {
            assert(txt@ =~= seq!['$']);
            true
        } else {
            assert(!(txt@ =~= seq!['$']));
            false
        }
    } else {
        assert(!(txt@ =~= seq!['$']));
        false
    }
}

/// An ASCII uppercase byte mapped to its lowercase form; all other bytes
/// unchanged.
pub open spec fn lower_byte(b: u8) -> u8 {
    if 65 <= b && b <= 90 {
        (b + 32) as u8
    } else {
        b
    }
}

/// `s` with every ASCII uppercase byte lowered.
pub open spec fn lower_bytes(s: Seq<u8>) -> Seq<u8> {
    s.map_values(|b: u8| lower_byte(b))
}

/// `needle` occurs contiguously inside `hay`.
pub open spec fn is_substring_bytes(hay: Seq<u8>, needle: Seq<u8>) -> bool {
    exists|i: int|
        0 <= i && i + needle.len() <= hay.len() && #[trigger] hay.subrange(i, i + needle.len())
            == needle
}

fn lower_vec(v: &Vec<u8>) -> (r: Vec<u8>)
    ensures
        r@ == lower_bytes(v@),
{
    let mut r: Vec<u8> = Vec::new();
    let n = v.len();
    let mut i: usize = 0;
    while i < n
        invariant
            0 <= i <= n,
            n == v@.len(),
            r@ =~= lower_bytes(v@).take(i as int),
        decreases n - i,
    {
        let b = v[i];
        if 65 <= b && b <= 90 {
            r.push(b + 32);
        } else {
            r.push(b);
        }
        assert(r@ =~= lower_bytes(v@).take(i + 1));
        i += 1;
    }
    assert(lower_bytes(v@).take(n as int) =~= lower_bytes(v@));
    r
}

fn bytes_match_at(hay: &Vec<u8>, needle: &Vec<u8>, at: usize) -> (r: bool)
    requires
        at + needle@.len() <= hay@.len(),
    ensures
        r == (hay@.subrange(at as int, at + needle@.len()) == needle@),
{
    let m = needle.len();
    let hn = hay.len();
    let mut j: usize = 0;
    while j < m
        invariant
            0 <= j <= m,
            m == needle@.len(),
            hn == hay@.len(),
            at + m <= hn,
            forall|k: int| 0 <= k < j ==> hay@[at + k] == needle@[k],
        decreases m - j,
    {
        if hay[at + j] != needle[j] {
            assert(hay@.subrange(at as int, at + m) != needle@) by {
                assert(hay@.subrange(at as int, at + m)[j as int] != needle@[j as int]);
            }
            return false;
        }
        j += 1;
    }
    assert(hay@.subrange(at as int, at + m) =~= needle@);
    true
}

/// ASCII case-insensitive substring test: whether `needle`, with ASCII
/// letters lowered, occurs inside `hay` lowered the same way.  Non-ASCII
/// bytes are compared as they stand.
pub fn contains_ci(hay: &str, needle: &str) -> (r: bool)
    ensures
        r == is_substring_bytes(lower_bytes(hay.spec_bytes()), lower_bytes(needle.spec_bytes())),
{
    let hv = lower_vec(&hay.as_bytes_vec());
    let nv = lower_vec(&needle.as_bytes_vec());
    let h = hv.len();
    let m = nv.len();
    if m > h {
        assert(!is_substring_bytes(hv@, nv@));
        return false;
    }
    if m == 0 {
        assert(hv@.subrange(0, 0 + nv@.len() as int) =~= nv@);
        assert(is_substring_bytes(hv@, nv@));
        return true;
    }
    let mut i: usize = 0;
    while i <= h - m
        invariant
            0 <= i <= h - m + 1,
            0 < m <= h,
            h == hv@.len(),
            m == nv@.len(),
            hv@ == lower_bytes(hay.spec_bytes()),
            nv@ == lower_bytes(needle.spec_bytes()),
            forall|k: int| 0 <= k < i ==> #[trigger] hv@.subrange(k, k + nv@.len()) != nv@,
        decreases h - i,
    {
        if bytes_match_at(&hv, &nv, i) {
            assert(hv@.subrange(i as int, i as int + nv@.len()) == nv@);
            assert(is_substring_bytes(hv@, nv@));
            return true;
        }
        i += 1;
    }
    assert(!is_substring_bytes(hv@, nv@));
    false
}

} // verus!
