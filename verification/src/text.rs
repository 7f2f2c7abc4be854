//! Verified text utilities: string comparison and decimal parsing.
//!
//! Node ids and way references are signed decimal integers; coordinates are
//! decimal degree strings. Coordinates are held in fixed point with seven
//! fractional digits (the resolution of OSM itself), so a coordinate string
//! parses to an `i64` scaled by `10_000_000`.

use vstd::prelude::*;
use vstd::string::StrSliceExecFns;

verus! {

/// Scale factor between whole degrees and the stored fixed-point unit.
pub const COORD_SCALE: u64 = 10_000_000;

pub open spec fn is_digit(c: char) -> bool {
    48 <= c as u32 <= 57
}

pub open spec fn digit_val(c: char) -> int {
    c as u32 - 48
}

pub open spec fn all_digits(s: Seq<char>) -> bool {
    forall|i: int| 0 <= i < s.len() ==> is_digit(#[trigger] s[i])
}

/// The value of a digit string read most-significant first.
pub open spec fn digits_val(s: Seq<char>) -> int
    decreases s.len(),
{
    if s.len() == 0 {
        0
    } else {
        digits_val(s.drop_last()) * 10 + digit_val(s.last())
    }
}

/// Number of leading sign characters (zero or one).
pub open spec fn sign_len(s: Seq<char>) -> int {
    if s.len() > 0 && (s[0] == '-' || s[0] == '+') {
        1
    } else {
        0
    }
}

pub open spec fn is_neg(s: Seq<char>) -> bool {
    s.len() > 0 && s[0] == '-'
}

pub open spec fn int_digits(s: Seq<char>) -> Seq<char> {
    s.subrange(sign_len(s), s.len() as int)
}

/// An optional sign followed by one or more decimal digits.
pub open spec fn valid_int_str(s: Seq<char>) -> bool {
    int_digits(s).len() > 0 && all_digits(int_digits(s))
}

pub open spec fn int_str_val(s: Seq<char>) -> int {
    if is_neg(s) {
        -digits_val(int_digits(s))
    } else {
        digits_val(int_digits(s))
    }
}

pub proof fn lemma_digits_val_nonneg(s: Seq<char>)
    requires
        all_digits(s),
    ensures
        digits_val(s) >= 0,
    decreases s.len(),
{
    if s.len() > 0 {
        lemma_digits_val_nonneg(s.drop_last());
    }
}

/// Extending a digit prefix by one digit multiplies its value by ten.
pub proof fn lemma_digits_val_snoc(s: Seq<char>, i: int)
    requires
        0 <= i < s.len(),
    ensures
        digits_val(s.subrange(0, i + 1)) == digits_val(s.subrange(0, i)) * 10 + digit_val(s[i]),
{
    let a = s.subrange(0, i + 1);
    assert(a.drop_last() =~= s.subrange(0, i));
}

/// A digit string is at least as large as any of its prefixes.
pub proof fn lemma_digits_val_prefix_le(s: Seq<char>, i: int)
    requires
        all_digits(s),
        0 <= i <= s.len(),
    ensures
        0 <= digits_val(s.subrange(0, i)) <= digits_val(s),
    decreases s.len() - i,
{
    lemma_digits_val_nonneg(s.subrange(0, i));
    if i == s.len() {
        assert(s.subrange(0, i) =~= s);
    } else {
        lemma_digits_val_snoc(s, i);
        lemma_digits_val_prefix_le(s, i + 1);
    }
}

pub open spec fn pow10(k: nat) -> int
    decreases k,
{
    if k == 0 {
        1
    } else {
        10 * pow10((k - 1) as nat)
    }
}

pub proof fn lemma_pow10_le(j: nat, k: nat)
    requires
        j <= k,
    ensures
        1 <= pow10(j) <= pow10(k),
    decreases k,
{
    if k > 0 {
        if j == k {
            lemma_pow10_le(0, (k - 1) as nat);
        } else {
            lemma_pow10_le(j, (k - 1) as nat);
        }
    }
}

/// Index of the first occurrence of `c` in `s`, or `s.len()` when there is
/// none.
pub open spec fn first_index_of(s: Seq<char>, c: char) -> int
    decreases s.len(),
{
    if s.len() == 0 {
        0
    } else if s[0] == c {
        0
    } else {
        1 + first_index_of(s.drop_first(), c)
    }
}

pub proof fn lemma_first_index_of(s: Seq<char>, c: char)
    ensures
        0 <= first_index_of(s, c) <= s.len(),
        first_index_of(s, c) < s.len() ==> s[first_index_of(s, c)] == c,
        forall|i: int| 0 <= i < first_index_of(s, c) ==> s[i] != c,
    decreases s.len(),
{
    if s.len() > 0 && s[0] != c {
        lemma_first_index_of(s.drop_first(), c);
        assert forall|i: int| 0 <= i < first_index_of(s, c) implies s[i] != c by {
            if i > 0 {
                assert(s.drop_first()[i - 1] == s[i]);
                assert(s.drop_first()[i - 1] != c);
            }
        }
    }
}

/// The characters of a coordinate string after its optional sign.
pub open spec fn coord_body(s: Seq<char>) -> Seq<char> {
    s.subrange(sign_len(s), s.len() as int)
}

pub open spec fn coord_int_part(s: Seq<char>) -> Seq<char> {
    coord_body(s).subrange(0, first_index_of(coord_body(s), '.'))
}

pub open spec fn coord_frac_part(s: Seq<char>) -> Seq<char> {
    let b = coord_body(s);
    if first_index_of(b, '.') < b.len() {
        b.subrange(first_index_of(b, '.') + 1, b.len() as int)
    } else {
        Seq::empty()
    }
}

/// An optional sign, digits, and at most one dot, with at least one digit
/// on one of the two sides of the dot.
pub open spec fn valid_coord_str(s: Seq<char>) -> bool {
    &&& all_digits(coord_int_part(s))
    &&& all_digits(coord_frac_part(s))
    &&& coord_int_part(s).len() + coord_frac_part(s).len() >= 1
}

/// The fractional digits read as ten-millionths of a degree; digits past
/// the seventh are truncated.
pub open spec fn frac_val_e7(f: Seq<char>) -> int {
    if f.len() >= 7 {
        digits_val(f.subrange(0, 7))
    } else {
        digits_val(f) * pow10((7 - f.len()) as nat)
    }
}

/// The value of a coordinate string in ten-millionths of a degree.
pub open spec fn coord_val_e7(s: Seq<char>) -> int {
    let m = digits_val(coord_int_part(s)) * 10_000_000 + frac_val_e7(coord_frac_part(s));
    if is_neg(s) {
        -m
    } else {
        m
    }
}

pub proof fn lemma_pow10_vals()
    ensures
        pow10(0) == 1,
        pow10(6) == 1_000_000,
        pow10(7) == 10_000_000,
{
    assert(pow10(0) == 1);
    assert(pow10(1) == 10);
    assert(pow10(2) == 100);
    assert(pow10(3) == 1_000);
    assert(pow10(4) == 10_000);
    assert(pow10(5) == 100_000);
    assert(pow10(6) == 1_000_000);
    assert(pow10(7) == 10_000_000);
}

pub proof fn lemma_frac_val_nonneg(f: Seq<char>)
    requires
        all_digits(f),
    ensures
        frac_val_e7(f) >= 0,
{
    if f.len() >= 7 {
        lemma_digits_val_nonneg(f.subrange(0, 7));
    } else {
        lemma_digits_val_nonneg(f);
        lemma_pow10_le(0, (7 - f.len()) as nat);
        assert(digits_val(f) * pow10((7 - f.len()) as nat) >= 0) by (nonlinear_arith)
            requires
                digits_val(f) >= 0,
                pow10((7 - f.len()) as nat) >= 1,
        ;
    }
}

/// Character-wise string equality, decided over the views.
pub fn str_eq(a: &str, b: &str) -> (r: bool)
    ensures
        r == (a@ == b@),
{
    let alen = a.unicode_len();
    let blen = b.unicode_len();
    if alen != blen {
        return false;
    }
    let mut i: usize = 0;
    while i < alen
        invariant
            i <= alen,
            alen == a@.len(),
            blen == b@.len(),
            alen == blen,
            forall|j: int| 0 <= j < i ==> a@[j] == b@[j],
        decreases alen - i,
    {
        if a.get_char(i) != b.get_char(i) {
            return false;
        }
        i += 1;
    }
    proof {
        assert(a@ =~= b@);
    }
    true
}

/// Parses a signed decimal integer, as node ids and way references require.
/// Returns `None` exactly on malformed input or a value outside `i64`.
pub fn parse_i64(s: &str) -> (r: Option<i64>)
    ensures
        match r {
            Some(v) => valid_int_str(s@) && int_str_val(s@) == v as int,
            None => !valid_int_str(s@) || int_str_val(s@) < i64::MIN || int_str_val(s@)
                > i64::MAX,
        },
{
    let len = s.unicode_len();
    let mut start: usize = 0;
    let mut neg = false;
    if len > 0 {
        let c0 = s.get_char(0);
        if c0 == '-' {
            neg = true;
            start = 1;
        } else if c0 == '+' {
            start = 1;
        }
    }
    let ghost d = int_digits(s@);
    proof {
        assert(start == sign_len(s@));
        assert(neg == is_neg(s@));
    }
    if start == len {
        return None;
    }
    let mut i: usize = start;
    let mut mag: u128 = 0;
    while i < len
        invariant
            start <= i <= len,
            len == s@.len(),
            start == sign_len(s@),
            d == int_digits(s@),
            mag == digits_val(d.subrange(0, i - start)),
            all_digits(d.subrange(0, i - start)),
            mag <= u64::MAX,
        decreases len - i,
    {
        let c = s.get_char(i);
        let cv = c as u32;
        if cv < 48 || cv > 57 {
            proof {
                assert(d[i - start] == s@[i as int]);
                assert(!all_digits(d));
            }
            return None;
        }
        proof {
            lemma_digits_val_snoc(d, i - start);
            assert(d.subrange(0, i - start + 1).subrange(0, i - start) =~= d.subrange(
                0,
                i - start,
            ));
            assert(forall|j: int|
                0 <= j < i - start + 1 ==> is_digit(#[trigger] d.subrange(0, i - start + 1)[j]));
        }
        mag = mag * 10 + (cv - 48) as u128;
        i = i + 1;
        if mag > u64::MAX as u128 {
            proof {
                if all_digits(d) {
                    lemma_digits_val_prefix_le(d, i - start);
                }
            }
            return None;
        }
    }
    proof {
        assert(d.subrange(0, (i - start) as int) =~= d);
    }
    if neg {
        if mag > 0x8000_0000_0000_0000u128 {
            return None;
        }
        Some((-(mag as i128)) as i64)
    } else {
        if mag > i64::MAX as u128 {
            return None;
        }
        Some(mag as i64)
    }
}

fn pow10_u64(k: usize) -> (r: u64)
    requires
        k <= 7,
    ensures
        r as int == pow10(k as nat),
{
    let mut r: u64 = 1;
    let mut j: usize = 0;
    while j < k
        invariant
            j <= k <= 7,
            r as int == pow10(j as nat),
        decreases k - j,
    {
        proof {
            lemma_pow10_le(j as nat, 6);
            lemma_pow10_vals();
        }
        r = r * 10;
        j = j + 1;
    }
    r
}

/// Parses a decimal degree string into fixed point (ten-millionths of a
/// degree). Returns `None` exactly on malformed input or a value outside
/// `i64`.
#[verifier::rlimit(100)]
pub fn parse_coord_e7(s: &str) -> (r: Option<i64>)
    ensures
        match r {
            Some(v) => valid_coord_str(s@) && coord_val_e7(s@) == v as int,
            None => !valid_coord_str(s@) || coord_val_e7(s@) < i64::MIN || coord_val_e7(s@)
                > i64::MAX,
        },
{
    let len = s.unicode_len();
    let mut start: usize = 0;
    let mut neg = false;
    if len > 0 {
        let c0 = s.get_char(0);
        if c0 == '-' {
            neg = true;
            start = 1;
        } else if c0 == '+' {
            start = 1;
        }
    }
    let ghost body = coord_body(s@);
    let ghost fd = first_index_of(body, '.');
    let ghost ip = coord_int_part(s@);
    let ghost fp = coord_frac_part(s@);
    proof {
        assert(start == sign_len(s@));
        assert(neg == is_neg(s@));
        lemma_first_index_of(body, '.');
    }
    // Integer part: digits until a dot or the end of the string.
    let mut i: usize = start;
    let mut imag: u128 = 0;
    let mut saw_dot = false;
    while i < len && !saw_dot
        invariant
            start <= i <= len,
            len == s@.len(),
            start == sign_len(s@),
            body == coord_body(s@),
            fd == first_index_of(body, '.'),
            ip == coord_int_part(s@),
            fp == coord_frac_part(s@),
            0 <= fd <= body.len(),
            fd < body.len() ==> body[fd] == '.',
            forall|k: int| 0 <= k < fd ==> body[k] != '.',
            !saw_dot ==> {
                &&& forall|k: int| 0 <= k < i - start ==> body[k] != '.'
                &&& imag == digits_val(body.subrange(0, i - start))
                &&& all_digits(body.subrange(0, i - start))
            },
            saw_dot ==> {
                &&& fd == i - start - 1
                &&& imag == digits_val(ip)
                &&& all_digits(ip)
            },
            imag <= u64::MAX,
        decreases len - i,
    {
        let c = s.get_char(i);
        if c == '.' {
            saw_dot = true;
            i = i + 1;
            proof {
                assert(body[i - 1 - start] == s@[(i - 1) as int]);
                assert(body[i - 1 - start] == '.');
                assert(fd >= i - 1 - start);
                assert(fd == i - start - 1);
                assert(ip =~= body.subrange(0, i - start - 1));
            }
        } else {
            let cv = c as u32;
            if cv < 48 || cv > 57 {
                proof {
                    assert(body[i - start] == s@[i as int]);
                    if fd >= i - start + 1 {
                        assert(ip[i - start] == body[i - start]);
                        assert(!is_digit(ip[i - start]));
                        assert(!all_digits(ip));
                    } else {
                        assert(fd == i - start);
                        assert(false);
                    }
                }
                return None;
            }
            proof {
                lemma_digits_val_snoc(body, i - start);
                assert(body.subrange(0, i - start + 1).subrange(0, i - start) =~= body.subrange(
                    0,
                    i - start,
                ));
                assert(forall|j: int|
                    0 <= j < i - start + 1 ==> is_digit(
                        #[trigger] body.subrange(0, i - start + 1)[j],
                    ));
            }
            imag = imag * 10 + (cv - 48) as u128;
            i = i + 1;
            if imag > u64::MAX as u128 {
                proof {
                    if valid_coord_str(s@) {
                        assert(fd >= i - start);
                        assert(body.subrange(0, i - start) =~= ip.subrange(0, i - start));
                        lemma_digits_val_prefix_le(ip, i - start);
                        lemma_frac_val_nonneg(fp);
                        assert(digits_val(ip) * 10_000_000 >= digits_val(ip));
                    }
                }
                return None;
            }
        }
    }
    proof {
        if !saw_dot {
            assert(i == len);
            assert(fd == body.len());
            assert(ip =~= body.subrange(0, i - start));
            assert(fp =~= Seq::<char>::empty());
        }
    }
    // Fractional part: digits to the end; only the first seven carry value.
    let mut fmag: u128 = 0;
    let mut fcount: usize = 0;
    if saw_dot {
        let mut j: usize = i;
        while j < len
            invariant
                i <= j <= len,
                len == s@.len(),
                start == sign_len(s@),
                saw_dot,
                body == coord_body(s@),
                fd == first_index_of(body, '.'),
                fp == coord_frac_part(s@),
                fd == i - start - 1,
                start < i <= len,
                fp.len() == len - i,
                forall|k: int| 0 <= k < fp.len() ==> fp[k] == body[fd + 1 + k],
                all_digits(fp.subrange(0, j - i)),
                fcount == if j - i >= 7 {
                    7int
                } else {
                    j - i
                },
                fmag == digits_val(fp.subrange(0, fcount as int)),
                (fmag as int) < pow10(fcount as nat),
            decreases len - j,
        {
            let c = s.get_char(j);
            let cv = c as u32;
            if cv < 48 || cv > 57 {
                proof {
                    assert(fp[j - i] == body[fd + 1 + (j - i)]);
                    assert(body[fd + 1 + (j - i)] == s@[j as int]);
                    assert(!all_digits(fp));
                }
                return None;
            }
            proof {
                assert(forall|k: int|
                    0 <= k < j - i + 1 ==> is_digit(#[trigger] fp.subrange(0, j - i + 1)[k]));
            }
            if fcount < 7 {
                proof {
                    lemma_digits_val_snoc(fp, j - i);
                    assert(fp.subrange(0, j - i + 1).subrange(0, j - i) =~= fp.subrange(
                        0,
                        j - i,
                    ));
                    lemma_pow10_le(fcount as nat, 6);
                    lemma_pow10_vals();
                }
                fmag = fmag * 10 + (cv - 48) as u128;
                fcount = fcount + 1;
            }
            j = j + 1;
        }
        proof {
            assert(fp.subrange(0, fp.len() as int) =~= fp);
        }
    }
    if i == start && fcount == 0 && !saw_dot {
        return None;
    }
    if saw_dot && i == start + 1 && len == i {
        // a bare dot with no digits on either side
        return None;
    }
    // Combine: imag whole degrees and the scaled fraction.
    proof {
        lemma_pow10_le(fcount as nat, 7);
        lemma_pow10_le((7 - fcount) as nat, 7);
        lemma_pow10_le(0, (7 - fcount) as nat);
        lemma_digits_val_nonneg(fp.subrange(0, fcount as int));
        lemma_pow10_vals();
    }
    let scale = pow10_u64(7 - fcount);
    proof {
        assert((fmag as int) * (scale as int) <= 100_000_000_000_000) by (nonlinear_arith)
            requires
                0 <= (fmag as int) <= 10_000_000,
                0 <= (scale as int) <= 10_000_000,
        ;
    }
    let frac7: u128 = (fmag as u128) * (scale as u128);
    proof {
        assert(frac7 <= 100_000_000_000_000);
        if saw_dot {
            if fp.len() >= 7 {
                assert(fcount == 7);
            } else {
                assert(fcount == fp.len());
                assert(fp.subrange(0, fcount as int) =~= fp);
            }
        } else {
            assert(fp =~= Seq::<char>::empty());
        }
        assert(frac7 as int == frac_val_e7(fp));
    }
    let total: u128 = imag * 10_000_000 + frac7;
    proof {
        assert(total as int == digits_val(ip) * 10_000_000 + frac_val_e7(fp));
    }
    if neg {
        if total > 0x8000_0000_0000_0000u128 {
            return None;
        }
        Some((-(total as i128)) as i64)
    } else {
        if total > i64::MAX as u128 {
            return None;
        }
        Some(total as i64)
    }
}

} // verus!
