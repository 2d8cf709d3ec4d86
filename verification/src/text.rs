//! Small verified text-building blocks shared by the DAS and DDS emitters.
//!
//! All emitted text is US-ASCII; the spec-level renderings are sequences of
//! characters, and every builder states its output exactly.

use vstd::prelude::*;
use vstd::string::{StrSliceExecFns, StringExecFns};

verus! {

/// The decimal digit character for `d`.
pub open spec fn digit_char(d: int) -> char {
    if d == 0 { '0' }
    else if d == 1 { '1' }
    else if d == 2 { '2' }
    else if d == 3 { '3' }
    else if d == 4 { '4' }
    else if d == 5 { '5' }
    else if d == 6 { '6' }
    else if d == 7 { '7' }
    else if d == 8 { '8' }
    else { '9' }
}

/// The decimal rendering of `n`, most significant digit first, no sign and
/// no leading zeros (a lone zero for 0).
pub open spec fn dec_str(n: int) -> Seq<char>
    decreases n,
{
    if n < 10 {
        seq![digit_char(n)]
    } else {
        dec_str(n / 10).push(digit_char(n % 10))
    }
}

/// One decimal digit as a string slice.
fn digit_str(d: usize) -> (r: &'static str)
    requires
        d < 10,
    ensures
        r@ =~= seq![digit_char(d as int)],
{
    proof {
        reveal_strlit("0");
        reveal_strlit("1");
        reveal_strlit("2");
        reveal_strlit("3");
        reveal_strlit("4");
        reveal_strlit("5");
        reveal_strlit("6");
        reveal_strlit("7");
        reveal_strlit("8");
        reveal_strlit("9");
    }
    match d {
        0 => "0",
        1 => "1",
        2 => "2",
        3 => "3",
        4 => "4",
        5 => "5",
        6 => "6",
        7 => "7",
        8 => "8",
        _ => "9",
    }
}

/// Appends the decimal rendering of `n` to `out`.
pub fn push_usize(out: &mut String, n: usize)
    ensures
        final(out)@ == old(out)@ + dec_str(n as int),
    decreases n,
{
    if n < 10 {
        out.append(digit_str(n));
    } else {
        push_usize(out, n / 10);
        out.append(digit_str(n % 10));
        proof {
            assert(old(out)@ + dec_str((n / 10) as int) + seq![digit_char((n % 10) as int)]
                =~= old(out)@ + dec_str(n as int));
        }
    }
}

/// The decimal rendering of an integer with a leading minus sign when
/// negative.
pub open spec fn int_str(n: int) -> Seq<char> {
    if n < 0 {
        seq!['-'] + dec_str(-n)
    } else {
        dec_str(n)
    }
}

/// Appends the decimal rendering of `n` to `out`.
pub fn push_u64(out: &mut String, n: u64)
    ensures
        final(out)@ == old(out)@ + dec_str(n as int),
    decreases n,
{
    if n < 10 {
        out.append(digit_str(n as usize));
    } else {
        push_u64(out, n / 10);
        out.append(digit_str((n % 10) as usize));
        proof {
            assert(old(out)@ + dec_str((n / 10) as int) + seq![digit_char((n % 10) as int)]
                =~= old(out)@ + dec_str(n as int));
        }
    }
}

/// Appends the signed decimal rendering of `n` to `out`.
pub fn push_i64(out: &mut String, n: i64)
    ensures
        final(out)@ == old(out)@ + int_str(n as int),
{
    proof {
        reveal_strlit("-");
    }
    if n < 0 {
        out.append("-");
        let m: u64 = if n == i64::MIN {
            9223372036854775808u64
        } else {
            (-n) as u64
        };
        proof {
            assert(m as int == -(n as int));
        }
        push_u64(out, m);
        proof {
            assert(("-")@ =~= seq!['-']);
            assert(old(out)@ + ("-")@ + dec_str(m as int) =~= old(out)@ + int_str(n as int));
        }
    } else {
        push_u64(out, n as u64);
    }
}

/// The lowercase hexadecimal digit for `d`.
pub open spec fn hex_char(d: int) -> char {
    if d < 10 {
        digit_char(d)
    } else if d == 10 { 'a' }
    else if d == 11 { 'b' }
    else if d == 12 { 'c' }
    else if d == 13 { 'd' }
    else if d == 14 { 'e' }
    else { 'f' }
}

/// The lowercase hexadecimal rendering of `n`, no prefix and no leading
/// zeros (a lone zero for 0).
pub open spec fn hex_str(n: int) -> Seq<char>
    decreases n,
{
    if n < 16 {
        seq![hex_char(n)]
    } else {
        hex_str(n / 16).push(hex_char(n % 16))
    }
}

/// One hexadecimal digit as a string slice.
fn hex_digit_str(d: u32) -> (r: &'static str)
    requires
        d < 16,
    ensures
        r@ =~= seq![hex_char(d as int)],
{
    proof {
        reveal_strlit("a");
        reveal_strlit("b");
        reveal_strlit("c");
        reveal_strlit("d");
        reveal_strlit("e");
        reveal_strlit("f");
    }
    if d < 10 {
        digit_str(d as usize)
    } else {
        match d {
            10 => "a",
            11 => "b",
            12 => "c",
            13 => "d",
            14 => "e",
            _ => "f",
        }
    }
}

/// Appends the lowercase hexadecimal rendering of `n` to `out`.
pub fn push_hex(out: &mut String, n: u32)
    ensures
        final(out)@ == old(out)@ + hex_str(n as int),
    decreases n,
{
    if n < 16 {
        out.append(hex_digit_str(n));
    } else {
        push_hex(out, n / 16);
        out.append(hex_digit_str(n % 16));
        proof {
            assert(old(out)@ + hex_str((n / 16) as int) + seq![hex_char((n % 16) as int)]
                =~= old(out)@ + hex_str(n as int));
        }
    }
}

/// The parts joined with the separator `sep` between neighbours.
pub open spec fn joined_with(parts: Seq<Seq<char>>, sep: Seq<char>) -> Seq<char>
    decreases parts.len(),
{
    if parts.len() == 0 {
        Seq::empty()
    } else if parts.len() == 1 {
        parts[0]
    } else {
        joined_with(parts.drop_last(), sep) + sep + parts.last()
    }
}

/// `n` spaces.
pub open spec fn spaces(n: int) -> Seq<char> {
    Seq::new(n as nat, |i: int| ' ')
}

/// Appends `n` spaces to `out`.
pub fn push_spaces(out: &mut String, n: usize)
    ensures
        final(out)@ == old(out)@ + spaces(n as int),
{
    let mut i: usize = 0;
    proof {
        reveal_strlit(" ");
    }
    while i < n
        invariant
            i <= n,
            " "@ =~= seq![' '],
            out@ == old(out)@ + spaces(i as int),
        decreases n - i,
    {
        out.append(" ");
        i = i + 1;
        proof {
            assert(old(out)@ + spaces(i - 1) + seq![' '] =~= old(out)@ + spaces(i as int));
        }
    }
}

/// Exact character-level equality of two string slices.
pub fn str_eq(a: &str, b: &str) -> (r: bool)
    ensures
        r == (a@ == b@),
{
    let na = a.unicode_len();
    let nb = b.unicode_len();
    if na != nb {
        return false;
    }
    let mut i: usize = 0;
    while i < na
        invariant
            i <= na,
            na == a@.len(),
            na == b@.len(),
            forall|j: int| 0 <= j < i ==> a@[j] == b@[j],
        decreases na - i,
    {
        if a.get_char(i) != b.get_char(i) {
            return false;
        }
        i = i + 1;
    }
    proof {
        assert(a@ =~= b@);
    }
    true
}

/// True when `s` ends with `suffix`.
pub fn str_ends_with(s: &str, suffix: &str) -> (r: bool)
    ensures
        r == (s@.len() >= suffix@.len() && s@.subrange(
            s@.len() - suffix@.len(),
            s@.len() as int,
        ) == suffix@),
{
    let n = s.unicode_len();
    let m = suffix.unicode_len();
    if m > n {
        return false;
    }
    let mut i: usize = 0;
    while i < m
        invariant
            i <= m,
            m <= n,
            n == s@.len(),
            m == suffix@.len(),
            forall|j: int| 0 <= j < i ==> s@[n - m + j] == suffix@[j],
        decreases m - i,
    {
        if s.get_char(n - m + i) != suffix.get_char(i) {
            proof {
                assert(s@.subrange(n - m, n as int)[i as int] == s@[n - m + i]);
            }
            return false;
        }
        i = i + 1;
    }
    proof {
        assert(s@.subrange(n - m, n as int) =~= suffix@);
    }
    true
}

/// True when `needle` occurs in `s` as a contiguous run.
pub open spec fn contains_seq(s: Seq<char>, needle: Seq<char>) -> bool {
    exists|k: int|
        0 <= k <= s.len() - needle.len() && #[trigger] s.subrange(k, k + needle.len()) == needle
}

/// True when `needle` occurs somewhere in `s`.
pub fn str_contains(s: &str, needle: &str) -> (r: bool)
    ensures
        r == contains_seq(s@, needle@),
{
    let n = s.unicode_len();
    let m = needle.unicode_len();
    if m > n {
        proof {
            assert(!contains_seq(s@, needle@));
        }
        return false;
    }
    if m == 0 {
        proof {
            assert(s@.subrange(0, 0 + needle@.len() as int) =~= needle@);
        }
        return true;
    }
    let mut k: usize = 0;
    while k <= n - m
        invariant
            1 <= m <= n,
            n == s@.len(),
            m == needle@.len(),
            k <= n - m + 1,
            forall|k0: int| 0 <= k0 < k ==> #[trigger] s@.subrange(k0, k0 + m) != needle@,
        decreases n - k,
    {
        let mut i: usize = 0;
        let mut hit = true;
        while i < m
            invariant_except_break
                hit,
                i <= m,
                k + m <= n,
                n == s@.len(),
                m == needle@.len(),
                forall|j: int| 0 <= j < i ==> s@[k + j] == needle@[j],
            ensures
                hit ==> forall|j: int| 0 <= j < m ==> s@[k + j] == needle@[j],
                !hit ==> s@.subrange(k as int, k + m) != needle@,
            decreases m - i,
        {
            if s.get_char(k + i) != needle.get_char(i) {
                proof {
                    assert(s@.subrange(k as int, k + m)[i as int] == s@[k + i]);
                }
                hit = false;
                break;
            }
            i = i + 1;
        }
        if hit {
            proof {
                assert(s@.subrange(k as int, k + m) =~= needle@);
            }
            return true;
        }
        k = k + 1;
    }
    proof {
        assert forall|k0: int| 0 <= k0 <= n - m implies #[trigger] s@.subrange(k0, k0 + m)
            != needle@ by {}
    }
    false
}

} // verus!
