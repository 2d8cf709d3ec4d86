//! Hyperslab parsing.
//!
//! A projection may carry one bracketed selection per dimension:
//! `[i]` selects one index, `[i:j]` the inclusive range `i..=j`, and
//! `[i:s:j]` would select with a stride, which this server rejects.

use vstd::prelude::*;

use crate::DapError;

verus! {

/// A decimal digit.
pub open spec fn is_digit(c: char) -> bool {
    '0' <= c && c <= '9'
}

/// The value of one decimal digit.
pub open spec fn digit_val(c: char) -> int {
    c as int - '0' as int
}

/// The number a string of decimal digits denotes (most significant first).
pub open spec fn digits_val(s: Seq<char>) -> int
    decreases s.len(),
{
    if s.len() == 0 {
        0
    } else {
        digits_val(s.drop_last()) * 10 + digit_val(s.last())
    }
}

/// `s` is a non-empty digit string denoting `n`.
pub open spec fn matches_uint(s: Seq<char>, n: usize) -> bool {
    &&& s.len() > 0
    &&& forall|i: int| 0 <= i < s.len() ==> is_digit(s[i])
    &&& digits_val(s) == n as int
}

/// `s`, the text between one `[` `]` pair, lists exactly the numbers
/// `nums`, separated by `:`.
pub open spec fn matches_body(s: Seq<char>, nums: Seq<usize>) -> bool {
    ||| (nums.len() == 1 && matches_uint(s, nums[0]))
    ||| (nums.len() == 2 && exists|i: int|
        0 <= i < s.len() && s[i] == ':' && matches_uint(#[trigger] s.subrange(0, i), nums[0])
            && matches_uint(s.subrange(i + 1, s.len() as int), nums[1]))
    ||| (nums.len() == 3 && exists|i: int, j: int|
        0 <= i < j < s.len() && s[i] == ':' && s[j] == ':' && matches_uint(
            #[trigger] s.subrange(0, i),
            nums[0],
        ) && matches_uint(#[trigger] s.subrange(i + 1, j), nums[1]) && matches_uint(
            s.subrange(j + 1, s.len() as int),
            nums[2],
        ))
}

/// `s` is one complete bracketed group listing `nums`.
pub open spec fn matches_group(s: Seq<char>, nums: Seq<usize>) -> bool {
    &&& s.len() >= 2
    &&& s[0] == '['
    &&& s[s.len() - 1] == ']'
    &&& matches_body(s.subrange(1, s.len() - 1), nums)
}

/// `s` is a sequence of bracketed groups listing, in order, the number
/// lists in `slabs`.
pub open spec fn matches_slabs(s: Seq<char>, slabs: Seq<Seq<usize>>) -> bool
    decreases slabs.len(),
{
    if slabs.len() == 0 {
        s.len() == 0
    } else {
        exists|k: int|
            2 <= k <= s.len() && matches_group(#[trigger] s.subrange(0, k), slabs[0])
                && matches_slabs(s.subrange(k, s.len() as int), slabs.subrange(1, slabs.len() as int))
    }
}

/// The views of a list of slabs.
pub open spec fn slab_views(v: Seq<Vec<usize>>) -> Seq<Seq<usize>> {
    v.map_values(|s: Vec<usize>| s@)
}

/// Appending one further group on the right keeps the whole text matched.
proof fn lemma_matches_slabs_snoc(s1: Seq<char>, slabs: Seq<Seq<usize>>, s2: Seq<char>, nums: Seq<usize>)
    requires
        matches_slabs(s1, slabs),
        matches_group(s2, nums),
    ensures
        matches_slabs(s1 + s2, slabs.push(nums)),
    decreases slabs.len(),
{
    if slabs.len() == 0 {
        assert(s1 + s2 =~= s2);
        let all = slabs.push(nums);
        assert((s1 + s2).subrange(0, s2.len() as int) =~= s2);
        assert((s1 + s2).subrange(s2.len() as int, (s1 + s2).len() as int) =~= Seq::<char>::empty());
        assert(all.subrange(1, all.len() as int) =~= Seq::<Seq<usize>>::empty());
        assert(matches_slabs((s1 + s2).subrange(s2.len() as int, (s1 + s2).len() as int), all.subrange(1, all.len() as int)));
        assert(2 <= s2.len() <= (s1 + s2).len() && matches_group((s1 + s2).subrange(0, s2.len() as int), all[0]));
    } else {
        let k = choose|k: int|
            2 <= k <= s1.len() && matches_group(#[trigger] s1.subrange(0, k), slabs[0])
                && matches_slabs(s1.subrange(k, s1.len() as int), slabs.subrange(1, slabs.len() as int));
        let rest = s1.subrange(k, s1.len() as int);
        lemma_matches_slabs_snoc(rest, slabs.subrange(1, slabs.len() as int), s2, nums);
        let all = slabs.push(nums);
        let whole = s1 + s2;
        assert(whole.subrange(0, k) =~= s1.subrange(0, k));
        assert(whole.subrange(k, whole.len() as int) =~= rest + s2);
        assert(all.subrange(1, all.len() as int) =~= slabs.subrange(1, slabs.len() as int).push(nums));
        assert(matches_group(whole.subrange(0, k), all[0]));
        assert(matches_slabs(whole.subrange(k, whole.len() as int), all.subrange(1, all.len() as int)));
    }
}

/// Scans a run of decimal digits beginning at `start`, returning its value
/// and the position one past its end. Fails on a missing digit or a value
/// too large to hold.
fn scan_uint(s: &str, start: usize) -> (r: Result<(usize, usize), DapError>)
    requires
        start <= s@.len(),
    ensures
        r matches Ok(p) ==> {
            &&& start < p.1 <= s@.len()
            &&& matches_uint(s@.subrange(start as int, p.1 as int), p.0)
            &&& p.1 < s@.len() ==> !is_digit(s@[p.1 as int])
        },
        r is Err ==> r === Err(DapError::InvalidConstraint),
{
    let n = s.unicode_len();
    let mut pos = start;
    let mut val: usize = 0;
    loop
        invariant
            start <= pos <= n,
            n == s@.len(),
            val as int == digits_val(s@.subrange(start as int, pos as int)),
            forall|i: int| start <= i < pos ==> is_digit(s@[i]),
        ensures
            pos == n || !is_digit(s@[pos as int]),
        decreases n - pos,
    {
        if pos >= n {
            break;
        }
        let c = s.get_char(pos);
        if !(c >= '0' && c <= '9') {
            break;
        }
        let d = (c as u32 - '0' as u32) as usize;
        // Reject exactly the values the machine cannot hold.
        if val > usize::MAX / 10 || (val == usize::MAX / 10 && d > usize::MAX % 10) {
            return Err(DapError::InvalidConstraint);
        }
        proof {
            vstd::arithmetic::div_mod::lemma_fundamental_div_mod(usize::MAX as int, 10);
            assert(val * 10 + d <= usize::MAX) by (nonlinear_arith)
                requires
                    usize::MAX as int == 10 * (usize::MAX as int / 10) + usize::MAX as int % 10,
                    val as int <= usize::MAX as int / 10,
                    (val as int) < usize::MAX as int / 10 || d as int <= usize::MAX as int % 10,
                    d < 10,
                    0 <= val,
            {}
        }
        proof {
            let pre = s@.subrange(start as int, pos as int);
            let post = s@.subrange(start as int, pos as int + 1);
            assert(post.drop_last() =~= pre);
            assert(post.last() == s@[pos as int]);
        }
        val = val * 10 + d;
        pos = pos + 1;
    }
    if pos == start {
        return Err(DapError::InvalidConstraint);
    }
    Ok((val, pos))
}

/// Parses the bracketed hyperslab groups of a projection, e.g.
/// `[0:9][3][1:2:5]`, into their number lists. The text must consist of
/// such groups and nothing else; on success the returned lists are exactly
/// what the text spells.
pub fn parse_hyperslab(s: &str) -> (r: Result<Vec<Vec<usize>>, DapError>)
    ensures
        r matches Ok(slabs) ==> {
            &&& matches_slabs(s@, slab_views(slabs@))
            &&& forall|k: int| 0 <= k < slabs@.len() ==> 1 <= (#[trigger] slabs@[k])@.len() <= 3
        },
        r is Err ==> r === Err(DapError::InvalidConstraint),
{
    let n = s.unicode_len();
    let mut pos: usize = 0;
    let mut out: Vec<Vec<usize>> = Vec::new();
    while pos < n
        invariant
            pos <= n,
            n == s@.len(),
            matches_slabs(s@.subrange(0, pos as int), slab_views(out@)),
            forall|k: int| 0 <= k < out@.len() ==> 1 <= (#[trigger] out@[k])@.len() <= 3,
        decreases n - pos,
    {
        let gstart = pos;
        if s.get_char(pos) != '[' {
            return Err(DapError::InvalidConstraint);
        }
        pos = pos + 1;
        let mut nums: Vec<usize> = Vec::new();
        let ghost mut colon1: int = 0;
        let ghost mut colon2: int = 0;
        let r = scan_uint(s, pos);
        let (v, p) = match r {
            Ok(x) => x,
            Err(e) => { return Err(e); },
        };
        nums.push(v);
        pos = p;
        loop
            invariant_except_break
                gstart < s@.len(),
                s@[gstart as int] == '[',
                gstart + 1 < pos <= n,
                n == s@.len(),
                1 <= nums@.len() <= 3,
                body_so_far(s@, gstart as int, pos as int, nums@, colon1, colon2),
                matches_slabs(s@.subrange(0, gstart as int), slab_views(out@)),
                forall|k: int| 0 <= k < out@.len() ==> 1 <= (#[trigger] out@[k])@.len() <= 3,
            ensures
                gstart + 1 < pos <= n,
                matches_slabs(s@.subrange(0, pos as int), slab_views(out@)),
                forall|k: int| 0 <= k < out@.len() ==> 1 <= (#[trigger] out@[k])@.len() <= 3,
            decreases n - pos,
        {
            if pos >= n {
                return Err(DapError::InvalidConstraint);
            }
            let c = s.get_char(pos);
            if c == ']' {
                // The group opened at `gstart` closes here.
                proof {
                    let b0 = gstart as int + 1;
                    let body = s@.subrange(b0, pos as int);
                    lemma_body_complete(s@, gstart as int, pos as int, nums@, colon1, colon2);
                    let group = s@.subrange(gstart as int, pos as int + 1);
                    assert(group.subrange(1, group.len() - 1) =~= body);
                    assert(matches_group(group, nums@));
                    lemma_matches_slabs_snoc(s@.subrange(0, gstart as int), slab_views(out@), group, nums@);
                    assert(s@.subrange(0, gstart as int) + group =~= s@.subrange(0, pos as int + 1));
                    assert(slab_views(out@).push(nums@) =~= slab_views(out@.push(nums)));
                }
                out.push(nums);
                pos = pos + 1;
                break;
            }
            if c != ':' || nums.len() >= 3 {
                return Err(DapError::InvalidConstraint);
            }
            proof {
                if nums@.len() == 1 {
                    colon1 = pos as int;
                } else {
                    colon2 = pos as int;
                }
            }
            let r = scan_uint(s, pos + 1);
            let (v, p) = match r {
                Ok(x) => x,
                Err(e) => { return Err(e); },
            };
            nums.push(v);
            pos = p;
        }
    }
    proof {
        assert(s@.subrange(0, pos as int) =~= s@);
    }
    Ok(out)
}

/// The numbers seen so far inside the group opened at `gstart`, with the
/// colon positions that separated them.
spec fn body_so_far(
    s: Seq<char>,
    gstart: int,
    pos: int,
    nums: Seq<usize>,
    colon1: int,
    colon2: int,
) -> bool {
    let b0 = gstart + 1;
    ||| (nums.len() == 1 && matches_uint(s.subrange(b0, pos), nums[0]))
    ||| (nums.len() == 2 && b0 <= colon1 < pos && s[colon1] == ':' && matches_uint(
        s.subrange(b0, colon1),
        nums[0],
    ) && matches_uint(s.subrange(colon1 + 1, pos), nums[1]))
    ||| (nums.len() == 3 && b0 <= colon1 < colon2 < pos && s[colon1] == ':' && s[colon2] == ':'
        && matches_uint(s.subrange(b0, colon1), nums[0]) && matches_uint(
        s.subrange(colon1 + 1, colon2),
        nums[1],
    ) && matches_uint(s.subrange(colon2 + 1, pos), nums[2]))
}

/// A finished group body matches the grammar of one hyperslab.
proof fn lemma_body_complete(
    s: Seq<char>,
    gstart: int,
    pos: int,
    nums: Seq<usize>,
    colon1: int,
    colon2: int,
)
    requires
        0 <= gstart,
        gstart + 1 < pos <= s.len(),
        body_so_far(s, gstart, pos, nums, colon1, colon2),
    ensures
        matches_body(s.subrange(gstart + 1, pos), nums),
{
    let b0 = gstart + 1;
    let body = s.subrange(b0, pos);
    if nums.len() == 1 {
        assert(body =~= s.subrange(b0, pos));
    } else if nums.len() == 2 {
        let i = colon1 - b0;
        assert(body[i] == ':');
        assert(body.subrange(0, i) =~= s.subrange(b0, colon1));
        assert(body.subrange(i + 1, body.len() as int) =~= s.subrange(colon1 + 1, pos));
    } else {
        let i = colon1 - b0;
        let j = colon2 - b0;
        assert(body[i] == ':' && body[j] == ':');
        assert(body.subrange(0, i) =~= s.subrange(b0, colon1));
        assert(body.subrange(i + 1, j) =~= s.subrange(colon1 + 1, colon2));
        assert(body.subrange(j + 1, body.len() as int) =~= s.subrange(colon2 + 1, pos));
    }
}

/// The element count a slab selects: one for `[i]`, the inclusive range
/// size for `[i:j]`.
pub open spec fn spec_slab_count(slab: Seq<usize>) -> int {
    if slab.len() == 1 {
        1
    } else {
        slab[1] - slab[0] + 1
    }
}

/// Turns one parsed slab into its `(start, count)` pair.
///
/// A three-number slab carries a stride and is rejected; a reversed range
/// or an empty group is an invalid constraint. A count too large for the
/// machine is an overflow.
pub fn slab_range(slab: &Vec<usize>) -> (r: Result<(usize, usize), DapError>)
    ensures
        slab@.len() == 3 ==> r === Err(DapError::StrideUnsupported),
        slab@.len() != 3 ==> r !== Err(DapError::StrideUnsupported),
        r matches Ok(p) ==> {
            &&& 1 <= slab@.len() <= 2
            &&& p.0 == slab@[0]
            &&& p.1 as int == spec_slab_count(slab@)
            &&& slab@.len() == 2 ==> slab@[0] <= slab@[1]
        },
        (1 <= slab@.len() <= 2 && (slab@.len() == 2 ==> slab@[0] <= slab@[1] && slab@[1]
            - slab@[0] < usize::MAX)) ==> r is Ok,
{
    if slab.len() == 3 {
        Err(DapError::StrideUnsupported)
    } else if slab.len() == 1 {
        Ok((slab[0], 1))
    } else if slab.len() == 2 {
        let i = slab[0];
        let j = slab[1];
        if j < i {
            return Err(DapError::InvalidConstraint);
        }
        if j - i == usize::MAX {
            return Err(DapError::Overflow);
        }
        Ok((i, j - i + 1))
    } else {
        Err(DapError::InvalidConstraint)
    }
}

} // verus!
