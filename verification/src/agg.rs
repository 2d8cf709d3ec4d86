//! Join-existing aggregation: many files served as one dataset joined
//! along an outer dimension.
//!
//! Members are ordered by the first value of their join coordinate, the
//! joined coordinate is cached as one byte buffer, and a read against
//! the aggregate is routed to the right contiguous subranges of the
//! member files.

use vstd::prelude::*;

use crate::DapError;
use crate::slab::{
    chunks_concat, gather, lemma_gather_concat, lemma_gather_shift, lemma_prod_pos,
    lemma_rows_span_shift, lemma_rows_span_split, lemma_slab_indices_bounds, lemma_slab_len, prod,
    read_slab, rows_span,
    shift, slab_bytes, slab_indices, slab_wf,
};
use crate::text::{str_contains, str_ends_with};
use vstd::seq_lib::group_seq_properties;

verus! {

/// One member file of an aggregate, as the routing logic sees it.
#[derive(Clone, Debug, PartialEq)]
pub struct Member {
    /// The member's file path.
    pub path: String,
    /// Its length along the join dimension.
    pub n: usize,
    /// Its order key, derived from the first join-coordinate value.
    pub rank: u64,
}

/// The order key for a member: a monotone image of an IEEE 754 double's
/// bits, so that unsigned comparison of keys orders the coordinates.
/// A negative double (sign bit set) has all bits flipped; a
/// non-negative one only the sign bit.
pub open spec fn spec_rank_key(bits: u64) -> u64 {
    if bits >= 0x8000_0000_0000_0000 {
        !bits
    } else {
        bits | 0x8000_0000_0000_0000
    }
}

/// Computes the member order key from the raw bits of its first join
/// coordinate value.
pub fn rank_key(bits: u64) -> (r: u64)
    ensures
        r == spec_rank_key(bits),
{
    if bits >= 0x8000_0000_0000_0000 {
        !bits
    } else {
        bits | 0x8000_0000_0000_0000
    }
}

/// `r` is `s` rearranged by the index map `perm`, which keeps equal
/// ranks in their given order: a stable sort's permutation.
pub open spec fn stable_perm_of(r: Seq<Member>, s: Seq<Member>, perm: Seq<int>) -> bool {
    &&& perm.len() == s.len()
    &&& r.len() == s.len()
    &&& forall|i: int| 0 <= i < perm.len() ==> 0 <= #[trigger] perm[i] < s.len()
    &&& forall|i: int, j: int| 0 <= i < j < perm.len() ==> perm[i] != perm[j]
    &&& forall|i: int| 0 <= i < perm.len() ==> r[i] == s[#[trigger] perm[i]]
    &&& forall|i: int, j: int|
        0 <= i < j < perm.len() && r[i].rank == r[j].rank ==> perm[i] < perm[j]
}

/// Sorts members by ascending rank; equal ranks keep their given order
/// (insertion sort is stable).
pub fn sort_members(members: Vec<Member>) -> (r: Vec<Member>)
    ensures
        r@.len() == members@.len(),
        forall|i: int, j: int| 0 <= i < j < r@.len() ==> (#[trigger] r@[i]).rank <= (
        #[trigger] r@[j]).rank,
        r@.to_multiset() == members@.to_multiset(),
        exists|perm: Seq<int>| stable_perm_of(r@, members@, perm),
{
    let mut input = members;
    let mut out: Vec<Member> = Vec::new();
    let ghost mut perm: Seq<int> = Seq::empty();
    proof {
        broadcast use group_seq_properties;

        assert(out@.to_multiset() =~= Seq::<Member>::empty().to_multiset());
    }
    while input.len() > 0
        invariant
            out@.len() + input@.len() == members@.len(),
            input@ =~= members@.subrange(
                members@.len() - input@.len(),
                members@.len() as int,
            ),
            forall|i: int, j: int| 0 <= i < j < out@.len() ==> (#[trigger] out@[i]).rank <= (
            #[trigger] out@[j]).rank,
            out@.to_multiset().add(input@.to_multiset()) == members@.to_multiset(),
            perm.len() == out@.len(),
            forall|i: int|
                0 <= i < perm.len() ==> 0 <= #[trigger] perm[i] < members@.len() - input@.len(),
            forall|i: int, j: int| 0 <= i < j < perm.len() ==> perm[i] != perm[j],
            forall|i: int| 0 <= i < perm.len() ==> out@[i] == members@[#[trigger] perm[i]],
            forall|i: int, j: int|
                0 <= i < j < perm.len() && out@[i].rank == out@[j].rank ==> perm[i] < perm[j],
        decreases input@.len(),
    {
        let ghost pre_input = input@;
        let ghost cur: int = members@.len() - input@.len();
        let x = input.remove(0);
        proof {
            assert(x == members@[cur]);
        }
        // Find where `x` goes: after every element with rank <= x.rank.
        let mut k: usize = out.len();
        while k > 0
            invariant
                k <= out@.len(),
                forall|i: int| k <= i < out@.len() ==> (#[trigger] out@[i]).rank > x.rank,
            ensures
                k <= out@.len(),
                forall|i: int| k <= i < out@.len() ==> (#[trigger] out@[i]).rank > x.rank,
                k > 0 ==> out@[k - 1].rank <= x.rank,
            decreases k,
        {
            if out[k - 1].rank <= x.rank {
                break ;
            }
            k = k - 1;
        }
        proof {
            broadcast use group_seq_properties;

            assert(pre_input.remove(0).to_multiset().insert(pre_input[0])
                == pre_input.to_multiset()) by {
                assert(pre_input =~= seq![pre_input[0]] + pre_input.remove(0));
            }
        }
        let ghost pre_out = out@;
        let ghost pre_perm = perm;
        out.insert(k, x);
        proof {
            broadcast use group_seq_properties;

            perm = pre_perm.insert(k as int, cur);
            assert(out@ =~= pre_out.insert(k as int, x));
            assert forall|i: int, j: int|
                0 <= i < j < out@.len() implies (#[trigger] out@[i]).rank <= (
            #[trigger] out@[j]).rank by {
                if j < k {
                } else if i < k && j == k {
                    if i < k - 1 {
                        assert(pre_out[i].rank <= pre_out[k - 1].rank);
                    }
                } else if i == k {
                    assert(out@[j] == pre_out[j - 1]);
                } else if i < k {
                    assert(out@[j] == pre_out[j - 1]);
                    assert(out@[i] == pre_out[i]);
                    assert(pre_out[j - 1].rank > x.rank);
                    if i < k - 1 {
                        assert(pre_out[i].rank <= pre_out[k - 1].rank);
                    }
                } else {
                    assert(out@[i] == pre_out[i - 1]);
                    assert(out@[j] == pre_out[j - 1]);
                }
            }
            // The index map stays injective, in range, faithful, and
            // monotone on equal ranks: the new element carries the
            // largest index so far and sits after every equal rank.
            assert forall|i: int|
                0 <= i < perm.len() implies 0 <= #[trigger] perm[i] < cur + 1 by {
                if i < k {
                    assert(perm[i] == pre_perm[i]);
                } else if i > k {
                    assert(perm[i] == pre_perm[i - 1]);
                }
            }
            assert forall|i: int, j: int|
                0 <= i < j < perm.len() implies perm[i] != perm[j] by {
                if i < k && j > k {
                    assert(perm[i] == pre_perm[i] && perm[j] == pre_perm[j - 1]);
                } else if i == k && j > k {
                    assert(perm[j] == pre_perm[j - 1] && pre_perm[j - 1] < cur);
                } else if i < k && j == k {
                    assert(perm[i] == pre_perm[i] && pre_perm[i] < cur);
                } else if j < k {
                    assert(perm[i] == pre_perm[i] && perm[j] == pre_perm[j]);
                } else {
                    assert(perm[i] == pre_perm[i - 1] && perm[j] == pre_perm[j - 1]);
                }
            }
            assert forall|i: int|
                0 <= i < perm.len() implies out@[i] == members@[#[trigger] perm[i]] by {
                if i < k {
                    assert(perm[i] == pre_perm[i] && out@[i] == pre_out[i]);
                } else if i > k {
                    assert(perm[i] == pre_perm[i - 1] && out@[i] == pre_out[i - 1]);
                }
            }
            assert forall|i: int, j: int|
                0 <= i < j < perm.len() && out@[i].rank == out@[j].rank implies perm[i]
                < perm[j] by {
                if j < k {
                    assert(perm[i] == pre_perm[i] && perm[j] == pre_perm[j]);
                    assert(out@[i] == pre_out[i] && out@[j] == pre_out[j]);
                } else if i < k && j == k {
                    assert(perm[i] == pre_perm[i] && pre_perm[i] < cur && perm[j] == cur);
                } else if i == k {
                    assert(out@[j] == pre_out[j - 1]);
                    assert(pre_out[j - 1].rank > x.rank);
                } else if i < k && j > k {
                    assert(perm[i] == pre_perm[i] && perm[j] == pre_perm[j - 1]);
                    assert(out@[i] == pre_out[i] && out@[j] == pre_out[j - 1]);
                } else {
                    assert(perm[i] == pre_perm[i - 1] && perm[j] == pre_perm[j - 1]);
                    assert(out@[i] == pre_out[i - 1] && out@[j] == pre_out[j - 1]);
                }
            }
        }
    }
    proof {
        broadcast use group_seq_properties;

        assert(out@.to_multiset().add(input@.to_multiset()) =~= out@.to_multiset());
        assert(stable_perm_of(out@, members@, perm));
    }
    out
}

/// Whether a scanned file belongs to the aggregate: not hidden, ending
/// in the configured suffix, and free of the ignore marker.
pub fn member_matches(name: &str, path: &str, suffix: &str, ignore: Option<&str>) -> (r: bool)
    ensures
        r == ({
            &&& !(name@.len() > 0 && name@[0] == '.')
            &&& path@.len() >= suffix@.len() && path@.subrange(
                path@.len() - suffix@.len(),
                path@.len() as int,
            ) == suffix@
            &&& match ignore {
                Some(ig) => !crate::text::contains_seq(path@, ig@),
                None => true,
            }
        }),
{
    let hidden = if name.unicode_len() > 0 {
        name.get_char(0) == '.'
    } else {
        false
    };
    if hidden {
        return false;
    }
    if !str_ends_with(path, suffix) {
        return false;
    }
    match ignore {
        Some(ig) => !str_contains(path, ig),
        None => true,
    }
}

/// The joined coordinate variable, cached as one flat byte buffer.
pub struct CoordinateVariable {
    /// The concatenated coordinate values of all members, in order.
    pub bytes: Vec<u8>,
    /// The element width of the coordinate's type.
    pub dsz: usize,
}

/// The total element count of a list of members.
pub open spec fn total_n(ns: Seq<usize>) -> int
    decreases ns.len(),
{
    if ns.len() == 0 {
        0
    } else {
        total_n(ns.drop_last()) + ns.last()
    }
}

/// The concatenation of the members' buffers.
pub open spec fn concat_bufs(bufs: Seq<Vec<u8>>) -> Seq<u8> {
    chunks_concat(bufs)
}

impl CoordinateVariable {
    /// Builds the cache by concatenating each member's coordinate
    /// values in member order. The cache holds exactly the sum of the
    /// member lengths times the element width.
    pub fn from(bufs: &Vec<Vec<u8>>, ns: &Vec<usize>, dsz: usize) -> (r: Result<
        CoordinateVariable,
        DapError,
    >)
        requires
            dsz >= 1,
            bufs@.len() == ns@.len(),
            forall|i: int|
                0 <= i < bufs@.len() ==> (#[trigger] bufs@[i])@.len() == ns@[i] * dsz,
        ensures
            ns@.len() == 0 ==> r === Err(DapError::AggregationMisconfigured),
            ns@.len() > 0 ==> (r matches Ok(c) && {
                &&& c.bytes@ == concat_bufs(bufs@)
                &&& c.dsz == dsz
                &&& c.bytes@.len() == total_n(ns@) * dsz
            }),
    {
        if ns.len() == 0 {
            return Err(DapError::AggregationMisconfigured);
        }
        let m = bufs.len();
        let mut bytes: Vec<u8> = Vec::new();
        proof {
            assert(chunks_concat(bufs@.subrange(0, 0)) =~= Seq::<u8>::empty());
            assert(total_n(ns@.subrange(0, 0)) == 0);
        }
        let mut i: usize = 0;
        while i < m
            invariant
                i <= m,
                m == bufs@.len(),
                m == ns@.len(),
                dsz >= 1,
                forall|j: int|
                    0 <= j < bufs@.len() ==> (#[trigger] bufs@[j])@.len() == ns@[j] * dsz,
                bytes@ == chunks_concat(bufs@.subrange(0, i as int)),
                bytes@.len() as int == total_n(ns@.subrange(0, i as int)) * dsz,
            decreases m - i,
        {
            let ghost pre = bytes@;
            let mut j: usize = 0;
            let b = &bufs[i];
            let blen = b.len();
            while j < blen
                invariant
                    j <= blen,
                    blen == b@.len(),
                    b == bufs@[i as int],
                    bytes@ == pre + b@.subrange(0, j as int),
                decreases blen - j,
            {
                bytes.push(b[j]);
                proof {
                    assert(bytes@ =~= pre + b@.subrange(0, j + 1));
                }
                j = j + 1;
            }
            proof {
                assert(b@.subrange(0, blen as int) =~= b@);
                let s0 = bufs@.subrange(0, i as int);
                let s1 = bufs@.subrange(0, i + 1);
                assert(s1.drop_last() =~= s0);
                assert(s1.last() == bufs@[i as int]);
                assert(bytes@ =~= chunks_concat(s1));
                let t0 = ns@.subrange(0, i as int);
                let t1 = ns@.subrange(0, i + 1);
                assert(t1.drop_last() =~= t0);
                assert(t1.last() == ns@[i as int]);
                assert((total_n(t0) + ns@[i as int]) * dsz == total_n(t0) * dsz + ns@[i as int]
                    * dsz) by (nonlinear_arith);
            }
            i = i + 1;
        }
        proof {
            assert(bufs@.subrange(0, m as int) =~= bufs@);
            assert(ns@.subrange(0, m as int) =~= ns@);
        }
        Ok(CoordinateVariable { bytes, dsz })
    }

    /// Serves a read of the join coordinate straight from the cache:
    /// the byte range covering elements `start .. start + count`.
    pub fn stream(&self, indices: &Vec<usize>, counts: &Vec<usize>) -> (r: Result<
        Vec<u8>,
        DapError,
    >)
        requires
            self.dsz >= 1,
        ensures
            (indices@.len() != 1 || counts@.len() != 1) ==> r === Err(
                DapError::InvalidConstraint,
            ),
            indices@.len() == 1 && counts@.len() == 1 && (indices@[0] + counts@[0]) * self.dsz
                > self.bytes@.len() ==> r === Err(DapError::SlabOutOfRange),
            indices@.len() == 1 && counts@.len() == 1 && (indices@[0] + counts@[0]) * self.dsz
                <= self.bytes@.len() ==> (r matches Ok(b) && b@ == self.bytes@.subrange(
                indices@[0] * self.dsz as int,
                (indices@[0] + counts@[0]) * self.dsz,
            )),
    {
        if indices.len() != 1 || counts.len() != 1 {
            return Err(DapError::InvalidConstraint);
        }
        let s = indices[0];
        let c = counts[0];
        let blen = self.bytes.len();
        let dsz = self.dsz;
        proof {
            vstd::arithmetic::mul::lemma_mul_nonnegative(s as int, dsz as int);
            assert((s + c) * dsz == s * dsz + c * dsz) by (nonlinear_arith);
            vstd::arithmetic::div_mod::lemma_fundamental_div_mod(blen as int, dsz as int);
            vstd::arithmetic::div_mod::lemma_mod_bound(blen as int, dsz as int);
        }
        if s > blen / dsz {
            proof {
                assert(s * dsz > blen) by (nonlinear_arith)
                    requires
                        s > blen as int / dsz as int,
                        blen as int == dsz * (blen as int / dsz as int) + blen as int % dsz as int,
                        0 <= (blen as int % dsz as int),
                        (blen as int % dsz as int) < dsz,
                        dsz >= 1,
                {}
                assert((s + c) * dsz > blen) by (nonlinear_arith)
                    requires
                        s * dsz > blen,
                        c >= 0,
                        dsz >= 1,
                        (s + c) * dsz as int == s * dsz + c * dsz,
                {}
            }
            return Err(DapError::SlabOutOfRange);
        }
        proof {
            assert(s * dsz <= blen) by (nonlinear_arith)
                requires
                    s <= blen as int / dsz as int,
                    blen as int == dsz * (blen as int / dsz as int) + blen as int % dsz as int,
                    0 <= (blen as int % dsz as int),
                    dsz >= 1,
                    s >= 0,
            {}
        }
        let lo = s * dsz;
        let rem = blen - lo;
        proof {
            vstd::arithmetic::div_mod::lemma_fundamental_div_mod(rem as int, dsz as int);
            vstd::arithmetic::div_mod::lemma_mod_bound(rem as int, dsz as int);
        }
        if c > rem / dsz {
            proof {
                assert(c * dsz > rem) by (nonlinear_arith)
                    requires
                        c > rem as int / dsz as int,
                        rem as int == dsz * (rem as int / dsz as int) + rem as int % dsz as int,
                        0 <= (rem as int % dsz as int),
                        (rem as int % dsz as int) < dsz,
                        dsz >= 1,
                {}
            }
            return Err(DapError::SlabOutOfRange);
        }
        proof {
            assert(c * dsz <= rem) by (nonlinear_arith)
                requires
                    c <= rem as int / dsz as int,
                    rem as int == dsz * (rem as int / dsz as int) + rem as int % dsz as int,
                    0 <= (rem as int % dsz as int),
                    dsz >= 1,
                    c >= 0,
            {}
        }
        let hi = lo + c * dsz;
        let mut out: Vec<u8> = Vec::new();
        let mut k: usize = lo;
        while k < hi
            invariant
                lo <= k <= hi,
                hi <= self.bytes@.len(),
                out@ == self.bytes@.subrange(lo as int, k as int),
            decreases hi - k,
        {
            out.push(self.bytes[k]);
            proof {
                assert(out@ =~= self.bytes@.subrange(lo as int, k + 1));
            }
            k = k + 1;
        }
        Ok(out)
    }
}

/// The byte length of the first `i` buffers.
pub open spec fn pre_len(bufs: Seq<Vec<u8>>, i: int) -> int {
    chunks_concat(bufs.subrange(0, i)).len() as int
}

/// Each buffer sits at its own window of the concatenation.
pub proof fn lemma_concat_window(bufs: Seq<Vec<u8>>, i: int)
    requires
        0 <= i < bufs.len(),
    ensures
        pre_len(bufs, i) >= 0,
        pre_len(bufs, i) + bufs[i]@.len() <= chunks_concat(bufs).len(),
        chunks_concat(bufs).subrange(pre_len(bufs, i), pre_len(bufs, i) + bufs[i]@.len())
            == bufs[i]@,
        pre_len(bufs, i + 1) == pre_len(bufs, i) + bufs[i]@.len(),
    decreases bufs.len(),
{
    lemma_pre_len_nonneg(bufs, i);
    assert(bufs.subrange(0, i + 1).drop_last() =~= bufs.subrange(0, i));
    assert(bufs.subrange(0, i + 1).last() == bufs[i]);
    if i == bufs.len() - 1 {
        assert(bufs.subrange(0, bufs.len() as int) =~= bufs);
        assert(chunks_concat(bufs) == chunks_concat(bufs.subrange(0, i)) + bufs[i]@);
        assert(chunks_concat(bufs).subrange(pre_len(bufs, i), pre_len(bufs, i) + bufs[i]@.len())
            =~= bufs[i]@);
    } else {
        lemma_concat_window(bufs.drop_last(), i);
        assert(bufs.drop_last().subrange(0, i) =~= bufs.subrange(0, i));
        assert(bufs.drop_last().subrange(0, i + 1) =~= bufs.subrange(0, i + 1));
        assert(bufs.drop_last()[i] == bufs[i]);
        assert(chunks_concat(bufs) == chunks_concat(bufs.drop_last()) + bufs.last()@);
        assert(chunks_concat(bufs).subrange(pre_len(bufs, i), pre_len(bufs, i) + bufs[i]@.len())
            =~= chunks_concat(bufs.drop_last()).subrange(
            pre_len(bufs, i),
            pre_len(bufs, i) + bufs[i]@.len(),
        ));
    }
}

proof fn lemma_pre_len_nonneg(bufs: Seq<Vec<u8>>, i: int)
    ensures
        pre_len(bufs, i) >= 0,
{
}

/// Prefix totals never pass the whole total.
pub proof fn lemma_total_prefix_le(ns: Seq<usize>, i: int)
    requires
        0 <= i <= ns.len(),
    ensures
        0 <= total_n(ns.subrange(0, i)) <= total_n(ns),
        total_n(ns.subrange(0, ns.len() as int)) == total_n(ns),
    decreases ns.len() - i,
{
    if i == ns.len() {
        assert(ns.subrange(0, i) =~= ns);
    } else {
        lemma_total_prefix_le(ns, i + 1);
        assert(ns.subrange(0, i + 1).drop_last() =~= ns.subrange(0, i));
        assert(ns.subrange(0, i + 1).last() == ns[i]);
    }
    lemma_total_nonneg(ns.subrange(0, i));
}

proof fn lemma_total_nonneg(ns: Seq<usize>)
    ensures
        total_n(ns) >= 0,
    decreases ns.len(),
{
    if ns.len() > 0 {
        lemma_total_nonneg(ns.drop_last());
    }
}

/// The outer dimensions of the virtual aggregate array.
pub open spec fn virt_dims(ns: Seq<usize>, inner: Seq<usize>) -> Seq<usize> {
    seq![total_n(ns) as usize] + inner
}

/// Reads an aggregated variable's slab by splitting the outer range at
/// the member boundaries and concatenating the per-member reads, in
/// member order: the result equals one read from the virtual full
/// array whose outer dimension is the members' join dimension
/// concatenated.
#[verifier::rlimit(100)]
pub fn agg_read(
    member_data: &Vec<Vec<u8>>,
    ns: &Vec<usize>,
    inner: &Vec<usize>,
    w: usize,
    indices: &Vec<usize>,
    counts: &Vec<usize>,
) -> (r: Vec<u8>)
    requires
        w >= 1,
        member_data@.len() == ns@.len(),
        ns@.len() >= 1,
        total_n(ns@) <= usize::MAX,
        forall|i: int| 0 <= i < ns@.len() ==> (#[trigger] ns@[i]) >= 1,
        forall|i: int| 0 <= i < inner@.len() ==> (#[trigger] inner@[i]) >= 1,
        forall|i: int|
            0 <= i < member_data@.len() ==> (#[trigger] member_data@[i])@.len() == ns@[i] * (prod(
                inner@,
            ) * w),
        indices@.len() == 1 + inner@.len(),
        counts@.len() == 1 + inner@.len(),
        counts@[0] >= 1,
        indices@[0] + counts@[0] <= total_n(ns@),
        forall|i: int|
            0 <= i < inner@.len() ==> 1 <= (#[trigger] counts@[i + 1]) && indices@[i + 1]
                + counts@[i + 1] <= inner@[i],
    ensures
        r@ == slab_bytes(
            concat_bufs(member_data@),
            w as int,
            virt_dims(ns@, inner@),
            indices@,
            counts@,
        ),
{
    let nm = member_data.len();
    let ghost vd = virt_dims(ns@, inner@);
    let ghost virt = concat_bufs(member_data@);
    let ghost p = prod(inner@);
    let ghost s0 = indices@[0] as int;
    let ghost c0 = counts@[0] as int;
    let ghost idx1 = indices@.subrange(1, indices@.len() as int);
    let ghost cnt1 = counts@.subrange(1, counts@.len() as int);
    proof {
        lemma_prod_pos(inner@);
        assert(vd.subrange(1, vd.len() as int) =~= inner@);
        assert(idx1 =~= indices@.subrange(1, indices@.len() as int));
        assert(slab_indices(vd, indices@, counts@) == rows_span(inner@, idx1, cnt1, p, s0, s0 + c0));
        assert(rows_span(inner@, idx1, cnt1, p, s0, s0) =~= Seq::<int>::empty());
        assert(gather(virt, w as int, Seq::<int>::empty()) =~= Seq::<u8>::empty());
    }
    let s_in = indices[0];
    let c_in = counts[0];
    let mut out: Vec<u8> = Vec::new();
    let mut base: usize = 0;
    let mut i: usize = 0;
    proof {
        assert(total_n(ns@.subrange(0, 0)) == 0);
        assert(pre_len(member_data@, 0) == 0) by {
            assert(member_data@.subrange(0, 0) =~= Seq::<Vec<u8>>::empty());
        }
    }
    while i < nm
        invariant
            i <= nm,
            nm == member_data@.len(),
            nm == ns@.len(),
            w >= 1,
            total_n(ns@) <= usize::MAX,
            p == prod(inner@),
            p >= 1,
            vd == virt_dims(ns@, inner@),
            virt == concat_bufs(member_data@),
            s0 == s_in as int,
            c0 == c_in as int,
            s0 == indices@[0] as int,
            c0 == counts@[0] as int,
            c0 >= 1,
            s0 >= 0,
            s0 + c0 <= total_n(ns@),
            idx1 == indices@.subrange(1, indices@.len() as int),
            cnt1 == counts@.subrange(1, counts@.len() as int),
            indices@.len() == 1 + inner@.len(),
            counts@.len() == 1 + inner@.len(),
            forall|j: int| 0 <= j < ns@.len() ==> (#[trigger] ns@[j]) >= 1,
            forall|j: int| 0 <= j < inner@.len() ==> (#[trigger] inner@[j]) >= 1,
            forall|j: int|
                0 <= j < member_data@.len() ==> (#[trigger] member_data@[j])@.len() == ns@[j] * (
                prod(inner@) * w),
            forall|j: int|
                0 <= j < inner@.len() ==> 1 <= (#[trigger] counts@[j + 1]) && indices@[j + 1]
                    + counts@[j + 1] <= inner@[j],
            base as int == total_n(ns@.subrange(0, i as int)),
            pre_len(member_data@, i as int) == base as int * (p * w),
            out@ == gather(
                virt,
                w as int,
                rows_span(
                    inner@,
                    idx1,
                    cnt1,
                    p,
                    s0,
                    if base < s_in {
                        s0
                    } else if base as int > s0 + c0 {
                        s0 + c0
                    } else {
                        base as int
                    },
                ),
            ),
        decreases nm - i,
    {
        let ni = ns[i];
        proof {
            lemma_total_prefix_le(ns@, i as int + 1);
            assert(ns@.subrange(0, i as int + 1).drop_last() =~= ns@.subrange(0, i as int));
            assert(ns@.subrange(0, i as int + 1).last() == ns@[i as int]);
            assert(base + ni <= total_n(ns@));
        }
        let g_lo = if s_in > base {
            s_in
        } else {
            base
        };
        let g_hi_cap = base + ni;
        let g_hi = if s_in > usize::MAX - c_in {
            g_hi_cap
        } else if s_in + c_in < g_hi_cap {
            s_in + c_in
        } else {
            g_hi_cap
        };
        proof {
            assert(s_in + c_in <= usize::MAX);
        }
        if g_lo < g_hi {
            // This member holds rows `g_lo .. g_hi` of the global range.
            let ls = g_lo - base;
            let lc = g_hi - g_lo;
            let mut dm: Vec<usize> = Vec::new();
            let mut sm: Vec<usize> = Vec::new();
            let mut cm: Vec<usize> = Vec::new();
            dm.push(ni);
            sm.push(ls);
            cm.push(lc);
            let ninner = inner.len();
            let mut k: usize = 0;
            while k < ninner
                invariant
                    k <= ninner,
                    ninner == inner@.len(),
                    indices@.len() == 1 + ninner,
                    counts@.len() == 1 + ninner,
                    dm@.len() == 1 + k,
                    sm@.len() == 1 + k,
                    cm@.len() == 1 + k,
                    dm@[0] == ni,
                    sm@[0] == ls,
                    cm@[0] == lc,
                    forall|j: int| 0 <= j < k ==> (#[trigger] dm@[j + 1]) == inner@[j],
                    forall|j: int| 0 <= j < k ==> (#[trigger] sm@[j + 1]) == indices@[j + 1],
                    forall|j: int| 0 <= j < k ==> (#[trigger] cm@[j + 1]) == counts@[j + 1],
                decreases ninner - k,
            {
                dm.push(inner[k]);
                sm.push(indices[k + 1]);
                cm.push(counts[k + 1]);
                k = k + 1;
            }
            proof {
                assert(dm@.subrange(1, dm@.len() as int) =~= inner@);
                assert(sm@.subrange(1, sm@.len() as int) =~= idx1);
                assert(cm@.subrange(1, cm@.len() as int) =~= cnt1);
                assert(slab_wf(dm@, sm@, cm@)) by {
                    assert forall|j: int| 0 <= j < dm@.len() implies (#[trigger] dm@[j]) >= 1 by {
                        if j > 0 {
                            assert(dm@[j] == inner@[j - 1]);
                        }
                    }
                    assert forall|j: int|
                        0 <= j < dm@.len() implies 1 <= (#[trigger] cm@[j]) && sm@[j] + cm@[j]
                        <= dm@[j] by {
                        if j > 0 {
                            assert(dm@[j] == inner@[j - 1]);
                            assert(sm@[j] == indices@[j]);
                            assert(cm@[j] == counts@[j]);
                            assert(1 <= counts@[(j - 1) + 1] && indices@[(j - 1) + 1] + counts@[(j
                                - 1) + 1] <= inner@[j - 1]);
                        } else {
                            assert(dm@[0] == ni && sm@[0] == ls && cm@[0] == lc);
                            assert(g_hi <= base + ni);
                            assert(g_lo >= base);
                            assert(lc >= 1);
                        }
                    }
                }
                assert(prod(dm@) == ni * p) by {
                    assert(prod(dm@) == dm@[0] * prod(dm@.subrange(1, dm@.len() as int)));
                }
                assert(member_data@[i as int]@.len() == prod(dm@) * w) by (nonlinear_arith)
                    requires
                        member_data@[i as int]@.len() == ns@[i as int] * (prod(inner@) * w),
                        prod(dm@) == ns@[i as int] * prod(inner@),
                        ni == ns@[i as int],
                        p == prod(inner@),
                {}
            }
            let chunk = read_slab(&member_data[i], w, &dm, &sm, &cm);
            proof {
                // The member read is the matching window of the
                // virtual array's row span.
                let mi = slab_indices(dm@, sm@, cm@);
                assert(mi == rows_span(inner@, idx1, cnt1, p, ls as int, ls as int + lc as int));
                lemma_slab_indices_bounds(dm@, sm@, cm@);
                lemma_slab_len(dm@, sm@, cm@);
                lemma_rows_span_shift(
                    inner@,
                    idx1,
                    cnt1,
                    p,
                    ls as int,
                    ls as int + lc as int,
                    base as int,
                );
                lemma_concat_window(member_data@, i as int);
                assert(prod(dm@) == ni * p);
                assert((base as int + ni as int) * (p * w) == base as int * (p * w) + ni as int * (
                p * w)) by (nonlinear_arith);
                assert(ni as int * (p * w) == (ni as int * p) * w) by (nonlinear_arith);
                assert(member_data@[i as int]@.len() == (ni as int * p) * w) by (nonlinear_arith)
                    requires
                        member_data@[i as int]@.len() == ns@[i as int] * (prod(inner@) * w),
                        ni == ns@[i as int],
                        p == prod(inner@),
                {}
                assert(virt.subrange(
                    base as int * (p * w),
                    base as int * (p * w) + (ni as int * p) * w,
                ) == member_data@[i as int]@);
                assert(base as int * (p * w) == (base as int * p) * w) by (nonlinear_arith);
                assert forall|j: int| 0 <= j < mi.len() implies 0 <= #[trigger] mi[j] && mi[j]
                    < ni as int * p by {
                    assert(mi[j] < prod(dm@));
                }
                assert((base as int * p + ni as int * p) * w == (base as int * p) * w + (ni as int
                    * p) * w) by (nonlinear_arith);
                assert((base as int + ni as int) * (p * w) <= virt.len()) by {
                    assert(pre_len(member_data@, i as int + 1) <= chunks_concat(
                        member_data@,
                    ).len());
                }
                assert((base as int * p + ni as int * p) * w <= virt.len()) by (nonlinear_arith)
                    requires
                        (base as int + ni as int) * (p * w) <= virt.len(),
                        base as int * (p * w) + (ni as int * p) * w == (base as int + ni as int) * (
                        p * w),
                        base as int * (p * w) == (base as int * p) * w,
                        (base as int * p + ni as int * p) * w == (base as int * p) * w + (ni as int
                            * p) * w,
                {}
                assert(pre_len(member_data@, i as int) + member_data@[i as int]@.len()
                    <= virt.len());
                vstd::arithmetic::mul::lemma_mul_nonnegative(base as int, p);
                lemma_gather_shift(virt, w as int, mi, base as int * p, ni as int * p);
                assert(virt.subrange(
                    (base as int * p) * w,
                    (base as int * p + ni as int * p) * w,
                ) == member_data@[i as int]@);
                assert(gather(virt, w as int, shift(mi, base as int * p)) == gather(
                    member_data@[i as int]@,
                    w as int,
                    mi,
                ));
                assert(shift(mi, base as int * p) == rows_span(
                    inner@,
                    idx1,
                    cnt1,
                    p,
                    g_lo as int,
                    g_hi as int,
                )) by {
                    assert(shift(rows_span(inner@, idx1, cnt1, p, ls as int, ls as int + lc as int),
                        base as int * p) == rows_span(
                        inner@,
                        idx1,
                        cnt1,
                        p,
                        ls as int + base as int,
                        ls as int + lc as int + base as int,
                    ));
                }
                // Append the segment to what is already emitted.
                let r_old: int = if base < s_in {
                    s0
                } else {
                    base as int
                };
                assert(r_old == g_lo as int);
                lemma_rows_span_split(inner@, idx1, cnt1, p, s0, g_lo as int, g_hi as int);
                lemma_gather_concat(
                    virt,
                    w as int,
                    rows_span(inner@, idx1, cnt1, p, s0, g_lo as int),
                    rows_span(inner@, idx1, cnt1, p, g_lo as int, g_hi as int),
                );
                assert(chunk@ == gather(member_data@[i as int]@, w as int, mi));
            }
            let mut t: usize = 0;
            let clen = chunk.len();
            let ghost outpre = out@;
            while t < clen
                invariant
                    t <= clen,
                    clen == chunk@.len(),
                    out@ == outpre + chunk@.subrange(0, t as int),
                decreases clen - t,
            {
                out.push(chunk[t]);
                proof {
                    assert(out@ =~= outpre + chunk@.subrange(0, t + 1));
                }
                t = t + 1;
            }
            proof {
                assert(chunk@.subrange(0, clen as int) =~= chunk@);
                assert(out@ == gather(virt, w as int, rows_span(inner@, idx1, cnt1, p, s0, g_hi as int)));
            }
        } else {
            proof {
                // Nothing of the range lies in this member: the clamp
                // does not move.
                if base < s_in {
                    assert(base + ni <= s_in || base as int > s0 + c0 || g_hi as int == g_lo as int);
                }
                assert(rows_span(
                    inner@,
                    idx1,
                    cnt1,
                    p,
                    s0,
                    if base < s_in {
                        s0
                    } else if base as int > s0 + c0 {
                        s0 + c0
                    } else {
                        base as int
                    },
                ) == rows_span(
                    inner@,
                    idx1,
                    cnt1,
                    p,
                    s0,
                    if base + ni < s_in {
                        s0
                    } else if base as int + ni as int > s0 + c0 {
                        s0 + c0
                    } else {
                        base as int + ni as int
                    },
                ));
            }
        }
        proof {
            let pw = p * w;
            assert((base as int + ni as int) * pw == base as int * pw + ni as int * pw)
                by (nonlinear_arith);
            lemma_concat_window(member_data@, i as int);
            assert(member_data@[i as int]@.len() == ni as int * pw);
        }
        base = base + ni;
        i = i + 1;
        proof {
            assert(ns@.subrange(0, i as int).drop_last() =~= ns@.subrange(0, i - 1));
            assert(ns@.subrange(0, i as int).last() == ns@[i - 1]);
        }
    }
    proof {
        assert(ns@.subrange(0, nm as int) =~= ns@);
        assert(base as int == total_n(ns@));
        assert(base as int >= s0 + c0);
        assert(out@ == gather(virt, w as int, rows_span(inner@, idx1, cnt1, p, s0, s0 + c0)));
    }
    out
}

/// Streams one aggregated, non-scalar variable: the DAP2 length prefix
/// once, from the global element count, followed by the member-routed
/// slab packed to wire order. A count that does not fit the 32-bit
/// prefix is an overflow.
pub fn joined_variable_stream(
    member_data: &Vec<Vec<u8>>,
    ns: &Vec<usize>,
    inner: &Vec<usize>,
    w: usize,
    indices: &Vec<usize>,
    counts: &Vec<usize>,
) -> (r: Result<Vec<Vec<u8>>, DapError>)
    requires
        w >= 1,
        member_data@.len() == ns@.len(),
        ns@.len() >= 1,
        total_n(ns@) <= usize::MAX,
        forall|i: int| 0 <= i < ns@.len() ==> (#[trigger] ns@[i]) >= 1,
        forall|i: int| 0 <= i < inner@.len() ==> (#[trigger] inner@[i]) >= 1,
        forall|i: int|
            0 <= i < member_data@.len() ==> (#[trigger] member_data@[i])@.len() == ns@[i] * (prod(
                inner@,
            ) * w),
        indices@.len() == 1 + inner@.len(),
        counts@.len() == 1 + inner@.len(),
        counts@[0] >= 1,
        indices@[0] + counts@[0] <= total_n(ns@),
        forall|i: int|
            0 <= i < inner@.len() ==> 1 <= (#[trigger] counts@[i + 1]) && indices@[i + 1]
                + counts@[i + 1] <= inner@[i],
    ensures
        prod(counts@) > u32::MAX ==> r === Err(DapError::Overflow),
        prod(counts@) <= u32::MAX ==> (r matches Ok(chunks) && {
            &&& chunks@.len() == 2
            &&& chunks@[0]@ == crate::xdr::be_u32_bytes(prod(counts@)) + crate::xdr::be_u32_bytes(
                prod(counts@),
            )
            &&& chunks@[1]@ == crate::xdr::swap_groups(
                slab_bytes(
                    concat_bufs(member_data@),
                    w as int,
                    virt_dims(ns@, inner@),
                    indices@,
                    counts@,
                ),
                w as int,
            )
        }),
{
    // The prefix carries the total element count of the slab.
    let nc = counts.len();
    let mut product: usize = 1;
    let mut i: usize = 0;
    proof {
        assert(prod(counts@.subrange(0, 0)) == 1);
        assert forall|j: int| 0 <= j < nc implies (#[trigger] counts@[j]) >= 1 by {
            if j > 0 {
                assert(counts@[(j - 1) + 1] >= 1);
            }
        }
    }
    while i < nc
        invariant
            i <= nc,
            nc == counts@.len(),
            nc >= 1,
            product as int == prod(counts@.subrange(0, i as int)),
            product <= u32::MAX,
            product >= 1,
            forall|j: int| 0 <= j < nc ==> (#[trigger] counts@[j]) >= 1,
        decreases nc - i,
    {
        let c = counts[i];
        proof {
            let pre = counts@.subrange(0, i as int + 1);
            assert(pre.drop_last() =~= counts@.subrange(0, i as int));
            crate::slab::lemma_prod_split(pre, i as int);
            assert(pre.subrange(0, i as int) =~= counts@.subrange(0, i as int));
            assert(pre.subrange(i as int, i + 1) =~= seq![counts@[i as int]]);
            assert(prod(seq![counts@[i as int]]) == counts@[i as int] as int * prod(
                Seq::<usize>::empty(),
            )) by {
                assert(seq![counts@[i as int]].subrange(1, 1) =~= Seq::<usize>::empty());
            }
            assert(counts@[i as int] as int * 1 == counts@[i as int] as int) by (nonlinear_arith);
            vstd::arithmetic::div_mod::lemma_fundamental_div_mod(
                u32::MAX as int,
                c as int,
            );
            vstd::arithmetic::div_mod::lemma_mod_bound(u32::MAX as int, c as int);
        }
        let limit = (0xffff_ffffusize) / c;
        if product > limit {
            proof {
                // The partial product already passes the prefix bound,
                // and the remaining counts cannot shrink it.
                assert(product * c > u32::MAX) by (nonlinear_arith)
                    requires
                        product as int > (u32::MAX as int) / (c as int),
                        u32::MAX as int == (c as int) * ((u32::MAX as int) / (c as int))
                            + (u32::MAX as int) % (c as int),
                        0 <= ((u32::MAX as int) % (c as int)),
                        ((u32::MAX as int) % (c as int)) < c as int,
                        c >= 1,
                {}
                let pre = counts@.subrange(0, i as int + 1);
                crate::slab::lemma_prod_split(counts@, i as int + 1);
                assert(counts@.subrange(i as int + 1, nc as int).len() == nc - i - 1);
                assert forall|j: int|
                    0 <= j < counts@.subrange(i as int + 1, nc as int).len() implies (
                #[trigger] counts@.subrange(i as int + 1, nc as int)[j]) >= 1 by {
                    assert(counts@.subrange(i as int + 1, nc as int)[j] == counts@[i + 1 + j]);
                }
                crate::slab::lemma_prod_pos(counts@.subrange(i as int + 1, nc as int));
                assert(prod(counts@) >= prod(pre)) by (nonlinear_arith)
                    requires
                        prod(counts@) == prod(pre) * prod(
                            counts@.subrange(i as int + 1, nc as int),
                        ),
                        prod(counts@.subrange(i as int + 1, nc as int)) >= 1,
                        prod(pre) >= 0,
                {}
            }
            return Err(DapError::Overflow);
        }
        proof {
            assert(product * c <= u32::MAX) by (nonlinear_arith)
                requires
                    product as int <= (u32::MAX as int) / (c as int),
                    u32::MAX as int == (c as int) * ((u32::MAX as int) / (c as int)) + (u32::MAX
                        as int) % (c as int),
                    0 <= ((u32::MAX as int) % (c as int)),
                    c >= 1,
                    product >= 0,
            {}
            assert(product * c >= 1) by (nonlinear_arith)
                requires
                    product >= 1,
                    c >= 1,
            {}
        }
        product = product * c;
        i = i + 1;
    }
    proof {
        assert(counts@.subrange(0, nc as int) =~= counts@);
    }
    let payload = agg_read(member_data, ns, inner, w, indices, counts);
    proof {
        // The payload is whole elements, so it packs in place.
        crate::slab::lemma_slab_len(virt_dims(ns@, inner@), indices@, counts@);
        let vi = slab_indices(virt_dims(ns@, inner@), indices@, counts@);
        let virt = concat_bufs(member_data@);
        assert(virt.len() == total_n(ns@) * (prod(inner@) * w)) by {
            lemma_concat_total(member_data@, ns@, prod(inner@) * w);
        }
        crate::slab::lemma_prod_pos(inner@);
        assert(prod(virt_dims(ns@, inner@)) == total_n(ns@) * prod(inner@)) by {
            assert(virt_dims(ns@, inner@).subrange(1, virt_dims(ns@, inner@).len() as int)
                =~= inner@);
            assert(virt_dims(ns@, inner@)[0] as int == total_n(ns@));
        }
        assert(prod(virt_dims(ns@, inner@)) * w == total_n(ns@) * (prod(inner@) * w))
            by (nonlinear_arith)
            requires
                prod(virt_dims(ns@, inner@)) == total_n(ns@) * prod(inner@),
        {}
        assert(slab_wf(virt_dims(ns@, inner@), indices@, counts@)) by {
            let vd = virt_dims(ns@, inner@);
            lemma_total_nonneg(ns@.drop_last());
            assert(total_n(ns@) >= 1);
            assert forall|j: int| 0 <= j < vd.len() implies (#[trigger] vd[j]) >= 1 by {
                if j > 0 {
                    assert(vd[j] == inner@[j - 1]);
                }
            }
            assert forall|j: int|
                0 <= j < vd.len() implies 1 <= (#[trigger] counts@[j]) && indices@[j] + counts@[j]
                <= vd[j] by {
                if j > 0 {
                    assert(vd[j] == inner@[j - 1]);
                    assert(1 <= counts@[(j - 1) + 1] && indices@[(j - 1) + 1] + counts@[(j - 1)
                        + 1] <= inner@[j - 1]);
                }
            }
        }
        crate::slab::lemma_slab_indices_bounds(virt_dims(ns@, inner@), indices@, counts@);
        assert forall|j: int| 0 <= j < vi.len() implies 0 <= #[trigger] vi[j] && (vi[j] + 1) * (
        w as int) <= virt.len() by {
            assert(vi[j] < prod(virt_dims(ns@, inner@)));
            vstd::arithmetic::mul::lemma_mul_inequality(
                vi[j] + 1,
                prod(virt_dims(ns@, inner@)),
                w as int,
            );
        }
        crate::slab::lemma_gather_len(virt, w as int, vi);
        vstd::arithmetic::div_mod::lemma_mod_multiples_basic(prod(counts@), w as int);
    }
    let packed = crate::xdr::swap_bytes(&payload, w);
    let mut out: Vec<Vec<u8>> = Vec::new();
    out.push(crate::xdr::xdr_length(product as u32));
    out.push(packed);
    proof {
        assert((product as u32) as int == product as int);
    }
    Ok(out)
}

/// The virtual array's byte length is the members' lengths summed.
proof fn lemma_concat_total(bufs: Seq<Vec<u8>>, ns: Seq<usize>, rowbytes: int)
    requires
        bufs.len() == ns.len(),
        forall|i: int| 0 <= i < bufs.len() ==> (#[trigger] bufs[i])@.len() == ns[i] * rowbytes,
    ensures
        chunks_concat(bufs).len() == total_n(ns) * rowbytes,
    decreases bufs.len(),
{
    if bufs.len() == 0 {
        assert(0 * rowbytes == 0) by (nonlinear_arith);
    } else {
        assert forall|i: int|
            0 <= i < bufs.drop_last().len() implies (#[trigger] bufs.drop_last()[i])@.len()
            == ns.drop_last()[i] * rowbytes by {
            assert(bufs.drop_last()[i] == bufs[i]);
        }
        lemma_concat_total(bufs.drop_last(), ns.drop_last(), rowbytes);
        assert(chunks_concat(bufs) == chunks_concat(bufs.drop_last()) + bufs.last()@);
        assert(bufs.last()@.len() == ns.last() * rowbytes) by {
            assert(bufs.last() == bufs[bufs.len() - 1]);
        }
        assert((total_n(ns.drop_last()) + ns.last()) * rowbytes == total_n(ns.drop_last())
            * rowbytes + ns.last() * rowbytes) by (nonlinear_arith);
    }
}

} // verus!
