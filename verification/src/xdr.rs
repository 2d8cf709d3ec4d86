//! XDR packing: big-endian byte order on the wire.
//!
//! Values are packed in place by reversing the bytes of each element;
//! widths are preserved. A non-scalar variable is preceded by its total
//! element count as a 4-byte big-endian word, sent twice.

use vstd::prelude::*;

use crate::DapError;
use crate::slab::{prod, slab_bytes, zeros};

verus! {

/// The four big-endian bytes of a 32-bit count.
pub open spec fn be_u32_bytes(n: int) -> Seq<u8> {
    seq![
        ((n / 0x1000000) % 0x100) as u8,
        ((n / 0x10000) % 0x100) as u8,
        ((n / 0x100) % 0x100) as u8,
        (n % 0x100) as u8,
    ]
}

/// The bytes of `b` with each `w`-byte group reversed.
pub open spec fn swap_groups(b: Seq<u8>, w: int) -> Seq<u8> {
    Seq::new(b.len(), |i: int| b[(i / w) * w + (w - 1 - (i % w))])
}

/// Group reversal is its own inverse: unpacking what was packed gives
/// the original bytes back.
pub proof fn lemma_swap_involution(b: Seq<u8>, w: int)
    requires
        w >= 1,
        b.len() as int % w == 0,
    ensures
        swap_groups(swap_groups(b, w), w) == b,
{
    let s1 = swap_groups(b, w);
    let s2 = swap_groups(s1, w);
    assert forall|i: int| 0 <= i < b.len() implies s2[i] == b[i] by {
        let q = i / w;
        let r = i % w;
        vstd::arithmetic::div_mod::lemma_fundamental_div_mod(i, w);
        vstd::arithmetic::div_mod::lemma_mod_bound(i, w);
        let j = q * w + (w - 1 - r);
        vstd::arithmetic::div_mod::lemma_fundamental_div_mod_converse(j, w, q, w - 1 - r);
        assert(j / w == q && j % w == w - 1 - r);
        // Both positions sit inside the same group, inside the data.
        vstd::arithmetic::div_mod::lemma_fundamental_div_mod(b.len() as int, w);
        assert((q + 1) * w <= b.len()) by (nonlinear_arith)
            requires
                b.len() as int == w * (b.len() as int / w) + b.len() as int % w,
                b.len() as int % w == 0,
                i == w * q + r,
                0 <= r < w,
                i < b.len(),
                w >= 1,
        {}
        assert(0 <= j < b.len()) by (nonlinear_arith)
            requires
                j == q * w + (w - 1 - r),
                0 <= r < w,
                0 <= q,
                (q + 1) * w <= b.len(),
                w >= 1,
        {}
        assert(q >= 0) by (nonlinear_arith)
            requires
                i == w * q + r,
                0 <= i,
                0 <= r < w,
                w >= 1,
        {}
        assert(s2[i] == s1[j]);
        assert(s1[j] == b[(j / w) * w + (w - 1 - (j % w))]);
        assert(q * w == w * q) by (nonlinear_arith);
        assert((j / w) * w + (w - 1 - (j % w)) == i);
    }
    assert(s2 =~= b);
}

/// The bytes a packing step must produce and accept: a type that knows
/// its own wire image.
pub trait XdrPack {
    /// The value may be packed.
    spec fn pack_wf(&self) -> bool;

    /// The value's bytes as they stand.
    spec fn raw(&self) -> Seq<u8>;

    /// The value's bytes in wire order.
    spec fn packed(&self) -> Seq<u8>;

    /// Reorders the bytes in place into wire order.
    fn pack(&mut self)
        requires
            old(self).pack_wf(),
        ensures
            final(self).raw() == old(self).packed(),
    ;
}

/// Raw byte payloads go over the wire as they are.
impl XdrPack for Vec<u8> {
    open spec fn pack_wf(&self) -> bool {
        true
    }

    open spec fn raw(&self) -> Seq<u8> {
        self@
    }

    open spec fn packed(&self) -> Seq<u8> {
        self@
    }

    fn pack(&mut self) {
    }
}

/// A buffer of fixed-width elements in native order.
pub struct ElemBytes {
    pub width: usize,
    pub bytes: Vec<u8>,
}

impl XdrPack for ElemBytes {
    open spec fn pack_wf(&self) -> bool {
        self.width >= 1 && self.bytes@.len() as int % self.width as int == 0
    }

    open spec fn raw(&self) -> Seq<u8> {
        self.bytes@
    }

    open spec fn packed(&self) -> Seq<u8> {
        swap_groups(self.bytes@, self.width as int)
    }

    fn pack(&mut self) {
        let swapped = swap_bytes(&self.bytes, self.width);
        self.bytes = swapped;
    }
}

/// The bytes of `data` with each `w`-byte element reversed.
pub fn swap_bytes(data: &Vec<u8>, w: usize) -> (r: Vec<u8>)
    requires
        w >= 1,
        data@.len() as int % w as int == 0,
    ensures
        r@ == swap_groups(data@, w as int),
{
    let n = data.len();
    let mut out: Vec<u8> = Vec::new();
    let mut i: usize = 0;
    while i < n
        invariant
            i <= n,
            n == data@.len(),
            w >= 1,
            data@.len() as int % w as int == 0,
            out@.len() == i,
            forall|k: int|
                0 <= k < i ==> (#[trigger] out@[k]) == data@[(k / w as int) * w + (w - 1 - (k
                    % w as int))],
        decreases n - i,
    {
        let q = i / w;
        let r = i % w;
        proof {
            vstd::arithmetic::div_mod::lemma_fundamental_div_mod(i as int, w as int);
            vstd::arithmetic::div_mod::lemma_mod_bound(i as int, w as int);
            vstd::arithmetic::div_mod::lemma_fundamental_div_mod(n as int, w as int);
            assert((q + 1) * w <= n) by (nonlinear_arith)
                requires
                    n as int == (w as int) * (n as int / w as int) + n as int % w as int,
                    n as int % w as int == 0,
                    i as int == (w as int) * (q as int) + r,
                    0 <= r < w,
                    i < n,
                    w >= 1,
            {}
            assert(q * w + (w - 1 - r) < n) by (nonlinear_arith)
                requires
                    0 <= r < w,
                    (q + 1) * (w as int) <= n,
                    w >= 1,
            {}
        }
        let j = q * w + (w - 1 - r);
        out.push(data[j]);
        i = i + 1;
    }
    proof {
        assert(out@ =~= swap_groups(data@, w as int));
    }
    out
}

/// The DAP2 length prefix: the element count, as a 4-byte big-endian
/// word, repeated.
pub fn xdr_length(len: u32) -> (r: Vec<u8>)
    ensures
        r@ == be_u32_bytes(len as int) + be_u32_bytes(len as int),
        r@.len() == 8,
{
    proof {
        assert((len >> 24) & 0xff == (len / 0x1000000) % 0x100) by (bit_vector);
        assert((len >> 16) & 0xff == (len / 0x10000) % 0x100) by (bit_vector);
        assert((len >> 8) & 0xff == (len / 0x100) % 0x100) by (bit_vector);
        assert(len & 0xff == len % 0x100) by (bit_vector);
    }
    let b0 = ((len >> 24) & 0xff) as u8;
    let b1 = ((len >> 16) & 0xff) as u8;
    let b2 = ((len >> 8) & 0xff) as u8;
    let b3 = (len & 0xff) as u8;
    let mut out: Vec<u8> = Vec::new();
    out.push(b0);
    out.push(b1);
    out.push(b2);
    out.push(b3);
    out.push(b0);
    out.push(b1);
    out.push(b2);
    out.push(b3);
    proof {
        assert(out@ =~= be_u32_bytes(len as int) + be_u32_bytes(len as int));
    }
    out
}

/// Packs a single scalar value: its bytes byteswapped, with no length
/// prefix. A buffer that does not hold exactly one element is refused.
pub fn encode_value(v: &Vec<u8>, width: usize) -> (r: Result<Vec<u8>, DapError>)
    requires
        width >= 1,
    ensures
        v@.len() == width ==> (r matches Ok(b) && b@ == swap_groups(v@, width as int)),
        v@.len() != width ==> r === Err(DapError::InternalDecodeError),
{
    if v.len() != width {
        return Err(DapError::InternalDecodeError);
    }
    proof {
        vstd::arithmetic::div_mod::lemma_mod_self_0(width as int);
    }
    Ok(swap_bytes(v, width))
}

/// Packing chunk by chunk equals packing the whole stream, as long as
/// every chunk breaks on an element boundary.
pub proof fn lemma_swap_concat(a: Seq<u8>, b: Seq<u8>, w: int)
    requires
        w >= 1,
        a.len() as int % w == 0,
        b.len() as int % w == 0,
    ensures
        swap_groups(a + b, w) == swap_groups(a, w) + swap_groups(b, w),
{
    let lhs = swap_groups(a + b, w);
    let rhs = swap_groups(a, w) + swap_groups(b, w);
    let k = a.len() as int / w;
    vstd::arithmetic::div_mod::lemma_fundamental_div_mod(a.len() as int, w);
    assert forall|i: int| 0 <= i < lhs.len() implies lhs[i] == rhs[i] by {
        let q = i / w;
        let r = i % w;
        vstd::arithmetic::div_mod::lemma_fundamental_div_mod(i, w);
        vstd::arithmetic::div_mod::lemma_mod_bound(i, w);
        if i < a.len() {
            // The group of `i` lies wholly inside `a`.
            assert((q + 1) * w <= a.len()) by (nonlinear_arith)
                requires
                    a.len() as int == w * k,
                    i == w * q + r,
                    0 <= r < w,
                    i < a.len(),
                    w >= 1,
            {}
            assert(q * w + (w - 1 - r) < a.len()) by (nonlinear_arith)
                requires
                    0 <= r < w,
                    (q + 1) * w <= a.len(),
            {}
            assert(q * w >= 0) by (nonlinear_arith)
                requires
                    i == w * q + r,
                    0 <= i,
                    0 <= r < w,
                    w >= 1,
            {}
            assert((a + b)[q * w + (w - 1 - r)] == a[q * w + (w - 1 - r)]);
            assert(q * w == w * q) by (nonlinear_arith);
        } else {
            // The group of `i` lies wholly inside `b`.
            let t = i - a.len();
            let tq = t / w;
            let tr = t % w;
            vstd::arithmetic::div_mod::lemma_fundamental_div_mod(t, w);
            vstd::arithmetic::div_mod::lemma_mod_bound(t, w);
            assert(i == (k + tq) * w + tr) by (nonlinear_arith)
                requires
                    t == w * tq + tr,
                    i == t + a.len(),
                    a.len() as int == w * k,
            {}
            vstd::arithmetic::div_mod::lemma_fundamental_div_mod_converse(i, w, k + tq, tr);
            assert(q == k + tq && r == tr);
            vstd::arithmetic::div_mod::lemma_fundamental_div_mod(b.len() as int, w);
            assert((tq + 1) * w <= b.len()) by (nonlinear_arith)
                requires
                    b.len() as int == w * (b.len() as int / w) + b.len() as int % w,
                    b.len() as int % w == 0,
                    t == w * tq + tr,
                    0 <= tr < w,
                    t < b.len(),
                    w >= 1,
            {}
            assert(tq * w + (w - 1 - tr) < b.len()) by (nonlinear_arith)
                requires
                    0 <= tr < w,
                    (tq + 1) * w <= b.len(),
            {}
            assert(q * w + (w - 1 - r) == a.len() + (tq * w + (w - 1 - tr))) by (nonlinear_arith)
                requires
                    q == k + tq,
                    r == tr,
                    a.len() as int == w * k,
            {}
            assert(tq * w + (w - 1 - tr) >= 0) by (nonlinear_arith)
                requires
                    t == w * tq + tr,
                    0 <= t,
                    0 <= tr < w,
                    w >= 1,
            {}
            assert((a + b)[a.len() + (tq * w + (w - 1 - tr))] == b[tq * w + (w - 1 - tr)]);
            assert(swap_groups(b, w)[t] == b[(t / w) * w + (w - 1 - (t % w))]);
            assert((t / w) * w + (w - 1 - (t % w)) == tq * w + (w - 1 - tr));
        }
    }
    assert(lhs =~= rhs);
}

/// Byte ordering: reading a whole variable (indices zero, counts the
/// dimensions), packing it as XDR and unpacking it again gives exactly
/// the source array's row-major bytes.
pub proof fn lemma_byte_order_roundtrip(data: Seq<u8>, w: int, dims: Seq<usize>)
    requires
        w >= 1,
        data.len() == prod(dims) * w,
        forall|i: int| 0 <= i < dims.len() ==> (#[trigger] dims[i]) >= 1,
    ensures
        swap_groups(
            swap_groups(slab_bytes(data, w, dims, zeros(dims.len() as int), dims), w),
            w,
        ) == data,
{
    crate::slab::lemma_full_gather(data, w, dims);
    crate::slab::lemma_prod_pos(dims);
    assert(data.len() as int % w == 0) by (nonlinear_arith)
        requires
            data.len() == prod(dims) * w,
            w >= 1,
            prod(dims) >= 1,
    {}
    lemma_swap_involution(data, w);
}

} // verus!
