//! The dataset facade: the capabilities the serving layer calls.
//!
//! A dataset answers `das` and `dds` from its prebuilt metadata, and
//! `dods` by projecting the constraint and streaming each projected
//! variable's hyperslab as XDR, after a staleness pre-check.

use vstd::prelude::*;
use vstd::string::{StrSliceExecFns, StringExecFns, StringSliceAdditionalSpecFns};

use crate::DapError;
use crate::das::Das;
use crate::dds::{DdsNode, NcDds, split_commas};
use crate::model::{Container, Dimension, VarType, Variable, spec_width};
use crate::slab::{chunks_concat, lemma_prod_le, lemma_prod_pos, prod, slab_bytes, stream_slab};
use crate::xdr::{be_u32_bytes, encode_value, lemma_swap_concat, swap_groups, xdr_length};

verus! {

/// The element budget of one streamed chunk.
pub const CHUNK_ELEMS: usize = 10 * 1024 * 1024;

/// The sizes of a variable's dimensions, in order.
pub open spec fn dim_sizes(v: Variable) -> Seq<usize> {
    v.dims@.map_values(|d: Dimension| d.size)
}

/// The slab origin a projection selects, dimension by dimension; zero
/// where the hyperslab was omitted.
pub open spec fn full_indices(v: Variable, rs: Seq<(usize, usize)>) -> Seq<usize> {
    Seq::new(v.dims@.len(), |i: int| if i < rs.len() {
        rs[i].0
    } else {
        0usize
    })
}

/// The counts a projection selects; the whole dimension where omitted.
pub open spec fn full_counts(v: Variable, rs: Seq<(usize, usize)>) -> Seq<usize> {
    Seq::new(v.dims@.len(), |i: int| if i < rs.len() {
        rs[i].1
    } else {
        v.dims@[i].size
    })
}

/// Every non-scalar variable's full element count fits the 32-bit
/// length prefix, so an unconstrained read of it can be served.
pub open spec fn all_counts_fit(c: &Container) -> bool {
    forall|i: int|
        0 <= i < c.vars@.len() ==> ((#[trigger] c.vars@[i]).dims@.len() == 0 || prod(
            dim_sizes(c.vars@[i]),
        ) <= u32::MAX)
}

/// The payload buffers match the container: one buffer per variable,
/// holding exactly its row-major values.
pub open spec fn data_wf(c: &Container, data: Seq<Vec<u8>>) -> bool {
    &&& data.len() == c.vars@.len()
    &&& forall|i: int|
        0 <= i < data.len() ==> (#[trigger] data[i])@.len() == prod(dim_sizes(c.vars@[i]))
            * spec_width(c.vars@[i].vartype)
    &&& forall|i: int, j: int|
        0 <= i < c.vars@.len() && 0 <= j < (#[trigger] c.vars@[i]).dims@.len() ==> (
        #[trigger] c.vars@[i].dims@[j]).size >= 1
}

/// The dimension sizes of a variable as a vector.
pub(crate) fn dims_of(v: &Variable) -> (r: Vec<usize>)
    ensures
        r@ == dim_sizes(*v),
{
    let n = v.dims.len();
    let mut r: Vec<usize> = Vec::new();
    let mut i: usize = 0;
    while i < n
        invariant
            i <= n,
            n == v.dims@.len(),
            r@.len() == i,
            forall|j: int| 0 <= j < i ==> (#[trigger] r@[j]) == v.dims@[j].size,
        decreases n - i,
    {
        r.push(v.dims[i].size);
        i = i + 1;
    }
    proof {
        assert(r@ =~= dim_sizes(*v));
    }
    r
}

/// The full wire image of one projected variable: a scalar's packed
/// value alone; otherwise the element count twice, big-endian, then
/// the packed slab.
pub open spec fn var_wire_bytes(v: Variable, bytes: Seq<u8>, rs: Seq<(usize, usize)>) -> Seq<
    u8,
> {
    if v.dims@.len() == 0 {
        swap_groups(bytes, spec_width(v.vartype))
    } else {
        be_u32_bytes(prod(full_counts(v, rs))) + be_u32_bytes(prod(full_counts(v, rs)))
            + swap_groups(
            slab_bytes(
                bytes,
                spec_width(v.vartype),
                dim_sizes(v),
                full_indices(v, rs),
                full_counts(v, rs),
            ),
            spec_width(v.vartype),
        )
    }
}

/// Streams one projected variable as XDR: for a non-scalar, the length
/// prefix (the element count, twice, big-endian) followed by the packed
/// slab in chunks; for a scalar, just its packed value.
pub fn var_xdr(bytes: &Vec<u8>, v: &Variable, rs: &Vec<(usize, usize)>, budget: usize) -> (r:
    Result<Vec<Vec<u8>>, DapError>)
    requires
        budget >= 1,
        bytes@.len() == prod(dim_sizes(*v)) * spec_width(v.vartype),
        forall|j: int| 0 <= j < v.dims@.len() ==> (#[trigger] v.dims@[j]).size >= 1,
    ensures
        r matches Ok(chunks) ==> {
            &&& crate::dds::spec_ranges_valid(*v, rs@)
            &&& if v.dims@.len() == 0 {
                chunks@.len() == 1 && chunks@[0]@ == swap_groups(bytes@, spec_width(v.vartype))
            } else {
                &&& chunks@.len() >= 1
                &&& prod(full_counts(*v, rs@)) <= u32::MAX
                &&& chunks@[0]@ == be_u32_bytes(prod(full_counts(*v, rs@))) + be_u32_bytes(
                    prod(full_counts(*v, rs@)),
                )
                &&& chunks_concat(chunks@.subrange(1, chunks@.len() as int)) == swap_groups(
                    slab_bytes(
                        bytes@,
                        spec_width(v.vartype),
                        dim_sizes(*v),
                        full_indices(*v, rs@),
                        full_counts(*v, rs@),
                    ),
                    spec_width(v.vartype),
                )
            }
        },
        !crate::dds::spec_ranges_valid(*v, rs@) ==> r === Err(DapError::InvalidConstraint),
        crate::dds::spec_ranges_valid(*v, rs@) && v.dims@.len() > 0 && prod(full_counts(*v, rs@))
            > u32::MAX ==> r === Err(DapError::Overflow),
        crate::dds::spec_ranges_valid(*v, rs@) && (v.dims@.len() == 0 || prod(
            full_counts(*v, rs@),
        ) <= u32::MAX) ==> r is Ok,
        r matches Ok(chunks) ==> chunks_concat(chunks@) == var_wire_bytes(*v, bytes@, rs@),
{
    let w = v.vartype.width();
    let nd = v.dims.len();
    if rs.len() > nd {
        return Err(DapError::InvalidConstraint);
    }
    // Fill in the hyperslab defaults and validate each axis.
    let mut idx: Vec<usize> = Vec::new();
    let mut cnt: Vec<usize> = Vec::new();
    let mut i: usize = 0;
    while i < nd
        invariant
            i <= nd,
            nd == v.dims@.len(),
            rs@.len() <= nd,
            idx@.len() == i,
            cnt@.len() == i,
            forall|j: int| 0 <= j < i ==> (#[trigger] idx@[j]) == full_indices(*v, rs@)[j],
            forall|j: int| 0 <= j < i ==> (#[trigger] cnt@[j]) == full_counts(*v, rs@)[j],
            forall|j: int| 0 <= j < nd ==> (#[trigger] v.dims@[j]).size >= 1,
            forall|j: int|
                0 <= j < i && j < rs@.len() ==> 1 <= (#[trigger] rs@[j]).1 && rs@[j].0 + rs@[j].1
                    <= v.dims@[j].size,
        decreases nd - i,
    {
        if i < rs.len() {
            let (st, ct) = rs[i];
            if ct < 1 || st > v.dims[i].size || v.dims[i].size - st < ct {
                return Err(DapError::InvalidConstraint);
            }
            idx.push(st);
            cnt.push(ct);
        } else {
            idx.push(0);
            cnt.push(v.dims[i].size);
        }
        i = i + 1;
    }
    proof {
        assert(idx@ =~= full_indices(*v, rs@));
        assert(cnt@ =~= full_counts(*v, rs@));
    }
    let dims = dims_of(v);
    if nd == 0 {
        // Scalars carry no length prefix.
        let packed = match encode_value(bytes, w) {
            Ok(p) => p,
            Err(_) => {
                proof {
                    assert(prod(dim_sizes(*v)) == 1);
                    assert(1 * spec_width(v.vartype) == spec_width(v.vartype))
                        by (nonlinear_arith);
                    assert(false);
                }
                return Err(DapError::InternalDecodeError);
            },
        };
        let mut r: Vec<Vec<u8>> = Vec::new();
        r.push(packed);
        proof {
            assert(prod(dim_sizes(*v)) == 1);
            assert(1 * spec_width(v.vartype) == spec_width(v.vartype)) by (nonlinear_arith);
            assert(r@.drop_last() =~= Seq::<Vec<u8>>::empty());
            assert(chunks_concat(Seq::<Vec<u8>>::empty()) =~= Seq::<u8>::empty());
            assert(chunks_concat(r@) =~= var_wire_bytes(*v, bytes@, rs@));
        }
        return Ok(r);
    }
    // The total element count must fit the 32-bit prefix.
    let dlen = bytes.len();
    proof {
        assert forall|j: int|
            0 <= j < cnt@.len() implies 1 <= (#[trigger] cnt@[j]) && cnt@[j] <= dims@[j] by {}
        lemma_prod_le(cnt@, dims@);
        lemma_prod_pos(dims@);
        assert(prod(dims@) <= prod(dims@) * w) by (nonlinear_arith)
            requires
                w >= 1,
                prod(dims@) >= 1,
        {}
        assert(prod(cnt@) <= dlen);
    }
    let mut product: usize = 1;
    let mut i: usize = 0;
    while i < nd
        invariant
            i <= nd,
            nd == cnt@.len(),
            product as int == prod(cnt@.subrange(0, i as int)),
            prod(cnt@) <= usize::MAX,
            forall|j: int| 0 <= j < nd ==> (#[trigger] cnt@[j]) >= 1,
        decreases nd - i,
    {
        proof {
            crate::slab::lemma_prod_split(cnt@, i as int + 1);
            let pre = cnt@.subrange(0, i as int + 1);
            assert(pre.drop_last() =~= cnt@.subrange(0, i as int));
            crate::slab::lemma_prod_split(pre, i as int);
            assert(pre.subrange(0, i as int) =~= cnt@.subrange(0, i as int));
            assert(pre.subrange(i as int, i + 1) =~= seq![cnt@[i as int]]);
            assert(prod(seq![cnt@[i as int]]) == cnt@[i as int] as int * prod(
                Seq::<usize>::empty(),
            )) by {
                assert(seq![cnt@[i as int]].subrange(1, 1) =~= Seq::<usize>::empty());
            }
            assert(cnt@[i as int] as int * 1 == cnt@[i as int] as int) by (nonlinear_arith);
            // The running product stays within the total.
            assert forall|j: int|
                0 <= j < pre.len() implies 1 <= (#[trigger] pre[j]) && pre[j] <= cnt@[j] by {}
            let rest = cnt@.subrange(i as int + 1, nd as int);
            assert forall|j: int| 0 <= j < rest.len() implies (#[trigger] rest[j]) >= 1 by {
                assert(rest[j] == cnt@[i + 1 + j]);
            }
            crate::slab::lemma_prod_pos(rest);
            assert(prod(pre) <= prod(cnt@)) by (nonlinear_arith)
                requires
                    prod(cnt@) == prod(pre) * prod(cnt@.subrange(i as int + 1, nd as int)),
                    prod(cnt@.subrange(i as int + 1, nd as int)) >= 1,
                    prod(pre) >= 0,
            {}
            crate::slab::lemma_prod_pos_weak(pre);
        }
        product = product * cnt[i];
        i = i + 1;
    }
    proof {
        assert(cnt@.subrange(0, nd as int) =~= cnt@);
    }
    if product > 0xffff_ffffusize {
        return Err(DapError::Overflow);
    }
    let mut out: Vec<Vec<u8>> = Vec::new();
    out.push(xdr_length(product as u32));
    proof {
        assert((product as u32) as int == product as int);
        assert(out@[0]@ == be_u32_bytes(product as int) + be_u32_bytes(product as int));
    }
    let chunks = stream_slab(bytes, w, &dims, &idx, &cnt, budget);
    // Pack each chunk; element alignment makes chunk-wise packing equal
    // packing the whole payload.
    let ghost payload = slab_bytes(bytes@, w as int, dims@, idx@, cnt@);
    let nc = chunks.len();
    let mut k: usize = 0;
    proof {
        assert(chunks_concat(chunks@.subrange(0, 0)) =~= Seq::<u8>::empty());
        assert(swap_groups(Seq::<u8>::empty(), w as int) =~= Seq::<u8>::empty());
        assert(out@.subrange(1, 1) =~= Seq::<Vec<u8>>::empty());
        vstd::arithmetic::div_mod::lemma_mod_self_0(w as int);
        assert(Seq::<u8>::empty().len() as int % (w as int) == 0) by {
            assert(0int % (w as int) == 0) by (nonlinear_arith)
                requires w >= 1,
            {}
        }
    }
    while k < nc
        invariant
            k <= nc,
            nc == chunks@.len(),
            w >= 1,
            out@.len() == k + 1,
            out@[0]@ == be_u32_bytes(product as int) + be_u32_bytes(product as int),
            payload == chunks_concat(chunks@),
            forall|j: int|
                0 <= j < chunks@.len() ==> (#[trigger] chunks@[j])@.len() as int % (w as int) == 0,
            chunks_concat(chunks@.subrange(0, k as int)).len() as int % (w as int) == 0,
            chunks_concat(out@.subrange(1, out@.len() as int)) == swap_groups(
                chunks_concat(chunks@.subrange(0, k as int)),
                w as int,
            ),
        decreases nc - k,
    {
        proof {
            vstd::arithmetic::div_mod::lemma_mod_bound(
                chunks@[k as int]@.len() as int,
                w as int,
            );
        }
        let packed = crate::xdr::swap_bytes(&chunks[k], w);
        let ghost outpre = out@;
        let ghost donepre = chunks_concat(chunks@.subrange(0, k as int));
        out.push(packed);
        proof {
            let done = chunks_concat(chunks@.subrange(0, k + 1));
            assert(chunks@.subrange(0, k + 1).drop_last() =~= chunks@.subrange(0, k as int));
            assert(chunks@.subrange(0, k + 1).last() == chunks@[k as int]);
            assert(done == donepre + chunks@[k as int]@);
            lemma_swap_concat(donepre, chunks@[k as int]@, w as int);
            assert(out@.subrange(1, out@.len() as int).drop_last() =~= outpre.subrange(
                1,
                outpre.len() as int,
            ));
            assert(out@.subrange(1, out@.len() as int).last() == packed);
            assert(chunks_concat(out@.subrange(1, out@.len() as int)) == chunks_concat(
                outpre.subrange(1, outpre.len() as int),
            ) + packed@);
            // Alignment carries to the grown prefix.
            vstd::arithmetic::div_mod::lemma_add_mod_noop(
                donepre.len() as int,
                chunks@[k as int]@.len() as int,
                w as int,
            );
            assert((0int + 0int) % (w as int) == 0) by (nonlinear_arith)
                requires w >= 1,
            {}
        }
        k = k + 1;
    }
    proof {
        assert(chunks@.subrange(0, nc as int) =~= chunks@);
        assert(crate::dds::spec_ranges_valid(*v, rs@));
        assert(product as int == prod(full_counts(*v, rs@)));
        assert(out@[0]@ == be_u32_bytes(product as int) + be_u32_bytes(product as int));
        assert(chunks_concat(out@.subrange(1, out@.len() as int)) == swap_groups(
            payload,
            w as int,
        ));
        assert(payload == slab_bytes(
            bytes@,
            spec_width(v.vartype),
            dim_sizes(*v),
            full_indices(*v, rs@),
            full_counts(*v, rs@),
        ));
        crate::slab::lemma_chunks_concat_front(out@);
        assert(chunks_concat(out@) =~= var_wire_bytes(*v, bytes@, rs@));
    }
    Ok(out)
}

/// A single-container dataset: its identity, the modification time its
/// opener recorded, and its prebuilt metadata.
pub struct NcDataset {
    /// The dataset's mount name.
    pub filename: String,
    /// The file's modification time when opened, in nanoseconds.
    pub mtime: u64,
    /// The prebuilt attribute structure.
    pub das: Das,
    /// The descriptor engine.
    pub dds: NcDds,
}

/// An HDF5-backed dataset served through a persisted chunk index; the
/// index itself is built and stored outside this crate.
pub struct Hdf5Dataset {
    /// The file's path.
    pub path: String,
    /// The canonical path keying the persisted chunk index.
    pub idxkey: String,
    /// The file's modification time when opened, in nanoseconds.
    pub modified: u64,
    /// The prebuilt attribute structure.
    pub das: Das,
    /// The descriptor engine.
    pub dds: NcDds,
}

impl Hdf5Dataset {
    /// The attribute response body.
    pub fn das(&self) -> (r: &str)
        ensures
            r@ == self.das.0@,
    {
        self.das.as_str()
    }

    /// The descriptor response body, constrained or not.
    pub fn dds(&self, constraint: Option<&str>) -> (r: Result<String, DapError>)
        requires
            self.dds.container.wf(),
        ensures
            constraint is None ==> r is Ok,
            constraint is None ==> (r matches Ok(s) ==> exists|nodes: Seq<DdsNode>|
                {
                    &&& s@ == #[trigger] crate::dds::dataset_text(self.dds.container.name@, nodes)
                    &&& crate::dds::unconstrained_nodes_ok(&self.dds.container, nodes)
                }),
            constraint matches Some(q) ==> (r matches Ok(s) ==> constrained_text_ok(
                &self.dds.container,
                q@,
                s@,
            )),
    {
        self.dds.dds(constraint)
    }

    /// Fails a data request whose file changed on disk after open.
    pub fn check_fresh(&self, mtime_now: u64) -> (r: Result<(), DapError>)
        ensures
            r is Ok <==> mtime_now == self.modified,
            r is Err ==> r === Err(DapError::StaleDataset),
    {
        if mtime_now != self.modified {
            Err(DapError::StaleDataset)
        } else {
            Ok(())
        }
    }

    /// Answers a data request from the chunk-indexed file's values: the
    /// same body as any single-container dataset, after the staleness
    /// pre-check.
    pub fn dods(&self, data: &Vec<Vec<u8>>, constraint: Option<&str>, mtime_now: u64) -> (r:
        Result<Vec<Vec<u8>>, DapError>)
        requires
            self.dds.container.wf(),
            data_wf(&self.dds.container, data@),
        ensures
            mtime_now != self.modified ==> r === Err(DapError::StaleDataset),
            r is Ok ==> mtime_now == self.modified,
            r matches Ok(chunks) ==> dods_body_ok(&self.dds.container, data@, constraint, chunks@),
            mtime_now == self.modified && constraint is None && all_counts_fit(&self.dds.container)
                ==> r is Ok,
    {
        if mtime_now != self.modified {
            return Err(DapError::StaleDataset);
        }
        container_dods(&self.dds, data, constraint)
    }
}

/// The constrained DDS text for the constraint `q`: the render of the
/// nodes its projections spell, in order.
pub open spec fn constrained_text_ok(c: &Container, q: Seq<char>, s: Seq<char>) -> bool {
    exists|parts: Seq<Seq<char>>, nodes: Seq<DdsNode>|
        #![trigger crate::dds::split_of(q, parts), crate::dds::dataset_text(c.name@, nodes)]
        {
            &&& crate::dds::split_of(q, parts)
            &&& nodes.len() == parts.len()
            &&& s == crate::dds::dataset_text(c.name@, nodes)
            &&& forall|i: int|
                0 <= i < parts.len() ==> crate::dds::proj_node_ok(
                    c,
                    #[trigger] parts[i],
                    nodes[i],
                )
        }
}

impl NcDataset {
    /// The dataset's mount name.
    pub fn name(&self) -> (r: String)
        ensures
            r@ == self.filename@,
    {
        self.filename.clone()
    }

    /// The attribute response body.
    pub fn das_text(&self) -> (r: &str)
        ensures
            r@ == self.das.0@,
    {
        self.das.as_str()
    }

    /// The descriptor response body, constrained or not.
    pub fn dds_text(&self, constraint: Option<&str>) -> (r: Result<String, DapError>)
        requires
            self.dds.container.wf(),
        ensures
            constraint is None ==> r is Ok,
            constraint is None ==> (r matches Ok(s) ==> exists|nodes: Seq<DdsNode>|
                {
                    &&& s@ == #[trigger] crate::dds::dataset_text(self.dds.container.name@, nodes)
                    &&& crate::dds::unconstrained_nodes_ok(&self.dds.container, nodes)
                }),
            constraint matches Some(q) ==> (r matches Ok(s) ==> constrained_text_ok(
                &self.dds.container,
                q@,
                s@,
            )),
    {
        self.dds.dds(constraint)
    }

    /// Answers a data request: the constrained DDS text, the
    /// `"\nData:\r\n"` separator, then each projected variable's XDR
    /// stream, in constraint order. If the file's modification time no
    /// longer matches the one recorded at open, the request fails with
    /// a stale-dataset error before any byte of the body is produced.
    pub fn dods(&self, data: &Vec<Vec<u8>>, constraint: Option<&str>, mtime_now: u64) -> (r:
        Result<Vec<Vec<u8>>, DapError>)
        requires
            self.dds.container.wf(),
            data_wf(&self.dds.container, data@),
        ensures
            mtime_now != self.mtime ==> r === Err(DapError::StaleDataset),
            r is Ok ==> mtime_now == self.mtime,
            r matches Ok(chunks) ==> dods_body_ok(&self.dds.container, data@, constraint, chunks@),
            mtime_now == self.mtime && constraint is None && all_counts_fit(&self.dds.container)
                ==> r is Ok,
    {
        if mtime_now != self.mtime {
            return Err(DapError::StaleDataset);
        }
        container_dods(&self.dds, data, constraint)
    }
}

/// The bytes of a list of wire streams, in order.
pub open spec fn concat_wires(ws: Seq<Seq<u8>>) -> Seq<u8>
    decreases ws.len(),
{
    if ws.len() == 0 {
        Seq::empty()
    } else {
        concat_wires(ws.drop_last()) + ws.last()
    }
}

/// The wire streams of the first `i` variables of a container, each
/// unconstrained: the body of a DODS response without a constraint.
pub open spec fn unconstrained_wires(c: &Container, data: Seq<Vec<u8>>, i: int) -> Seq<u8>
    decreases i,
{
    if i <= 0 {
        Seq::empty()
    } else {
        unconstrained_wires(c, data, i - 1) + var_wire_bytes(
            c.vars@[i - 1],
            data[i - 1]@,
            Seq::empty(),
        )
    }
}

/// The wire stream `wire` answers the projection `part`: the node is
/// the projection's, and the bytes are the projected variable's own
/// data, sliced and packed under the projection's ranges.
pub open spec fn wire_resolved(
    c: &Container,
    data: Seq<Vec<u8>>,
    part: Seq<char>,
    node: DdsNode,
    wire: Seq<u8>,
) -> bool {
    exists|vi: int, rs: Seq<(usize, usize)>|
        {
            &&& #[trigger] crate::dds::proj_resolved(c, part, node, vi, rs)
            &&& wire == var_wire_bytes(c.vars@[vi], data[vi]@, rs)
        }
}

/// What a DODS body is: the DDS text for this very constraint, the
/// separator, then the projected variables' wire streams, in
/// constraint order, served from the container's own data.
pub open spec fn dods_body_ok(
    c: &Container,
    data: Seq<Vec<u8>>,
    constraint: Option<&str>,
    chunks: Seq<Vec<u8>>,
) -> bool {
    &&& chunks.len() >= 2
    &&& chunks[1]@ == "\nData:\r\n".spec_bytes()
    &&& (constraint is None ==> exists|nodes: Seq<DdsNode>|
        {
            &&& chunks[0]@ == vstd::utf8::encode_utf8(
                #[trigger] crate::dds::dataset_text(c.name@, nodes),
            )
            &&& crate::dds::unconstrained_nodes_ok(c, nodes)
            &&& chunks_concat(chunks.subrange(2, chunks.len() as int)) == unconstrained_wires(
                c,
                data,
                c.vars@.len() as int,
            )
        })
    &&& (constraint matches Some(q) ==> exists|
        parts: Seq<Seq<char>>,
        nodes: Seq<DdsNode>,
        wires: Seq<Seq<u8>>,
    |
        #![trigger crate::dds::split_of(q@, parts), crate::dds::dataset_text(c.name@, nodes), concat_wires(wires)]
        {
            &&& crate::dds::split_of(q@, parts)
            &&& nodes.len() == parts.len()
            &&& wires.len() == parts.len()
            &&& chunks[0]@ == vstd::utf8::encode_utf8(crate::dds::dataset_text(c.name@, nodes))
            &&& forall|i: int|
                #![trigger parts[i]]
                0 <= i < parts.len() ==> wire_resolved(c, data, parts[i], nodes[i], wires[i])
            &&& chunks_concat(chunks.subrange(2, chunks.len() as int)) == concat_wires(wires)
        })
}

/// Builds a DODS body against a container: projects the constraint,
/// renders the constrained DDS, and streams each projected variable.
#[verifier::rlimit(100)]
#[verifier::spinoff_prover]
fn container_dods(engine: &NcDds, data: &Vec<Vec<u8>>, constraint: Option<&str>) -> (r: Result<
    Vec<Vec<u8>>,
    DapError,
>)
    requires
        engine.container.wf(),
        data_wf(&engine.container, data@),
    ensures
        r matches Ok(chunks) ==> dods_body_ok(&engine.container, data@, constraint, chunks@),
        constraint is None && all_counts_fit(&engine.container) ==> r is Ok,
{
    let c = &engine.container;
    let mut nodes: Vec<DdsNode> = Vec::new();
    let mut tail: Vec<Vec<u8>> = Vec::new();
    let ghost mut wires: Seq<Seq<u8>> = Seq::empty();
    let ghost mut parts_view: Seq<Seq<char>> = Seq::empty();
    proof {
        assert(chunks_concat(Seq::<Vec<u8>>::empty()) =~= Seq::<u8>::empty());
        assert(concat_wires(Seq::<Seq<u8>>::empty()) =~= Seq::<u8>::empty());
    }
    match constraint {
        None => {
            let nv = c.vars.len();
            let empty: Vec<(usize, usize)> = Vec::new();
            proof {
                assert(empty@ =~= Seq::<(usize, usize)>::empty());
            }
            let mut i: usize = 0;
            while i < nv
                invariant
                    i <= nv,
                    nv == c.vars@.len(),
                    c == &engine.container,
                    c.wf(),
                    data_wf(c, data@),
                    constraint is None,
                    empty@ =~= Seq::<(usize, usize)>::empty(),
                    nodes@.len() == i,
                    forall|j: int|
                        0 <= j < i ==> crate::dds::node_ok(
                            c,
                            c.vars@[j],
                            Seq::empty(),
                            #[trigger] nodes@[j],
                        ),
                    chunks_concat(tail@) == unconstrained_wires(c, data@, i as int),
                decreases nv - i,
            {
                let v = &c.vars[i];
                proof {
                    assert(data@[i as int]@.len() == prod(dim_sizes(c.vars@[i as int]))
                        * spec_width(c.vars@[i as int].vartype));
                }
                let node = match crate::dds::project_var(c, v, &empty) {
                    Ok(node) => node,
                    Err(_) => {
                        proof {
                            assert(crate::dds::spec_ranges_valid(*v, empty@));
                            assert(false);
                        }
                        return Err(DapError::InternalDecodeError);
                    },
                };
                nodes.push(node);
                let vc = match var_xdr(&data[i], v, &empty, CHUNK_ELEMS) {
                    Ok(vc) => vc,
                    Err(e) => {
                        proof {
                            // Only an unconstrained count past the
                            // prefix's range can fail here.
                            if all_counts_fit(c) {
                                assert(full_counts(*v, empty@) =~= dim_sizes(*v));
                                assert(v.dims@.len() == 0 || prod(dim_sizes(c.vars@[i as int]))
                                    <= u32::MAX);
                                assert(false);
                            }
                        }
                        return Err(e);
                    },
                };
                append_chunks(&mut tail, vc);
                proof {
                    assert(chunks_concat(tail@) == unconstrained_wires(c, data@, i + 1));
                }
                i = i + 1;
            }
        },
        Some(q) => {
            let parts = split_commas(q);
            proof {
                parts_view = parts@.map_values(|p: String| p@);
                assert(crate::dds::split_of(q@, parts_view));
            }
            let np = parts.len();
            let mut i: usize = 0;
            while i < np
                invariant
                    i <= np,
                    np == parts@.len(),
                    constraint == Some(q),
                    c == &engine.container,
                    c.wf(),
                    data_wf(c, data@),
                    parts_view == parts@.map_values(|p: String| p@),
                    crate::dds::split_of(q@, parts_view),
                    nodes@.len() == i,
                    wires.len() == i,
                    forall|j: int|
                        0 <= j < i ==> #[trigger] wire_resolved(
                            c,
                            data@,
                            parts_view[j],
                            nodes@[j],
                            wires[j],
                        ),
                    chunks_concat(tail@) == concat_wires(wires),
                decreases np - i,
            {
                let (node, vi, rs) = match engine.project_part(parts[i].as_str()) {
                    Ok(t) => t,
                    Err(e) => { return Err(e); },
                };
                let v = &c.vars[vi];
                proof {
                    assert(data@[vi as int]@.len() == prod(dim_sizes(c.vars@[vi as int]))
                        * spec_width(c.vars@[vi as int].vartype));
                }
                let vc = match var_xdr(&data[vi], v, &rs, CHUNK_ELEMS) {
                    Ok(vc) => vc,
                    Err(e) => { return Err(e); },
                };
                let ghost wire = var_wire_bytes(c.vars@[vi as int], data@[vi as int]@, rs@);
                let ghost prenodes = nodes@;
                nodes.push(node);
                append_chunks(&mut tail, vc);
                proof {
                    let prewires = wires;
                    wires = wires.push(wire);
                    assert(wires.drop_last() =~= prewires);
                    assert(wires.last() == wire);
                    assert(chunks_concat(tail@) == concat_wires(wires));
                    assert(nodes@[i as int] == node);
                    assert(crate::dds::proj_resolved(
                        c,
                        parts_view[i as int],
                        nodes@[i as int],
                        vi as int,
                        rs@,
                    ));
                    assert(wires[i as int] == var_wire_bytes(
                        c.vars@[vi as int],
                        data@[vi as int]@,
                        rs@,
                    ));
                    assert(wire_resolved(
                        c,
                        data@,
                        parts_view[i as int],
                        nodes@[i as int],
                        wires[i as int],
                    ));
                    // The earlier projections keep their witnesses.
                    assert forall|j: int|
                        0 <= j < i implies #[trigger] wire_resolved(
                        c,
                        data@,
                        parts_view[j],
                        nodes@[j],
                        wires[j],
                    ) by {
                        assert(nodes@[j] == prenodes[j]);
                        assert(wires[j] == prewires[j]);
                        assert(wire_resolved(c, data@, parts_view[j], prenodes[j], prewires[j]));
                    }
                }
                i = i + 1;
            }
        },
    }
    let text = crate::dds::render_dataset(c.name.as_str(), &nodes);
    let mut out: Vec<Vec<u8>> = Vec::new();
    out.push(text.as_str().as_bytes_vec());
    out.push("\nData:\r\n".as_bytes_vec());
    let ghost body = chunks_concat(tail@);
    proof {
        assert(out@.subrange(2, 2) =~= Seq::<Vec<u8>>::empty());
    }
    #[verifier::loop_isolation(false)]
    while tail.len() > 0
        invariant
            out@.len() >= 2,
            out@[0]@ == vstd::utf8::encode_utf8(text@),
            out@[1]@ == "\nData:\r\n".spec_bytes(),
            chunks_concat(out@.subrange(2, out@.len() as int)) + chunks_concat(tail@) == body,
        decreases tail@.len(),
    {
        let ghost pretail = tail@;
        let ghost preout = out@;
        let chunk = tail.remove(0);
        out.push(chunk);
        proof {
            crate::slab::lemma_chunks_concat_front(pretail);
            assert(tail@ =~= pretail.subrange(1, pretail.len() as int));
            assert(out@.subrange(2, out@.len() as int).drop_last() =~= preout.subrange(
                2,
                preout.len() as int,
            ));
            assert(out@.subrange(2, out@.len() as int).last() == pretail[0]);
            assert(chunks_concat(out@.subrange(2, out@.len() as int)) == chunks_concat(
                preout.subrange(2, preout.len() as int),
            ) + pretail[0]@);
            assert((chunks_concat(preout.subrange(2, preout.len() as int)) + pretail[0]@)
                + chunks_concat(pretail.subrange(1, pretail.len() as int)) =~= chunks_concat(
                preout.subrange(2, preout.len() as int),
            ) + (pretail[0]@ + chunks_concat(pretail.subrange(1, pretail.len() as int))));
        }
    }
    proof {
        assert(chunks_concat(tail@) =~= Seq::<u8>::empty());
        assert(chunks_concat(out@.subrange(2, out@.len() as int)) + Seq::<u8>::empty()
            =~= chunks_concat(out@.subrange(2, out@.len() as int)));
        assert(chunks_concat(out@.subrange(2, out@.len() as int)) == body);
        match constraint {
            None => {
                assert(out@[0]@ == vstd::utf8::encode_utf8(
                    crate::dds::dataset_text(c.name@, nodes@),
                ));
                assert(crate::dds::unconstrained_nodes_ok(c, nodes@));
            },
            Some(q) => {
                assert(crate::dds::split_of(q@, parts_view));
                assert(out@[0]@ == vstd::utf8::encode_utf8(
                    crate::dds::dataset_text(c.name@, nodes@),
                ));
                assert(chunks_concat(out@.subrange(2, out@.len() as int)) == concat_wires(wires));
            },
        }
        assert(dods_body_ok(&engine.container, data@, constraint, out@));
    }
    Ok(out)
}

/// Moves a variable's stream chunks onto the end of the body.
pub(crate) fn append_chunks(tail: &mut Vec<Vec<u8>>, vc: Vec<Vec<u8>>)
    ensures
        chunks_concat(final(tail)@) == chunks_concat(old(tail)@) + chunks_concat(vc@),
{
    let ghost pre = chunks_concat(tail@);
    let ghost all = chunks_concat(vc@);
    let mut vc = vc;
    while vc.len() > 0
        invariant
            chunks_concat(tail@) + chunks_concat(vc@) == pre + all,
        decreases vc@.len(),
    {
        let ghost prev = vc@;
        let ghost pret = tail@;
        let chunk = vc.remove(0);
        tail.push(chunk);
        proof {
            crate::slab::lemma_chunks_concat_front(prev);
            assert(vc@ =~= prev.subrange(1, prev.len() as int));
            assert(tail@.drop_last() =~= pret);
            assert(tail@.last() == prev[0]);
            assert(chunks_concat(tail@) == chunks_concat(pret) + prev[0]@);
            assert((chunks_concat(pret) + prev[0]@) + chunks_concat(
                prev.subrange(1, prev.len() as int),
            ) =~= chunks_concat(pret) + (prev[0]@ + chunks_concat(
                prev.subrange(1, prev.len() as int),
            )));
        }
    }
    proof {
        assert(chunks_concat(vc@) =~= Seq::<u8>::empty());
        assert(chunks_concat(tail@) + Seq::<u8>::empty() =~= chunks_concat(tail@));
    }
}

} // verus!
