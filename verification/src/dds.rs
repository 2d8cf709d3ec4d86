//! The DDS (Data Descriptor Structure) builder.
//!
//! An unconstrained DDS lists every variable of a container; a constraint
//! expression projects a DDS naming only the requested variables, with
//! each printed dimension extent replaced by the hyperslab's count.

use vstd::prelude::*;
use vstd::string::{StrSliceExecFns, StringExecFns};

use crate::DapError;
use crate::hyperslab::{parse_hyperslab, slab_range, spec_slab_count};
use crate::model::{Container, VarType, Variable, spec_type_name};
use crate::text::{dec_str, push_spaces, push_usize, spaces};

verus! {

/// One printed dimension selection `[name = size]`.
#[derive(Clone, Debug)]
pub struct DimSel {
    pub name: String,
    pub size: usize,
}

/// One map line of a Grid: a coordinate variable with its selection.
#[derive(Clone, Debug)]
pub struct MapSel {
    pub vartype: VarType,
    pub name: String,
    pub sel: DimSel,
}

/// One node of a (possibly constrained) DDS.
#[derive(Clone, Debug)]
pub enum DdsNode {
    /// A plain array or scalar.
    Atomic { vartype: VarType, name: String, sels: Vec<DimSel> },
    /// An array each of whose dimensions has a same-named coordinate
    /// variable, bundled with those coordinates.
    Grid { vartype: VarType, name: String, sels: Vec<DimSel>, maps: Vec<MapSel> },
    /// A single Grid map projected without its siblings.
    Structure { varname: String, mtype: VarType, mname: String, msels: Vec<DimSel> },
}

/// The text of one `[name = size]` selection.
pub open spec fn sel_text(s: DimSel) -> Seq<char> {
    "["@ + s.name@ + " = "@ + dec_str(s.size as int) + "]"@
}

/// The text of a run of selections.
pub open spec fn sels_text(ss: Seq<DimSel>) -> Seq<char>
    decreases ss.len(),
{
    if ss.len() == 0 {
        Seq::empty()
    } else {
        sels_text(ss.drop_last()) + sel_text(ss.last())
    }
}

/// One `<type> <name><sels>;` line at the given indent, without a newline.
pub open spec fn atomic_line(ind: int, t: VarType, name: Seq<char>, ss: Seq<DimSel>) -> Seq<char> {
    spaces(ind) + spec_type_name(t) + " "@ + name + sels_text(ss) + ";"@
}

/// The map lines of a Grid, each on its own line.
pub open spec fn maps_text(ms: Seq<MapSel>) -> Seq<char>
    decreases ms.len(),
{
    if ms.len() == 0 {
        Seq::empty()
    } else {
        maps_text(ms.drop_last()) + atomic_line(
            8,
            ms.last().vartype,
            ms.last().name@,
            seq![ms.last().sel],
        ) + "\n"@
    }
}

/// The text of one DDS node, newline-terminated.
pub open spec fn node_text(n: DdsNode) -> Seq<char> {
    match n {
        DdsNode::Atomic { vartype, name, sels } => atomic_line(4, vartype, name@, sels@) + "\n"@,
        DdsNode::Grid { vartype, name, sels, maps } => grid_text(vartype, name@, sels@, maps@),
        DdsNode::Structure { varname, mtype, mname, msels } => structure_text(
            varname@,
            mtype,
            mname@,
            msels@,
        ),
    }
}

/// The concatenated texts of a node list.
pub open spec fn nodes_text(ns: Seq<DdsNode>) -> Seq<char>
    decreases ns.len(),
{
    if ns.len() == 0 {
        Seq::empty()
    } else {
        nodes_text(ns.drop_last()) + node_text(ns.last())
    }
}

/// A whole DDS response: the nodes wrapped in `Dataset { ... } name;`.
pub open spec fn dataset_text(name: Seq<char>, ns: Seq<DdsNode>) -> Seq<char> {
    "Dataset {"@ + "\n"@ + nodes_text(ns) + "} "@ + name + ";"@
}

/// Appends the `[name = size]` selections to `out`.
fn push_sels(out: &mut String, ss: &Vec<DimSel>)
    ensures
        final(out)@ == old(out)@ + sels_text(ss@),
{
    let n = ss.len();
    let mut i: usize = 0;
    while i < n
        invariant
            i <= n,
            n == ss@.len(),
            out@ == old(out)@ + sels_text(ss@.subrange(0, i as int)),
        decreases n - i,
    {
        out.append("[");
        out.append(ss[i].name.as_str());
        out.append(" = ");
        push_usize(out, ss[i].size);
        out.append("]");
        i = i + 1;
        proof {
            let pre = ss@.subrange(0, i - 1);
            let post = ss@.subrange(0, i as int);
            assert(post.drop_last() =~= pre);
            assert(post.last() == ss@[i - 1]);
            assert(old(out)@ + sels_text(pre) + "["@ + ss@[i - 1].name@ + " = "@ + dec_str(
                ss@[i - 1].size as int,
            ) + "]"@ =~= old(out)@ + sels_text(post));
        }
    }
    proof {
        assert(ss@.subrange(0, n as int) =~= ss@);
    }
}

/// Appends one atomic line (no newline) to `out`.
fn push_atomic_line(out: &mut String, ind: usize, t: VarType, name: &str, ss: &Vec<DimSel>)
    ensures
        final(out)@ == old(out)@ + atomic_line(ind as int, t, name@, ss@),
{
    push_spaces(out, ind);
    out.append(t.name_str());
    out.append(" ");
    out.append(name);
    push_sels(out, ss);
    out.append(";");
    proof {
        assert(old(out)@ + spaces(ind as int) + spec_type_name(t) + " "@ + name@ + sels_text(ss@)
            + ";"@ =~= old(out)@ + atomic_line(ind as int, t, name@, ss@));
    }
}

/// Appends the text of one node to `out`.
pub fn push_node(out: &mut String, n: &DdsNode)
    ensures
        final(out)@ == old(out)@ + node_text(*n),
{
    match n {
        DdsNode::Atomic { vartype, name, sels } => {
            push_atomic_line(out, 4, *vartype, name.as_str(), sels);
            out.append("\n");
            proof {
                assert(old(out)@ + atomic_line(4, *vartype, name@, sels@) + "\n"@ =~= old(out)@
                    + node_text(*n));
            }
        },
        DdsNode::Grid { vartype, name, sels, maps } => {
            push_grid(out, *vartype, name, sels, maps);
            proof {
                assert(old(out)@ + grid_text(*vartype, name@, sels@, maps@) =~= old(out)@
                    + node_text(*n));
            }
        },
        DdsNode::Structure { varname, mtype, mname, msels } => {
            push_structure(out, varname, *mtype, mname, msels);
            proof {
                assert(old(out)@ + structure_text(varname@, *mtype, mname@, msels@) =~= old(out)@
                    + node_text(*n));
            }
        },
    }
}

/// The text of a Grid node.
pub open spec fn grid_text(
    vartype: VarType,
    name: Seq<char>,
    sels: Seq<DimSel>,
    maps: Seq<MapSel>,
) -> Seq<char> {
    spaces(4) + "Grid {"@ + "\n"@ + spaces(4) + " ARRAY:"@ + "\n"@ + atomic_line(
        8,
        vartype,
        name,
        sels,
    ) + "\n"@ + spaces(4) + " MAPS:"@ + "\n"@ + maps_text(maps) + spaces(4) + "} "@ + name + ";"@
        + "\n"@
}

/// The text of a Structure node.
pub open spec fn structure_text(
    varname: Seq<char>,
    mtype: VarType,
    mname: Seq<char>,
    msels: Seq<DimSel>,
) -> Seq<char> {
    spaces(4) + "Structure {"@ + "\n"@ + atomic_line(8, mtype, mname, msels) + "\n"@ + spaces(4)
        + "} "@ + varname + ";"@ + "\n"@
}

/// Appends a Grid node's text to `out`.
#[verifier::rlimit(80)]
fn push_grid(out: &mut String, vartype: VarType, name: &String, sels: &Vec<DimSel>, maps: &Vec<MapSel>)
    ensures
        final(out)@ == old(out)@ + grid_text(vartype, name@, sels@, maps@),
{
    push_spaces(out, 4);
    out.append("Grid {");
    out.append("\n");
    push_spaces(out, 4);
    out.append(" ARRAY:");
    out.append("\n");
    push_atomic_line(out, 8, vartype, name.as_str(), sels);
            out.append("\n");
    push_spaces(out, 4);
    out.append(" MAPS:");
    out.append("\n");
    let ghost mid = out@;
    let nm = maps.len();
    let mut i: usize = 0;
    while i < nm
        invariant
            i <= nm,
            nm == maps@.len(),
            out@ == mid + maps_text(maps@.subrange(0, i as int)),
        decreases nm - i,
    {
        let msel = DimSel { name: maps[i].sel.name.clone(), size: maps[i].sel.size };
        let mut line: Vec<DimSel> = Vec::new();
        line.push(msel);
        push_atomic_line(out, 8, maps[i].vartype, maps[i].name.as_str(), &line);
        out.append("\n");
        i = i + 1;
        proof {
            let pre = maps@.subrange(0, i - 1);
            let post = maps@.subrange(0, i as int);
            assert(post.drop_last() =~= pre);
            assert(post.last() == maps@[i - 1]);
            assert(line@ =~= seq![maps@[i - 1].sel]);
            assert(mid + maps_text(pre) + atomic_line(
                8,
                maps@[i - 1].vartype,
                maps@[i - 1].name@,
                seq![maps@[i - 1].sel],
            ) + "\n"@ =~= mid + maps_text(post));
        }
    }
    proof {
        assert(maps@.subrange(0, nm as int) =~= maps@);
    }
    push_spaces(out, 4);
    out.append("} ");
    out.append(name.as_str());
    out.append(";");
    out.append("\n");
    proof {
        assert(old(out)@ + spaces(4) + "Grid {"@ + "\n"@ + spaces(4) + " ARRAY:"@ + "\n"@
            + atomic_line(8, vartype, name@, sels@) + "\n"@ + spaces(4) + " MAPS:"@ + "\n"@
            + maps_text(maps@) + spaces(4) + "} "@ + name@ + ";"@ + "\n"@ =~= old(out)@
            + grid_text(vartype, name@, sels@, maps@));
    }
}

/// Appends a Structure node's text to `out`.
#[verifier::rlimit(60)]
fn push_structure(out: &mut String, varname: &String, mtype: VarType, mname: &String, msels: &Vec<DimSel>)
    ensures
        final(out)@ == old(out)@ + structure_text(varname@, mtype, mname@, msels@),
{
    push_spaces(out, 4);
    out.append("Structure {");
    out.append("\n");
    push_atomic_line(out, 8, mtype, mname.as_str(), msels);
    out.append("\n");
    push_spaces(out, 4);
    out.append("} ");
    out.append(varname.as_str());
    out.append(";");
    out.append("\n");
    proof {
        assert(old(out)@ + spaces(4) + "Structure {"@ + "\n"@ + atomic_line(
            8,
            mtype,
            mname@,
            msels@,
        ) + "\n"@ + spaces(4) + "} "@ + varname@ + ";"@ + "\n"@ =~= old(out)@ + structure_text(
            varname@,
            mtype,
            mname@,
            msels@,
        ));
    }
}

/// Every range lies inside its dimension and selects at least one
/// element; there are no more ranges than dimensions.
pub open spec fn spec_ranges_valid(v: Variable, rs: Seq<(usize, usize)>) -> bool {
    &&& rs.len() <= v.dims@.len()
    &&& forall|i: int|
        0 <= i < rs.len() ==> 1 <= (#[trigger] rs[i]).1 && rs[i].0 + rs[i].1 <= v.dims@[i].size
}

/// The printed extent of dimension `i`: the hyperslab's count, or the
/// dimension size where the hyperslab was omitted.
pub open spec fn spec_sel_size(v: Variable, rs: Seq<(usize, usize)>, i: int) -> int {
    if i < rs.len() {
        rs[i].1 as int
    } else {
        v.dims@[i].size as int
    }
}

/// `v` renders as a Grid: it has at least two dimensions and every one of
/// them has a same-named coordinate variable.
pub open spec fn spec_is_grid(c: &Container, v: Variable) -> bool {
    v.dims@.len() >= 2 && forall|i: int|
        0 <= i < v.dims@.len() ==> c.spec_has_coord((#[trigger] v.dims@[i]).name@)
}

/// Projection count: every printed `[name = k]` carries the dimension's
/// name and the hyperslab's count, or the dimension size where omitted.
pub open spec fn sels_ok(v: Variable, rs: Seq<(usize, usize)>, sels: Seq<DimSel>) -> bool {
    &&& sels.len() == v.dims@.len()
    &&& forall|i: int|
        0 <= i < sels.len() ==> (#[trigger] sels[i]).name@ == v.dims@[i].name@ && sels[i].size
            as int == spec_sel_size(v, rs, i)
}

/// Each map line names the coordinate variable of the matching dimension
/// and prints that dimension's projected extent.
pub open spec fn maps_ok(c: &Container, v: Variable, sels: Seq<DimSel>, maps: Seq<MapSel>) -> bool {
    &&& maps.len() == v.dims@.len()
    &&& forall|i: int|
        0 <= i < maps.len() ==> {
            let dn = v.dims@[i].name@;
            &&& (#[trigger] maps[i]).name@ == dn
            &&& maps[i].vartype == c.spec_var(dn).vartype
            &&& maps[i].sel.name@ == dn
            &&& maps[i].sel.size == sels[i].size
        }
}

/// What a projected node for variable `v` under ranges `rs` must be.
pub open spec fn node_ok(c: &Container, v: Variable, rs: Seq<(usize, usize)>, node: DdsNode) -> bool {
    match node {
        DdsNode::Atomic { vartype, name, sels } => {
            &&& !spec_is_grid(c, v)
            &&& vartype == v.vartype
            &&& name@ == v.name@
            &&& sels_ok(v, rs, sels@)
        },
        DdsNode::Grid { vartype, name, sels, maps } => {
            &&& spec_is_grid(c, v)
            &&& vartype == v.vartype
            &&& name@ == v.name@
            &&& sels_ok(v, rs, sels@)
            &&& maps_ok(c, v, sels@, maps@)
        },
        DdsNode::Structure { .. } => false,
    }
}

/// What a projected Structure node for member `m` of `v` must be.
pub open spec fn structure_ok(
    c: &Container,
    v: Variable,
    m: Seq<char>,
    rs: Seq<(usize, usize)>,
    node: DdsNode,
) -> bool {
    match node {
        DdsNode::Structure { varname, mtype, mname, msels } => {
            &&& varname@ == v.name@
            &&& mtype == c.spec_var(m).vartype
            &&& mname@ == m
            &&& sels_ok(c.spec_var(m), rs, msels@)
        },
        _ => false,
    }
}

/// Builds the printed selections for `v` under `rs`, validating each
/// range against its dimension.
fn build_sels(v: &Variable, rs: &Vec<(usize, usize)>) -> (r: Result<Vec<DimSel>, DapError>)
    ensures
        r is Ok <==> spec_ranges_valid(*v, rs@),
        r is Err ==> r === Err(DapError::InvalidConstraint),
        r matches Ok(sels) ==> sels_ok(*v, rs@, sels@),
{
    let nd = v.dims.len();
    if rs.len() > nd {
        return Err(DapError::InvalidConstraint);
    }
    let mut sels: Vec<DimSel> = Vec::new();
    let mut i: usize = 0;
    while i < nd
        invariant
            i <= nd,
            nd == v.dims@.len(),
            rs@.len() <= nd,
            sels@.len() == i,
            forall|j: int|
                0 <= j < i ==> (#[trigger] sels@[j]).name@ == v.dims@[j].name@ && sels@[j].size
                    as int == spec_sel_size(*v, rs@, j),
            forall|j: int|
                0 <= j < i && j < rs@.len() ==> 1 <= (#[trigger] rs@[j]).1 && rs@[j].0 + rs@[j].1
                    <= v.dims@[j].size,
        decreases nd - i,
    {
        if i < rs.len() {
            let (st, ct) = rs[i];
            if ct < 1 || st > v.dims[i].size || v.dims[i].size - st < ct {
                return Err(DapError::InvalidConstraint);
            }
            sels.push(DimSel { name: v.dims[i].name.clone(), size: ct });
        } else {
            sels.push(DimSel { name: v.dims[i].name.clone(), size: v.dims[i].size });
        }
        i = i + 1;
    }
    Ok(sels)
}

/// Projects one plain variable: an Atomic node, or a Grid when every
/// dimension has a same-named coordinate variable.
pub fn project_var(c: &Container, v: &Variable, rs: &Vec<(usize, usize)>) -> (r: Result<
    DdsNode,
    DapError,
>)
    requires
        c.wf(),
    ensures
        r is Ok <==> spec_ranges_valid(*v, rs@),
        r is Err ==> r === Err(DapError::InvalidConstraint),
        r matches Ok(node) ==> node_ok(c, *v, rs@, node),
{
    let sels = match build_sels(v, rs) {
        Ok(s) => s,
        Err(e) => { return Err(e); },
    };
    let nd = v.dims.len();
    if nd >= 2 {
        let mut all_coords = true;
        let mut i: usize = 0;
        while i < nd
            invariant
                i <= nd,
                nd == v.dims@.len(),
                c.wf(),
                all_coords == forall|j: int|
                    0 <= j < i ==> c.spec_has_coord((#[trigger] v.dims@[j]).name@),
            decreases nd - i,
        {
            if !c.has_coord(v.dims[i].name.as_str()) {
                all_coords = false;
            }
            i = i + 1;
        }
        if all_coords {
            let mut maps: Vec<MapSel> = Vec::new();
            let mut i: usize = 0;
            while i < nd
                invariant
                    i <= nd,
                    nd == v.dims@.len(),
                    c.wf(),
                    sels@.len() == nd,
                    forall|j: int|
                        0 <= j < nd ==> c.spec_has_coord((#[trigger] v.dims@[j]).name@),
                    maps@.len() == i,
                    forall|j: int|
                        0 <= j < i ==> {
                            let dn = v.dims@[j].name@;
                            &&& (#[trigger] maps@[j]).name@ == dn
                            &&& maps@[j].vartype == c.spec_var(dn).vartype
                            &&& maps@[j].sel.name@ == dn
                            &&& maps@[j].sel.size == sels@[j].size
                        },
                decreases nd - i,
            {
                match c.find_var(v.dims[i].name.as_str()) {
                    Some(cv) => {
                        maps.push(
                            MapSel {
                                vartype: cv.vartype,
                                name: cv.name.clone(),
                                sel: DimSel { name: v.dims[i].name.clone(), size: sels[i].size },
                            },
                        );
                    },
                    None => {
                        proof {
                            assert(c.spec_has_coord(v.dims@[i as int].name@));
                            assert(false);
                        }
                    },
                }
                i = i + 1;
            }
            return Ok(
                DdsNode::Grid { vartype: v.vartype, name: v.name.clone(), sels, maps },
            );
        }
    }
    Ok(DdsNode::Atomic { vartype: v.vartype, name: v.name.clone(), sels })
}

/// `m` may be projected as a Structure member of `v`: it must itself
/// be a variable of the container.
pub open spec fn spec_member_ok(c: &Container, v: Variable, m: Seq<char>) -> bool {
    c.spec_has_var(m)
}

/// Projects `v.m`: a Structure holding the single member `m`.
pub fn project_member(c: &Container, v: &Variable, m: &str, rs: &Vec<(usize, usize)>) -> (r: Result<
    DdsNode,
    DapError,
>)
    requires
        c.wf(),
    ensures
        r is Ok <==> (spec_member_ok(c, *v, m@) && spec_ranges_valid(c.spec_var(m@), rs@)),
        !spec_member_ok(c, *v, m@) ==> r === Err(DapError::UnknownVariable),
        spec_member_ok(c, *v, m@) && !spec_ranges_valid(c.spec_var(m@), rs@) ==> r === Err(
            DapError::InvalidConstraint,
        ),
        r matches Ok(node) ==> structure_ok(c, *v, m@, rs@, node),
{
    let mv = match c.find_var(m) {
        Some(mv) => mv,
        None => { return Err(DapError::UnknownVariable); },
    };
    let msels = match build_sels(mv, rs) {
        Ok(s) => s,
        Err(e) => { return Err(e); },
    };
    Ok(
        DdsNode::Structure {
            varname: v.name.clone(),
            mtype: mv.vartype,
            mname: mv.name.clone(),
            msels,
        },
    )
}

/// Turns the parsed slab groups of one projection into `(start, count)`
/// ranges. A stride anywhere in the projection is rejected before
/// anything else.
pub fn ranges_of(slabs: &Vec<Vec<usize>>) -> (r: Result<Vec<(usize, usize)>, DapError>)
    ensures
        (r === Err(DapError::StrideUnsupported)) <==> (exists|k: int|
            0 <= k < slabs@.len() && (#[trigger] slabs@[k])@.len() == 3),
        (forall|k: int|
            0 <= k < slabs@.len() ==> {
                &&& 1 <= (#[trigger] slabs@[k])@.len() <= 2
                &&& (slabs@[k]@.len() == 2 ==> slabs@[k]@[0] <= slabs@[k]@[1] && slabs@[k]@[1]
                    - slabs@[k]@[0] < usize::MAX)
            }) ==> r is Ok,
        r matches Ok(rs) ==> {
            &&& rs@.len() == slabs@.len()
            &&& forall|k: int|
                0 <= k < rs@.len() ==> {
                    &&& 1 <= (#[trigger] slabs@[k])@.len() <= 2
                    &&& rs@[k].0 == slabs@[k]@[0]
                    &&& rs@[k].1 as int == spec_slab_count(slabs@[k]@)
                    &&& (slabs@[k]@.len() == 2 ==> slabs@[k]@[0] <= slabs@[k]@[1])
                }
        },
{
    let n = slabs.len();
    let mut k: usize = 0;
    while k < n
        invariant
            k <= n,
            n == slabs@.len(),
            forall|j: int| 0 <= j < k ==> (#[trigger] slabs@[j])@.len() != 3,
        decreases n - k,
    {
        if slabs[k].len() == 3 {
            return Err(DapError::StrideUnsupported);
        }
        k = k + 1;
    }
    let mut rs: Vec<(usize, usize)> = Vec::new();
    let mut k: usize = 0;
    while k < n
        invariant
            k <= n,
            n == slabs@.len(),
            rs@.len() == k,
            forall|j: int| 0 <= j < n ==> (#[trigger] slabs@[j])@.len() != 3,
            forall|j: int|
                0 <= j < k ==> {
                    &&& 1 <= (#[trigger] slabs@[j])@.len() <= 2
                    &&& rs@[j].0 == slabs@[j]@[0]
                    &&& rs@[j].1 as int == spec_slab_count(slabs@[j]@)
                    &&& (slabs@[j]@.len() == 2 ==> slabs@[j]@[0] <= slabs@[j]@[1])
                },
        decreases n - k,
    {
        match slab_range(&slabs[k]) {
            Ok(p) => { rs.push(p); },
            Err(e) => { return Err(e); },
        }
        k = k + 1;
    }
    Ok(rs)
}

/// The position of the first `c` in `s`.
pub fn find_char(s: &str, c: char) -> (r: Option<usize>)
    ensures
        match r {
            Some(i) => i < s@.len() && s@[i as int] == c && forall|j: int| 0 <= j < i ==> s@[j] != c,
            None => forall|j: int| 0 <= j < s@.len() ==> s@[j] != c,
        },
{
    let n = s.unicode_len();
    let mut i: usize = 0;
    while i < n
        invariant
            i <= n,
            n == s@.len(),
            forall|j: int| 0 <= j < i ==> s@[j] != c,
        decreases n - i,
    {
        if s.get_char(i) == c {
            return Some(i);
        }
        i = i + 1;
    }
    None
}

/// Splits one projection of a constraint expression into the variable
/// name, the optional `.member` selector, and its parsed slab groups.
pub fn parse_projection(p: &str) -> (r: Result<(String, Option<String>, Vec<Vec<usize>>), DapError>)
    ensures
        r matches Ok(t) ==> {
            let nlen = t.0@.len() as int;
            let b = nlen + (match t.1 {
                Some(m) => 1 + m@.len() as int,
                None => 0,
            });
            &&& 0 < nlen
            &&& b <= p@.len()
            &&& t.0@ == p@.subrange(0, nlen)
            &&& forall|j: int| 0 <= j < nlen ==> p@[j] != '[' && p@[j] != '.'
            &&& match t.1 {
                Some(m) => m@.len() > 0 && p@[nlen] == '.' && m@ == p@.subrange(nlen + 1, b)
                    && forall|j: int| nlen + 1 <= j < b ==> p@[j] != '[',
                None => true,
            }
            &&& crate::hyperslab::matches_slabs(
                p@.subrange(b, p@.len() as int),
                crate::hyperslab::slab_views(t.2@),
            )
        },
        r is Err ==> r === Err(DapError::InvalidConstraint),
{
    let n = p.unicode_len();
    let bpos = match find_char(p, '[') {
        Some(i) => i,
        None => n,
    };
    let head = p.substring_char(0, bpos);
    let (name, member) = match find_char(head, '.') {
        Some(d) => {
            if d + 1 >= bpos {
                return Err(DapError::InvalidConstraint);
            }
            let name = String::from_str(head.substring_char(0, d));
            let memb = String::from_str(head.substring_char(d + 1, bpos));
            proof {
                assert(name@ =~= p@.subrange(0, d as int));
                assert(memb@ =~= p@.subrange(d + 1, bpos as int));
                assert(p@[d as int] == head@[d as int]);
                assert forall|j: int| 0 <= j < d implies p@[j] != '.' && p@[j] != '[' by {
                    assert(head@[j] == p@[j]);
                }
            }
            (name, Some(memb))
        },
        None => {
            let name = String::from_str(head);
            proof {
                assert(name@ =~= p@.subrange(0, bpos as int));
                assert forall|j: int| 0 <= j < bpos implies p@[j] != '.' && p@[j] != '[' by {
                    assert(head@[j] == p@[j]);
                }
            }
            (name, None)
        },
    };
    if name.as_str().unicode_len() == 0 {
        return Err(DapError::InvalidConstraint);
    }
    let slabs = if bpos < n {
        match parse_hyperslab(p.substring_char(bpos, n)) {
            Ok(s) => s,
            Err(e) => { return Err(e); },
        }
    } else {
        proof {
            assert(crate::hyperslab::slab_views(Seq::<Vec<usize>>::empty())
                =~= Seq::<Seq<usize>>::empty());
            assert(p@.subrange(bpos as int, n as int).len() == 0);
        }
        Vec::new()
    };
    proof {
        match member {
            Some(ref m) => {
                assert(name@.len() + 1 + m@.len() == bpos as int);
            },
            None => {
                assert(name@.len() == bpos as int);
            },
        }
    }
    Ok((name, member, slabs))
}

/// The parts joined back with commas give the split text.
pub open spec fn comma_joined(parts: Seq<Seq<char>>) -> Seq<char>
    decreases parts.len(),
{
    if parts.len() == 0 {
        Seq::empty()
    } else if parts.len() == 1 {
        parts[0]
    } else {
        comma_joined(parts.drop_last()) + ","@ + parts.last()
    }
}

/// Splits a constraint expression on commas into its projections.
pub fn split_commas(s: &str) -> (r: Vec<String>)
    ensures
        r@.len() >= 1,
        comma_joined(r@.map_values(|p: String| p@)) == s@,
        forall|i: int|
            0 <= i < r@.len() ==> forall|j: int|
                0 <= j < (#[trigger] r@[i])@.len() ==> (r@[i])@[j] != ',',
{
    proof {
        reveal_strlit(",");
    }
    let n = s.unicode_len();
    let mut parts: Vec<String> = Vec::new();
    let mut start: usize = 0;
    let mut i: usize = 0;
    while i < n
        invariant
            start <= i <= n,
            n == s@.len(),
            ","@ =~= seq![','],
            forall|j: int| start <= j < i ==> s@[j] != ',',
            forall|k: int|
                0 <= k < parts@.len() ==> forall|j: int|
                    0 <= j < (#[trigger] parts@[k])@.len() ==> (parts@[k])@[j] != ',',
            if parts@.len() == 0 {
                start == 0
            } else {
                &&& start >= 1
                &&& s@[start - 1] == ','
                &&& comma_joined(parts@.map_values(|p: String| p@)) == s@.subrange(0, start - 1)
            },
        decreases n - i,
    {
        if s.get_char(i) == ',' {
            let piece = String::from_str(s.substring_char(start, i));
            proof {
                let pv = parts@.map_values(|p: String| p@);
                let pv2 = parts@.push(piece).map_values(|p: String| p@);
                assert(pv2.drop_last() =~= pv);
                assert(pv2.last() == piece@);
                if parts@.len() == 0 {
                    assert(comma_joined(pv2) == piece@);
                    assert(piece@ =~= s@.subrange(0, i as int));
                } else {
                    assert(comma_joined(pv2) == comma_joined(pv) + ","@ + piece@);
                    assert(comma_joined(pv) + ","@ + piece@ =~= s@.subrange(0, i as int));
                }
            }
            parts.push(piece);
            start = i + 1;
        }
        i = i + 1;
    }
    let piece = String::from_str(s.substring_char(start, n));
    proof {
        let pv = parts@.map_values(|p: String| p@);
        let pv2 = parts@.push(piece).map_values(|p: String| p@);
        assert(pv2.drop_last() =~= pv);
        assert(pv2.last() == piece@);
        if parts@.len() == 0 {
            assert(comma_joined(pv2) == piece@);
            assert(piece@ =~= s@);
        } else {
            assert(comma_joined(pv2) == comma_joined(pv) + ","@ + piece@);
            assert(comma_joined(pv) + ","@ + piece@ =~= s@);
        }
    }
    parts.push(piece);
    parts
}

/// Renders a node list wrapped in `Dataset { ... } name;`.
pub fn render_dataset(name: &str, ns: &Vec<DdsNode>) -> (r: String)
    ensures
        r@ == dataset_text(name@, ns@),
{
    let mut out = String::new();
    out.append("Dataset {");
    out.append("\n");
    let n = ns.len();
    let mut i: usize = 0;
    while i < n
        invariant
            i <= n,
            n == ns@.len(),
            out@ == "Dataset {"@ + "\n"@ + nodes_text(ns@.subrange(0, i as int)),
        decreases n - i,
    {
        push_node(&mut out, &ns[i]);
        i = i + 1;
        proof {
            let pre = ns@.subrange(0, i - 1);
            let post = ns@.subrange(0, i as int);
            assert(post.drop_last() =~= pre);
            assert(post.last() == ns@[i - 1]);
        }
    }
    proof {
        assert(ns@.subrange(0, n as int) =~= ns@);
    }
    out.append("} ");
    out.append(name);
    out.append(";");
    out
}

/// A full, unconstrained node list: one node per variable, in container
/// order, each with its plain dimension sizes.
pub open spec fn unconstrained_nodes_ok(c: &Container, nodes: Seq<DdsNode>) -> bool {
    &&& nodes.len() == c.vars@.len()
    &&& forall|i: int|
        0 <= i < nodes.len() ==> node_ok(c, c.vars@[i], Seq::empty(), #[trigger] nodes[i])
}

/// The slab lists a projection may carry into a range conversion: one
/// or two numbers each, ordered, and within the machine's range.
pub open spec fn slabs_wf(slabs: Seq<Seq<usize>>) -> bool {
    forall|k: int|
        0 <= k < slabs.len() ==> {
            &&& 1 <= (#[trigger] slabs[k]).len() <= 2
            &&& (slabs[k].len() == 2 ==> slabs[k][0] <= slabs[k][1] && slabs[k][1] - slabs[k][0]
                < usize::MAX)
        }
}

/// The `(start, count)` ranges a slab list denotes: `[i]` selects one
/// element, `[i:j]` the inclusive range.
pub open spec fn spec_ranges(slabs: Seq<Seq<usize>>) -> Seq<(usize, usize)> {
    Seq::new(slabs.len(), |k: int| (slabs[k][0], spec_slab_count(slabs[k]) as usize))
}

/// `part` spells one projection: the variable `name`, an optional
/// `.member` selector, then the bracketed slab groups, and nothing
/// else.
pub open spec fn spec_projection(
    part: Seq<char>,
    name: Seq<char>,
    member: Option<Seq<char>>,
    slabs: Seq<Seq<usize>>,
) -> bool {
    let b = name.len() + (match member {
        Some(m) => 1 + m.len() as int,
        None => 0int,
    });
    &&& 0 < name.len()
    &&& b <= part.len()
    &&& name == part.subrange(0, name.len() as int)
    &&& (forall|j: int| 0 <= j < name.len() ==> part[j] != '[' && part[j] != '.')
    &&& match member {
        Some(m) => m.len() > 0 && part[name.len() as int] == '.' && m == part.subrange(
            name.len() as int + 1,
            b,
        ) && (forall|j: int| name.len() + 1 <= j < b ==> part[j] != '['),
        None => true,
    }
    &&& crate::hyperslab::matches_slabs(part.subrange(b, part.len() as int), slabs)
}

/// One emitted node answers the projection `part`: the text decomposes
/// into a variable of the container (or a member selector), and the
/// node is that variable's projection under exactly the ranges the
/// slab groups spell. `vi` is the position of the variable whose data
/// the projection serves, and `rs` its ranges.
pub open spec fn proj_resolved(
    c: &Container,
    part: Seq<char>,
    node: DdsNode,
    vi: int,
    rs: Seq<(usize, usize)>,
) -> bool {
    exists|name: Seq<char>, member: Option<Seq<char>>, slabs: Seq<Seq<usize>>|
        {
            &&& #[trigger] spec_projection(part, name, member, slabs)
            &&& slabs_wf(slabs)
            &&& rs == spec_ranges(slabs)
            &&& 0 <= vi < c.vars@.len()
            &&& match member {
                None => c.vars@[vi].name@ == name && node_ok(c, c.vars@[vi], rs, node),
                Some(m) => {
                    &&& c.spec_has_var(name)
                    &&& c.vars@[vi].name@ == m
                    &&& structure_ok(c, c.spec_var(name), m, rs, node)
                },
            }
        }
}

/// The node answers the projection `part` for some resolution.
pub open spec fn proj_node_ok(c: &Container, part: Seq<char>, node: DdsNode) -> bool {
    exists|vi: int, rs: Seq<(usize, usize)>| #[trigger] proj_resolved(c, part, node, vi, rs)
}

/// The comma-free pieces that re-join to the constraint text.
pub open spec fn split_of(q: Seq<char>, parts: Seq<Seq<char>>) -> bool {
    &&& comma_joined(parts) == q
    &&& forall|i: int|
        0 <= i < parts.len() ==> forall|j: int|
            0 <= j < (#[trigger] parts[i]).len() ==> parts[i][j] != ','
}

/// The DDS of one dataset: projects constraint expressions against the
/// container's variables and renders the descriptor text.
pub struct NcDds {
    pub container: Container,
}

impl NcDds {
    /// Builds the DDS engine for a container.
    pub fn build(container: Container) -> (r: NcDds)
        requires
            container.wf(),
        ensures
            r.container == container,
            r.container.wf(),
    {
        NcDds { container }
    }

    /// The element count one parsed slab group selects.
    pub fn count_slab(slab: &Vec<usize>) -> (r: usize)
        requires
            1 <= slab@.len() <= 2,
            slab@.len() == 2 ==> slab@[0] <= slab@[1] && slab@[1] - slab@[0] < usize::MAX,
        ensures
            r as int == spec_slab_count(slab@),
    {
        if slab.len() == 1 {
            1
        } else {
            slab[1] - slab[0] + 1
        }
    }

    /// Projects one projection string against the container, returning
    /// the node together with the served variable's position and its
    /// ranges.
    pub(crate) fn project_part(&self, p: &str) -> (r: Result<
        (DdsNode, usize, Vec<(usize, usize)>),
        DapError,
    >)
        requires
            self.container.wf(),
        ensures
            r matches Ok(t) ==> proj_resolved(&self.container, p@, t.0, t.1 as int, t.2@),
    {
        let (name, member, slabs) = match parse_projection(p) {
            Ok(t) => t,
            Err(e) => { return Err(e); },
        };
        let rs = match ranges_of(&slabs) {
            Ok(rs) => rs,
            Err(e) => { return Err(e); },
        };
        proof {
            assert(rs@ =~= spec_ranges(crate::hyperslab::slab_views(slabs@)));
            assert(slabs_wf(crate::hyperslab::slab_views(slabs@)));
        }
        let c = &self.container;
        let pvi = match c.find_index(name.as_str()) {
            Some(i) => i,
            None => { return Err(DapError::UnknownVariable); },
        };
        let v = &c.vars[pvi];
        match member {
            Some(m) => {
                let node = match project_member(c, v, m.as_str(), &rs) {
                    Ok(node) => node,
                    Err(e) => { return Err(e); },
                };
                let mvi = match c.find_index(m.as_str()) {
                    Some(i) => i,
                    None => {
                        proof {
                            assert(false);
                        }
                        return Err(DapError::UnknownVariable);
                    },
                };
                proof {
                    let ghost mv: Option<Seq<char>> = Some(m@);
                    assert(spec_projection(p@, name@, mv, crate::hyperslab::slab_views(slabs@)));
                    assert(c.vars@[pvi as int] == c.spec_var(name@));
                    assert(structure_ok(c, c.spec_var(name@), m@, rs@, node));
                    assert(proj_resolved(c, p@, node, mvi as int, rs@));
                }
                Ok((node, mvi, rs))
            },
            None => {
                let node = match project_var(c, v, &rs) {
                    Ok(node) => node,
                    Err(e) => { return Err(e); },
                };
                proof {
                    let ghost mv: Option<Seq<char>> = None;
                    assert(spec_projection(p@, name@, mv, crate::hyperslab::slab_views(slabs@)));
                    assert(node_ok(c, c.vars@[pvi as int], rs@, node));
                    assert(proj_resolved(c, p@, node, pvi as int, rs@));
                }
                Ok((node, pvi, rs))
            },
        }
    }

    /// Answers a DDS request.
    ///
    /// Without a constraint the whole container is described, one node
    /// per variable in declared order. With a constraint, its
    /// comma-separated projections are parsed, validated and rendered in
    /// constraint order; a stride is rejected, an unknown variable or
    /// member refused, and every printed extent is the hyperslab's count.
    pub fn dds(&self, constraint: Option<&str>) -> (r: Result<String, DapError>)
        requires
            self.container.wf(),
        ensures
            constraint is None ==> r is Ok,
            constraint is None ==> (r matches Ok(s) ==> exists|nodes: Seq<DdsNode>|
                {
                    &&& s@ == #[trigger] dataset_text(self.container.name@, nodes)
                    &&& unconstrained_nodes_ok(&self.container, nodes)
                }),
            constraint matches Some(q) ==> (r matches Ok(s) ==> exists|
                parts: Seq<Seq<char>>,
                nodes: Seq<DdsNode>,
            |
                #![trigger split_of(q@, parts), dataset_text(self.container.name@, nodes)]
                {
                    &&& split_of(q@, parts)
                    &&& nodes.len() == parts.len()
                    &&& s@ == dataset_text(self.container.name@, nodes)
                    &&& forall|i: int|
                        0 <= i < parts.len() ==> proj_node_ok(
                            &self.container,
                            #[trigger] parts[i],
                            nodes[i],
                        )
                }),
    {
        let mut nodes: Vec<DdsNode> = Vec::new();
        match constraint {
            None => {
                let c = &self.container;
                let nv = c.vars.len();
                let empty: Vec<(usize, usize)> = Vec::new();
                proof {
                    assert(empty@ =~= Seq::<(usize, usize)>::empty());
                }
                let mut i: usize = 0;
                while i < nv
                    invariant
                        i <= nv,
                        nv == c.vars@.len(),
                        c.wf(),
                        c == &self.container,
                        empty@ =~= Seq::<(usize, usize)>::empty(),
                        nodes@.len() == i,
                        forall|j: int|
                            0 <= j < i ==> node_ok(c, c.vars@[j], Seq::empty(), #[trigger] nodes@[j]),
                    decreases nv - i,
                {
                    let v = &c.vars[i];
                    match project_var(c, v, &empty) {
                        Ok(node) => {
                            proof {
                                assert(c.spec_has_var(v.name@));
                                assert(c.spec_var(v.name@) == c.vars@[i as int]) by {
                                    let w = choose|k: int|
                                        0 <= k < c.vars@.len() && (#[trigger] c.vars@[k]).name@
                                            == v.name@;
                                    assert(w == i);
                                }
                                assert(node_ok(c, c.spec_var(v.name@), empty@, node));
                            }
                            nodes.push(node);
                        },
                        Err(_) => {
                            proof {
                                assert(spec_ranges_valid(*v, empty@));
                                assert(false);
                            }
                        },
                    }
                    i = i + 1;
                }
            },
            Some(q) => {
                let parts = split_commas(q);
                let ghost pviews = parts@.map_values(|p: String| p@);
                proof {
                    assert(split_of(q@, pviews));
                }
                let np = parts.len();
                let mut i: usize = 0;
                while i < np
                    invariant
                        i <= np,
                        np == parts@.len(),
                        constraint == Some(q),
                        self.container.wf(),
                        pviews == parts@.map_values(|p: String| p@),
                        split_of(q@, pviews),
                        nodes@.len() == i,
                        forall|j: int|
                            0 <= j < i ==> proj_node_ok(
                                &self.container,
                                #[trigger] pviews[j],
                                nodes@[j],
                            ),
                    decreases np - i,
                {
                    match self.project_part(parts[i].as_str()) {
                        Ok((node, vi, rs)) => {
                            proof {
                                assert(proj_resolved(
                                    &self.container,
                                    pviews[i as int],
                                    node,
                                    vi as int,
                                    rs@,
                                ));
                            }
                            nodes.push(node);
                        },
                        Err(e) => { return Err(e); },
                    }
                    i = i + 1;
                }
            },
        }
        let s = render_dataset(self.container.name.as_str(), &nodes);
        proof {
            assert(s@ == dataset_text(self.container.name@, nodes@));
        }
        Ok(s)
    }
}

} // verus!
