//! NCML aggregation descriptors and the aggregate dataset.
//!
//! A descriptor is an XML document whose root's first child is an
//! `<aggregation type="joinExisting" dimName="...">` element listing
//! members either explicitly (`<netcdf location="..."/>`) or by
//! directory scan (`<scan location="..." suffix="..." ignore="..."/>`).
//! The XML tree itself comes from the `roxmltree` crate through the
//! trusted declarations below; everything read out of it is interpreted
//! by verified code.

use vstd::prelude::*;
use vstd::string::{StrSliceExecFns, StringExecFns, StringSliceAdditionalSpecFns};

use crate::DapError;
use crate::agg::{CoordinateVariable, Member};
use crate::das::Das;
use crate::dds::{NcDds, split_commas};
use crate::model::{Container, Dimension, Variable};
use crate::text::str_eq;

verus! {

/// The XML document type of the roxmltree crate, used opaquely.
#[verifier::external_type_specification]
#[verifier::external_body]
pub struct ExDocument<'input>(roxmltree::Document<'input>);

/// The XML node type of the roxmltree crate, used opaquely.
#[verifier::external_type_specification]
#[verifier::external_body]
pub struct ExNode<'a, 'input: 'a>(roxmltree::Node<'a, 'input>);

/// The expanded tag name type of the roxmltree crate, used opaquely.
#[verifier::external_type_specification]
#[verifier::external_body]
pub struct ExExpandedName<'a, 'b>(roxmltree::ExpandedName<'a, 'b>);

/// Relies on roxmltree::Document::parse: parses XML text into a
/// document; a malformed document gives `None`.
#[verifier::external_body]
fn xml_parse<'input>(text: &'input str) -> (r: Option<roxmltree::Document<'input>>) {
    roxmltree::Document::parse(text).ok()
}

/// Relies on roxmltree::Document::root_element: the root element node.
#[verifier::external_body]
fn xml_root_element<'a, 'input>(doc: &'a roxmltree::Document<'input>) -> (r: roxmltree::Node<
    'a,
    'input,
>) {
    doc.root_element()
}

/// Relies on roxmltree::Node::first_element_child.
#[verifier::external_body]
fn xml_first_element_child<'a, 'input>(node: &roxmltree::Node<'a, 'input>) -> (r: Option<
    roxmltree::Node<'a, 'input>,
>) {
    node.first_element_child()
}

/// Relies on roxmltree::Node::next_sibling_element.
#[verifier::external_body]
fn xml_next_sibling_element<'a, 'input>(node: &roxmltree::Node<'a, 'input>) -> (r: Option<
    roxmltree::Node<'a, 'input>,
>) {
    node.next_sibling_element()
}

/// Relies on roxmltree::Node::tag_name: the element's expanded name.
#[verifier::external_body]
fn xml_tag_name<'a, 'input>(node: &roxmltree::Node<'a, 'input>) -> (r: roxmltree::ExpandedName<
    'a,
    'input,
>) {
    node.tag_name()
}

/// Relies on roxmltree::ExpandedName::name: the local part of a name.
#[verifier::external_body]
fn xml_name<'a, 'b>(name: &roxmltree::ExpandedName<'a, 'b>) -> (r: &'b str) {
    name.name()
}

/// Relies on roxmltree::Node::attribute: the value of the attribute
/// with the given local name, if the element carries it.
#[verifier::external_body]
fn xml_attribute<'a, 'input>(node: &roxmltree::Node<'a, 'input>, name: &str) -> (r: Option<
    &'a str,
>) {
    node.attribute(name)
}

/// The aggregation flavours a descriptor may ask for. Only joining
/// along an existing outer dimension is supported.
#[derive(Clone, Copy, Debug, PartialEq, Eq, Structural)]
pub enum AggregationType {
    JoinExisting,
}

/// One member source of an aggregation.
#[derive(Clone, Debug, PartialEq)]
pub enum NcmlEntry {
    /// An explicit member file.
    Location { location: String },
    /// A directory scan for member files.
    Scan { location: String, suffix: String, ignore: Option<String> },
}

/// A parsed aggregation descriptor.
#[derive(Clone, Debug, PartialEq)]
pub struct NcmlDescriptor {
    pub agg_type: AggregationType,
    pub dim_name: String,
    pub entries: Vec<NcmlEntry>,
}

/// Parses an NCML aggregation descriptor.
///
/// The root element's first child must be an `aggregation` element of
/// type `joinExisting` naming its join dimension; each further child
/// is either a `netcdf` element with a `location`, or a `scan` element
/// with a `location` and a `suffix` and an optional `ignore` marker.
/// Anything else refuses the descriptor.
pub fn parse_descriptor(xml: &str) -> (r: Result<NcmlDescriptor, DapError>)
    ensures
        r matches Ok(d) ==> d.agg_type == AggregationType::JoinExisting,
        r is Err ==> r === Err(DapError::AggregationMisconfigured),
{
    proof {
        reveal_strlit("aggregation");
        reveal_strlit("joinExisting");
        reveal_strlit("netcdf");
        reveal_strlit("scan");
    }
    let doc = match xml_parse(xml) {
        Some(d) => d,
        None => { return Err(DapError::AggregationMisconfigured); },
    };
    let root = xml_root_element(&doc);
    let agg = match xml_first_element_child(&root) {
        Some(n) => n,
        None => { return Err(DapError::AggregationMisconfigured); },
    };
    let tn = xml_tag_name(&agg);
    if !str_eq(xml_name(&tn), "aggregation") {
        return Err(DapError::AggregationMisconfigured);
    }
    let ty = match xml_attribute(&agg, "type") {
        Some(t) => t,
        None => { return Err(DapError::AggregationMisconfigured); },
    };
    if !str_eq(ty, "joinExisting") {
        return Err(DapError::AggregationMisconfigured);
    }
    let dim_name = match xml_attribute(&agg, "dimName") {
        Some(d) => String::from_str(d),
        None => { return Err(DapError::AggregationMisconfigured); },
    };
    let mut entries: Vec<NcmlEntry> = Vec::new();
    let mut child = xml_first_element_child(&agg);
    // An element takes at least one character of the text, so the text
    // length bounds the walk.
    let mut fuel: usize = xml.unicode_len();
    loop
        decreases fuel,
    {
        let node = match child {
            Some(n) => n,
            None => { break ; },
        };
        if fuel == 0 {
            return Err(DapError::AggregationMisconfigured);
        }
        fuel = fuel - 1;
        let tn = xml_tag_name(&node);
        let tag = xml_name(&tn);
        if str_eq(tag, "netcdf") {
            let location = match xml_attribute(&node, "location") {
                Some(l) => String::from_str(l),
                None => { return Err(DapError::AggregationMisconfigured); },
            };
            entries.push(NcmlEntry::Location { location });
        } else if str_eq(tag, "scan") {
            let location = match xml_attribute(&node, "location") {
                Some(l) => String::from_str(l),
                None => { return Err(DapError::AggregationMisconfigured); },
            };
            let suffix = match xml_attribute(&node, "suffix") {
                Some(s) => String::from_str(s),
                None => { return Err(DapError::AggregationMisconfigured); },
            };
            let ignore = match xml_attribute(&node, "ignore") {
                Some(i) => Some(String::from_str(i)),
                None => None,
            };
            entries.push(NcmlEntry::Scan { location, suffix, ignore });
        } else {
            return Err(DapError::AggregationMisconfigured);
        }
        child = xml_next_sibling_element(&node);
    }
    Ok(NcmlDescriptor { agg_type: AggregationType::JoinExisting, dim_name, entries })
}

/// Joins a member location to the descriptor's directory: an absolute
/// location stands alone, a relative one is joined with a slash, and an
/// empty base leaves the location as it is.
pub fn resolve_location(base_dir: &str, location: &str) -> (r: String)
    ensures
        r@ == (if location@.len() > 0 && location@[0] == '/' {
            location@
        } else if base_dir@.len() == 0 {
            location@
        } else {
            base_dir@ + "/"@ + location@
        }),
{
    let absolute = location.unicode_len() > 0 && location.get_char(0) == '/';
    if absolute || base_dir.unicode_len() == 0 {
        String::from_str(location)
    } else {
        let mut out = String::from_str(base_dir);
        out.append("/");
        out.append(location);
        out
    }
}

/// Two dimensions agree for a join along `dname`: same name, and the
/// same size unless it is the join dimension itself.
pub open spec fn dim_agrees(a: Dimension, b: Dimension, dname: Seq<char>) -> bool {
    &&& a.name@ == b.name@
    &&& (a.name@ != dname ==> a.size == b.size)
}

/// Two variables agree for a join along `dname`.
pub open spec fn var_agrees(va: Variable, vb: Variable, dname: Seq<char>) -> bool {
    &&& va.name@ == vb.name@
    &&& va.vartype == vb.vartype
    &&& va.dims@.len() == vb.dims@.len()
    &&& forall|j: int|
        0 <= j < va.dims@.len() ==> dim_agrees(#[trigger] va.dims@[j], vb.dims@[j], dname)
}

/// Two member containers agree for a join along `dname`: the same
/// variables, with the same types and dimension names, and the same
/// sizes everywhere except along the join dimension itself.
pub open spec fn spec_members_agree(a: &Container, b: &Container, dname: Seq<char>) -> bool {
    &&& a.vars@.len() == b.vars@.len()
    &&& forall|i: int|
        0 <= i < a.vars@.len() ==> var_agrees(#[trigger] a.vars@[i], b.vars@[i], dname)
}

/// Checks that a further member matches the first: every variable and
/// every dimension other than the join dimension must agree in name,
/// type and size.
pub fn members_agree(a: &Container, b: &Container, dname: &str) -> (r: bool)
    ensures
        r == spec_members_agree(a, b, dname@),
{
    let nv = a.vars.len();
    if b.vars.len() != nv {
        return false;
    }
    let mut i: usize = 0;
    while i < nv
        invariant
            i <= nv,
            nv == a.vars@.len(),
            nv == b.vars@.len(),
            forall|k: int| 0 <= k < i ==> var_agrees(#[trigger] a.vars@[k], b.vars@[k], dname@),
        decreases nv - i,
    {
        let va = &a.vars[i];
        let vb = &b.vars[i];
        if !str_eq(va.name.as_str(), vb.name.as_str()) {
            return false;
        }
        if !(va.vartype == vb.vartype) {
            return false;
        }
        let nd = va.dims.len();
        if vb.dims.len() != nd {
            return false;
        }
        let mut j: usize = 0;
        while j < nd
            invariant
                j <= nd,
                i < nv,
                nv == a.vars@.len(),
                nv == b.vars@.len(),
                nd == va.dims@.len(),
                nd == vb.dims@.len(),
                va == a.vars@[i as int],
                vb == b.vars@[i as int],
                forall|t: int|
                    0 <= t < j ==> dim_agrees(#[trigger] va.dims@[t], vb.dims@[t], dname@),
            decreases nd - j,
        {
            let da = &va.dims[j];
            let db = &vb.dims[j];
            let names_match = str_eq(da.name.as_str(), db.name.as_str());
            let size_ok = str_eq(da.name.as_str(), dname) || da.size == db.size;
            if !names_match || !size_ok {
                proof {
                    if spec_members_agree(a, b, dname@) {
                        assert(var_agrees(a.vars@[i as int], b.vars@[i as int], dname@));
                        assert(dim_agrees(
                            a.vars@[i as int].dims@[j as int],
                            b.vars@[i as int].dims@[j as int],
                            dname@,
                        ));
                        assert(false);
                    }
                }
                return false;
            }
            j = j + 1;
        }
        proof {
            assert(var_agrees(a.vars@[i as int], b.vars@[i as int], dname@));
        }
        i = i + 1;
    }
    true
}

/// Validates an aggregate's members against the first: every non-join
/// dimension and every variable must agree across the members.
pub fn validate_members(containers: &Vec<Container>, dname: &str) -> (r: Result<(), DapError>)
    requires
        containers@.len() >= 1,
    ensures
        r is Ok <==> forall|i: int|
            0 <= i < containers@.len() ==> spec_members_agree(
                &containers@[0],
                #[trigger] &containers@[i],
                dname@,
            ),
        r is Err ==> r === Err(DapError::MemberMismatch),
{
    let n = containers.len();
    let mut i: usize = 1;
    proof {
        assert(spec_members_agree(&containers@[0], &containers@[0], dname@));
    }
    while i < n
        invariant
            1 <= i <= n,
            n == containers@.len(),
            forall|j: int|
                0 <= j < i ==> spec_members_agree(&containers@[0], #[trigger] &containers@[j], dname@),
        decreases n - i,
    {
        if !members_agree(&containers[0], &containers[i], dname) {
            return Err(DapError::MemberMismatch);
        }
        i = i + 1;
    }
    Ok(())
}

/// The first member's container with the join dimension's size replaced
/// by the aggregate total, everywhere it appears.
pub fn with_dim_size(c: &Container, dname: &str, total: usize) -> (r: Container)
    ensures
        r.name@ == c.name@,
        r.vars@.len() == c.vars@.len(),
        forall|i: int|
            0 <= i < r.vars@.len() ==> {
                let rv = #[trigger] r.vars@[i];
                let cv = c.vars@[i];
                &&& rv.name@ == cv.name@
                &&& rv.vartype == cv.vartype
                &&& rv.dims@.len() == cv.dims@.len()
                &&& forall|j: int|
                    0 <= j < rv.dims@.len() ==> {
                        let rd = #[trigger] rv.dims@[j];
                        let cd = cv.dims@[j];
                        &&& rd.name@ == cd.name@
                        &&& rd.size == (if cd.name@ == dname@ {
                            total
                        } else {
                            cd.size
                        })
                    }
            },
        c.wf() ==> r.wf(),
{
    let nv = c.vars.len();
    let mut vars: Vec<Variable> = Vec::new();
    let mut i: usize = 0;
    while i < nv
        invariant
            i <= nv,
            nv == c.vars@.len(),
            vars@.len() == i,
            forall|k: int|
                0 <= k < i ==> {
                    let rv = #[trigger] vars@[k];
                    let cv = c.vars@[k];
                    &&& rv.name@ == cv.name@
                    &&& rv.vartype == cv.vartype
                    &&& rv.dims@.len() == cv.dims@.len()
                    &&& forall|j: int|
                        0 <= j < rv.dims@.len() ==> {
                            let rd = #[trigger] rv.dims@[j];
                            let cd = cv.dims@[j];
                            &&& rd.name@ == cd.name@
                            &&& rd.size == (if cd.name@ == dname@ {
                                total
                            } else {
                                cd.size
                            })
                        }
                },
        decreases nv - i,
    {
        let v = &c.vars[i];
        let nd = v.dims.len();
        let mut dims: Vec<Dimension> = Vec::new();
        let mut j: usize = 0;
        while j < nd
            invariant
                j <= nd,
                nd == v.dims@.len(),
                v == c.vars@[i as int],
                dims@.len() == j,
                forall|t: int|
                    0 <= t < j ==> {
                        let rd = #[trigger] dims@[t];
                        let cd = v.dims@[t];
                        &&& rd.name@ == cd.name@
                        &&& rd.size == (if cd.name@ == dname@ {
                            total
                        } else {
                            cd.size
                        })
                    },
            decreases nd - j,
        {
            let d = &v.dims[j];
            let size = if str_eq(d.name.as_str(), dname) {
                total
            } else {
                d.size
            };
            dims.push(Dimension { name: d.name.clone(), size });
            j = j + 1;
        }
        vars.push(Variable { name: v.name.clone(), vartype: v.vartype, dims });
        i = i + 1;
    }
    let r = Container { name: c.name.clone(), vars };
    proof {
        if c.wf() {
            assert forall|x: int, y: int|
                0 <= x < y < r.vars@.len() implies (#[trigger] r.vars@[x]).name@ != (
            #[trigger] r.vars@[y]).name@ by {
                assert(r.vars@[x].name@ == c.vars@[x].name@);
                assert(r.vars@[y].name@ == c.vars@[y].name@);
            }
        }
    }
    r
}

/// A change the file watcher reports under a scan root.
pub enum FileEvent {
    /// A member file appeared; its metadata was read by the opener.
    Created(Member),
    /// A member file went away, named by its path.
    Removed(String),
}

/// Whether some member carries the path.
pub open spec fn spec_has_path(members: Seq<Member>, p: Seq<char>) -> bool {
    exists|i: int| 0 <= i < members.len() && (#[trigger] members[i]).path@ == p
}

/// Applies one watcher event to the member list.
///
/// A created member joins exactly when no member already carries its
/// path; a removal drops exactly the first member carrying the path.
/// After a change the list is re-sorted by ascending rank; otherwise it
/// is returned untouched. The flag says whether the list changed.
pub fn apply_event(members: Vec<Member>, e: FileEvent) -> (r: (Vec<Member>, bool))
    ensures
        !r.1 ==> r.0@ == members@,
        r.1 ==> forall|i: int, j: int|
            0 <= i < j < r.0@.len() ==> (#[trigger] r.0@[i]).rank <= (#[trigger] r.0@[j]).rank,
        match e {
            FileEvent::Created(m) => {
                &&& r.1 <==> !spec_has_path(members@, m.path@)
                &&& (r.1 ==> r.0@.to_multiset() == members@.push(m).to_multiset())
            },
            FileEvent::Removed(p) => {
                &&& r.1 <==> spec_has_path(members@, p@)
                &&& (r.1 ==> exists|i: int|
                    {
                        &&& 0 <= i < members@.len()
                        &&& (#[trigger] members@[i]).path@ == p@
                        &&& forall|j: int| 0 <= j < i ==> (#[trigger] members@[j]).path@ != p@
                        &&& r.0@.to_multiset() == members@.remove(i).to_multiset()
                    })
            },
        },
{
    match e {
        FileEvent::Created(m) => {
            let n = members.len();
            let mut i: usize = 0;
            while i < n
                invariant
                    i <= n,
                    n == members@.len(),
                    e == FileEvent::Created(m),
                    forall|j: int| 0 <= j < i ==> (#[trigger] members@[j]).path@ != m.path@,
                decreases n - i,
            {
                if str_eq(members[i].path.as_str(), m.path.as_str()) {
                    proof {
                        assert(members@[i as int].path@ == m.path@);
                        assert(spec_has_path(members@, m.path@));
                    }
                    return (members, false);
                }
                i = i + 1;
            }
            let mut members = members;
            members.push(m);
            (crate::agg::sort_members(members), true)
        },
        FileEvent::Removed(p) => {
            let n = members.len();
            let mut i: usize = 0;
            while i < n
                invariant
                    i <= n,
                    n == members@.len(),
                    e == FileEvent::Removed(p),
                    forall|j: int| 0 <= j < i ==> (#[trigger] members@[j]).path@ != p@,
                decreases n - i,
            {
                if str_eq(members[i].path.as_str(), p.as_str()) {
                    let ghost pre = members@;
                    let ghost at: int = i as int;
                    let mut members = members;
                    members.remove(i);
                    proof {
                        assert(members@ =~= pre.remove(at));
                    }
                    let sorted = crate::agg::sort_members(members);
                    proof {
                        assert(pre[at].path@ == p@);
                        assert(forall|j: int| 0 <= j < at ==> (#[trigger] pre[j]).path@ != p@);
                    }
                    return (sorted, true);
                }
                i = i + 1;
            }
            (members, false)
        },
    }
}

/// The aggregate's total length along the join dimension: the member
/// lengths summed. The sum succeeds exactly when it can be held; a sum
/// past the machine's range is an overflow.
pub fn total_len(members: &Vec<Member>) -> (r: Result<usize, DapError>)
    ensures
        r matches Ok(t) ==> t as int == crate::agg::total_n(
            members@.map_values(|m: Member| m.n),
        ),
        r is Ok <==> crate::agg::total_n(members@.map_values(|m: Member| m.n)) <= usize::MAX,
        r is Err ==> r === Err(DapError::Overflow),
{
    let n = members.len();
    let mut sum: usize = 0;
    let mut i: usize = 0;
    while i < n
        invariant
            i <= n,
            n == members@.len(),
            sum as int == crate::agg::total_n(
                members@.subrange(0, i as int).map_values(|m: Member| m.n),
            ),
        decreases n - i,
    {
        let ni = members[i].n;
        proof {
            let all = members@.map_values(|m: Member| m.n);
            let pre = members@.subrange(0, i as int).map_values(|m: Member| m.n);
            let post = members@.subrange(0, i + 1).map_values(|m: Member| m.n);
            assert(post.drop_last() =~= pre);
            assert(post.last() == members@[i as int].n);
            assert(post =~= all.subrange(0, i + 1));
            crate::agg::lemma_total_prefix_le(all, i + 1);
        }
        if sum > usize::MAX - ni {
            return Err(DapError::Overflow);
        }
        sum = sum + ni;
        i = i + 1;
    }
    proof {
        assert(members@.subrange(0, n as int) =~= members@);
    }
    Ok(sum)
}

/// The three read paths of an aggregate: the cached join coordinate,
/// a pass-through to the first member for variables the join does not
/// touch, and the routed multi-member read for joined variables.
#[derive(Clone, Copy, Debug, PartialEq, Eq, Structural)]
pub enum ReadPath {
    Coordinate,
    FirstMember,
    Joined,
}

/// An aggregated dataset: members in rank order, the cached join
/// coordinate, and the aggregate metadata derived from the first
/// member.
pub struct NcmlDataset {
    /// The descriptor's path.
    pub path: String,
    /// The join dimension's name.
    pub dim_name: String,
    /// The members, sorted by ascending rank.
    pub members: Vec<Member>,
    /// The total length along the join dimension.
    pub dim_n: usize,
    /// The descriptor's modification time when opened, in nanoseconds.
    pub modified: u64,
    /// The attribute structure, built from the first member.
    pub das: Das,
    /// The descriptor engine over the aggregate container.
    pub dds: NcDds,
    /// The cached join coordinate.
    pub coordinates: CoordinateVariable,
}

impl NcmlDataset {
    /// The dataset's mount name.
    pub fn name(&self) -> (r: String)
        ensures
            r@ == self.path@,
    {
        self.path.clone()
    }

    /// The attribute response body.
    pub fn das_text(&self) -> (r: &str)
        ensures
            r@ == self.das.0@,
    {
        self.das.as_str()
    }

    /// The descriptor response body, constrained or not.
    pub fn dds_text(&self, constraint: Option<&str>) -> (r: Result<String, DapError>)
        requires
            self.dds.container.wf(),
        ensures
            constraint is None ==> r is Ok,
            constraint is None ==> (r matches Ok(s) ==> exists|nodes: Seq<crate::dds::DdsNode>|
                {
                    &&& s@ == #[trigger] crate::dds::dataset_text(self.dds.container.name@, nodes)
                    &&& crate::dds::unconstrained_nodes_ok(&self.dds.container, nodes)
                }),
            constraint matches Some(q) ==> (r matches Ok(s) ==> crate::dataset::constrained_text_ok(
                &self.dds.container,
                q@,
                s@,
            )),
    {
        self.dds.dds(constraint)
    }

    /// Fails a data request whose descriptor changed on disk.
    pub fn check_fresh(&self, mtime_now: u64) -> (r: Result<(), DapError>)
        ensures
            r is Ok <==> mtime_now == self.modified,
            r is Err ==> r === Err(DapError::StaleDataset),
    {
        if mtime_now != self.modified {
            Err(DapError::StaleDataset)
        } else {
            Ok(())
        }
    }

    /// Which read path a variable takes: the join coordinate itself is
    /// served from the cache; a variable whose first dimension is not
    /// the join dimension is served from the first member; everything
    /// else is routed across the members.
    pub fn route(&self, v: &Variable) -> (r: ReadPath)
        ensures
            r == ReadPath::Coordinate <==> v.name@ == self.dim_name@,
            r == ReadPath::FirstMember <==> (v.name@ != self.dim_name@ && (v.dims@.len() == 0
                || v.dims@[0].name@ != self.dim_name@)),
            r == ReadPath::Joined <==> (v.name@ != self.dim_name@ && v.dims@.len() > 0
                && v.dims@[0].name@ == self.dim_name@),
    {
        if str_eq(v.name.as_str(), self.dim_name.as_str()) {
            ReadPath::Coordinate
        } else if v.dims.len() == 0 || !str_eq(v.dims[0].name.as_str(), self.dim_name.as_str()) {
            ReadPath::FirstMember
        } else {
            ReadPath::Joined
        }
    }
}

/// The source bytes a variable of the aggregate is served from: the
/// coordinate cache for the join coordinate itself, the first member's
/// buffer for a variable the join does not touch, and the members'
/// buffers concatenated for a joined variable.
pub open spec fn agg_bytes_of(ds: &NcmlDataset, md: Seq<Vec<Vec<u8>>>, vi: int) -> Seq<u8> {
    let v = ds.dds.container.vars@[vi];
    if v.name@ == ds.dim_name@ {
        ds.coordinates.bytes@
    } else if v.dims@.len() == 0 || v.dims@[0].name@ != ds.dim_name@ {
        md[vi][0]@
    } else {
        crate::agg::concat_bufs(md[vi]@)
    }
}

/// The member lengths along the join dimension.
pub open spec fn member_ns(ds: &NcmlDataset) -> Seq<usize> {
    ds.members@.map_values(|m: Member| m.n)
}

/// The per-member buffers match the aggregate container: every
/// variable's assembled source holds exactly its aggregate shape, and
/// a joined variable's members each hold their own slice of it.
pub open spec fn agg_data_wf(ds: &NcmlDataset, md: Seq<Vec<Vec<u8>>>) -> bool {
    let c = &ds.dds.container;
    &&& md.len() == c.vars@.len()
    &&& ds.members@.len() >= 1
    &&& crate::agg::total_n(member_ns(ds)) == ds.dim_n
    &&& forall|j: int| 0 <= j < member_ns(ds).len() ==> (#[trigger] member_ns(ds)[j]) >= 1
    &&& forall|vi: int, j: int|
        0 <= vi < c.vars@.len() && 0 <= j < (#[trigger] c.vars@[vi]).dims@.len() ==> (
        #[trigger] c.vars@[vi].dims@[j]).size >= 1
    &&& forall|vi: int|
        0 <= vi < c.vars@.len() ==> (#[trigger] agg_bytes_of(ds, md, vi)).len() == crate::slab::prod(
            crate::dataset::dim_sizes(c.vars@[vi]),
        ) * crate::model::spec_width(c.vars@[vi].vartype)
    &&& forall|vi: int|
        0 <= vi < c.vars@.len() && (#[trigger] c.vars@[vi]).name@ != ds.dim_name@ && (
        c.vars@[vi].dims@.len() == 0 || c.vars@[vi].dims@[0].name@ != ds.dim_name@) ==> md[vi]@.len()
            >= 1
    &&& forall|vi: int|
        0 <= vi < c.vars@.len() && (#[trigger] c.vars@[vi]).name@ != ds.dim_name@
            && c.vars@[vi].dims@.len() > 0 && c.vars@[vi].dims@[0].name@ == ds.dim_name@ ==> {
            let v = c.vars@[vi];
            &&& v.dims@[0].size as int == ds.dim_n as int
            &&& md[vi]@.len() == ds.members@.len()
            &&& forall|j: int|
                0 <= j < md[vi]@.len() ==> (#[trigger] md[vi]@[j])@.len() == member_ns(ds)[j] * (
                crate::slab::prod(crate::dataset::dim_sizes(v).subrange(
                    1,
                    crate::dataset::dim_sizes(v).len() as int,
                )) * crate::model::spec_width(v.vartype))
        }
}

/// The wire stream `wire` answers the projection `part` against the
/// aggregate: the node is the projection's, and the bytes come from the
/// projected variable's aggregate source.
pub open spec fn agg_wire_resolved(
    ds: &NcmlDataset,
    md: Seq<Vec<Vec<u8>>>,
    part: Seq<char>,
    node: crate::dds::DdsNode,
    wire: Seq<u8>,
) -> bool {
    exists|vi: int, rs: Seq<(usize, usize)>|
        {
            &&& #[trigger] crate::dds::proj_resolved(&ds.dds.container, part, node, vi, rs)
            &&& wire == crate::dataset::var_wire_bytes(
                ds.dds.container.vars@[vi],
                agg_bytes_of(ds, md, vi),
                rs,
            )
        }
}

/// One full aggregate answer: the comma-free split of the constraint,
/// the nodes its projections spell, and each projection's wire stream.
pub open spec fn agg_answer(
    ds: &NcmlDataset,
    md: Seq<Vec<Vec<u8>>>,
    q: Seq<char>,
    parts: Seq<Seq<char>>,
    nodes: Seq<crate::dds::DdsNode>,
    wires: Seq<Seq<u8>>,
    chunks: Seq<Vec<u8>>,
) -> bool {
    let c = &ds.dds.container;
    &&& crate::dds::split_of(q, parts)
    &&& nodes.len() == parts.len()
    &&& wires.len() == parts.len()
    &&& chunks[0]@ == vstd::utf8::encode_utf8(crate::dds::dataset_text(c.name@, nodes))
    &&& forall|i: int|
        #![trigger parts[i]]
        0 <= i < parts.len() ==> agg_wire_resolved(ds, md, parts[i], nodes[i], wires[i])
    &&& crate::slab::chunks_concat(chunks.subrange(2, chunks.len() as int))
        == crate::dataset::concat_wires(wires)
}

/// What an aggregate DODS body is: the constrained DDS text, the
/// separator, then each projection's wire stream, in constraint order,
/// served from the members through the three read paths.
pub open spec fn agg_dods_body_ok(
    ds: &NcmlDataset,
    md: Seq<Vec<Vec<u8>>>,
    q: Seq<char>,
    chunks: Seq<Vec<u8>>,
) -> bool {
    &&& chunks.len() >= 2
    &&& chunks[1]@ == "\nData:\r\n".spec_bytes()
    &&& exists|
        parts: Seq<Seq<char>>,
        nodes: Seq<crate::dds::DdsNode>,
        wires: Seq<Seq<u8>>,
    | #[trigger] agg_answer(ds, md, q, parts, nodes, wires, chunks)
}

impl NcmlDataset {
    /// Streams one projected variable of the aggregate through its
    /// read path: the cache, the first member, or the routed join.
    #[verifier::loop_isolation(false)]
    fn agg_var_stream(&self, member_data: &Vec<Vec<Vec<u8>>>, vi: usize, rs: &Vec<(usize, usize)>)
        -> (r: Result<Vec<Vec<u8>>, DapError>)
        requires
            self.dds.container.wf(),
            agg_data_wf(self, member_data@),
            vi < self.dds.container.vars@.len(),
        ensures
            r matches Ok(chunks) ==> crate::slab::chunks_concat(chunks@)
                == crate::dataset::var_wire_bytes(
                self.dds.container.vars@[vi as int],
                agg_bytes_of(self, member_data@, vi as int),
                rs@,
            ),
    {
        let c = &self.dds.container;
        let v = &c.vars[vi];
        proof {
            assert(agg_bytes_of(self, member_data@, vi as int).len() == crate::slab::prod(
                crate::dataset::dim_sizes(c.vars@[vi as int]),
            ) * crate::model::spec_width(c.vars@[vi as int].vartype));
            assert forall|j: int| 0 <= j < v.dims@.len() implies (#[trigger] v.dims@[j]).size
                >= 1 by {
                assert(c.vars@[vi as int].dims@[j].size >= 1);
            }
        }
        match self.route(v) {
            ReadPath::Coordinate => {
                crate::dataset::var_xdr(&self.coordinates.bytes, v, rs, crate::dataset::CHUNK_ELEMS)
            },
            ReadPath::FirstMember => {
                proof {
                    assert(member_data@[vi as int]@.len() >= 1);
                }
                crate::dataset::var_xdr(&member_data[vi][0], v, rs, crate::dataset::CHUNK_ELEMS)
            },
            ReadPath::Joined => {
                // Validate and fill the hyperslab defaults against the
                // aggregate shape.
                let nd = v.dims.len();
                if rs.len() > nd {
                    return Err(DapError::InvalidConstraint);
                }
                let mut idx: Vec<usize> = Vec::new();
                let mut cnt: Vec<usize> = Vec::new();
                let mut i: usize = 0;
                while i < nd
                    invariant
                        i <= nd,
                        nd == v.dims@.len(),
                        rs@.len() <= nd,
                        v == self.dds.container.vars@[vi as int],
                        vi < self.dds.container.vars@.len(),
                        idx@.len() == i,
                        cnt@.len() == i,
                        forall|j: int|
                            0 <= j < i ==> (#[trigger] idx@[j]) == crate::dataset::full_indices(
                                *v,
                                rs@,
                            )[j],
                        forall|j: int|
                            0 <= j < i ==> (#[trigger] cnt@[j]) == crate::dataset::full_counts(
                                *v,
                                rs@,
                            )[j],
                        forall|j: int|
                            0 <= j < i ==> 1 <= (#[trigger] cnt@[j]) && idx@[j] + cnt@[j]
                                <= v.dims@[j].size,
                    decreases nd - i,
                {
                    if i < rs.len() {
                        let (st, ct) = rs[i];
                        if ct < 1 || st > v.dims[i].size || v.dims[i].size - st < ct {
                            return Err(DapError::InvalidConstraint);
                        }
                        idx.push(st);
                        cnt.push(ct);
                    } else {
                        proof {
                            assert(self.dds.container.vars@[vi as int].dims@[i as int].size >= 1);
                        }
                        idx.push(0);
                        cnt.push(v.dims[i].size);
                    }
                    i = i + 1;
                }
                proof {
                    assert(idx@ =~= crate::dataset::full_indices(*v, rs@));
                    assert(cnt@ =~= crate::dataset::full_counts(*v, rs@));
                }
                // The members' lengths and the shared inner shape.
                let nm = self.members.len();
                let mut ns: Vec<usize> = Vec::new();
                let mut k: usize = 0;
                while k < nm
                    invariant
                        k <= nm,
                        nm == self.members@.len(),
                        ns@.len() == k,
                        forall|j: int| 0 <= j < k ==> (#[trigger] ns@[j]) == self.members@[j].n,
                    decreases nm - k,
                {
                    ns.push(self.members[k].n);
                    k = k + 1;
                }
                proof {
                    assert(ns@ =~= member_ns(self));
                }
                let dims = crate::dataset::dims_of(v);
                let mut inner: Vec<usize> = Vec::new();
                let mut k: usize = 1;
                while k < dims.len()
                    invariant
                        1 <= k <= dims@.len(),
                        dims@ == crate::dataset::dim_sizes(*v),
                        dims@.len() >= 1,
                        inner@.len() == k - 1,
                        forall|j: int| 0 <= j < k - 1 ==> (#[trigger] inner@[j]) == dims@[j + 1],
                    decreases dims@.len() - k,
                {
                    inner.push(dims[k]);
                    k = k + 1;
                }
                proof {
                    assert(inner@ =~= crate::dataset::dim_sizes(*v).subrange(
                        1,
                        crate::dataset::dim_sizes(*v).len() as int,
                    ));
                }
                let w = v.vartype.width();
                let chunks = match crate::agg::joined_variable_stream(
                    &member_data[vi],
                    &ns,
                    &inner,
                    w,
                    &idx,
                    &cnt,
                ) {
                    Ok(chunks) => chunks,
                    Err(e) => { return Err(e); },
                };
                proof {
                    let vdims = crate::agg::virt_dims(ns@, inner@);
                    assert(vdims =~= crate::dataset::dim_sizes(*v));
                    assert(crate::agg::concat_bufs(member_data@[vi as int]@) == agg_bytes_of(
                        self,
                        member_data@,
                        vi as int,
                    ));
                    assert(chunks@.subrange(0, 2) =~= chunks@);
                    crate::slab::lemma_chunks_concat_front(chunks@);
                    let two = chunks@.subrange(1, chunks@.len() as int);
                    assert(two.drop_last() =~= Seq::<Vec<u8>>::empty());
                    assert(two.last() == chunks@[1]);
                    assert(crate::slab::chunks_concat(Seq::<Vec<u8>>::empty())
                        =~= Seq::<u8>::empty());
                    assert(crate::slab::chunks_concat(two) == crate::slab::chunks_concat(
                        Seq::<Vec<u8>>::empty(),
                    ) + chunks@[1]@);
                    assert(Seq::<u8>::empty() + chunks@[1]@ =~= chunks@[1]@);
                    assert(crate::slab::chunks_concat(chunks@) == chunks@[0]@ + chunks@[1]@);
                    assert(chunks@[0]@ + chunks@[1]@ =~= crate::dataset::var_wire_bytes(
                        self.dds.container.vars@[vi as int],
                        agg_bytes_of(self, member_data@, vi as int),
                        rs@,
                    ));
                }
                Ok(chunks)
            },
        }
    }

    /// Answers a data request against the aggregate: the constrained
    /// DDS text, the separator, then each projected variable's wire
    /// stream in constraint order, each served through its read path.
    /// A descriptor that changed on disk fails before any body byte.
    #[verifier::loop_isolation(false)]
    #[verifier::rlimit(100)]
    pub fn dods(&self, member_data: &Vec<Vec<Vec<u8>>>, constraint: &str, mtime_now: u64) -> (r:
        Result<Vec<Vec<u8>>, DapError>)
        requires
            self.dds.container.wf(),
            agg_data_wf(self, member_data@),
        ensures
            mtime_now != self.modified ==> r === Err(DapError::StaleDataset),
            r is Ok ==> mtime_now == self.modified,
            r matches Ok(chunks) ==> agg_dods_body_ok(self, member_data@, constraint@, chunks@),
    {
        if mtime_now != self.modified {
            return Err(DapError::StaleDataset);
        }
        let c = &self.dds.container;
        let mut nodes: Vec<crate::dds::DdsNode> = Vec::new();
        let mut tail: Vec<Vec<u8>> = Vec::new();
        let ghost mut wires: Seq<Seq<u8>> = Seq::empty();
        proof {
            assert(crate::slab::chunks_concat(Seq::<Vec<u8>>::empty()) =~= Seq::<u8>::empty());
            assert(crate::dataset::concat_wires(Seq::<Seq<u8>>::empty()) =~= Seq::<u8>::empty());
        }
        let parts = split_commas(constraint);
        let ghost parts_view = parts@.map_values(|p: String| p@);
        proof {
            assert(crate::dds::split_of(constraint@, parts_view));
        }
        let np = parts.len();
        let mut i: usize = 0;
        while i < np
            invariant
                i <= np,
                np == parts@.len(),
                c == &self.dds.container,
                c.wf(),
                agg_data_wf(self, member_data@),
                parts_view == parts@.map_values(|p: String| p@),
                crate::dds::split_of(constraint@, parts_view),
                nodes@.len() == i,
                wires.len() == i,
                forall|j: int|
                    0 <= j < i ==> #[trigger] agg_wire_resolved(
                        self,
                        member_data@,
                        parts_view[j],
                        nodes@[j],
                        wires[j],
                    ),
                crate::slab::chunks_concat(tail@) == crate::dataset::concat_wires(wires),
            decreases np - i,
        {
            let (node, vi, rs) = match self.dds.project_part(parts[i].as_str()) {
                Ok(t) => t,
                Err(e) => { return Err(e); },
            };
            let vc = match self.agg_var_stream(member_data, vi, &rs) {
                Ok(vc) => vc,
                Err(e) => { return Err(e); },
            };
            let ghost wire = crate::dataset::var_wire_bytes(
                c.vars@[vi as int],
                agg_bytes_of(self, member_data@, vi as int),
                rs@,
            );
            let ghost prenodes = nodes@;
            nodes.push(node);
            crate::dataset::append_chunks(&mut tail, vc);
            proof {
                let prewires = wires;
                wires = wires.push(wire);
                assert(wires.drop_last() =~= prewires);
                assert(wires.last() == wire);
                assert(crate::slab::chunks_concat(tail@) == crate::dataset::concat_wires(wires));
                assert(nodes@[i as int] == node);
                assert(crate::dds::proj_resolved(c, parts_view[i as int], nodes@[i as int], vi as int, rs@));
                assert(agg_wire_resolved(
                    self,
                    member_data@,
                    parts_view[i as int],
                    nodes@[i as int],
                    wires[i as int],
                ));
                assert forall|j: int|
                    0 <= j < i implies #[trigger] agg_wire_resolved(
                    self,
                    member_data@,
                    parts_view[j],
                    nodes@[j],
                    wires[j],
                ) by {
                    assert(nodes@[j] == prenodes[j]);
                    assert(wires[j] == prewires[j]);
                    assert(agg_wire_resolved(
                        self,
                        member_data@,
                        parts_view[j],
                        prenodes[j],
                        prewires[j],
                    ));
                }
            }
            i = i + 1;
        }
        let text = crate::dds::render_dataset(c.name.as_str(), &nodes);
        let mut out: Vec<Vec<u8>> = Vec::new();
        out.push(text.as_str().as_bytes_vec());
        out.push("\nData:\r\n".as_bytes_vec());
        let ghost body = crate::slab::chunks_concat(tail@);
        let mut tail = tail;
        proof {
            assert(out@.subrange(2, 2) =~= Seq::<Vec<u8>>::empty());
        }
        #[verifier::loop_isolation(false)]
        while tail.len() > 0
            invariant
                out@.len() >= 2,
                out@[0]@ == vstd::utf8::encode_utf8(text@),
                out@[1]@ == "\nData:\r\n".spec_bytes(),
                crate::slab::chunks_concat(out@.subrange(2, out@.len() as int))
                    + crate::slab::chunks_concat(tail@) == body,
            decreases tail@.len(),
        {
            let ghost pretail = tail@;
            let ghost preout = out@;
            let chunk = tail.remove(0);
            out.push(chunk);
            proof {
                crate::slab::lemma_chunks_concat_front(pretail);
                assert(tail@ =~= pretail.subrange(1, pretail.len() as int));
                assert(out@.subrange(2, out@.len() as int).drop_last() =~= preout.subrange(
                    2,
                    preout.len() as int,
                ));
                assert(out@.subrange(2, out@.len() as int).last() == pretail[0]);
                assert(crate::slab::chunks_concat(out@.subrange(2, out@.len() as int))
                    == crate::slab::chunks_concat(preout.subrange(2, preout.len() as int))
                    + pretail[0]@);
                assert((crate::slab::chunks_concat(preout.subrange(2, preout.len() as int))
                    + pretail[0]@) + crate::slab::chunks_concat(
                    pretail.subrange(1, pretail.len() as int),
                ) =~= crate::slab::chunks_concat(preout.subrange(2, preout.len() as int)) + (
                pretail[0]@ + crate::slab::chunks_concat(
                    pretail.subrange(1, pretail.len() as int),
                )));
            }
        }
        proof {
            assert(crate::slab::chunks_concat(tail@) =~= Seq::<u8>::empty());
            assert(crate::slab::chunks_concat(out@.subrange(2, out@.len() as int))
                + Seq::<u8>::empty() =~= crate::slab::chunks_concat(
                out@.subrange(2, out@.len() as int),
            ));
            assert(crate::slab::chunks_concat(out@.subrange(2, out@.len() as int)) == body);
            assert(out@[0]@ == vstd::utf8::encode_utf8(
                crate::dds::dataset_text(c.name@, nodes@),
            ));
            assert(crate::dds::split_of(constraint@, parts_view));
            assert(nodes@.len() == parts_view.len());
            assert(wires.len() == parts_view.len());
            assert forall|k: int|
                0 <= k < parts_view.len() implies agg_wire_resolved(
                self,
                member_data@,
                #[trigger] parts_view[k],
                nodes@[k],
                wires[k],
            ) by {
                assert(agg_wire_resolved(self, member_data@, parts_view[k], nodes@[k], wires[k]));
            }
            assert(crate::dataset::concat_wires(wires) == crate::slab::chunks_concat(
                out@.subrange(2, out@.len() as int),
            ));
            assert(agg_answer(self, member_data@, constraint@, parts_view, nodes@, wires, out@));
            assert(agg_dods_body_ok(self, member_data@, constraint@, out@));
        }
        Ok(out)
    }
}

} // verus!
