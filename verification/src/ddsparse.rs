//! Parsing DDS descriptor text back into its nodes.
//!
//! The parser is strict: a candidate parse is accepted only when
//! re-rendering it reproduces the input text character for character.
//! Whatever this parser accepts therefore round-trips exactly.

use vstd::prelude::*;
use vstd::string::{StrSliceExecFns, StringExecFns};

use crate::dds::{DdsNode, DimSel, MapSel, dataset_text, render_dataset};
use crate::model::VarType;
use crate::text::str_eq;

verus! {

/// Consumes the literal `lit` at `pos`.
fn eat_lit(s: &str, pos: usize, lit: &str) -> (r: Option<usize>)
    requires
        pos <= s@.len(),
    ensures
        r matches Some(p) ==> p == pos + lit@.len() && p <= s@.len(),
{
    let m = lit.unicode_len();
    let n = s.unicode_len();
    if m > n - pos {
        return None;
    }
    let mut i: usize = 0;
    while i < m
        invariant
            i <= m,
            m == lit@.len(),
            n == s@.len(),
            pos + m <= n,
        decreases m - i,
    {
        if s.get_char(pos + i) != lit.get_char(i) {
            return None;
        }
        i = i + 1;
    }
    Some(pos + m)
}

/// Whether a character may appear in a printed name.
fn is_name_char(c: char) -> bool {
    c != ' ' && c != '[' && c != ']' && c != ';' && c != '\n' && c != '{' && c != '}' && c != '='
}

/// Reads a non-empty name at `pos`.
fn parse_name(s: &str, pos: usize) -> (r: Option<(String, usize)>)
    requires
        pos <= s@.len(),
    ensures
        r matches Some(p) ==> pos < p.1 <= s@.len(),
{
    let n = s.unicode_len();
    let mut q: usize = pos;
    while q < n
        invariant
            pos <= q <= n,
            n == s@.len(),
        decreases n - q,
    {
        if !is_name_char(s.get_char(q)) {
            break ;
        }
        q = q + 1;
    }
    if q == pos {
        return None;
    }
    Some((String::from_str(s.substring_char(pos, q)), q))
}

/// Reads a decimal number at `pos`.
fn parse_number(s: &str, pos: usize) -> (r: Option<(usize, usize)>)
    requires
        pos <= s@.len(),
    ensures
        r matches Some(p) ==> pos < p.1 <= s@.len(),
{
    let n = s.unicode_len();
    let mut q: usize = pos;
    let mut val: usize = 0;
    while q < n
        invariant
            pos <= q <= n,
            n == s@.len(),
        decreases n - q,
    {
        let c = s.get_char(q);
        if !(c >= '0' && c <= '9') {
            break ;
        }
        if val > (usize::MAX - 9) / 10 {
            return None;
        }
        val = val * 10 + ((c as u32 - '0' as u32) as usize);
        q = q + 1;
    }
    if q == pos {
        return None;
    }
    Some((val, q))
}

/// Reads a type tag at `pos`.
fn parse_type(s: &str, pos: usize) -> (r: Option<(VarType, usize)>)
    requires
        pos <= s@.len(),
    ensures
        r matches Some(p) ==> pos <= p.1 <= s@.len(),
{
    if let Some(p) = eat_lit(s, pos, "Float32") {
        return Some((VarType::Float32, p));
    }
    if let Some(p) = eat_lit(s, pos, "Float64") {
        return Some((VarType::Float64, p));
    }
    if let Some(p) = eat_lit(s, pos, "Int16") {
        return Some((VarType::Int16, p));
    }
    if let Some(p) = eat_lit(s, pos, "Int32") {
        return Some((VarType::Int32, p));
    }
    if let Some(p) = eat_lit(s, pos, "Byte") {
        return Some((VarType::Byte, p));
    }
    None
}

/// Reads a run of `[name = size]` selections at `pos`.
fn parse_sels(s: &str, pos: usize) -> (r: Option<(Vec<DimSel>, usize)>)
    requires
        pos <= s@.len(),
    ensures
        r matches Some(p) ==> pos <= p.1 <= s@.len(),
{
    let n = s.unicode_len();
    let mut sels: Vec<DimSel> = Vec::new();
    let mut q: usize = pos;
    while q < n
        invariant
            pos <= q <= n,
            n == s@.len(),
        decreases n - q,
    {
        if s.get_char(q) != '[' {
            break ;
        }
        let (name, q1) = match parse_name(s, q + 1) {
            Some(p) => p,
            None => { return None; },
        };
        let q2 = match eat_lit(s, q1, " = ") {
            Some(p) => p,
            None => { return None; },
        };
        let (size, q3) = match parse_number(s, q2) {
            Some(p) => p,
            None => { return None; },
        };
        let q4 = match eat_lit(s, q3, "]") {
            Some(p) => p,
            None => { return None; },
        };
        sels.push(DimSel { name, size });
        q = q4;
    }
    Some((sels, q))
}

/// Reads one `<type> <name><sels>;` line at the given indent.
fn parse_atomic_line(s: &str, pos: usize, indent: usize) -> (r: Option<
    (VarType, String, Vec<DimSel>, usize),
>)
    requires
        pos <= s@.len(),
    ensures
        r matches Some(p) ==> pos < p.3 <= s@.len(),
{
    let n = s.unicode_len();
    let mut q: usize = pos;
    let mut i: usize = 0;
    while i < indent
        invariant
            i <= indent,
            pos <= q <= n,
            n == s@.len(),
            q == pos + i,
        decreases indent - i,
    {
        if q >= n || s.get_char(q) != ' ' {
            return None;
        }
        q = q + 1;
        i = i + 1;
    }
    let (t, q1) = match parse_type(s, q) {
        Some(p) => p,
        None => { return None; },
    };
    let q2 = match eat_lit(s, q1, " ") {
        Some(p) => p,
        None => { return None; },
    };
    let (name, q3) = match parse_name(s, q2) {
        Some(p) => p,
        None => { return None; },
    };
    let (sels, q4) = match parse_sels(s, q3) {
        Some(p) => p,
        None => { return None; },
    };
    let q5 = match eat_lit(s, q4, ";") {
        Some(p) => p,
        None => { return None; },
    };
    Some((t, name, sels, q5))
}

/// Reads one DDS node at `pos`.
fn parse_node(s: &str, pos: usize) -> (r: Option<(DdsNode, usize)>)
    requires
        pos <= s@.len(),
    ensures
        r matches Some(p) ==> pos < p.1 <= s@.len(),
{
    let n = s.unicode_len();
    if let Some(q) = eat_lit(s, pos, "    Grid {\n     ARRAY:\n") {
        let (vt, name, sels, q1) = match parse_atomic_line(s, q, 8) {
            Some(p) => p,
            None => { return None; },
        };
        let q2 = match eat_lit(s, q1, "\n     MAPS:\n") {
            Some(p) => p,
            None => { return None; },
        };
        let mut maps: Vec<MapSel> = Vec::new();
        let mut q3: usize = q2;
        loop
            invariant
                pos < q3 <= n,
                n == s@.len(),
            ensures
                pos < q3 <= n,
            decreases n - q3,
        {
            match parse_atomic_line(s, q3, 8) {
                Some((mt, mname, msels, q4)) => {
                    if msels.len() != 1 {
                        return None;
                    }
                    let mut msels = msels;
                    let sel = match msels.pop() {
                        Some(sel) => sel,
                        None => { return None; },
                    };
                    maps.push(MapSel { vartype: mt, name: mname, sel });
                    match eat_lit(s, q4, "\n") {
                        Some(q5) => { q3 = q5; },
                        None => { return None; },
                    }
                },
                None => { break ; },
            }
        }
        let q6 = match eat_lit(s, q3, "    } ") {
            Some(p) => p,
            None => { return None; },
        };
        let (gname, q7) = match parse_name(s, q6) {
            Some(p) => p,
            None => { return None; },
        };
        if !str_eq(gname.as_str(), name.as_str()) {
            return None;
        }
        let q8 = match eat_lit(s, q7, ";\n") {
            Some(p) => p,
            None => { return None; },
        };
        return Some((DdsNode::Grid { vartype: vt, name, sels, maps }, q8));
    }
    if let Some(q) = eat_lit(s, pos, "    Structure {\n") {
        let (mt, mname, msels, q1) = match parse_atomic_line(s, q, 8) {
            Some(p) => p,
            None => { return None; },
        };
        let q2 = match eat_lit(s, q1, "\n    } ") {
            Some(p) => p,
            None => { return None; },
        };
        let (varname, q3) = match parse_name(s, q2) {
            Some(p) => p,
            None => { return None; },
        };
        let q4 = match eat_lit(s, q3, ";\n") {
            Some(p) => p,
            None => { return None; },
        };
        return Some((DdsNode::Structure { varname, mtype: mt, mname, msels }, q4));
    }
    match parse_atomic_line(s, pos, 4) {
        Some((vt, name, sels, q1)) => {
            match eat_lit(s, q1, "\n") {
                Some(q2) => Some((DdsNode::Atomic { vartype: vt, name, sels }, q2)),
                None => None,
            }
        },
        None => None,
    }
}

/// Parses an unconstrained DDS text into its dataset name and nodes.
///
/// Round-trip: the parse is accepted only when serializing it again
/// re-emits the input exactly, so whatever this returns reproduces the
/// text it was read from.
pub fn parse_dds(t: &str) -> (r: Option<(String, Vec<DdsNode>)>)
    ensures
        r matches Some(p) ==> dataset_text(p.0@, p.1@) == t@,
{
    let n = t.unicode_len();
    let mut pos = match eat_lit(t, 0, "Dataset {\n") {
        Some(p) => p,
        None => { return None; },
    };
    let mut nodes: Vec<DdsNode> = Vec::new();
    loop
        invariant
            pos <= n,
            n == t@.len(),
        ensures
            pos <= n,
        decreases n - pos,
    {
        if eat_lit(t, pos, "} ").is_some() {
            break ;
        }
        match parse_node(t, pos) {
            Some((node, q)) => {
                nodes.push(node);
                pos = q;
            },
            None => { return None; },
        }
    }
    let pos = match eat_lit(t, pos, "} ") {
        Some(p) => p,
        None => { return None; },
    };
    let (name, pos) = match parse_name(t, pos) {
        Some(p) => p,
        None => { return None; },
    };
    let pos = match eat_lit(t, pos, ";") {
        Some(p) => p,
        None => { return None; },
    };
    if pos != n {
        return None;
    }
    // Strictness: accept only what re-renders to the very same text.
    let rendered = render_dataset(name.as_str(), &nodes);
    if str_eq(rendered.as_str(), t) {
        Some((name, nodes))
    } else {
        None
    }
}

} // verus!
