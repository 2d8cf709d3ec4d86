//! The DAS (Data Attribute Structure) builder.
//!
//! A DAS response lists the global attributes (under `NC_GLOBAL`) and one
//! block per variable. Every line of the emitted text is pinned down by
//! the spec renderings below.

use vstd::prelude::*;
use vstd::string::{StrSliceExecFns, StringExecFns};

use crate::text::{
    dec_str, hex_str, int_str, joined_with, push_hex, push_i64, push_spaces,
    push_u64, spaces,
};

verus! {

/// A typed attribute value.
///
/// Floating-point values reach this crate already rendered in the signed
/// exponential form the DAS prints (for example `+1.5E2`); the reader
/// that extracts attributes from a container renders them.
#[derive(Clone, Debug)]
pub enum AttrValue {
    Str(String),
    Float(String),
    Floats(Vec<String>),
    Double(String),
    Doubles(Vec<String>),
    Short(i16),
    Shorts(Vec<i16>),
    Int(i32),
    Ints(Vec<i32>),
    Uchar(u8),
    /// Hidden from output on purpose.
    Ignored(String),
    /// A value kind the server does not render; dropped from output.
    Unimplemented(String),
}

/// A named attribute.
#[derive(Clone, Debug)]
pub struct Attribute {
    pub name: String,
    pub value: AttrValue,
}

/// The attributes of one variable.
#[derive(Clone, Debug)]
pub struct AttrSet {
    pub name: String,
    pub attrs: Vec<Attribute>,
}

/// How one character appears inside a quoted DAS string: the C escapes
/// for quote, backslash and control shorthands, printable ASCII as
/// itself, and `\u{...}` for everything else.
pub open spec fn escape_char(c: char) -> Seq<char> {
    if c == '"' {
        seq!['\\', '"']
    } else if c == '\\' {
        seq!['\\', '\\']
    } else if c == '\n' {
        seq!['\\', 'n']
    } else if c == '\r' {
        seq!['\\', 'r']
    } else if c == '\t' {
        seq!['\\', 't']
    } else if c == '\'' {
        seq!['\\', '\'']
    } else if ' ' <= c && c <= '~' {
        seq![c]
    } else {
        seq!['\\', 'u', '{'] + hex_str(c as int) + seq!['}']
    }
}

/// A whole string with every character escaped.
pub open spec fn escape_text(s: Seq<char>) -> Seq<char>
    decreases s.len(),
{
    if s.len() == 0 {
        Seq::empty()
    } else {
        escape_text(s.drop_last()) + escape_char(s.last())
    }
}

/// Appends `s` with DAS string escaping to `out`.
pub fn push_escaped(out: &mut String, s: &str)
    ensures
        final(out)@ == old(out)@ + escape_text(s@),
{
    proof {
        reveal_strlit("\\\"");
        reveal_strlit("\\\\");
        reveal_strlit("\\n");
        reveal_strlit("\\r");
        reveal_strlit("\\t");
        reveal_strlit("\\'");
        reveal_strlit("\\u{");
        reveal_strlit("}");
    }
    let n = s.unicode_len();
    let mut i: usize = 0;
    while i < n
        invariant
            i <= n,
            n == s@.len(),
            out@ == old(out)@ + escape_text(s@.subrange(0, i as int)),
            ("\\\"")@ =~= seq!['\\', '"'],
            ("\\\\")@ =~= seq!['\\', '\\'],
            ("\\n")@ =~= seq!['\\', 'n'],
            ("\\r")@ =~= seq!['\\', 'r'],
            ("\\t")@ =~= seq!['\\', 't'],
            ("\\'")@ =~= seq!['\\', '\''],
            ("\\u{")@ =~= seq!['\\', 'u', '{'],
            ("}")@ =~= seq!['}'],
        decreases n - i,
    {
        let c = s.get_char(i);
        if c == '"' {
            out.append("\\\"");
        } else if c == '\\' {
            out.append("\\\\");
        } else if c == '\n' {
            out.append("\\n");
        } else if c == '\r' {
            out.append("\\r");
        } else if c == '\t' {
            out.append("\\t");
        } else if c == '\'' {
            out.append("\\'");
        } else if c >= ' ' && c <= '~' {
            out.append(s.substring_char(i, i + 1));
            proof {
                assert(s@.subrange(i as int, i + 1) =~= seq![c]);
            }
        } else {
            out.append("\\u{");
            push_hex(out, c as u32);
            out.append("}");
        }
        i = i + 1;
        proof {
            let pre = s@.subrange(0, i - 1);
            let post = s@.subrange(0, i as int);
            assert(post.drop_last() =~= pre);
            assert(post.last() == c);
            assert(escape_text(post) == escape_text(pre) + escape_char(c));
        }
    }
    proof {
        assert(s@.subrange(0, n as int) =~= s@);
    }
}

/// The views of a list of rendered numerals.
pub open spec fn str_views(v: Seq<String>) -> Seq<Seq<char>> {
    v.map_values(|s: String| s@)
}

/// The decimal renderings of a list of 16-bit integers.
pub open spec fn i16_strs(v: Seq<i16>) -> Seq<Seq<char>> {
    v.map_values(|n: i16| int_str(n as int))
}

/// The decimal renderings of a list of 32-bit integers.
pub open spec fn i32_strs(v: Seq<i32>) -> Seq<Seq<char>> {
    v.map_values(|n: i32| int_str(n as int))
}

/// The printed form of one attribute value, without name or type tag.
pub open spec fn value_text(v: AttrValue) -> Seq<char> {
    match v {
        AttrValue::Str(s) => seq!['"'] + escape_text(s@) + seq!['"'],
        AttrValue::Float(s) => s@,
        AttrValue::Floats(ss) => joined_with(str_views(ss@), ", "@),
        AttrValue::Double(s) => s@,
        AttrValue::Doubles(ss) => joined_with(str_views(ss@), ", "@),
        AttrValue::Short(n) => int_str(n as int),
        AttrValue::Shorts(ns) => joined_with(i16_strs(ns@), ", "@),
        AttrValue::Int(n) => int_str(n as int),
        AttrValue::Ints(ns) => joined_with(i32_strs(ns@), ", "@),
        AttrValue::Uchar(n) => dec_str(n as int),
        AttrValue::Ignored(_) => Seq::empty(),
        AttrValue::Unimplemented(_) => Seq::empty(),
    }
}

/// The DAS type tag of one attribute value.
pub open spec fn tag_text(v: AttrValue) -> Seq<char> {
    match v {
        AttrValue::Str(_) => "String"@,
        AttrValue::Float(_) => "Float32"@,
        AttrValue::Floats(_) => "Float32"@,
        AttrValue::Double(_) => "Float64"@,
        AttrValue::Doubles(_) => "Float64"@,
        AttrValue::Short(_) => "Int16"@,
        AttrValue::Shorts(_) => "Int16"@,
        AttrValue::Int(_) => "Int32"@,
        AttrValue::Ints(_) => "Int32"@,
        AttrValue::Uchar(_) => "Byte"@,
        AttrValue::Ignored(_) => Seq::empty(),
        AttrValue::Unimplemented(_) => Seq::empty(),
    }
}

/// Whether an attribute value is dropped from output.
pub open spec fn is_dropped(v: AttrValue) -> bool {
    v is Ignored || v is Unimplemented
}

/// One attribute line, eight spaces in, or nothing for dropped kinds.
pub open spec fn attr_text(a: Attribute) -> Seq<char> {
    if is_dropped(a.value) {
        Seq::empty()
    } else {
        spaces(8) + tag_text(a.value) + " "@ + a.name@ + " "@ + value_text(a.value) + ";"@ + "\n"@
    }
}

/// The lines of a list of attributes.
pub open spec fn attrs_text(attrs: Seq<Attribute>) -> Seq<char>
    decreases attrs.len(),
{
    if attrs.len() == 0 {
        Seq::empty()
    } else {
        attrs_text(attrs.drop_last()) + attr_text(attrs.last())
    }
}

/// One per-variable attribute block, always emitted, even when empty.
pub open spec fn var_block_text(set: AttrSet) -> Seq<char> {
    spaces(4) + set.name@ + " {"@ + "\n"@ + attrs_text(set.attrs@) + spaces(4) + "}"@ + "\n"@
}

/// All the per-variable blocks.
pub open spec fn var_blocks_text(sets: Seq<AttrSet>) -> Seq<char>
    decreases sets.len(),
{
    if sets.len() == 0 {
        Seq::empty()
    } else {
        var_blocks_text(sets.drop_last()) + var_block_text(sets.last())
    }
}

/// The whole DAS response text. The global block appears only when there
/// is at least one global attribute.
pub open spec fn das_text(global: Seq<Attribute>, sets: Seq<AttrSet>) -> Seq<char> {
    "Attributes {"@ + "\n"@ + (if global.len() > 0 {
        spaces(4) + "NC_GLOBAL {"@ + "\n"@ + attrs_text(global) + spaces(4) + "}"@ + "\n"@
    } else {
        Seq::empty()
    }) + var_blocks_text(sets) + "}"@
}

/// DAS (Data Attribute Structure): the finished response text.
pub struct Das(pub String);

impl Das {
    /// The response text.
    pub fn as_str(&self) -> (r: &str)
        ensures
            r@ == self.0@,
    {
        self.0.as_str()
    }

    /// Appends one attribute's line (or nothing, for dropped kinds).
    fn push_attr(out: &mut String, a: &Attribute)
        ensures
            final(out)@ == old(out)@ + attr_text(*a),
    {
        proof {
            reveal_strlit("\"");
            reveal_strlit(", ");
        }
        if matches!(a.value, AttrValue::Ignored(_)) || matches!(
            a.value,
            AttrValue::Unimplemented(_),
        ) {
            return ;
        }
        push_spaces(out, 8);
        match &a.value {
            AttrValue::Str(_) => out.append("String"),
            AttrValue::Float(_) => out.append("Float32"),
            AttrValue::Floats(_) => out.append("Float32"),
            AttrValue::Double(_) => out.append("Float64"),
            AttrValue::Doubles(_) => out.append("Float64"),
            AttrValue::Short(_) => out.append("Int16"),
            AttrValue::Shorts(_) => out.append("Int16"),
            AttrValue::Int(_) => out.append("Int32"),
            AttrValue::Ints(_) => out.append("Int32"),
            AttrValue::Uchar(_) => out.append("Byte"),
            AttrValue::Ignored(_) => {},
            AttrValue::Unimplemented(_) => {},
        }
        out.append(" ");
        out.append(a.name.as_str());
        out.append(" ");
        let ghost before_value = out@;
        match &a.value {
            AttrValue::Str(s) => {
                out.append("\"");
                push_escaped(out, s.as_str());
                out.append("\"");
                proof {
                    assert(("\"")@ =~= seq!['"']);
                    assert(out@ =~= before_value + value_text(a.value));
                }
            },
            AttrValue::Float(s) => out.append(s.as_str()),
            AttrValue::Double(s) => out.append(s.as_str()),
            AttrValue::Floats(ss) => Das::push_strs(out, ss),
            AttrValue::Doubles(ss) => Das::push_strs(out, ss),
            AttrValue::Short(n) => push_i64(out, *n as i64),
            AttrValue::Int(n) => push_i64(out, *n as i64),
            AttrValue::Shorts(ns) => Das::push_i16s(out, ns),
            AttrValue::Ints(ns) => Das::push_i32s(out, ns),
            AttrValue::Uchar(n) => push_u64(out, *n as u64),
            AttrValue::Ignored(_) => {},
            AttrValue::Unimplemented(_) => {},
        }
        out.append(";");
        out.append("\n");
        proof {
            assert(old(out)@ + spaces(8) + tag_text(a.value) + " "@ + a.name@ + " "@ + value_text(
                a.value,
            ) + ";"@ + "\n"@ =~= old(out)@ + attr_text(*a));
        }
    }

    /// Appends pre-rendered numerals, comma-space separated.
    fn push_strs(out: &mut String, ss: &Vec<String>)
        ensures
            final(out)@ == old(out)@ + joined_with(str_views(ss@), ", "@),
    {
        let n = ss.len();
        let mut i: usize = 0;
        while i < n
            invariant
                i <= n,
                n == ss@.len(),
                out@ == old(out)@ + joined_with(str_views(ss@.subrange(0, i as int)), ", "@),
            decreases n - i,
        {
            if i > 0 {
                out.append(", ");
            }
            out.append(ss[i].as_str());
            i = i + 1;
            proof {
                let pre = str_views(ss@.subrange(0, i - 1));
                let post = str_views(ss@.subrange(0, i as int));
                assert(post.drop_last() =~= pre);
                assert(post.last() == ss@[i - 1]@);
            }
        }
        proof {
            assert(ss@.subrange(0, n as int) =~= ss@);
        }
    }

    /// Appends 16-bit integers, comma-space separated.
    fn push_i16s(out: &mut String, ns: &Vec<i16>)
        ensures
            final(out)@ == old(out)@ + joined_with(i16_strs(ns@), ", "@),
    {
        let n = ns.len();
        let mut i: usize = 0;
        while i < n
            invariant
                i <= n,
                n == ns@.len(),
                out@ == old(out)@ + joined_with(i16_strs(ns@.subrange(0, i as int)), ", "@),
            decreases n - i,
        {
            if i > 0 {
                out.append(", ");
            }
            push_i64(out, ns[i] as i64);
            i = i + 1;
            proof {
                let pre = i16_strs(ns@.subrange(0, i - 1));
                let post = i16_strs(ns@.subrange(0, i as int));
                assert(post.drop_last() =~= pre);
                assert(post.last() == int_str(ns@[i - 1] as int));
            }
        }
        proof {
            assert(ns@.subrange(0, n as int) =~= ns@);
        }
    }

    /// Appends 32-bit integers, comma-space separated.
    fn push_i32s(out: &mut String, ns: &Vec<i32>)
        ensures
            final(out)@ == old(out)@ + joined_with(i32_strs(ns@), ", "@),
    {
        let n = ns.len();
        let mut i: usize = 0;
        while i < n
            invariant
                i <= n,
                n == ns@.len(),
                out@ == old(out)@ + joined_with(i32_strs(ns@.subrange(0, i as int)), ", "@),
            decreases n - i,
        {
            if i > 0 {
                out.append(", ");
            }
            push_i64(out, ns[i] as i64);
            i = i + 1;
            proof {
                let pre = i32_strs(ns@.subrange(0, i - 1));
                let post = i32_strs(ns@.subrange(0, i as int));
                assert(post.drop_last() =~= pre);
                assert(post.last() == int_str(ns@[i - 1] as int));
            }
        }
        proof {
            assert(ns@.subrange(0, n as int) =~= ns@);
        }
    }

    /// Appends a run of attribute lines.
    fn push_attrs(out: &mut String, attrs: &Vec<Attribute>)
        ensures
            final(out)@ == old(out)@ + attrs_text(attrs@),
    {
        let n = attrs.len();
        let mut i: usize = 0;
        while i < n
            invariant
                i <= n,
                n == attrs@.len(),
                out@ == old(out)@ + attrs_text(attrs@.subrange(0, i as int)),
            decreases n - i,
        {
            Das::push_attr(out, &attrs[i]);
            i = i + 1;
            proof {
                let pre = attrs@.subrange(0, i - 1);
                let post = attrs@.subrange(0, i as int);
                assert(post.drop_last() =~= pre);
                assert(post.last() == attrs@[i - 1]);
            }
        }
        proof {
            assert(attrs@.subrange(0, n as int) =~= attrs@);
        }
    }

    /// Builds the DAS text from the global attributes and the
    /// per-variable attribute sets, in their declared order.
    pub fn build(global: &Vec<Attribute>, sets: &Vec<AttrSet>) -> (r: Das)
        ensures
            r.0@ == das_text(global@, sets@),
    {
        let mut out = String::new();
        out.append("Attributes {");
        out.append("\n");
        if global.len() > 0 {
            push_spaces(&mut out, 4);
            out.append("NC_GLOBAL {");
            out.append("\n");
            Das::push_attrs(&mut out, global);
            push_spaces(&mut out, 4);
            out.append("}");
            out.append("\n");
        }
        let ghost mid = out@;
        let n = sets.len();
        let mut i: usize = 0;
        while i < n
            invariant
                i <= n,
                n == sets@.len(),
                out@ == mid + var_blocks_text(sets@.subrange(0, i as int)),
            decreases n - i,
        {
            push_spaces(&mut out, 4);
            out.append(sets[i].name.as_str());
            out.append(" {");
            out.append("\n");
            Das::push_attrs(&mut out, &sets[i].attrs);
            push_spaces(&mut out, 4);
            out.append("}");
            out.append("\n");
            i = i + 1;
            proof {
                let pre = sets@.subrange(0, i - 1);
                let post = sets@.subrange(0, i as int);
                assert(post.drop_last() =~= pre);
                assert(post.last() == sets@[i - 1]);
                assert(mid + var_blocks_text(pre) + spaces(4) + sets@[i - 1].name@ + " {"@ + "\n"@
                    + attrs_text(sets@[i - 1].attrs@) + spaces(4) + "}"@ + "\n"@ =~= mid
                    + var_blocks_text(post));
            }
        }
        proof {
            assert(sets@.subrange(0, n as int) =~= sets@);
        }
        out.append("}");
        proof {
            assert(out@ =~= das_text(global@, sets@));
        }
        Das(out)
    }
}

} // verus!
