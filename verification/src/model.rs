//! The dataset model: variables, named dimensions, and element types.
//!
//! A container file is presented to this crate as plain values: each
//! variable has a primitive element type, an ordered list of named
//! dimensions, and its attributes. The reader that fills this model in
//! from a file on disk lives outside the crate.

use vstd::prelude::*;
use vstd::string::StringExecFns;

use crate::text::str_eq;

verus! {

/// The primitive element types DAP2 serving distinguishes.
#[derive(Clone, Copy, Debug, PartialEq, Eq, Structural)]
pub enum VarType {
    Byte,
    Int16,
    Int32,
    Float32,
    Float64,
}

/// The DAP2 spelling of an element type.
pub open spec fn spec_type_name(t: VarType) -> Seq<char> {
    match t {
        VarType::Byte => "Byte"@,
        VarType::Int16 => "Int16"@,
        VarType::Int32 => "Int32"@,
        VarType::Float32 => "Float32"@,
        VarType::Float64 => "Float64"@,
    }
}

/// The element width of a type, in bytes.
pub open spec fn spec_width(t: VarType) -> int {
    match t {
        VarType::Byte => 1,
        VarType::Int16 => 2,
        VarType::Int32 => 4,
        VarType::Float32 => 4,
        VarType::Float64 => 8,
    }
}

impl VarType {
    /// The DAP2 spelling of the type, as printed in DAS and DDS texts.
    pub fn name_str(&self) -> (r: &'static str)
        ensures
            r@ == spec_type_name(*self),
    {
        match self {
            VarType::Byte => "Byte",
            VarType::Int16 => "Int16",
            VarType::Int32 => "Int32",
            VarType::Float32 => "Float32",
            VarType::Float64 => "Float64",
        }
    }

    /// The element width in bytes.
    pub fn width(&self) -> (r: usize)
        ensures
            r as int == spec_width(*self),
    {
        match self {
            VarType::Byte => 1,
            VarType::Int16 => 2,
            VarType::Int32 => 4,
            VarType::Float32 => 4,
            VarType::Float64 => 8,
        }
    }
}

/// A named dimension with its extent.
#[derive(Clone, Debug)]
pub struct Dimension {
    pub name: String,
    pub size: usize,
}

/// A named array variable.
#[derive(Clone, Debug)]
pub struct Variable {
    pub name: String,
    pub vartype: VarType,
    pub dims: Vec<Dimension>,
}

impl Variable {
    /// A variable with no dimensions holds a single value.
    pub open spec fn spec_is_scalar(&self) -> bool {
        self.dims@.len() == 0
    }
}

/// The variables of one dataset, in the container's declared order.
#[derive(Clone, Debug)]
pub struct Container {
    /// The name printed at the end of the DDS text.
    pub name: String,
    pub vars: Vec<Variable>,
}

impl Container {
    /// Variable names do not repeat.
    pub open spec fn wf(&self) -> bool {
        forall|i: int, j: int|
            0 <= i < j < self.vars@.len() ==> (#[trigger] self.vars@[i]).name@ != (
            #[trigger] self.vars@[j]).name@
    }

    /// Whether some variable is called `name`.
    pub open spec fn spec_has_var(&self, name: Seq<char>) -> bool {
        exists|i: int| 0 <= i < self.vars@.len() && (#[trigger] self.vars@[i]).name@ == name
    }

    /// The variable called `name`.
    pub open spec fn spec_var(&self, name: Seq<char>) -> Variable {
        self.vars@[choose|i: int|
            0 <= i < self.vars@.len() && (#[trigger] self.vars@[i]).name@ == name]
    }

    /// Finds the variable called `name`.
    pub fn find_var(&self, name: &str) -> (r: Option<&Variable>)
        requires
            self.wf(),
        ensures
            match r {
                Some(v) => self.spec_has_var(name@) && *v == self.spec_var(name@)
                    && v.name@ == name@,
                None => !self.spec_has_var(name@),
            },
    {
        let n = self.vars.len();
        let mut i: usize = 0;
        while i < n
            invariant
                i <= n,
                n == self.vars@.len(),
                self.wf(),
                forall|j: int| 0 <= j < i ==> (#[trigger] self.vars@[j]).name@ != name@,
            decreases n - i,
        {
            if str_eq(self.vars[i].name.as_str(), name) {
                proof {
                    let w = choose|k: int|
                        0 <= k < self.vars@.len() && (#[trigger] self.vars@[k]).name@ == name@;
                    assert(w == i);
                }
                return Some(&self.vars[i]);
            }
            i = i + 1;
        }
        None
    }

    /// Finds the position of the variable called `name`.
    pub fn find_index(&self, name: &str) -> (r: Option<usize>)
        requires
            self.wf(),
        ensures
            match r {
                Some(i) => {
                    &&& i < self.vars@.len()
                    &&& self.vars@[i as int].name@ == name@
                    &&& self.spec_has_var(name@)
                    &&& self.vars@[i as int] == self.spec_var(name@)
                },
                None => !self.spec_has_var(name@),
            },
    {
        let n = self.vars.len();
        let mut i: usize = 0;
        while i < n
            invariant
                i <= n,
                n == self.vars@.len(),
                self.wf(),
                forall|j: int| 0 <= j < i ==> (#[trigger] self.vars@[j]).name@ != name@,
            decreases n - i,
        {
            if str_eq(self.vars[i].name.as_str(), name) {
                proof {
                    let w = choose|k: int|
                        0 <= k < self.vars@.len() && (#[trigger] self.vars@[k]).name@ == name@;
                    assert(w == i);
                }
                return Some(i);
            }
            i = i + 1;
        }
        None
    }

    /// `dname` has a coordinate variable: a one-dimensional variable of the
    /// same name whose single dimension is named after itself.
    pub open spec fn spec_has_coord(&self, dname: Seq<char>) -> bool {
        &&& self.spec_has_var(dname)
        &&& self.spec_var(dname).dims@.len() == 1
        &&& self.spec_var(dname).dims@[0].name@ == dname
    }

    /// Checks whether `dname` has a coordinate variable.
    pub fn has_coord(&self, dname: &str) -> (r: bool)
        requires
            self.wf(),
        ensures
            r == self.spec_has_coord(dname@),
    {
        match self.find_var(dname) {
            Some(v) => v.dims.len() == 1 && str_eq(v.dims[0].name.as_str(), dname),
            None => false,
        }
    }
}

} // verus!
