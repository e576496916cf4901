//! How a formula read from a theory names its variables: as plain
//! variables, or as process variables that carry a type annotation.
use vstd::prelude::*;
use crate::term::{Binder, BinderM, LSort, LVar, LVarM};

verus! {

/// A variable as a theory writes it: its name, index and sort, and the
/// type a process annotation gave it, if any.
#[derive(Debug, PartialEq, Eq)]
pub struct VarSpec {
    pub name: String,
    pub idx: u64,
    pub sort: LSort,
    pub typ: Option<String>,
}

/// The model of a [`VarSpec`].
pub struct VarSpecM {
    pub name: Seq<char>,
    pub idx: u64,
    pub sort: LSort,
    pub typ: Option<Seq<char>>,
}

/// The model of an optional string.
pub open spec fn opt_str_m(o: Option<String>) -> Option<Seq<char>> {
    match o {
        Some(s) => Some(s@),
        None => None,
    }
}

impl VarSpec {
    pub open spec fn view(&self) -> VarSpecM {
        VarSpecM { name: self.name@, idx: self.idx, sort: self.sort, typ: opt_str_m(self.typ) }
    }

    /// A copy of the written variable.
    pub fn copy(&self) -> (r: VarSpec)
        ensures
            r@ == self@,
    {
        let typ = match &self.typ {
            Some(t) => Some(t.clone()),
            None => None,
        };
        VarSpec { name: self.name.clone(), idx: self.idx, sort: self.sort, typ }
    }
}

/// A process variable: the variable and its type annotation.
#[derive(Debug)]
pub struct SapicLVar {
    pub var: LVar,
    pub typ: Option<String>,
}

/// The model of a [`SapicLVar`].
pub struct SapicLVarM {
    pub var: LVarM,
    pub typ: Option<Seq<char>>,
}

impl SapicLVar {
    pub open spec fn view(&self) -> SapicLVarM {
        SapicLVarM { var: self.var@, typ: opt_str_m(self.typ) }
    }

    /// A process variable with the given type annotation.
    pub fn new(var: LVar, typ: Option<String>) -> (r: SapicLVar)
        ensures
            r@ == (SapicLVarM { var: var@, typ: opt_str_m(typ) }),
    {
        SapicLVar { var, typ }
    }
}

/// The variable a written variable denotes: its name, sort and index.
pub open spec fn varspec_lvar_m(v: VarSpecM) -> LVarM {
    LVarM { name: v.name, sort: v.sort, idx: v.idx }
}

/// The type a timepoint carries by default: `node`.
pub open spec fn default_node_type_m() -> Option<Seq<char>> {
    Some("node"@)
}

/// The type annotation a process variable reads: the written one, else
/// `node` for a timepoint, else none.
pub open spec fn sapic_type_m(v: VarSpecM) -> Option<Seq<char>> {
    match v.typ {
        Some(t) => Some(t),
        None => if v.sort == LSort::Node {
            default_node_type_m()
        } else {
            None
        },
    }
}

fn varspec_to_lvar(v: &VarSpec) -> (r: LVar)
    ensures
        r@ == varspec_lvar_m(v@),
{
    LVar { name: v.name.clone(), sort: v.sort, idx: v.idx }
}

/// The type a timepoint carries by default: `node`.
pub fn default_sapic_node_type() -> (r: Option<String>)
    ensures
        opt_str_m(r) == default_node_type_m(),
{
    Some("node".to_string())
}

/// How the variables of a formula read from a theory are represented.
pub trait FormulaVars {
    /// The free-variable type of the formula.
    type Var;

    /// A binder, and the variable inside every term.
    fn var(v: &VarSpec) -> Self::Var;

    /// The variable a timepoint position reads.
    fn node_var(v: &VarSpec) -> Self::Var;

    /// The name and sort a binder of the variable records.
    fn hint(v: &Self::Var) -> Binder;
}

/// Plain variables: every position reads the written variable.
pub struct MsgVars;

impl FormulaVars for MsgVars {
    type Var = LVar;

    fn var(v: &VarSpec) -> (r: LVar)
        ensures
            r@ == varspec_lvar_m(v@),
    {
        varspec_to_lvar(v)
    }

    fn node_var(v: &VarSpec) -> (r: LVar)
        ensures
            r@ == varspec_lvar_m(v@),
    {
        varspec_to_lvar(v)
    }

    fn hint(v: &LVar) -> (r: Binder)
        ensures
            r@ == (BinderM { name: v@.name, sort: v@.sort }),
    {
        Binder { name: v.name.clone(), sort: v.sort }
    }
}

/// Process variables: a variable keeps its written type (a timepoint
/// defaulting to `node`), and a timepoint position is typed `node`.
pub struct SapicVars;

impl FormulaVars for SapicVars {
    type Var = SapicLVar;

    fn var(v: &VarSpec) -> (r: SapicLVar)
        ensures
            r@ == (SapicLVarM { var: varspec_lvar_m(v@), typ: sapic_type_m(v@) }),
    {
        let typ = match &v.typ {
            Some(t) => Some(t.clone()),
            None => if v.sort == LSort::Node {
                default_sapic_node_type()
            } else {
                None
            },
        };
        SapicLVar::new(varspec_to_lvar(v), typ)
    }

    fn node_var(v: &VarSpec) -> (r: SapicLVar)
        ensures
            r@ == (SapicLVarM { var: varspec_lvar_m(v@), typ: default_node_type_m() }),
    {
        SapicLVar::new(varspec_to_lvar(v), default_sapic_node_type())
    }

    fn hint(v: &SapicLVar) -> (r: Binder)
        ensures
            r@ == (BinderM { name: v@.var.name, sort: v@.var.sort }),
    {
        Binder { name: v.var.name.clone(), sort: v.var.sort }
    }
}

} // verus!
