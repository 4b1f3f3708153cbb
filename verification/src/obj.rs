//! Identifier and value model, contexts, and the program entities: commands
//! and their arguments before (`Cmd`) and after (`XCmd`) interpolation.

use vstd::prelude::*;

use crate::table::Table;

verus! {

/// Identifiers and values are opaque strings; the spec-level model of each is
/// its character sequence.
pub type GenId = String;

pub type ThreadId = GenId;

pub type StepId = u128;

pub type ContextId = GenId;

pub type CommandId = GenId;

pub type WorkerId = GenId;

pub type PauseId = GenId;

pub type ContextIdent = GenId;

pub type ContextValue = GenId;

/// Capacity and queue names a worker announces.
#[derive(Debug)]
pub struct WorkerStatus {
    capacity: u64,
    queues: Vec<String>,
}

/// Namespace of a command-argument reference: the thread's current context,
/// or a context whose id is held by the named variable of the current context.
#[derive(Debug, PartialEq, Eq)]
pub enum CtxNs {
    Curr,
    Ref(ContextIdent),
}

/// Spec model of `CtxNs`.
pub enum CtxNsV {
    Curr,
    Ref(Seq<char>),
}

impl DeepView for CtxNs {
    type V = CtxNsV;

    open spec fn deep_view(&self) -> CtxNsV {
        match self {
            CtxNs::Curr => CtxNsV::Curr,
            CtxNs::Ref(id) => CtxNsV::Ref(id@),
        }
    }
}

impl Clone for CtxNs {
    fn clone(&self) -> (r: Self)
        ensures
            r.deep_view() == self.deep_view(),
    {
        match self {
            CtxNs::Curr => CtxNs::Curr,
            CtxNs::Ref(id) => CtxNs::Ref(id.clone()),
        }
    }
}

/// A reference to a variable: the namespace it is resolved in and the
/// variable's name.
#[derive(Debug, PartialEq, Eq)]
pub struct CtxRef(pub CtxNs, pub ContextIdent);

impl DeepView for CtxRef {
    type V = (CtxNsV, Seq<char>);

    open spec fn deep_view(&self) -> (CtxNsV, Seq<char>) {
        (self.0.deep_view(), self.1@)
    }
}

impl Clone for CtxRef {
    fn clone(&self) -> (r: Self)
        ensures
            r.deep_view() == self.deep_view(),
    {
        CtxRef(self.0.clone(), self.1.clone())
    }
}

/// A command argument before interpolation: a literal value or a reference.
#[derive(Debug, PartialEq, Eq)]
pub enum CmdArg {
    Const(ContextValue),
    Ref(CtxRef),
}

/// Spec model of `CmdArg`.
pub enum CmdArgV {
    Const(Seq<char>),
    Ref((CtxNsV, Seq<char>)),
}

impl DeepView for CmdArg {
    type V = CmdArgV;

    open spec fn deep_view(&self) -> CmdArgV {
        match self {
            CmdArg::Const(v) => CmdArgV::Const(v@),
            CmdArg::Ref(r) => CmdArgV::Ref(r.deep_view()),
        }
    }
}

impl Clone for CmdArg {
    fn clone(&self) -> (r: Self)
        ensures
            r.deep_view() == self.deep_view(),
    {
        match self {
            CmdArg::Const(v) => CmdArg::Const(v.clone()),
            CmdArg::Ref(r) => CmdArg::Ref(r.clone()),
        }
    }
}

/// One static instruction of the program graph.
#[derive(Debug, PartialEq, Eq)]
pub struct Cmd {
    pub id: CommandId,
    pub opcode: CmdArg,
    pub args: Vec<CmdArg>,
}

/// Spec model of `Cmd`.
#[verifier::ext_equal]
pub struct CmdV {
    pub id: Seq<char>,
    pub opcode: CmdArgV,
    pub args: Seq<CmdArgV>,
}

impl DeepView for Cmd {
    type V = CmdV;

    open spec fn deep_view(&self) -> CmdV {
        CmdV { id: self.id@, opcode: self.opcode.deep_view(), args: self.args.deep_view() }
    }
}

impl Clone for Cmd {
    fn clone(&self) -> (r: Self)
        ensures
            r.deep_view() == self.deep_view(),
    {
        let r = Cmd { id: self.id.clone(), opcode: self.opcode.clone(), args: self.args.clone() };
        proof {
            assert(r.args.deep_view() =~= self.args.deep_view());
        }
        r
    }
}

impl Cmd {
    pub fn create(id: CommandId, opcode: CmdArg, args: Vec<CmdArg>) -> (r: Cmd)
        ensures
            r.deep_view() == (CmdV {
                id: id@,
                opcode: opcode.deep_view(),
                args: args.deep_view(),
            }),
    {
        Cmd { id, opcode, args }
    }

    /// The command's label.
    pub fn id(&self) -> (r: &CommandId)
        ensures
            r@ == self.deep_view().id,
    {
        &self.id
    }
}

/// Namespace of an interpolated reference: the current context, or a context
/// given directly by id.
#[derive(Debug, PartialEq, Eq)]
pub enum XCtxNs {
    Curr,
    Ref(ContextId),
}

/// Spec model of `XCtxNs`.
pub enum XCtxNsV {
    Curr,
    Ref(Seq<char>),
}

impl DeepView for XCtxNs {
    type V = XCtxNsV;

    open spec fn deep_view(&self) -> XCtxNsV {
        match self {
            XCtxNs::Curr => XCtxNsV::Curr,
            XCtxNs::Ref(id) => XCtxNsV::Ref(id@),
        }
    }
}

impl Clone for XCtxNs {
    fn clone(&self) -> (r: Self)
        ensures
            r.deep_view() == self.deep_view(),
    {
        match self {
            XCtxNs::Curr => XCtxNs::Curr,
            XCtxNs::Ref(id) => XCtxNs::Ref(id.clone()),
        }
    }
}

/// An interpolated reference: where the variable was resolved, and its name.
#[derive(Debug, PartialEq, Eq)]
pub struct XCtxRef(pub XCtxNs, pub ContextIdent);

impl DeepView for XCtxRef {
    type V = (XCtxNsV, Seq<char>);

    open spec fn deep_view(&self) -> (XCtxNsV, Seq<char>) {
        (self.0.deep_view(), self.1@)
    }
}

impl Clone for XCtxRef {
    fn clone(&self) -> (r: Self)
        ensures
            r.deep_view() == self.deep_view(),
    {
        XCtxRef(self.0.clone(), self.1.clone())
    }
}

/// A command argument after interpolation: a literal, or a reference together
/// with the value it resolved to (`None` when the variable was absent).
#[derive(Debug, PartialEq, Eq)]
pub enum XCmdArg {
    Const(ContextValue),
    Ref(XCtxRef, Option<ContextValue>),
}

/// Spec model of `XCmdArg`.
pub enum XCmdArgV {
    Const(Seq<char>),
    Ref((XCtxNsV, Seq<char>), Option<Seq<char>>),
}

impl DeepView for XCmdArg {
    type V = XCmdArgV;

    open spec fn deep_view(&self) -> XCmdArgV {
        match self {
            XCmdArg::Const(v) => XCmdArgV::Const(v@),
            XCmdArg::Ref(r, v) => XCmdArgV::Ref(r.deep_view(), v.deep_view()),
        }
    }
}

impl Clone for XCmdArg {
    fn clone(&self) -> (r: Self)
        ensures
            r.deep_view() == self.deep_view(),
    {
        match self {
            XCmdArg::Const(v) => XCmdArg::Const(v.clone()),
            XCmdArg::Ref(r, v) => XCmdArg::Ref(
                r.clone(),
                match v {
                    Some(x) => Some(x.clone()),
                    None => None,
                },
            ),
        }
    }
}

/// The value carried by an interpolated argument, if any.
pub open spec fn xarg_value(a: XCmdArgV) -> Option<Seq<char>> {
    match a {
        XCmdArgV::Const(v) => Some(v),
        XCmdArgV::Ref(_, v) => v,
    }
}

/// The reference carried by an interpolated argument, if any.
pub open spec fn xarg_ident(a: XCmdArgV) -> Option<(XCtxNsV, Seq<char>)> {
    match a {
        XCmdArgV::Const(_) => None,
        XCmdArgV::Ref(r, _) => Some(r),
    }
}

impl XCmdArg {
    pub fn ident(&self) -> (r: Option<XCtxRef>)
        ensures
            r.deep_view() == xarg_ident(self.deep_view()),
    {
        match self {
            XCmdArg::Const(_) => None,
            XCmdArg::Ref(xref, _) => Some(xref.clone()),
        }
    }

    pub fn value(&self) -> (r: Option<ContextValue>)
        ensures
            r.deep_view() == xarg_value(self.deep_view()),
    {
        match self {
            XCmdArg::Const(x) => Some(x.clone()),
            XCmdArg::Ref(_, x) => match x {
                Some(v) => Some(v.clone()),
                None => None,
            },
        }
    }
}

/// A command after interpolation: its opcode resolved to a concrete value and
/// each argument resolved against the contexts.
#[derive(Debug, PartialEq, Eq)]
pub struct XCmd {
    pub id: CommandId,
    pub opcode: ContextValue,
    pub args: Vec<XCmdArg>,
}

/// Spec model of `XCmd`.
pub struct XCmdV {
    pub id: Seq<char>,
    pub opcode: Seq<char>,
    pub args: Seq<XCmdArgV>,
}

impl DeepView for XCmd {
    type V = XCmdV;

    open spec fn deep_view(&self) -> XCmdV {
        XCmdV { id: self.id@, opcode: self.opcode@, args: self.args.deep_view() }
    }
}

impl Clone for XCmd {
    fn clone(&self) -> (r: Self)
        ensures
            r.deep_view() == self.deep_view(),
    {
        let r = XCmd { id: self.id.clone(), opcode: self.opcode.clone(), args: self.args.clone() };
        proof {
            assert(r.args.deep_view() =~= self.args.deep_view());
        }
        r
    }
}

impl XCmd {
    pub fn create(id: CommandId, opcode: ContextValue, args: Vec<XCmdArg>) -> (r: Self)
        ensures
            r.deep_view() == (XCmdV { id: id@, opcode: opcode@, args: args.deep_view() }),
    {
        XCmd { id, opcode, args }
    }
}

/// A named key-value scope addressable by context id.
#[derive(Debug)]
pub struct Ctx {
    pub id: ContextId,
    pub vals: Table<ContextIdent, ContextValue>,
}

/// Spec model of `Ctx`.
pub struct CtxV {
    pub id: Seq<char>,
    pub vals: Map<Seq<char>, Seq<char>>,
}

impl DeepView for Ctx {
    type V = CtxV;

    open spec fn deep_view(&self) -> CtxV {
        CtxV { id: self.id@, vals: self.vals@ }
    }
}

impl Ctx {
    pub open spec fn wf(&self) -> bool {
        self.vals.wf()
    }

    pub fn empty(id: ContextId) -> (r: Self)
        ensures
            r.wf(),
            r.deep_view() == (CtxV { id: id@, vals: Map::<Seq<char>, Seq<char>>::empty() }),
    {
        Ctx::create(id, Table::new())
    }

    pub fn create(id: ContextId, vals: Table<ContextIdent, ContextValue>) -> (r: Self)
        requires
            vals.wf(),
        ensures
            r.wf(),
            r.deep_view() == (CtxV { id: id@, vals: vals@ }),
    {
        Ctx { id, vals }
    }

    /// The value of a variable in this context, if present.
    pub fn get(&self, ident: &ContextIdent) -> (r: Option<ContextValue>)
        requires
            self.wf(),
        ensures
            r.deep_view() == (if self.deep_view().vals.contains_key(ident@) {
                Some(self.deep_view().vals[ident@])
            } else {
                None
            }),
    {
        match self.vals.get(ident) {
            Some(x) => Some(x.clone()),
            None => None,
        }
    }

    /// The context's id.
    pub fn id(&self) -> (r: &ContextId)
        ensures
            r@ == self.deep_view().id,
    {
        &self.id
    }

    /// Bind a variable of this context.
    pub fn set(&mut self, ident: ContextIdent, val: ContextValue)
        requires
            old(self).wf(),
        ensures
            final(self).wf(),
            final(self).deep_view() == (CtxV {
                id: old(self).deep_view().id,
                vals: old(self).deep_view().vals.insert(ident@, val@),
            }),
    {
        self.vals.insert(ident, val);
    }
}

/// Why interpolation of a command failed.
#[derive(Debug, PartialEq, Eq)]
pub enum InterpolationError {
    /// A reference to the current context while the thread has none.
    CtxNull,
    /// A reference names a context id that does not exist.
    CtxMiss(ContextId),
    /// The opcode resolved to no value.
    CmdNull,
    /// A reference that could not be resolved.
    Ref(CtxRef),
}

/// Spec model of `InterpolationError`.
pub enum InterpolationErrorV {
    CtxNull,
    CtxMiss(Seq<char>),
    CmdNull,
    Ref((CtxNsV, Seq<char>)),
}

impl DeepView for InterpolationError {
    type V = InterpolationErrorV;

    open spec fn deep_view(&self) -> InterpolationErrorV {
        match self {
            InterpolationError::CtxNull => InterpolationErrorV::CtxNull,
            InterpolationError::CtxMiss(id) => InterpolationErrorV::CtxMiss(id@),
            InterpolationError::CmdNull => InterpolationErrorV::CmdNull,
            InterpolationError::Ref(r) => InterpolationErrorV::Ref(r.deep_view()),
        }
    }
}

impl Clone for InterpolationError {
    fn clone(&self) -> (r: Self)
        ensures
            r.deep_view() == self.deep_view(),
    {
        match self {
            InterpolationError::CtxNull => InterpolationError::CtxNull,
            InterpolationError::CtxMiss(id) => InterpolationError::CtxMiss(id.clone()),
            InterpolationError::CmdNull => InterpolationError::CmdNull,
            InterpolationError::Ref(r) => InterpolationError::Ref(r.clone()),
        }
    }
}

} // verus!
