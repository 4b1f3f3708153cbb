//! The dispatcher: per-thread state machine, the commit virtual machine that
//! applies a worker's op-list to the shared state, and the event entry
//! points that tie threads, contexts and the scheduler together.

use vstd::prelude::*;

use crate::obj::{
    Cmd, CmdArg, CmdArgV, CmdV, CommandId, ContextId, ContextIdent, ContextValue, Ctx, CtxNsV,
    CtxRef, CtxV, GenId, InterpolationError, InterpolationErrorV, PauseId, StepId, ThreadId,
    WorkerId, XCmd, XCmdArg, XCmdArgV, XCmdV, XCtxNs, XCtxNsV, XCtxRef,
};
use crate::pubsub::{
    clone_str_vec, mq_has_job, wk_ready, Action, Assignment, AssignmentV, Job, JobV, MultiQueue,
    MultiQueueV, PsWorkerV,
};
use crate::table::Table;

verus! {

/// Name of the scratch register holding the driven thread's id.
pub fn local_tid() -> (r: &'static str)
    ensures
        r@ == "$tid"@,
{
    "$tid"
}

/// Name of the scratch register holding the next instruction pointer.
pub fn local_nip() -> (r: &'static str)
    ensures
        r@ == "$nip"@,
{
    "$nip"
}

/// Name of the scratch register holding the exception handler target.
pub fn local_eip() -> (r: &'static str)
    ensures
        r@ == "$eip"@,
{
    "$eip"
}

/// Name of the scratch register holding the current context id.
pub fn local_ctx() -> (r: &'static str)
    ensures
        r@ == "$ctx"@,
{
    "$ctx"
}

/// The scratch register names are pairwise distinct, and none is empty.
pub proof fn lemma_register_names_distinct()
    ensures
        "$tid"@ != "$nip"@,
        "$tid"@ != "$eip"@,
        "$tid"@ != "$ctx"@,
        "$nip"@ != "$eip"@,
        "$nip"@ != "$ctx"@,
        "$eip"@ != "$ctx"@,
        "$tid"@.len() == 4,
        "$nip"@.len() == 4,
        "$eip"@.len() == 4,
        "$ctx"@.len() == 4,
{
    reveal_strlit("$tid");
    reveal_strlit("$nip");
    reveal_strlit("$eip");
    reveal_strlit("$ctx");
    assert("$tid"@[1] == 't' && "$nip"@[1] == 'n' && "$eip"@[1] == 'e' && "$ctx"@[1] == 'c');
}

/// An upper-case hexadecimal digit.
pub open spec fn is_upper_hex(c: char) -> bool {
    ('0' <= c && c <= '9') || ('A' <= c && c <= 'F')
}

/// Relies on `rand::random`: a freshly drawn 128-bit value, written as upper
/// case hexadecimal. Nothing is promised of the drawn value itself, so the
/// contract states only what holds of every outcome: one to thirty-two
/// upper-case hexadecimal digits.
#[verifier::external_body]
fn fresh_id() -> (r: GenId)
    ensures
        1 <= r@.len() <= 32,
        forall|i: int| 0 <= i < r@.len() ==> is_upper_hex(#[trigger] r@[i]),
{
    let val = rand::random::<u128>();
    format!("{:X}", val)
}

/// A value read from a local register, or a literal.
#[derive(Debug, PartialEq, Eq)]
pub enum RValueLocal {
    Ref(ContextIdent),
    Const(ContextValue),
}

/// Spec model of `RValueLocal`.
pub enum RValueLocalV {
    Ref(Seq<char>),
    Const(Seq<char>),
}

impl DeepView for RValueLocal {
    type V = RValueLocalV;

    open spec fn deep_view(&self) -> RValueLocalV {
        match self {
            RValueLocal::Ref(id) => RValueLocalV::Ref(id@),
            RValueLocal::Const(v) => RValueLocalV::Const(v@),
        }
    }
}

impl Clone for RValueLocal {
    fn clone(&self) -> (r: Self)
        ensures
            r.deep_view() == self.deep_view(),
    {
        match self {
            RValueLocal::Ref(id) => RValueLocal::Ref(id.clone()),
            RValueLocal::Const(v) => RValueLocal::Const(v.clone()),
        }
    }
}

/// A value whose production has a side effect on the process state.
#[derive(Debug, PartialEq, Eq)]
pub enum RValueExtern {
    ContextCreate,
    ThreadCreate(RValueLocal, Option<RValueLocal>),
}

/// Spec model of `RValueExtern`.
pub enum RValueExternV {
    ContextCreate,
    ThreadCreate(RValueLocalV, Option<RValueLocalV>),
}

impl DeepView for RValueExtern {
    type V = RValueExternV;

    open spec fn deep_view(&self) -> RValueExternV {
        match self {
            RValueExtern::ContextCreate => RValueExternV::ContextCreate,
            RValueExtern::ThreadCreate(ip, ctx) => RValueExternV::ThreadCreate(
                ip.deep_view(),
                ctx.deep_view(),
            ),
        }
    }
}

impl Clone for RValueExtern {
    fn clone(&self) -> (r: Self)
        ensures
            r.deep_view() == self.deep_view(),
    {
        match self {
            RValueExtern::ContextCreate => RValueExtern::ContextCreate,
            RValueExtern::ThreadCreate(ip, ctx) => RValueExtern::ThreadCreate(
                ip.clone(),
                match ctx {
                    Some(c) => Some(c.clone()),
                    None => None,
                },
            ),
        }
    }
}

/// Any right-hand value of a commit op.
#[derive(Debug, PartialEq, Eq)]
pub enum RValue {
    Local(RValueLocal),
    Extern(RValueExtern),
}

/// Spec model of `RValue`.
pub enum RValueV {
    Local(RValueLocalV),
    Extern(RValueExternV),
}

impl DeepView for RValue {
    type V = RValueV;

    open spec fn deep_view(&self) -> RValueV {
        match self {
            RValue::Local(x) => RValueV::Local(x.deep_view()),
            RValue::Extern(x) => RValueV::Extern(x.deep_view()),
        }
    }
}

impl Clone for RValue {
    fn clone(&self) -> (r: Self)
        ensures
            r.deep_view() == self.deep_view(),
    {
        match self {
            RValue::Local(x) => RValue::Local(x.clone()),
            RValue::Extern(x) => RValue::Extern(x.clone()),
        }
    }
}

/// One instruction of a worker's commit op-list.
#[derive(Debug, PartialEq, Eq)]
pub enum Op {
    LocalSet(ContextIdent, RValue),
    ContextSet(RValueLocal, RValueLocal, RValueLocal),
    ContextRemove(RValueLocal),
    ThreadRemove(RValueLocal),
}

/// Spec model of `Op`.
pub enum OpV {
    LocalSet(Seq<char>, RValueV),
    ContextSet(RValueLocalV, RValueLocalV, RValueLocalV),
    ContextRemove(RValueLocalV),
    ThreadRemove(RValueLocalV),
}

impl DeepView for Op {
    type V = OpV;

    open spec fn deep_view(&self) -> OpV {
        match self {
            Op::LocalSet(id, rv) => OpV::LocalSet(id@, rv.deep_view()),
            Op::ContextSet(a, b, c) => OpV::ContextSet(
                a.deep_view(),
                b.deep_view(),
                c.deep_view(),
            ),
            Op::ContextRemove(rv) => OpV::ContextRemove(rv.deep_view()),
            Op::ThreadRemove(rv) => OpV::ThreadRemove(rv.deep_view()),
        }
    }
}

impl Clone for Op {
    fn clone(&self) -> (r: Self)
        ensures
            r.deep_view() == self.deep_view(),
    {
        match self {
            Op::LocalSet(id, rv) => Op::LocalSet(id.clone(), rv.clone()),
            Op::ContextSet(a, b, c) => Op::ContextSet(a.clone(), b.clone(), c.clone()),
            Op::ContextRemove(rv) => Op::ContextRemove(rv.clone()),
            Op::ThreadRemove(rv) => Op::ThreadRemove(rv.clone()),
        }
    }
}

/// Why a commit op failed.
#[derive(Debug, PartialEq, Eq)]
pub enum OpErrReason {
    ContextDoesNotExist { id: ContextId },
    ThreadDoesNotExist { id: ThreadId },
    LocalRefInvalid { ident: ContextIdent },
    ContextRefInvalid { ident: ContextValue },
    InvalidArg(usize),
    MissingArg(usize),
    ThreadRefInvalid { ident: ContextValue },
    CommandRefInvalid(Option<ContextValue>),
    PostStepped { current: StepId, selected: StepId },
    UnknownOp,
}

/// Spec model of `OpErrReason`.
pub enum OpErrReasonV {
    ContextDoesNotExist { id: Seq<char> },
    ThreadDoesNotExist { id: Seq<char> },
    LocalRefInvalid { ident: Seq<char> },
    ContextRefInvalid { ident: Seq<char> },
    InvalidArg(usize),
    MissingArg(usize),
    ThreadRefInvalid { ident: Seq<char> },
    CommandRefInvalid(Option<Seq<char>>),
    PostStepped { current: StepId, selected: StepId },
    UnknownOp,
}

impl DeepView for OpErrReason {
    type V = OpErrReasonV;

    open spec fn deep_view(&self) -> OpErrReasonV {
        match self {
            OpErrReason::ContextDoesNotExist { id } => OpErrReasonV::ContextDoesNotExist {
                id: id@,
            },
            OpErrReason::ThreadDoesNotExist { id } => OpErrReasonV::ThreadDoesNotExist { id: id@ },
            OpErrReason::LocalRefInvalid { ident } => OpErrReasonV::LocalRefInvalid {
                ident: ident@,
            },
            OpErrReason::ContextRefInvalid { ident } => OpErrReasonV::ContextRefInvalid {
                ident: ident@,
            },
            OpErrReason::InvalidArg(i) => OpErrReasonV::InvalidArg(*i),
            OpErrReason::MissingArg(i) => OpErrReasonV::MissingArg(*i),
            OpErrReason::ThreadRefInvalid { ident } => OpErrReasonV::ThreadRefInvalid {
                ident: ident@,
            },
            OpErrReason::CommandRefInvalid(v) => OpErrReasonV::CommandRefInvalid(v.deep_view()),
            OpErrReason::PostStepped { current, selected } => OpErrReasonV::PostStepped {
                current: *current,
                selected: *selected,
            },
            OpErrReason::UnknownOp => OpErrReasonV::UnknownOp,
        }
    }
}

impl Clone for OpErrReason {
    fn clone(&self) -> (r: Self)
        ensures
            r.deep_view() == self.deep_view(),
    {
        match self {
            OpErrReason::ContextDoesNotExist { id } => OpErrReason::ContextDoesNotExist {
                id: id.clone(),
            },
            OpErrReason::ThreadDoesNotExist { id } => OpErrReason::ThreadDoesNotExist {
                id: id.clone(),
            },
            OpErrReason::LocalRefInvalid { ident } => OpErrReason::LocalRefInvalid {
                ident: ident.clone(),
            },
            OpErrReason::ContextRefInvalid { ident } => OpErrReason::ContextRefInvalid {
                ident: ident.clone(),
            },
            OpErrReason::InvalidArg(i) => OpErrReason::InvalidArg(*i),
            OpErrReason::MissingArg(i) => OpErrReason::MissingArg(*i),
            OpErrReason::ThreadRefInvalid { ident } => OpErrReason::ThreadRefInvalid {
                ident: ident.clone(),
            },
            OpErrReason::CommandRefInvalid(v) => OpErrReason::CommandRefInvalid(
                match v {
                    Some(x) => Some(x.clone()),
                    None => None,
                },
            ),
            OpErrReason::PostStepped { current, selected } => OpErrReason::PostStepped {
                current: *current,
                selected: *selected,
            },
            OpErrReason::UnknownOp => OpErrReason::UnknownOp,
        }
    }
}

/// A commit failure: the index of the failing op and the reason.
#[derive(Debug, PartialEq, Eq)]
pub struct OpErr {
    pub op_index: Option<usize>,
    pub op_reason: OpErrReason,
}

/// Spec model of `OpErr`.
pub struct OpErrV {
    pub op_index: Option<usize>,
    pub op_reason: OpErrReasonV,
}

impl DeepView for OpErr {
    type V = OpErrV;

    open spec fn deep_view(&self) -> OpErrV {
        OpErrV { op_index: self.op_index, op_reason: self.op_reason.deep_view() }
    }
}

impl Clone for OpErr {
    fn clone(&self) -> (r: Self)
        ensures
            r.deep_view() == self.deep_view(),
    {
        OpErr { op_index: self.op_index, op_reason: self.op_reason.clone() }
    }
}

/// A worker-side failure: a free-form payload or a standard reason.
#[derive(Debug, PartialEq, Eq)]
pub enum WorkerErr {
    Custom(Table<String, String>),
    Default(OpErrReason),
}

/// Spec model of `WorkerErr`.
pub enum WorkerErrV {
    Custom(Map<Seq<char>, Seq<char>>),
    Default(OpErrReasonV),
}

impl DeepView for WorkerErr {
    type V = WorkerErrV;

    open spec fn deep_view(&self) -> WorkerErrV {
        match self {
            WorkerErr::Custom(m) => WorkerErrV::Custom(m@),
            WorkerErr::Default(r) => WorkerErrV::Default(r.deep_view()),
        }
    }
}

/// What a worker returns for one job: a commit op-list, or an error.
pub type WorkerResult = Result<Vec<Op>, WorkerErr>;

/// Spec model of `WorkerResult`.
pub type WorkerResultV = Result<Seq<OpV>, WorkerErrV>;

/// The deep view of a worker result.
pub open spec fn worker_result_view(r: WorkerResult) -> WorkerResultV {
    match r {
        Result::Ok(ops) => Result::Ok(ops.deep_view()),
        Result::Err(e) => Result::Err(e.deep_view()),
    }
}

/// Why a thread stopped making progress.
#[derive(Debug, PartialEq, Eq)]
pub enum ThreadError {
    Fetch { id: CommandId },
    Context { id: Option<ContextId> },
    Interpolate { err: InterpolationError },
    WorkerDuring(WorkerErr),
    WorkerPost(OpErr),
}

/// Spec model of `ThreadError`.
pub enum ThreadErrorV {
    Fetch { id: Seq<char> },
    Context { id: Option<Seq<char>> },
    Interpolate { err: InterpolationErrorV },
    WorkerDuring(WorkerErrV),
    WorkerPost(OpErrV),
}

impl DeepView for ThreadError {
    type V = ThreadErrorV;

    open spec fn deep_view(&self) -> ThreadErrorV {
        match self {
            ThreadError::Fetch { id } => ThreadErrorV::Fetch { id: id@ },
            ThreadError::Context { id } => ThreadErrorV::Context { id: id.deep_view() },
            ThreadError::Interpolate { err } => ThreadErrorV::Interpolate {
                err: err.deep_view(),
            },
            ThreadError::WorkerDuring(w) => ThreadErrorV::WorkerDuring(w.deep_view()),
            ThreadError::WorkerPost(o) => ThreadErrorV::WorkerPost(o.deep_view()),
        }
    }
}

/// The lifecycle position of a thread.
#[derive(Debug, PartialEq, Eq)]
pub enum ThreadState {
    Created,
    Fetching(CommandId),
    Fetched(Cmd),
    Interpolating(Cmd),
    Interpolated(XCmd),
    Queued(XCmd),
    Assigned(XCmd, WorkerId),
    Done(WorkerResult),
    Errored(ThreadError),
    Paused(PauseId),
    Exited(Result<(), ThreadError>),
}

/// Spec model of `ThreadState`.
pub enum ThreadStateV {
    Created,
    Fetching(Seq<char>),
    Fetched(CmdV),
    Interpolating(CmdV),
    Interpolated(XCmdV),
    Queued(XCmdV),
    Assigned(XCmdV, Seq<char>),
    Done(WorkerResultV),
    Errored(ThreadErrorV),
    Paused(Seq<char>),
    Exited(Result<(), ThreadErrorV>),
}

impl DeepView for ThreadState {
    type V = ThreadStateV;

    open spec fn deep_view(&self) -> ThreadStateV {
        match self {
            ThreadState::Created => ThreadStateV::Created,
            ThreadState::Fetching(ip) => ThreadStateV::Fetching(ip@),
            ThreadState::Fetched(c) => ThreadStateV::Fetched(c.deep_view()),
            ThreadState::Interpolating(c) => ThreadStateV::Interpolating(c.deep_view()),
            ThreadState::Interpolated(x) => ThreadStateV::Interpolated(x.deep_view()),
            ThreadState::Queued(x) => ThreadStateV::Queued(x.deep_view()),
            ThreadState::Assigned(x, w) => ThreadStateV::Assigned(x.deep_view(), w@),
            ThreadState::Done(r) => ThreadStateV::Done(worker_result_view(*r)),
            ThreadState::Errored(e) => ThreadStateV::Errored(e.deep_view()),
            ThreadState::Paused(p) => ThreadStateV::Paused(p@),
            ThreadState::Exited(r) => ThreadStateV::Exited(
                match r {
                    Result::Ok(u) => Result::Ok(*u),
                    Result::Err(e) => Result::Err(e.deep_view()),
                },
            ),
        }
    }
}

/// A unit of control: its identity, committed-step counter, instruction
/// pointer, optional current context, optional exception handler target, and
/// lifecycle state.
#[derive(Debug, PartialEq)]
pub struct Thread {
    pub id: ThreadId,
    pub step: StepId,
    pub ip: CommandId,
    pub ctx: Option<ContextId>,
    pub state: ThreadState,
    pub eip: Option<CommandId>,
}

/// Spec model of `Thread`.
#[verifier::ext_equal]
pub struct ThreadV {
    pub id: Seq<char>,
    pub step: StepId,
    pub ip: Seq<char>,
    pub ctx: Option<Seq<char>>,
    pub state: ThreadStateV,
    pub eip: Option<Seq<char>>,
}

impl DeepView for Thread {
    type V = ThreadV;

    open spec fn deep_view(&self) -> ThreadV {
        ThreadV {
            id: self.id@,
            step: self.step,
            ip: self.ip@,
            ctx: self.ctx.deep_view(),
            state: self.state.deep_view(),
            eip: self.eip.deep_view(),
        }
    }
}

/// The spec-level value of a freshly created thread.
pub open spec fn thread_created(id: Seq<char>, ip: Seq<char>, ctx: Option<Seq<char>>) -> ThreadV {
    ThreadV { id, step: 0, ip, ctx, state: ThreadStateV::Created, eip: None }
}

impl Thread {
    pub fn create(id: ThreadId, ip: CommandId, ctx: Option<ContextId>) -> (r: Self)
        ensures
            r.deep_view() == thread_created(id@, ip@, ctx.deep_view()),
    {
        Thread { id, step: 0, ip, ctx, state: ThreadState::Created, eip: None }
    }
}

/// The step counter after one committed step; it wraps around.
pub open spec fn step_next(s: StepId) -> StepId {
    if s == StepId::MAX {
        0
    } else {
        (s + 1) as StepId
    }
}

/// The program table, the context store and the thread store.
#[derive(Debug)]
pub struct State {
    pub commands: Table<CommandId, Cmd>,
    pub contexts: Table<ContextId, Ctx>,
    pub threads: Table<ThreadId, Thread>,
}

/// Spec model of `State`.
#[verifier::ext_equal]
pub struct StateV {
    pub commands: Map<Seq<char>, CmdV>,
    pub contexts: Map<Seq<char>, CtxV>,
    pub threads: Map<Seq<char>, ThreadV>,
}

impl DeepView for State {
    type V = StateV;

    open spec fn deep_view(&self) -> StateV {
        StateV {
            commands: self.commands@,
            contexts: self.contexts@,
            threads: self.threads@,
        }
    }
}

impl State {
    /// The three stores are well formed, and every stored context is.
    pub open spec fn wf(&self) -> bool {
        &&& self.commands.wf()
        &&& self.contexts.wf()
        &&& self.threads.wf()
        &&& forall|k: Seq<char>| #[trigger]
            self.contexts.stored().contains_key(k) ==> self.contexts.stored()[k].wf()
    }

    pub fn default() -> (r: Self)
        ensures
            r.wf(),
            r.deep_view() == (StateV {
                commands: Map::empty(),
                contexts: Map::empty(),
                threads: Map::empty(),
            }),
    {
        State { commands: Table::new(), contexts: Table::new(), threads: Table::new() }
    }

    /// Mint a fresh identifier; the state itself is untouched.
    pub fn create_id(&mut self) -> (r: GenId)
        ensures
            *final(self) == *old(self),
            1 <= r@.len() <= 32,
            forall|i: int| 0 <= i < r@.len() ==> is_upper_hex(#[trigger] r@[i]),
    {
        fresh_id()
    }

    pub fn insert_thread(&mut self, thread: Thread)
        requires
            old(self).wf(),
        ensures
            final(self).wf(),
            final(self).deep_view() == (StateV {
                threads: old(self).deep_view().threads.insert(thread.id@, thread.deep_view()),
                ..old(self).deep_view()
            }),
    {
        let key = thread.id.clone();
        self.threads.insert(key, thread);
    }

    pub fn insert_context(&mut self, context: Ctx)
        requires
            old(self).wf(),
            context.wf(),
        ensures
            final(self).wf(),
            final(self).deep_view() == (StateV {
                contexts: old(self).deep_view().contexts.insert(
                    context.deep_view().id,
                    context.deep_view(),
                ),
                ..old(self).deep_view()
            }),
    {
        let key = context.id().clone();
        self.contexts.insert(key, context);
        proof {
            assert forall|k: Seq<char>| #[trigger]
                self.contexts.stored().contains_key(k) implies self.contexts.stored()[k].wf() by {
                if k != key@ {
                    assert(old(self).contexts.stored().contains_key(k));
                }
            }
        }
    }

    pub fn insert_commands(&mut self, commands: &Vec<Cmd>)
        requires
            old(self).wf(),
        ensures
            final(self).wf(),
            final(self).deep_view().contexts == old(self).deep_view().contexts,
            final(self).deep_view().threads == old(self).deep_view().threads,
            forall|k: Seq<char>|
                final(self).deep_view().commands.contains_key(k) == (old(self).deep_view().commands.contains_key(k) || exists|i: int|
                    0 <= i < commands.deep_view().len() && (#[trigger] commands.deep_view()[i]).id
                        == k),
            forall|k: Seq<char>|
                !(exists|i: int|
                    0 <= i < commands.deep_view().len() && (#[trigger] commands.deep_view()[i]).id
                        == k) && #[trigger] old(self).deep_view().commands.contains_key(k)
                    ==> final(self).deep_view().commands[k] == old(self).deep_view().commands[k],
            (forall|i: int, j: int|
                0 <= i < j < commands.deep_view().len() ==> (#[trigger] commands.deep_view()[i]).id
                    != (#[trigger] commands.deep_view()[j]).id) ==> forall|i: int|
                0 <= i < commands.deep_view().len()
                    ==> final(self).deep_view().commands[(#[trigger] commands.deep_view()[i]).id]
                    == commands.deep_view()[i],
    {
        let ghost cs = commands.deep_view();
        let mut i: usize = 0;
        while i < commands.len()
            invariant
                i <= commands@.len(),
                cs == commands.deep_view(),
                self.wf(),
                self.deep_view().contexts == old(self).deep_view().contexts,
                self.deep_view().threads == old(self).deep_view().threads,
                forall|k: Seq<char>|
                    self.deep_view().commands.contains_key(k) == (old(self).deep_view().commands.contains_key(k) || exists|a: int|
                        0 <= a < i && (#[trigger] cs[a]).id == k),
                forall|k: Seq<char>|
                    !(exists|a: int| 0 <= a < i && (#[trigger] cs[a]).id == k) && #[trigger] old(self).deep_view().commands.contains_key(k) ==> self.deep_view().commands[k] == old(self).deep_view().commands[k],
                (forall|a: int, b: int|
                    0 <= a < b < cs.len() ==> (#[trigger] cs[a]).id != (#[trigger] cs[b]).id)
                    ==> forall|a: int|
                    0 <= a < i ==> self.deep_view().commands[(#[trigger] cs[a]).id] == cs[a],
            decreases commands@.len() - i,
        {
            let c = commands[i].clone();
            let key = c.id().clone();
            proof {
                assert(c.deep_view() == cs[i as int]);
                assert(key@ == cs[i as int].id);
            }
            let ghost pre = self.deep_view();
            self.commands.insert(key, c);
            i = i + 1;
            proof {
                assert(self.deep_view().commands == pre.commands.insert(cs[i - 1].id, cs[i - 1]));
                assert forall|k: Seq<char>|
                    self.deep_view().commands.contains_key(k) == (old(self).deep_view().commands.contains_key(k) || exists|a: int|
                        0 <= a < i && (#[trigger] cs[a]).id == k) by {
                    if k == cs[i - 1].id {
                        assert(cs[i - 1].id == k);
                    } else {
                        assert(self.deep_view().commands.contains_key(k)
                            == pre.commands.contains_key(k));
                        if exists|a: int| 0 <= a < i && (#[trigger] cs[a]).id == k {
                            let a = choose|a: int| 0 <= a < i && (#[trigger] cs[a]).id == k;
                            assert(a < i - 1);
                        }
                    }
                }
            }
        }
        proof {
            assert forall|k: Seq<char>|
                !(exists|a: int|
                    0 <= a < cs.len() && (#[trigger] cs[a]).id == k) && #[trigger] old(self).deep_view().commands.contains_key(k) implies self.deep_view().commands[k] == old(self).deep_view().commands[k] by {
                assert(!(exists|a: int| 0 <= a < commands@.len() && (#[trigger] cs[a]).id == k));
            }
        }
    }

    /// The thread stored under an id, if any.
    pub fn get_thread(&self, id: &ThreadId) -> (r: Option<&Thread>)
        requires
            self.wf(),
        ensures
            match r {
                Some(t) => self.deep_view().threads.contains_key(id@) && t.deep_view()
                    == self.deep_view().threads[id@],
                None => !self.deep_view().threads.contains_key(id@),
            },
    {
        self.threads.get(id)
    }

    /// The context stored under an id, if any.
    pub fn get_context(&self, id: &ContextId) -> (r: Option<&Ctx>)
        requires
            self.wf(),
        ensures
            match r {
                Some(c) => self.deep_view().contexts.contains_key(id@) && c.deep_view()
                    == self.deep_view().contexts[id@] && c.wf(),
                None => !self.deep_view().contexts.contains_key(id@),
            },
    {
        let r = self.contexts.get(id);
        proof {
            if self.contexts.stored().contains_key(id@) {
                assert(self.contexts.stored()[id@].wf());
            }
            self.contexts.lemma_view_stored();
        }
        r
    }
}

/// The scratch register map: idents to values.
pub type Locals = Table<ContextIdent, ContextValue>;

/// Spec model of the scratch registers.
pub type LocalsV = Map<Seq<char>, Seq<char>>;

/// What a local rvalue resolves to.
pub open spec fn rv_local_v(rv: RValueLocalV, locals: LocalsV) -> Result<
    Seq<char>,
    OpErrReasonV,
> {
    match rv {
        RValueLocalV::Const(v) => Result::Ok(v),
        RValueLocalV::Ref(id) => if locals.contains_key(id) {
            Result::Ok(locals[id])
        } else {
            Result::Err(OpErrReasonV::LocalRefInvalid { ident: id })
        },
    }
}

impl RValueLocal {
    /// Resolve against the scratch registers: a literal is itself, a
    /// reference must name a bound register.
    pub fn resolve(&self, locals: &Locals) -> (r: Result<ContextValue, OpErrReason>)
        requires
            locals.wf(),
        ensures
            match r {
                Result::Ok(v) => rv_local_v(self.deep_view(), locals@) == Result::<
                    Seq<char>,
                    OpErrReasonV,
                >::Ok(v@),
                Result::Err(e) => rv_local_v(self.deep_view(), locals@) == Result::<
                    Seq<char>,
                    OpErrReasonV,
                >::Err(e.deep_view()),
            },
    {
        match self {
            RValueLocal::Const(val) => Ok(val.clone()),
            RValueLocal::Ref(ident) => match locals.get(ident) {
                Some(val) => Ok(val.clone()),
                None => Err(OpErrReason::LocalRefInvalid { ident: ident.clone() }),
            },
        }
    }
}

/// Effect of an extern rvalue, given the id `mint` that would be minted for
/// it: the next state and what it resolves to.
pub open spec fn rv_extern_v(
    s: StateV,
    locals: LocalsV,
    rv: RValueExternV,
    mint: Seq<char>,
) -> (StateV, Result<Seq<char>, OpErrReasonV>) {
    match rv {
        RValueExternV::ContextCreate => (
            StateV { contexts: s.contexts.insert(mint, CtxV { id: mint, vals: Map::empty() }), ..s },
            Result::Ok(mint),
        ),
        RValueExternV::ThreadCreate(iprv, ctxrv) => match rv_local_v(iprv, locals) {
            Result::Err(e) => (s, Result::Err(e)),
            Result::Ok(ip) => {
                let ctxr: Result<Option<Seq<char>>, OpErrReasonV> = match ctxrv {
                    Option::None => Result::Ok(None),
                    Option::Some(c) => match rv_local_v(c, locals) {
                        Result::Ok(v) => Result::Ok(Some(v)),
                        Result::Err(e) => Result::Err(e),
                    },
                };
                match ctxr {
                    Result::Err(e) => (s, Result::Err(e)),
                    Result::Ok(ctx) => (
                        StateV {
                            threads: s.threads.insert(mint, thread_created(mint, ip, ctx)),
                            ..s
                        },
                        Result::Ok(mint),
                    ),
                }
            },
        },
    }
}

impl RValueExtern {
    /// Resolve with its side effect: mint an id and create the context or
    /// thread it names.
    pub fn resolve(&self, locals: &Locals, state: &mut State) -> (r: Result<
        ContextValue,
        OpErrReason,
    >)
        requires
            locals.wf(),
            old(state).wf(),
        ensures
            final(state).wf(),
            exists|mint: Seq<char>|
                #![trigger rv_extern_v(old(state).deep_view(), locals@, self.deep_view(), mint)]
                {
                    let (s2, res) = rv_extern_v(old(state).deep_view(), locals@, self.deep_view(), mint);
                    &&& mint.len() >= 1
                    &&& final(state).deep_view() == s2
                    &&& match r {
                        Result::Ok(v) => res == Result::<Seq<char>, OpErrReasonV>::Ok(v@),
                        Result::Err(e) => res == Result::<Seq<char>, OpErrReasonV>::Err(
                            e.deep_view(),
                        ),
                    }
                },
    {
        match self {
            RValueExtern::ContextCreate => {
                let id: ContextId = state.create_id();
                state.insert_context(Ctx::empty(id.clone()));
                proof {
                    let (s2, res) = rv_extern_v(
                        old(state).deep_view(),
                        locals@,
                        self.deep_view(),
                        id@,
                    );
                    assert(id@.len() >= 1);
                    assert(state.deep_view() =~= s2);
                    assert(res == Result::<Seq<char>, OpErrReasonV>::Ok(id@));
                }
                Ok(id)
            },
            RValueExtern::ThreadCreate(ip, ctx) => {
                let ipv = match ip.resolve(locals) {
                    Ok(v) => v,
                    Err(e) => {
                        proof {
                            let (s2, res) = rv_extern_v(
                                old(state).deep_view(),
                                locals@,
                                self.deep_view(),
                                seq!['0'],
                            );
                            assert(seq!['0'].len() == 1);
                            assert(state.deep_view() == s2);
                            assert(res == Result::<Seq<char>, OpErrReasonV>::Err(e.deep_view()));
                        }
                        return Err(e);
                    },
                };
                let ctxv: Option<String> = match ctx {
                    Some(c) => match c.resolve(locals) {
                        Ok(v) => Some(v),
                        Err(e) => {
                            proof {
                                let (s2, res) = rv_extern_v(
                                    old(state).deep_view(),
                                    locals@,
                                    self.deep_view(),
                                    seq!['0'],
                                );
                                assert(seq!['0'].len() == 1);
                                assert(state.deep_view() == s2);
                                assert(res == Result::<Seq<char>, OpErrReasonV>::Err(
                                    e.deep_view(),
                                ));
                            }
                            return Err(e);
                        },
                    },
                    None => None,
                };
                let id: ThreadId = state.create_id();
                state.insert_thread(Thread::create(id.clone(), ipv, ctxv));
                proof {
                    let (s2, res) = rv_extern_v(
                        old(state).deep_view(),
                        locals@,
                        self.deep_view(),
                        id@,
                    );
                    assert(id@.len() >= 1);
                    assert(state.deep_view() =~= s2);
                    assert(res == Result::<Seq<char>, OpErrReasonV>::Ok(id@));
                }
                Ok(id)
            },
        }
    }
}

/// Effect of any rvalue: the next state and what it resolves to.
pub open spec fn rv_v(s: StateV, locals: LocalsV, rv: RValueV, mint: Seq<char>) -> (
    StateV,
    Result<Seq<char>, OpErrReasonV>,
) {
    match rv {
        RValueV::Local(l) => (s, rv_local_v(l, locals)),
        RValueV::Extern(x) => rv_extern_v(s, locals, x, mint),
    }
}

impl RValue {
    /// Resolve either kind of rvalue.
    pub fn resolve(&self, locals: &Locals, state: &mut State) -> (r: Result<
        ContextValue,
        OpErrReason,
    >)
        requires
            locals.wf(),
            old(state).wf(),
        ensures
            final(state).wf(),
            exists|mint: Seq<char>|
                #![trigger rv_v(old(state).deep_view(), locals@, self.deep_view(), mint)]
                {
                    let (s2, res) = rv_v(old(state).deep_view(), locals@, self.deep_view(), mint);
                    &&& mint.len() >= 1
                    &&& final(state).deep_view() == s2
                    &&& match r {
                        Result::Ok(v) => res == Result::<Seq<char>, OpErrReasonV>::Ok(v@),
                        Result::Err(e) => res == Result::<Seq<char>, OpErrReasonV>::Err(
                            e.deep_view(),
                        ),
                    }
                },
    {
        match self {
            RValue::Local(x) => {
                let r = x.resolve(locals);
                proof {
                    let (s2, res) = rv_v(
                        old(state).deep_view(),
                        locals@,
                        self.deep_view(),
                        seq!['0'],
                    );
                    assert(seq!['0'].len() == 1);
                    assert(state.deep_view() == s2);
                }
                r
            },
            RValue::Extern(x) => {
                let r = x.resolve(locals, state);
                proof {
                    let m = choose|mint: Seq<char>|
                        #![trigger rv_extern_v(old(state).deep_view(), locals@, x.deep_view(), mint)]
                        {
                            let (s2, res) = rv_extern_v(
                                old(state).deep_view(),
                                locals@,
                                x.deep_view(),
                                mint,
                            );
                            &&& mint.len() >= 1
                            &&& state.deep_view() == s2
                            &&& match r {
                                Result::Ok(v) => res == Result::<Seq<char>, OpErrReasonV>::Ok(v@),
                                Result::Err(e) => res == Result::<Seq<char>, OpErrReasonV>::Err(
                                    e.deep_view(),
                                ),
                            }
                        };
                    let (s2, res) = rv_v(old(state).deep_view(), locals@, self.deep_view(), m);
                }
                r
            },
        }
    }
}

/// Effect of one commit op, given the id that would be minted by it: next
/// state, next registers, and success or the failure reason. The driven
/// thread (`self_id`) may be named by `ThreadRemove` and stays in place: the
/// dispatcher re-inserts the thread it drives.
pub open spec fn op_v(
    s: StateV,
    locals: LocalsV,
    self_id: Seq<char>,
    op: OpV,
    mint: Seq<char>,
) -> (StateV, LocalsV, Result<(), OpErrReasonV>) {
    match op {
        OpV::LocalSet(ident, rv) => {
            let (s2, res) = rv_v(s, locals, rv, mint);
            match res {
                Result::Ok(v) => (s2, locals.insert(ident, v), Result::Ok(())),
                Result::Err(e) => (s2, locals, Result::Err(e)),
            }
        },
        OpV::ContextSet(cr, kr, vr) => match rv_local_v(cr, locals) {
            Result::Err(e) => (s, locals, Result::Err(e)),
            Result::Ok(cid) => match rv_local_v(kr, locals) {
                Result::Err(e) => (s, locals, Result::Err(e)),
                Result::Ok(key) => match rv_local_v(vr, locals) {
                    Result::Err(e) => (s, locals, Result::Err(e)),
                    Result::Ok(val) => if s.contexts.contains_key(cid) {
                        (
                            StateV {
                                contexts: s.contexts.insert(
                                    cid,
                                    CtxV {
                                        id: s.contexts[cid].id,
                                        vals: s.contexts[cid].vals.insert(key, val),
                                    },
                                ),
                                ..s
                            },
                            locals,
                            Result::Ok(()),
                        )
                    } else {
                        (s, locals, Result::Err(OpErrReasonV::ContextRefInvalid { ident: cid }))
                    },
                },
            },
        },
        OpV::ContextRemove(rv) => match rv_local_v(rv, locals) {
            Result::Err(e) => (s, locals, Result::Err(e)),
            Result::Ok(cid) => if s.contexts.contains_key(cid) {
                (StateV { contexts: s.contexts.remove(cid), ..s }, locals, Result::Ok(()))
            } else {
                (s, locals, Result::Err(OpErrReasonV::ContextDoesNotExist { id: cid }))
            },
        },
        OpV::ThreadRemove(rv) => match rv_local_v(rv, locals) {
            Result::Err(e) => (s, locals, Result::Err(e)),
            Result::Ok(tid) => if tid == self_id {
                (s, locals, Result::Ok(()))
            } else if s.threads.contains_key(tid) {
                (StateV { threads: s.threads.remove(tid), ..s }, locals, Result::Ok(()))
            } else {
                (s, locals, Result::Err(OpErrReasonV::ThreadDoesNotExist { id: tid }))
            },
        },
    }
}

/// Effect of an op-list, one op at a time; ops are numbered from `base` and
/// op `i` may use `mints[i]`. Failure stops the run and names the op.
pub open spec fn ops_v(
    s: StateV,
    locals: LocalsV,
    self_id: Seq<char>,
    ops: Seq<OpV>,
    mints: Seq<Seq<char>>,
    base: int,
) -> (StateV, LocalsV, Result<(), OpErrV>)
    decreases ops.len(),
{
    if ops.len() == 0 {
        (s, locals, Result::Ok(()))
    } else {
        let (s1, l1, r0) = op_v(s, locals, self_id, ops[0], mints[0]);
        match r0 {
            Result::Ok(u) => ops_v(s1, l1, self_id, ops.skip(1), mints.skip(1), base + 1),
            Result::Err(e) => (
                s1,
                l1,
                Result::Err(OpErrV { op_index: Some(base as usize), op_reason: e }),
            ),
        }
    }
}

/// Running one more op continues a successful run.
pub proof fn lemma_ops_v_snoc(
    s: StateV,
    locals: LocalsV,
    self_id: Seq<char>,
    ops: Seq<OpV>,
    mints: Seq<Seq<char>>,
    base: int,
    op: OpV,
    mint: Seq<char>,
)
    requires
        ops.len() == mints.len(),
        ops_v(s, locals, self_id, ops, mints, base).2 is Ok,
    ensures
        ({
            let (s1, l1, r1) = ops_v(s, locals, self_id, ops, mints, base);
            let (s2, l2, r2) = op_v(s1, l1, self_id, op, mint);
            ops_v(s, locals, self_id, ops.push(op), mints.push(mint), base) == (
                match r2 {
                    Result::Ok(u) => (s2, l2, Result::<(), OpErrV>::Ok(())),
                    Result::Err(e) => (
                        s2,
                        l2,
                        Result::<(), OpErrV>::Err(
                            OpErrV {
                                op_index: Some((base + ops.len()) as usize),
                                op_reason: e,
                            },
                        ),
                    ),
                }
            )
        }),
    decreases ops.len(),
{
    if ops.len() == 0 {
        assert(ops.push(op)[0] == op);
        assert(mints.push(mint)[0] == mint);
        assert(ops.push(op).skip(1) =~= Seq::<OpV>::empty());
        assert(mints.push(mint).skip(1) =~= Seq::<Seq<char>>::empty());
        assert(ops_v(s, locals, self_id, ops, mints, base) == (
            s,
            locals,
            Result::<(), OpErrV>::Ok(()),
        ));
        let (s2, l2, r2) = op_v(s, locals, self_id, op, mint);
        match r2 {
            Result::Ok(u) => {
                assert(ops_v(s2, l2, self_id, ops.push(op).skip(1), mints.push(mint).skip(1), base + 1)
                    == (s2, l2, Result::<(), OpErrV>::Ok(())));
                assert(ops_v(s, locals, self_id, ops.push(op), mints.push(mint), base) == (
                    s2,
                    l2,
                    Result::<(), OpErrV>::Ok(()),
                ));
            },
            Result::Err(e) => {
                assert(ops_v(s, locals, self_id, ops.push(op), mints.push(mint), base) == (
                    s2,
                    l2,
                    Result::<(), OpErrV>::Err(
                        OpErrV { op_index: Some((base + ops.len()) as usize), op_reason: e },
                    ),
                ));
            },
        }
    } else {
        assert(ops.push(op)[0] == ops[0]);
        assert(mints.push(mint)[0] == mints[0]);
        assert(ops.push(op).skip(1) =~= ops.skip(1).push(op));
        assert(mints.push(mint).skip(1) =~= mints.skip(1).push(mint));
        let (s1, l1, r0) = op_v(s, locals, self_id, ops[0], mints[0]);
        assert(r0 is Ok) by {
            if r0 is Err {
                assert(ops_v(s, locals, self_id, ops, mints, base).2 is Err);
            }
        }
        assert(ops_v(s, locals, self_id, ops, mints, base) == ops_v(
            s1,
            l1,
            self_id,
            ops.skip(1),
            mints.skip(1),
            base + 1,
        ));
        assert(ops_v(s, locals, self_id, ops.push(op), mints.push(mint), base) == ops_v(
            s1,
            l1,
            self_id,
            ops.skip(1).push(op),
            mints.skip(1).push(mint),
            base + 1,
        ));
        lemma_ops_v_snoc(s1, l1, self_id, ops.skip(1), mints.skip(1), base + 1, op, mint);
    }
}

/// A successful run decomposes into its prefix and its last op.
pub proof fn lemma_ops_v_unsnoc(
    s: StateV,
    l: LocalsV,
    self_id: Seq<char>,
    ops: Seq<OpV>,
    mints: Seq<Seq<char>>,
    base: int,
)
    requires
        ops.len() > 0,
        mints.len() == ops.len(),
        ops_v(s, l, self_id, ops, mints, base).2 is Ok,
    ensures
        ({
            let prefix = ops_v(s, l, self_id, ops.drop_last(), mints.drop_last(), base);
            let last = op_v(prefix.0, prefix.1, self_id, ops.last(), mints.last());
            &&& prefix.2 is Ok
            &&& last.2 is Ok
            &&& ops_v(s, l, self_id, ops, mints, base) == (last.0, last.1, Result::<
                (),
                OpErrV,
            >::Ok(()))
        }),
    decreases ops.len(),
{
    let (s1, l1, r0) = op_v(s, l, self_id, ops[0], mints[0]);
    assert(r0 is Ok) by {
        if r0 is Err {
            assert(ops_v(s, l, self_id, ops, mints, base).2 is Err);
        }
    }
    if ops.len() == 1 {
        assert(ops.drop_last() =~= Seq::<OpV>::empty());
        assert(mints.drop_last() =~= Seq::<Seq<char>>::empty());
        assert(ops.last() == ops[0]);
        assert(mints.last() == mints[0]);
        assert(ops.skip(1) =~= Seq::<OpV>::empty());
        assert(mints.skip(1) =~= Seq::<Seq<char>>::empty());
    } else {
        assert(ops.skip(1).len() > 0);
        assert(ops_v(s1, l1, self_id, ops.skip(1), mints.skip(1), base + 1).2 is Ok);
        lemma_ops_v_unsnoc(s1, l1, self_id, ops.skip(1), mints.skip(1), base + 1);
        assert(ops.skip(1).drop_last() =~= ops.drop_last().skip(1));
        assert(mints.skip(1).drop_last() =~= mints.drop_last().skip(1));
        assert(ops.skip(1).last() == ops.last());
        assert(mints.skip(1).last() == mints.last());
        assert(ops.drop_last()[0] == ops[0]);
        assert(mints.drop_last()[0] == mints[0]);
    }
}

/// After a successful commit whose last op binds a register to a literal,
/// that register holds the literal: the last writer wins.
pub proof fn lemma_commit_last_const(
    s0: StateV,
    t0: ThreadV,
    ops: Seq<OpV>,
    s2: StateV,
    l2: LocalsV,
    x: Seq<char>,
    v: Seq<char>,
)
    requires
        commit_ok(s0, t0, ops, s2, l2),
        ops.len() > 0,
        ops.last() == OpV::LocalSet(x, RValueV::Local(RValueLocalV::Const(v))),
    ensures
        l2.contains_key(x),
        l2[x] == v,
{
    let mints = choose|mints: Seq<Seq<char>>|
        #![trigger ops_v(s0, init_locals_v(t0), t0.id, ops, mints, 0)]
        {
            &&& mints.len() == ops.len()
            &&& (forall|k: int| 0 <= k < mints.len() ==> (#[trigger] mints[k]).len() >= 1)
            &&& ops_v(s0, init_locals_v(t0), t0.id, ops, mints, 0) == (
                s2,
                l2,
                Result::<(), OpErrV>::Ok(()),
            )
        };
    lemma_ops_v_unsnoc(s0, init_locals_v(t0), t0.id, ops, mints, 0);
}

/// The scratch registers a commit starts from.
pub open spec fn init_locals_v(t: ThreadV) -> LocalsV {
    Map::empty().insert("$nip"@, t.ip).insert("$eip"@, opt_str(t.eip)).insert(
        "$ctx"@,
        opt_str(t.ctx),
    ).insert("$tid"@, t.id)
}

/// An optional id as the sentinel text: absent is the empty string.
pub open spec fn opt_str(o: Option<Seq<char>>) -> Seq<char> {
    match o {
        Some(s) => s,
        None => Seq::empty(),
    }
}

/// The sentinel text as an optional id: the empty string is absent.
pub open spec fn str_opt(s: Seq<char>) -> Option<Seq<char>> {
    if s.len() == 0 {
        None
    } else {
        Some(s)
    }
}

/// The thread registers after a successful commit: `ip` from `$nip`, `eip`
/// and `ctx` from their registers with the empty string meaning absent.
pub open spec fn writeback_v(t: ThreadV, l: LocalsV) -> ThreadV {
    ThreadV {
        ip: l["$nip"@],
        eip: str_opt(l["$eip"@]),
        ctx: str_opt(l["$ctx"@]),
        ..t
    }
}

/// A successful commit: some minted ids drive the op-list from the initial
/// registers to the final state and registers.
pub open spec fn commit_ok(s0: StateV, t0: ThreadV, ops: Seq<OpV>, s2: StateV, l2: LocalsV) -> bool {
    exists|mints: Seq<Seq<char>>|
        #![trigger ops_v(s0, init_locals_v(t0), t0.id, ops, mints, 0)]
        {
            &&& mints.len() == ops.len()
            &&& (forall|k: int| 0 <= k < mints.len() ==> (#[trigger] mints[k]).len() >= 1)
            &&& ops_v(s0, init_locals_v(t0), t0.id, ops, mints, 0) == (
                s2,
                l2,
                Result::<(), OpErrV>::Ok(()),
            )
        }
}

/// A failed commit: a prefix ran, the next op failed for the named reason,
/// and the error carries that op's index.
pub open spec fn commit_fail(s0: StateV, t0: ThreadV, ops: Seq<OpV>, s2: StateV, e: OpErrV) -> bool {
    exists|k: int, mints: Seq<Seq<char>>, m: Seq<char>, sp: StateV, lp: LocalsV|
        #![trigger ops_v(s0, init_locals_v(t0), t0.id, ops.take(k), mints, 0), op_v(sp, lp, t0.id, ops[k], m)]
        {
            &&& 0 <= k < ops.len()
            &&& mints.len() == k
            &&& (forall|kx: int| 0 <= kx < mints.len() ==> (#[trigger] mints[kx]).len() >= 1)
            &&& m.len() >= 1
            &&& ops_v(s0, init_locals_v(t0), t0.id, ops.take(k), mints, 0) == (
                sp,
                lp,
                Result::<(), OpErrV>::Ok(()),
            )
            &&& e.op_index == Some(k as usize)
            &&& op_v(sp, lp, t0.id, ops[k], m) == (
                s2,
                lp,
                Result::<(), OpErrReasonV>::Err(e.op_reason),
            )
        }
}

/// Apply a worker's op-list to the state, with the thread's registers as
/// scratch space. On success the thread's `ip`, `eip` and `ctx` are rewritten
/// from the registers; on failure the thread is untouched, while changes the
/// earlier ops made to the stores remain.
pub fn exec(thread: &mut Thread, state: &mut State, ops: &Vec<Op>) -> (r: Result<(), OpErr>)
    requires
        old(state).wf(),
    ensures
        final(state).wf(),
        match r {
            Result::Ok(u) => exists|l2: LocalsV|
                #![trigger writeback_v(old(thread).deep_view(), l2)]
                {
                    &&& commit_ok(
                        old(state).deep_view(),
                        old(thread).deep_view(),
                        ops.deep_view(),
                        final(state).deep_view(),
                        l2,
                    )
                    &&& final(thread).deep_view() == writeback_v(old(thread).deep_view(), l2)
                },
            Result::Err(e) => commit_fail(
                old(state).deep_view(),
                old(thread).deep_view(),
                ops.deep_view(),
                final(state).deep_view(),
                e.deep_view(),
            ) && *final(thread) == *old(thread),
        },
{
    let ghost s0 = state.deep_view();
    let ghost t0 = thread.deep_view();
    let ghost tidv = t0.id;
    let ghost opsv = ops.deep_view();
    let mut locals: Locals = Table::new();
    locals.insert(String::from_str(local_nip()), thread.ip.clone());
    locals.insert(
        String::from_str(local_eip()),
        match &thread.eip {
            Some(x) => x.clone(),
            None => String::new(),
        },
    );
    locals.insert(
        String::from_str(local_ctx()),
        match &thread.ctx {
            Some(x) => x.clone(),
            None => String::new(),
        },
    );
    locals.insert(String::from_str(local_tid()), thread.id.clone());
    let ghost l0 = locals@;
    proof {
        lemma_register_names_distinct();
        assert(l0 =~= init_locals_v(t0));
        assert(opsv.take(0) =~= Seq::<OpV>::empty());
        assert(l0.contains_key("$nip"@) && l0.contains_key("$eip"@) && l0.contains_key("$ctx"@));
    }
    let mut i: usize = 0;
    let ghost mut mints: Seq<Seq<char>> = Seq::empty();
    while i < ops.len()
        invariant
            i <= ops@.len(),
            s0 == old(state).deep_view(),
            t0 == old(thread).deep_view(),
            tidv == t0.id,
            opsv == ops.deep_view(),
            l0 == init_locals_v(t0),
            *thread == *old(thread),
            state.wf(),
            locals.wf(),
            mints.len() == i,
            forall|k: int| 0 <= k < mints.len() ==> (#[trigger] mints[k]).len() >= 1,
            ops_v(s0, l0, tidv, opsv.take(i as int), mints, 0) == (
                state.deep_view(),
                locals@,
                Result::<(), OpErrV>::Ok(()),
            ),
            locals@.contains_key("$nip"@),
            locals@.contains_key("$eip"@),
            locals@.contains_key("$ctx"@),
        decreases ops@.len() - i,
    {
        let ghost sp = state.deep_view();
        let ghost lp = locals@;
        let op = &ops[i];
        proof {
            assert((*op).deep_view() == opsv[i as int]);
        }
        match op {
            Op::LocalSet(loc_ident, rval) => {
                match rval.resolve(&locals, state) {
                    Ok(v) => {
                        let ghost m = choose|mint: Seq<char>|
                            #![trigger rv_v(sp, lp, rval.deep_view(), mint)]
                            {
                                let (s2, res) = rv_v(sp, lp, rval.deep_view(), mint);
                                &&& mint.len() >= 1
                                &&& state.deep_view() == s2
                                &&& res == Result::<Seq<char>, OpErrReasonV>::Ok(v@)
                            };
                        locals.insert(loc_ident.clone(), v);
                        proof {
                            assert(op_v(sp, lp, tidv, opsv[i as int], m) == (
                                state.deep_view(),
                                locals@,
                                Result::<(), OpErrReasonV>::Ok(()),
                            ));
                            lemma_ops_v_snoc(s0, l0, tidv, opsv.take(i as int), mints, 0, opsv[i as int], m);
                            assert(opsv.take(i as int).push(opsv[i as int]) =~= opsv.take(i + 1));
                            mints = mints.push(m);
                        }
                    },
                    Err(e) => {
                        let ghost m = choose|mint: Seq<char>|
                            #![trigger rv_v(sp, lp, rval.deep_view(), mint)]
                            {
                                let (s2, res) = rv_v(sp, lp, rval.deep_view(), mint);
                                &&& mint.len() >= 1
                                &&& state.deep_view() == s2
                                &&& res == Result::<Seq<char>, OpErrReasonV>::Err(e.deep_view())
                            };
                        proof {
                            assert(op_v(sp, lp, tidv, opsv[i as int], m) == (
                                state.deep_view(),
                                lp,
                                Result::<(), OpErrReasonV>::Err(e.deep_view()),
                            ));
                        }
                        return Err(OpErr { op_index: Some(i), op_reason: e });
                    },
                }
            },
            Op::ContextSet(ctx_ident, ctx_val_ident, rval) => {
                let cid = match ctx_ident.resolve(&locals) {
                    Ok(v) => v,
                    Err(e) => {
                        proof {
                            assert(op_v(sp, lp, tidv, opsv[i as int], seq!['0']) == (
                                sp,
                                lp,
                                Result::<(), OpErrReasonV>::Err(e.deep_view()),
                            ));
                        }
                        return Err(OpErr { op_index: Some(i), op_reason: e });
                    },
                };
                let key = match ctx_val_ident.resolve(&locals) {
                    Ok(v) => v,
                    Err(e) => {
                        proof {
                            assert(op_v(sp, lp, tidv, opsv[i as int], seq!['0']) == (
                                sp,
                                lp,
                                Result::<(), OpErrReasonV>::Err(e.deep_view()),
                            ));
                        }
                        return Err(OpErr { op_index: Some(i), op_reason: e });
                    },
                };
                let val = match rval.resolve(&locals) {
                    Ok(v) => v,
                    Err(e) => {
                        proof {
                            assert(op_v(sp, lp, tidv, opsv[i as int], seq!['0']) == (
                                sp,
                                lp,
                                Result::<(), OpErrReasonV>::Err(e.deep_view()),
                            ));
                        }
                        return Err(OpErr { op_index: Some(i), op_reason: e });
                    },
                };
                let ghost cidv = cid@;
                match state.contexts.remove(&cid) {
                    Some(mut context) => {
                        proof {
                            assert(sp.contexts.contains_key(cidv));
                        }
                        context.set(key, val);
                        let ghost cv = context.deep_view();
                        state.contexts.insert(cid, context);
                        proof {
                            assert(state.deep_view().contexts =~= sp.contexts.insert(cidv, cv));
                            assert(state.deep_view() =~= op_v(sp, lp, tidv, opsv[i as int], seq!['0']).0);
                            assert forall|k: Seq<char>| #[trigger]
                                state.contexts.stored().contains_key(k) implies
                                state.contexts.stored()[k].wf() by {
                                if k != cidv {
                                    assert(state.contexts.stored()[k].wf());
                                }
                            }
                            assert(op_v(sp, lp, tidv, opsv[i as int], seq!['0']) == (
                                state.deep_view(),
                                locals@,
                                Result::<(), OpErrReasonV>::Ok(()),
                            ));
                            lemma_ops_v_snoc(s0, l0, tidv, opsv.take(i as int), mints, 0, opsv[i as int], seq!['0']);
                            assert(opsv.take(i as int).push(opsv[i as int]) =~= opsv.take(i + 1));
                            mints = mints.push(seq!['0']);
                        }
                    },
                    None => {
                        proof {
                            assert(state.deep_view() =~= sp);
                            assert(op_v(sp, lp, tidv, opsv[i as int], seq!['0']) == (
                                sp,
                                lp,
                                Result::<(), OpErrReasonV>::Err(
                                    OpErrReasonV::ContextRefInvalid { ident: cid@ },
                                ),
                            ));
                        }
                        return Err(
                            OpErr {
                                op_index: Some(i),
                                op_reason: OpErrReason::ContextRefInvalid { ident: cid },
                            },
                        );
                    },
                }
            },
            Op::ContextRemove(rval) => {
                let rid = match rval.resolve(&locals) {
                    Ok(v) => v,
                    Err(e) => {
                        proof {
                            assert(op_v(sp, lp, tidv, opsv[i as int], seq!['0']) == (
                                sp,
                                lp,
                                Result::<(), OpErrReasonV>::Err(e.deep_view()),
                            ));
                        }
                        return Err(OpErr { op_index: Some(i), op_reason: e });
                    },
                };
                match state.contexts.remove(&rid) {
                    Some(_c) => {
                        proof {
                            assert(op_v(sp, lp, tidv, opsv[i as int], seq!['0']) == (
                                state.deep_view(),
                                locals@,
                                Result::<(), OpErrReasonV>::Ok(()),
                            ));
                            lemma_ops_v_snoc(s0, l0, tidv, opsv.take(i as int), mints, 0, opsv[i as int], seq!['0']);
                            assert(opsv.take(i as int).push(opsv[i as int]) =~= opsv.take(i + 1));
                            mints = mints.push(seq!['0']);
                        }
                    },
                    None => {
                        proof {
                            assert(state.deep_view() =~= sp);
                            assert(op_v(sp, lp, tidv, opsv[i as int], seq!['0']) == (
                                sp,
                                lp,
                                Result::<(), OpErrReasonV>::Err(
                                    OpErrReasonV::ContextDoesNotExist { id: rid@ },
                                ),
                            ));
                        }
                        return Err(
                            OpErr {
                                op_index: Some(i),
                                op_reason: OpErrReason::ContextDoesNotExist { id: rid },
                            },
                        );
                    },
                }
            },
            Op::ThreadRemove(rval) => {
                let rid = match rval.resolve(&locals) {
                    Ok(v) => v,
                    Err(e) => {
                        proof {
                            assert(op_v(sp, lp, tidv, opsv[i as int], seq!['0']) == (
                                sp,
                                lp,
                                Result::<(), OpErrReasonV>::Err(e.deep_view()),
                            ));
                        }
                        return Err(OpErr { op_index: Some(i), op_reason: e });
                    },
                };
                if rid.eq(&thread.id) {
                    // the driven thread stays: the dispatcher re-inserts the
                    // thread it drives after the commit
                    proof {
                        assert(op_v(sp, lp, tidv, opsv[i as int], seq!['0']) == (
                            state.deep_view(),
                            locals@,
                            Result::<(), OpErrReasonV>::Ok(()),
                        ));
                        lemma_ops_v_snoc(s0, l0, tidv, opsv.take(i as int), mints, 0, opsv[i as int], seq!['0']);
                        assert(opsv.take(i as int).push(opsv[i as int]) =~= opsv.take(i + 1));
                        mints = mints.push(seq!['0']);
                    }
                } else {
                    match state.threads.remove(&rid) {
                        Some(_t) => {
                            proof {
                                assert(op_v(sp, lp, tidv, opsv[i as int], seq!['0']) == (
                                    state.deep_view(),
                                    locals@,
                                    Result::<(), OpErrReasonV>::Ok(()),
                                ));
                                lemma_ops_v_snoc(s0, l0, tidv, opsv.take(i as int), mints, 0, opsv[i as int], seq!['0']);
                                assert(opsv.take(i as int).push(opsv[i as int]) =~= opsv.take(
                                    i + 1,
                                ));
                                mints = mints.push(seq!['0']);
                            }
                        },
                        None => {
                            proof {
                                assert(state.deep_view() =~= sp);
                                assert(op_v(sp, lp, tidv, opsv[i as int], seq!['0']) == (
                                    sp,
                                    lp,
                                    Result::<(), OpErrReasonV>::Err(
                                        OpErrReasonV::ThreadDoesNotExist { id: rid@ },
                                    ),
                                ));
                            }
                            return Err(
                                OpErr {
                                    op_index: Some(i),
                                    op_reason: OpErrReason::ThreadDoesNotExist { id: rid },
                                },
                            );
                        },
                    }
                }
            },
        }
        i = i + 1;
    }
    proof {
        assert(opsv.take(opsv.len() as int) =~= opsv);
    }
    let nip = match locals.get(&String::from_str(local_nip())) {
        Some(v) => v.clone(),
        None => {
            proof {
                assert(false);
            }
            String::new()
        },
    };
    let eip = match locals.get(&String::from_str(local_eip())) {
        Some(v) => v.clone(),
        None => {
            proof {
                assert(false);
            }
            String::new()
        },
    };
    let ctx = match locals.get(&String::from_str(local_ctx())) {
        Some(v) => v.clone(),
        None => {
            proof {
                assert(false);
            }
            String::new()
        },
    };
    proof {
        assert(nip@ == locals@["$nip"@]);
        assert(eip@ == locals@["$eip"@]);
        assert(ctx@ == locals@["$ctx"@]);
        if locals@["$eip"@].len() == 0 {
            assert(locals@["$eip"@] =~= Seq::<char>::empty());
        }
        if locals@["$ctx"@].len() == 0 {
            assert(locals@["$ctx"@] =~= Seq::<char>::empty());
        }
    }
    thread.ip = nip;
    thread.eip = if eip.eq(&String::new()) {
        None
    } else {
        Some(eip)
    };
    thread.ctx = if ctx.eq(&String::new()) {
        None
    } else {
        Some(ctx)
    };
    proof {
        assert(thread.deep_view() =~= writeback_v(t0, locals@));
    }
    Ok(())
}

/// Interpolate one argument against the current context and the store.
pub open spec fn interp_arg_v(
    contexts: Map<Seq<char>, CtxV>,
    ctx: Option<CtxV>,
    a: CmdArgV,
) -> Result<XCmdArgV, InterpolationErrorV> {
    match a {
        CmdArgV::Const(v) => Result::Ok(XCmdArgV::Const(v)),
        CmdArgV::Ref((ns, var)) => match ns {
            CtxNsV::Curr => match ctx {
                Option::None => Result::Err(InterpolationErrorV::CtxNull),
                Option::Some(c) => Result::Ok(
                    XCmdArgV::Ref(
                        (XCtxNsV::Curr, var),
                        if c.vals.contains_key(var) {
                            Some(c.vals[var])
                        } else {
                            None
                        },
                    ),
                ),
            },
            CtxNsV::Ref(ns_k) => match ctx {
                Option::None => Result::Err(InterpolationErrorV::CtxNull),
                Option::Some(c) => if !c.vals.contains_key(ns_k) {
                    Result::Err(InterpolationErrorV::Ref((CtxNsV::Curr, ns_k)))
                } else {
                    let cid = c.vals[ns_k];
                    if contexts.contains_key(cid) {
                        Result::Ok(
                            XCmdArgV::Ref(
                                (XCtxNsV::Ref(cid), var),
                                if contexts[cid].vals.contains_key(var) {
                                    Some(contexts[cid].vals[var])
                                } else {
                                    None
                                },
                            ),
                        )
                    } else {
                        Result::Err(InterpolationErrorV::CtxMiss(cid))
                    }
                },
            },
        },
    }
}

/// Interpolate an argument list; the first failing argument wins.
pub open spec fn interp_args_v(
    contexts: Map<Seq<char>, CtxV>,
    ctx: Option<CtxV>,
    args: Seq<CmdArgV>,
) -> Result<Seq<XCmdArgV>, InterpolationErrorV>
    decreases args.len(),
{
    if args.len() == 0 {
        Result::Ok(Seq::empty())
    } else {
        match interp_arg_v(contexts, ctx, args[0]) {
            Result::Err(e) => Result::Err(e),
            Result::Ok(x) => match interp_args_v(contexts, ctx, args.skip(1)) {
                Result::Err(e) => Result::Err(e),
                Result::Ok(xs) => Result::Ok(seq![x] + xs),
            },
        }
    }
}

/// Interpolate a whole command: every argument, then the opcode, which must
/// resolve to a concrete value.
pub open spec fn interpolate_v(
    contexts: Map<Seq<char>, CtxV>,
    ctx: Option<CtxV>,
    cmd: CmdV,
) -> Result<XCmdV, InterpolationErrorV> {
    match interp_args_v(contexts, ctx, cmd.args) {
        Result::Err(e) => Result::Err(e),
        Result::Ok(xargs) => match interp_arg_v(contexts, ctx, cmd.opcode) {
            Result::Err(e) => Result::Err(e),
            Result::Ok(xop) => match crate::obj::xarg_value(xop) {
                Option::None => Result::Err(InterpolationErrorV::CmdNull),
                Option::Some(op) => Result::Ok(XCmdV { id: cmd.id, opcode: op, args: xargs }),
            },
        },
    }
}

/// Interpolate one exec argument.
fn interp_arg(state: &State, ctx: Option<&Ctx>, a: &CmdArg) -> (r: Result<
    XCmdArg,
    InterpolationError,
>)
    requires
        state.wf(),
        match ctx {
            Some(c) => c.wf(),
            None => true,
        },
    ensures
        match r {
            Result::Ok(x) => interp_arg_v(state.deep_view().contexts, ctx.deep_view(), a.deep_view())
                == Result::<XCmdArgV, InterpolationErrorV>::Ok(x.deep_view()),
            Result::Err(e) => interp_arg_v(
                state.deep_view().contexts,
                ctx.deep_view(),
                a.deep_view(),
            ) == Result::<XCmdArgV, InterpolationErrorV>::Err(e.deep_view()),
        },
{
    match a {
        CmdArg::Const(v) => Ok(XCmdArg::Const(v.clone())),
        CmdArg::Ref(r) => {
            let crate::obj::CtxRef(ns, var) = r;
            match ns {
                crate::obj::CtxNs::Curr => match ctx {
                    None => Err(InterpolationError::CtxNull),
                    Some(c) => {
                        let v = c.get(var);
                        Ok(XCmdArg::Ref(XCtxRef(XCtxNs::Curr, var.clone()), v))
                    },
                },
                crate::obj::CtxNs::Ref(ns_k) => match ctx {
                    None => Err(InterpolationError::CtxNull),
                    Some(c) => match c.get(ns_k) {
                        None => Err(
                            InterpolationError::Ref(
                                CtxRef(crate::obj::CtxNs::Curr, ns_k.clone()),
                            ),
                        ),
                        Some(cid) => match state.get_context(&cid) {
                            None => Err(InterpolationError::CtxMiss(cid)),
                            Some(c2) => {
                                let v = c2.get(var);
                                Ok(XCmdArg::Ref(XCtxRef(XCtxNs::Ref(cid), var.clone()), v))
                            },
                        },
                    },
                },
            }
        },
    }
}

/// Resolve every argument of a command against the contexts; the result
/// carries each reference together with the value it resolved to.
pub fn interpolate(state: &State, cmd: &Cmd, ctx: Option<&Ctx>) -> (r: Result<
    XCmd,
    InterpolationError,
>)
    requires
        state.wf(),
        match ctx {
            Some(c) => c.wf(),
            None => true,
        },
    ensures
        match r {
            Result::Ok(x) => interpolate_v(
                state.deep_view().contexts,
                ctx.deep_view(),
                cmd.deep_view(),
            ) == Result::<XCmdV, InterpolationErrorV>::Ok(x.deep_view()),
            Result::Err(e) => interpolate_v(
                state.deep_view().contexts,
                ctx.deep_view(),
                cmd.deep_view(),
            ) == Result::<XCmdV, InterpolationErrorV>::Err(e.deep_view()),
        },
{
    let ghost cmv = cmd.deep_view();
    let ghost cxv = ctx.deep_view();
    let ghost csv = state.deep_view().contexts;
    let mut args: Vec<XCmdArg> = Vec::new();
    proof {
        assert(cmv.args.take(0) =~= Seq::<CmdArgV>::empty());
        assert(args.deep_view() =~= Seq::<XCmdArgV>::empty());
    }
    let mut i: usize = 0;
    while i < cmd.args.len()
        invariant
            i <= cmd.args@.len(),
            state.wf(),
            cmv == cmd.deep_view(),
            cxv == ctx.deep_view(),
            csv == state.deep_view().contexts,
            match ctx {
                Some(c) => c.wf(),
                None => true,
            },
            interp_args_v(csv, cxv, cmv.args.take(i as int)) == Result::<
                Seq<XCmdArgV>,
                InterpolationErrorV,
            >::Ok(args.deep_view()),
        decreases cmd.args@.len() - i,
    {
        let a = &cmd.args[i];
        proof {
            assert((*a).deep_view() == cmv.args[i as int]);
        }
        match interp_arg(state, ctx, a) {
            Ok(x) => {
                let ghost argspre = args.deep_view();
                let ghost xv = x.deep_view();
                args.push(x);
                proof {
                    lemma_interp_args_snoc(csv, cxv, cmv.args.take(i as int), cmv.args[i as int]);
                    assert(cmv.args.take(i as int).push(cmv.args[i as int]) =~= cmv.args.take(
                        i + 1,
                    ));
                    assert(args.deep_view() =~= argspre.push(xv));
                }
            },
            Err(e) => {
                proof {
                    lemma_interp_args_prefix_err(csv, cxv, cmv.args, i as int);
                }
                return Err(e);
            },
        }
        i = i + 1;
    }
    proof {
        assert(cmv.args.take(cmv.args.len() as int) =~= cmv.args);
    }
    let xop = match interp_arg(state, ctx, &cmd.opcode) {
        Ok(x) => x,
        Err(e) => {
            return Err(e);
        },
    };
    match xop.value() {
        Some(op) => Ok(XCmd { id: cmd.id.clone(), opcode: op, args }),
        None => Err(InterpolationError::CmdNull),
    }
}

/// A successful argument prefix extends by one more argument.
proof fn lemma_interp_args_snoc(
    contexts: Map<Seq<char>, CtxV>,
    ctx: Option<CtxV>,
    args: Seq<CmdArgV>,
    a: CmdArgV,
)
    requires
        interp_args_v(contexts, ctx, args) is Ok,
    ensures
        interp_args_v(contexts, ctx, args.push(a)) == (match interp_arg_v(contexts, ctx, a) {
            Result::Err(e) => Result::<Seq<XCmdArgV>, InterpolationErrorV>::Err(e),
            Result::Ok(x) => Result::<Seq<XCmdArgV>, InterpolationErrorV>::Ok(
                interp_args_v(contexts, ctx, args)->Ok_0.push(x),
            ),
        }),
    decreases args.len(),
{
    if args.len() == 0 {
        assert(args.push(a)[0] == a);
        assert(args.push(a).skip(1) =~= Seq::<CmdArgV>::empty());
        match interp_arg_v(contexts, ctx, a) {
            Result::Ok(x) => {
                assert(seq![x] + Seq::<XCmdArgV>::empty() =~= interp_args_v(
                    contexts,
                    ctx,
                    args,
                )->Ok_0.push(x));
                assert(interp_args_v(contexts, ctx, args.push(a)) == Result::<
                    Seq<XCmdArgV>,
                    InterpolationErrorV,
                >::Ok(seq![x] + interp_args_v(contexts, ctx, args.push(a).skip(1))->Ok_0));
                assert(interp_args_v(contexts, ctx, args.push(a).skip(1)) == Result::<
                    Seq<XCmdArgV>,
                    InterpolationErrorV,
                >::Ok(Seq::<XCmdArgV>::empty()));
            },
            Result::Err(e) => {},
        }
    } else {
        assert(args.push(a)[0] == args[0]);
        assert(args.push(a).skip(1) =~= args.skip(1).push(a));
        lemma_interp_args_snoc(contexts, ctx, args.skip(1), a);
        match interp_arg_v(contexts, ctx, args[0]) {
            Result::Ok(x0) => {
                assert(interp_args_v(contexts, ctx, args) == Result::<
                    Seq<XCmdArgV>,
                    InterpolationErrorV,
                >::Ok(seq![x0] + interp_args_v(contexts, ctx, args.skip(1))->Ok_0));
                match interp_arg_v(contexts, ctx, a) {
                    Result::Ok(x) => {
                        assert(seq![x0] + interp_args_v(contexts, ctx, args.skip(1))->Ok_0.push(
                            x,
                        ) =~= (seq![x0] + interp_args_v(contexts, ctx, args.skip(1))->Ok_0).push(
                            x,
                        ));
                        assert(interp_args_v(contexts, ctx, args.push(a)) == Result::<
                            Seq<XCmdArgV>,
                            InterpolationErrorV,
                        >::Ok(
                            seq![x0] + interp_args_v(contexts, ctx, args.skip(1).push(a))->Ok_0,
                        ));
                    },
                    Result::Err(e) => {},
                }
            },
            Result::Err(e) => {},
        }
    }
}

/// A failing argument makes the whole list fail with its error, whatever
/// follows it.
proof fn lemma_interp_args_prefix_err(
    contexts: Map<Seq<char>, CtxV>,
    ctx: Option<CtxV>,
    args: Seq<CmdArgV>,
    i: int,
)
    requires
        0 <= i < args.len(),
        interp_args_v(contexts, ctx, args.take(i)) is Ok,
        interp_arg_v(contexts, ctx, args[i]) is Err,
    ensures
        interp_args_v(contexts, ctx, args) == Result::<Seq<XCmdArgV>, InterpolationErrorV>::Err(
            interp_arg_v(contexts, ctx, args[i])->Err_0,
        ),
    decreases args.len(),
{
    if i == 0 {
    } else {
        assert(args.take(i)[0] == args[0]);
        assert(args.take(i).skip(1) =~= args.skip(1).take(i - 1));
        assert(args.skip(1)[i - 1] == args[i]);
        lemma_interp_args_prefix_err(contexts, ctx, args.skip(1), i - 1);
    }
}

/// The textual representation of an interpolation error written to the
/// exception context.
pub open spec fn interp_err_repr_v(e: InterpolationErrorV) -> Seq<char> {
    match e {
        InterpolationErrorV::CtxNull => "CtxNull"@,
        InterpolationErrorV::CtxMiss(id) => "CtxMiss("@ + id + ")"@,
        InterpolationErrorV::CmdNull => "CmdNull"@,
        InterpolationErrorV::Ref(r) => "Ref"@,
    }
}

/// The textual representation of a thread error written to the exception
/// context: the variant name, with the offending id where there is one.
pub open spec fn err_repr_v(e: ThreadErrorV) -> Seq<char> {
    match e {
        ThreadErrorV::Fetch { id } => "Fetch { id: "@ + id + " }"@,
        ThreadErrorV::Context { id } => match id {
            Some(i) => "Context { id: "@ + i + " }"@,
            None => "Context { id: none }"@,
        },
        ThreadErrorV::Interpolate { err } => "Interpolate { err: "@ + interp_err_repr_v(err)
            + " }"@,
        ThreadErrorV::WorkerDuring(w) => "WorkerDuring { .. }"@,
        ThreadErrorV::WorkerPost(o) => "WorkerPost { .. }"@,
    }
}

/// Build the textual representation of a thread error.
pub fn err_repr(e: &ThreadError) -> (r: String)
    ensures
        r@ == err_repr_v(e.deep_view()),
        r@.len() >= 1,
{
    proof {
        reveal_strlit("Fetch { id: ");
        reveal_strlit("Context { id: ");
        reveal_strlit("Context { id: none }");
        reveal_strlit("Interpolate { err: ");
        reveal_strlit("WorkerDuring { .. }");
        reveal_strlit("WorkerPost { .. }");
    }
    match e {
        ThreadError::Fetch { id } => String::from_str("Fetch { id: ").concat(id.as_str()).concat(
            " }",
        ),
        ThreadError::Context { id } => match id {
            Some(i) => String::from_str("Context { id: ").concat(i.as_str()).concat(" }"),
            None => String::from_str("Context { id: none }"),
        },
        ThreadError::Interpolate { err } => {
            let inner = match err {
                InterpolationError::CtxNull => String::from_str("CtxNull"),
                InterpolationError::CtxMiss(id) => String::from_str("CtxMiss(").concat(
                    id.as_str(),
                ).concat(")"),
                InterpolationError::CmdNull => String::from_str("CmdNull"),
                InterpolationError::Ref(r) => String::from_str("Ref"),
            };
            String::from_str("Interpolate { err: ").concat(inner.as_str()).concat(" }")
        },
        ThreadError::WorkerDuring(w) => String::from_str("WorkerDuring { .. }"),
        ThreadError::WorkerPost(o) => String::from_str("WorkerPost { .. }"),
    }
}

/// The synthetic commit op-list of the exception unwinder: create a child
/// context, chain `^ctx` and `^ip` to the failing frame, bind the error text
/// under `exc`, and continue at the handler with the handler cleared.
pub open spec fn unwind_ops_v(exc: Seq<char>, eip: Seq<char>) -> Seq<OpV> {
    seq![
        OpV::LocalSet("exc"@, RValueV::Local(RValueLocalV::Const(exc))),
        OpV::LocalSet("new_ctx"@, RValueV::Extern(RValueExternV::ContextCreate)),
        OpV::ContextSet(
            RValueLocalV::Ref("new_ctx"@),
            RValueLocalV::Const("^ctx"@),
            RValueLocalV::Ref("$ctx"@),
        ),
        OpV::ContextSet(
            RValueLocalV::Ref("new_ctx"@),
            RValueLocalV::Const("^ip"@),
            RValueLocalV::Ref("$nip"@),
        ),
        OpV::ContextSet(
            RValueLocalV::Ref("new_ctx"@),
            RValueLocalV::Const("exc"@),
            RValueLocalV::Ref("exc"@),
        ),
        OpV::LocalSet("$ctx"@, RValueV::Local(RValueLocalV::Ref("new_ctx"@))),
        OpV::LocalSet("$nip"@, RValueV::Local(RValueLocalV::Const(eip))),
        OpV::LocalSet("$eip"@, RValueV::Local(RValueLocalV::Const(Seq::empty()))),
    ]
}

/// Build the unwinder's op-list for an error and a handler target.
pub fn unwind_ops(error: &ThreadError, eip: &CommandId) -> (r: Vec<Op>)
    ensures
        r.deep_view() == unwind_ops_v(err_repr_v(error.deep_view()), eip@),
{
    let exc = err_repr(error);
    let mut r: Vec<Op> = Vec::new();
    r.push(Op::LocalSet(String::from_str("exc"), RValue::Local(RValueLocal::Const(exc))));
    r.push(
        Op::LocalSet(String::from_str("new_ctx"), RValue::Extern(RValueExtern::ContextCreate)),
    );
    r.push(
        Op::ContextSet(
            RValueLocal::Ref(String::from_str("new_ctx")),
            RValueLocal::Const(String::from_str("^ctx")),
            RValueLocal::Ref(String::from_str(local_ctx())),
        ),
    );
    r.push(
        Op::ContextSet(
            RValueLocal::Ref(String::from_str("new_ctx")),
            RValueLocal::Const(String::from_str("^ip")),
            RValueLocal::Ref(String::from_str(local_nip())),
        ),
    );
    r.push(
        Op::ContextSet(
            RValueLocal::Ref(String::from_str("new_ctx")),
            RValueLocal::Const(String::from_str("exc")),
            RValueLocal::Ref(String::from_str("exc")),
        ),
    );
    r.push(
        Op::LocalSet(
            String::from_str(local_ctx()),
            RValue::Local(RValueLocal::Ref(String::from_str("new_ctx"))),
        ),
    );
    r.push(
        Op::LocalSet(
            String::from_str(local_nip()),
            RValue::Local(RValueLocal::Const(eip.clone())),
        ),
    );
    r.push(
        Op::LocalSet(String::from_str(local_eip()), RValue::Local(RValueLocal::Const(String::new()))),
    );
    proof {
        assert(r.deep_view() =~= unwind_ops_v(err_repr_v(error.deep_view()), eip@));
    }
    r
}

/// Capacity and declared queues a worker announces.
#[derive(Debug, PartialEq, Eq)]
pub struct WorkerInfo(pub Option<usize>, pub Vec<String>);

impl DeepView for WorkerInfo {
    type V = (Option<usize>, Seq<Seq<char>>);

    open spec fn deep_view(&self) -> (Option<usize>, Seq<Seq<char>>) {
        (self.0, self.1.deep_view())
    }
}

/// A registered worker as the dispatcher sees it.
#[derive(Debug)]
pub struct DaemonWorkerInfo {
    pub key: WorkerId,
    pub info: WorkerInfo,
}

/// Spec model of `DaemonWorkerInfo`.
pub struct DaemonWorkerInfoV {
    pub key: Seq<char>,
    pub capacity: Option<usize>,
    pub queues: Seq<Seq<char>>,
}

impl DeepView for DaemonWorkerInfo {
    type V = DaemonWorkerInfoV;

    open spec fn deep_view(&self) -> DaemonWorkerInfoV {
        DaemonWorkerInfoV {
            key: self.key@,
            capacity: self.info.0,
            queues: self.info.1.deep_view(),
        }
    }
}

/// An intent the dispatcher hands to the embedder for delivery to a worker
/// stream.
#[derive(Debug, PartialEq, Eq)]
pub enum DaemonWorker {
    WorkerCreated(WorkerId),
    JobAssigned(ThreadId, StepId, CommandId, XCmd),
}

/// Spec model of `DaemonWorker`.
pub enum DaemonWorkerV {
    WorkerCreated(Seq<char>),
    JobAssigned(Seq<char>, StepId, Seq<char>, XCmdV),
}

impl DeepView for DaemonWorker {
    type V = DaemonWorkerV;

    open spec fn deep_view(&self) -> DaemonWorkerV {
        match self {
            DaemonWorker::WorkerCreated(w) => DaemonWorkerV::WorkerCreated(w@),
            DaemonWorker::JobAssigned(t, s, c, x) => DaemonWorkerV::JobAssigned(
                t@,
                *s,
                c@,
                x.deep_view(),
            ),
        }
    }
}

/// A request the embedder routes into the dispatcher.
#[derive(Debug)]
pub enum DaemonRequest {
    Finished(WorkerId, ThreadId, StepId, CommandId, WorkerResult),
    WorkerAdd(WorkerInfo),
    WorkerRemove(WorkerId),
}

/// Spec model of the whole dispatcher.
#[verifier::ext_equal]
pub struct DpuV {
    pub state: StateV,
    pub mq: MultiQueueV,
    pub workers: Map<Seq<char>, DaemonWorkerInfoV>,
    pub aq: Seq<AssignmentV>,
}

/// The world with one thread record replaced.
pub open spec fn with_thread(w: DpuV, tid: Seq<char>, t: ThreadV) -> DpuV {
    DpuV { state: StateV { threads: w.state.threads.insert(tid, t), ..w.state }, ..w }
}

/// The context a thread currently sees, if its pointer names a live one.
pub open spec fn cur_ctx_v(s: StateV, t: ThreadV) -> Option<CtxV> {
    match t.ctx {
        Option::None => None,
        Option::Some(cid) => if s.contexts.contains_key(cid) {
            Some(s.contexts[cid])
        } else {
            None
        },
    }
}

/// States the drive loop stops at.
pub open spec fn quiescent_v(st: ThreadStateV) -> bool {
    ||| st is Queued
    ||| st is Assigned
    ||| st is Paused
    ||| st is Exited
}

/// The scheduler's reaction to a new job, as `MultiQueue::job_create`
/// promises it: a tracked key is ignored; with no ready worker the job is
/// parked; otherwise the first ready worker of the queue takes it.
pub open spec fn job_create_rel(
    m0: MultiQueueV,
    q: Seq<char>,
    j: JobV,
    m1: MultiQueueV,
    out: Seq<AssignmentV>,
) -> bool {
    if mq_has_job(m0, j) {
        m1 == m0 && out == Seq::<AssignmentV>::empty()
    } else if !m0.pubsub.queues_workers.contains_key(q) {
        &&& out == Seq::<AssignmentV>::empty()
        &&& m1.queues == m0.queues.insert(
            q,
            (if m0.queues.contains_key(q) {
                m0.queues[q]
            } else {
                Seq::empty()
            }).push(j),
        )
        &&& m1.pending == m0.pending.insert(j, q)
        &&& m1.pubsub == m0.pubsub
        &&& m1.worker_queues == m0.worker_queues
    } else {
        let wk = m0.pubsub.queues_workers[q][0];
        let w1 = m0.pubsub.workers[wk];
        let w2 = PsWorkerV {
            key: w1.key,
            current: w1.current.push((q, j)),
            capacity: w1.capacity,
            queues: w1.queues,
        };
        &&& out == seq![
            AssignmentV { action: Action::Started, worker_key: wk, queue_key: q, job_key: j },
        ]
        &&& m1.pubsub.workers == m0.pubsub.workers.insert(wk, w2)
        &&& m1.pubsub.jobs_workers == m0.pubsub.jobs_workers.insert(j, wk)
        &&& m1.queues == m0.queues
        &&& m1.pending == m0.pending
        &&& m1.worker_queues == m0.worker_queues
    }
}

/// One iteration of the drive loop on thread `tid`: the pure transition of
/// the state machine, with its side effects on the stores, the scheduler and
/// the assignment queue.
pub open spec fn thread_step(pre: DpuV, post: DpuV, tid: Seq<char>) -> bool {
    &&& pre.state.threads.contains_key(tid)
    &&& post.workers == pre.workers
    &&& {
        let t = pre.state.threads[tid];
        match t.state {
            ThreadStateV::Created => post == with_thread(
                pre,
                tid,
                ThreadV { state: ThreadStateV::Fetching(t.ip), ..t },
            ),
            ThreadStateV::Fetching(ip) => if pre.state.commands.contains_key(ip) {
                post == with_thread(
                    pre,
                    tid,
                    ThreadV { state: ThreadStateV::Fetched(pre.state.commands[ip]), ..t },
                )
            } else {
                post == with_thread(
                    pre,
                    tid,
                    ThreadV {
                        state: ThreadStateV::Errored(ThreadErrorV::Fetch { id: ip }),
                        ..t
                    },
                )
            },
            ThreadStateV::Fetched(cmd) => post == with_thread(
                pre,
                tid,
                ThreadV { state: ThreadStateV::Interpolating(cmd), ..t },
            ),
            ThreadStateV::Interpolating(cmd) => match interpolate_v(
                pre.state.contexts,
                cur_ctx_v(pre.state, t),
                cmd,
            ) {
                Result::Ok(x) => post == with_thread(
                    pre,
                    tid,
                    ThreadV { state: ThreadStateV::Interpolated(x), ..t },
                ),
                Result::Err(e) => post == with_thread(
                    pre,
                    tid,
                    ThreadV {
                        state: ThreadStateV::Errored(ThreadErrorV::Interpolate { err: e }),
                        ..t
                    },
                ),
            },
            ThreadStateV::Interpolated(x) => {
                let t2 = ThreadV { step: step_next(t.step), state: ThreadStateV::Queued(x), ..t };
                let job = JobV { tid: t.id, step: step_next(t.step) };
                exists|out: Seq<AssignmentV>|
                    {
                        &&& #[trigger] job_create_rel(pre.mq, x.opcode, job, post.mq, out)
                        &&& post.state == with_thread(pre, tid, t2).state
                        &&& post.aq == pre.aq + out
                    }
            },
            ThreadStateV::Done(res) => {
                let s_no = StateV { threads: pre.state.threads.remove(tid), ..pre.state };
                match res {
                    Result::Err(werr) => post == with_thread(
                        pre,
                        tid,
                        ThreadV {
                            state: ThreadStateV::Errored(ThreadErrorV::WorkerDuring(werr)),
                            ..t
                        },
                    ),
                    Result::Ok(ops) => {
                        ||| exists|l2: LocalsV, s2: StateV|
                            {
                                &&& #[trigger] commit_ok(s_no, t, ops, s2, l2)
                                &&& {
                                    let wb = writeback_v(t, l2);
                                    let t2 = ThreadV {
                                        state: ThreadStateV::Fetching(wb.ip),
                                        ..wb
                                    };
                                    post == DpuV {
                                        state: StateV { threads: s2.threads.insert(tid, t2), ..s2 },
                                        mq: pre.mq,
                                        workers: pre.workers,
                                        aq: pre.aq,
                                    }
                                }
                            }
                        ||| exists|e: OpErrV, s2: StateV|
                            {
                                &&& #[trigger] commit_fail(s_no, t, ops, s2, e)
                                &&& {
                                    let t2 = ThreadV {
                                        state: ThreadStateV::Errored(ThreadErrorV::WorkerPost(e)),
                                        ..t
                                    };
                                    post == DpuV {
                                        state: StateV { threads: s2.threads.insert(tid, t2), ..s2 },
                                        mq: pre.mq,
                                        workers: pre.workers,
                                        aq: pre.aq,
                                    }
                                }
                            }
                    },
                }
            },
            ThreadStateV::Errored(e) => match t.eip {
                Option::None => post == with_thread(
                    pre,
                    tid,
                    ThreadV { state: ThreadStateV::Exited(Result::Err(e)), ..t },
                ),
                Option::Some(target) => {
                    let ops = unwind_ops_v(err_repr_v(e), target);
                    let s_no = StateV { threads: pre.state.threads.remove(tid), ..pre.state };
                    ||| exists|l2: LocalsV, s2: StateV|
                        {
                            &&& #[trigger] commit_ok(s_no, t, ops, s2, l2)
                            &&& {
                                let wb = writeback_v(t, l2);
                                let t2 = ThreadV { state: ThreadStateV::Fetching(wb.ip), ..wb };
                                post == DpuV {
                                    state: StateV { threads: s2.threads.insert(tid, t2), ..s2 },
                                    mq: pre.mq,
                                    workers: pre.workers,
                                    aq: pre.aq,
                                }
                            }
                        }
                    ||| exists|e2: OpErrV, s2: StateV|
                        {
                            &&& #[trigger] commit_fail(s_no, t, ops, s2, e2)
                            &&& {
                                let t2 = ThreadV {
                                    state: ThreadStateV::Exited(Result::Err(e)),
                                    ..t
                                };
                                post == DpuV {
                                    state: StateV { threads: s2.threads.insert(tid, t2), ..s2 },
                                    mq: pre.mq,
                                    workers: pre.workers,
                                    aq: pre.aq,
                                }
                            }
                        }
                },
            },
            _ => false,
        }
    }
}

/// `post` is reachable from `pre` by `n` drive iterations on thread `tid`.
pub open spec fn drives_n(pre: DpuV, post: DpuV, tid: Seq<char>, n: nat) -> bool
    decreases n,
{
    if n == 0 {
        post == pre
    } else {
        exists|mid: DpuV|
            drives_n(pre, mid, tid, (n - 1) as nat) && #[trigger] thread_step(mid, post, tid)
    }
}

/// One more drive iteration extends a drive chain.
pub proof fn lemma_drives_snoc(w0: DpuV, mid: DpuV, post: DpuV, tid: Seq<char>, n: nat)
    requires
        drives_n(w0, mid, tid, n),
        thread_step(mid, post, tid),
    ensures
        drives_n(w0, post, tid, (n + 1) as nat),
{
    reveal_with_fuel(drives_n, 2);
    let m = (n + 1) as nat;
    assert(m != 0);
    assert((m - 1) as nat == n);
    assert(exists|midx: DpuV|
        drives_n(w0, midx, tid, (m - 1) as nat) && #[trigger] thread_step(midx, post, tid)) by {
        assert(drives_n(w0, mid, tid, (m - 1) as nat) && thread_step(mid, post, tid));
    }
    assert(drives_n(w0, post, tid, m));
}

/// The loop variant of the drive loop: the unwinder may run at most once
/// more when a handler is still set, and each phase otherwise only moves
/// forward.
pub open spec fn drive_rank(t: ThreadV) -> nat {
    (if t.eip is Some {
        20nat
    } else {
        0nat
    }) + (match t.state {
        ThreadStateV::Done(r) => 50nat,
        ThreadStateV::Created => 6nat,
        ThreadStateV::Fetching(ip) => 5nat,
        ThreadStateV::Fetched(c) => 4nat,
        ThreadStateV::Interpolating(c) => 3nat,
        ThreadStateV::Interpolated(x) => 2nat,
        ThreadStateV::Errored(e) => 1nat,
        _ => 0nat,
    })
}

/// The dispatcher: the stores, the scheduler, the worker registry and the
/// queue of assignment intents awaiting delivery.
#[derive(Debug)]
pub struct DPU {
    pub state: State,
    pub multi_queue: MultiQueue,
    pub workers: Table<WorkerId, DaemonWorkerInfo>,
    pub assignment_queue: Vec<Assignment>,
}

impl View for DPU {
    type V = DpuV;

    open spec fn view(&self) -> DpuV {
        DpuV {
            state: self.state.deep_view(),
            mq: self.multi_queue@,
            workers: self.workers@,
            aq: self.assignment_queue.deep_view(),
        }
    }
}

impl DPU {
    /// All parts well formed, and the worker registry in step with the
    /// scheduler's.
    pub open spec fn inv(&self) -> bool {
        &&& self.state.wf()
        &&& self.multi_queue.inv()
        &&& self.workers.wf()
        &&& self.workers@.dom() == self.multi_queue@.worker_queues.dom()
    }

    pub fn default() -> (r: Self)
        ensures
            r.inv(),
            r@.state.threads == Map::<Seq<char>, ThreadV>::empty(),
            r@.state.contexts == Map::<Seq<char>, CtxV>::empty(),
            r@.state.commands == Map::<Seq<char>, CmdV>::empty(),
            r@.aq == Seq::<AssignmentV>::empty(),
    {
        let r = DPU {
            state: State::default(),
            multi_queue: MultiQueue::default(),
            workers: Table::new(),
            assignment_queue: Vec::new(),
        };
        proof {
            assert(r.workers@.dom() =~= r.multi_queue@.worker_queues.dom());
            assert(r@.aq =~= Seq::<AssignmentV>::empty());
        }
        r
    }

    /// The mutable store, for loading programs and seeding state.
    pub fn get_state_mut(&mut self) -> (r: &mut State)
        ensures
            *final(r) == final(self).state,
            *r == old(self).state,
            final(self).multi_queue == old(self).multi_queue,
            final(self).workers == old(self).workers,
            final(self).assignment_queue == old(self).assignment_queue,
    {
        &mut self.state
    }

    /// Drive one thread to a quiescent state. Each iteration is one
    /// transition of the state machine; scheduling decisions join the
    /// assignment queue on the way.
    pub fn proceed(&mut self, thread_id: &ThreadId)
        requires
            old(self).inv(),
        ensures
            final(self).inv(),
            !old(self)@.state.threads.contains_key(thread_id@) ==> final(self)@ == old(self)@,
            old(self)@.state.threads.contains_key(thread_id@) ==> exists|n: nat|
                #[trigger] drives_n(old(self)@, final(self)@, thread_id@, n) && {
                    &&& final(self)@.state.threads.contains_key(thread_id@)
                    &&& quiescent_v(final(self)@.state.threads[thread_id@].state)
                },
    {
        let ghost w0 = self@;
        let ghost tidv = thread_id@;
        let mut thread = match self.state.threads.remove(thread_id) {
            None => {
                proof {
                    assert(self@.state.threads =~= w0.state.threads);
                    assert(self@.state =~= w0.state);
                    assert(self@ =~= w0);
                }
                return ;
            },
            Some(t) => t,
        };
        let ghost mut n: nat = 0;
        let ghost mut cur = w0;
        proof {
            assert(cur.state.threads =~= self@.state.threads.insert(tidv, thread.deep_view()));
        }
        loop
            invariant
                tidv == thread_id@,
                w0 == old(self)@,
                self.inv(),
                cur == (DpuV {
                    state: StateV {
                        threads: self@.state.threads.insert(tidv, thread.deep_view()),
                        ..self@.state
                    },
                    mq: self@.mq,
                    workers: self@.workers,
                    aq: self@.aq,
                }),
                drives_n(w0, cur, tidv, n),
            ensures
                quiescent_v(thread.deep_view().state),
            decreases drive_rank(thread.deep_view()),
        {
            let ghost pre = cur;
            let ghost tv = thread.deep_view();
            let ghost mut step_out: Seq<AssignmentV> = Seq::empty();
            let quiescent_now = match &thread.state {
                ThreadState::Queued(_) => true,
                ThreadState::Assigned(_, _) => true,
                ThreadState::Paused(_) => true,
                ThreadState::Exited(_) => true,
                _ => false,
            };
            if quiescent_now {
                break ;
            }
            let mut st = ThreadState::Created;
            core::mem::swap(&mut thread.state, &mut st);
            match st {
                ThreadState::Created => {
                    thread.state = ThreadState::Fetching(thread.ip.clone());
                    proof {
                        assert(thread.deep_view() =~= (ThreadV {
                            state: ThreadStateV::Fetching(tv.ip),
                            ..tv
                        }));
                    }
                },
                ThreadState::Fetching(ip) => {
                    let ghost ipv = ip@;
                    match self.state.commands.get(&ip) {
                        Some(c) => {
                            let c2 = c.clone();
                            proof {
                                assert(c2.deep_view() == pre.state.commands[ipv]);
                            }
                            thread.state = ThreadState::Fetched(c2);
                            proof {
                                assert(thread.deep_view() =~= (ThreadV {
                                    state: ThreadStateV::Fetched(pre.state.commands[ipv]),
                                    ..tv
                                }));
                            }
                        },
                        None => {
                            thread.state = ThreadState::Errored(ThreadError::Fetch { id: ip });
                            proof {
                                assert(thread.deep_view() =~= (ThreadV {
                                    state: ThreadStateV::Errored(ThreadErrorV::Fetch { id: ipv }),
                                    ..tv
                                }));
                            }
                        },
                    }
                },
                ThreadState::Fetched(command) => {
                    let ghost cv = command.deep_view();
                    thread.state = ThreadState::Interpolating(command);
                    proof {
                        assert(thread.deep_view() =~= (ThreadV {
                            state: ThreadStateV::Interpolating(cv),
                            ..tv
                        }));
                    }
                },
                ThreadState::Interpolating(command) => {
                    let ctxref: Option<&Ctx> = match &thread.ctx {
                        Some(cid) => self.state.get_context(cid),
                        None => None,
                    };
                    proof {
                        assert(ctxref.deep_view() == cur_ctx_v(pre.state, tv));
                    }
                    let ghost cv = command.deep_view();
                    match interpolate(&self.state, &command, ctxref) {
                        Ok(x) => {
                            let ghost xv = x.deep_view();
                            thread.state = ThreadState::Interpolated(x);
                            proof {
                                assert(interpolate_v(pre.state.contexts, cur_ctx_v(pre.state, tv), cv)
                                    == Result::<XCmdV, InterpolationErrorV>::Ok(xv));
                                assert(thread.deep_view() =~= (ThreadV {
                                    state: ThreadStateV::Interpolated(xv),
                                    ..tv
                                }));
                            }
                        },
                        Err(e) => {
                            let ghost ev = e.deep_view();
                            thread.state = ThreadState::Errored(
                                ThreadError::Interpolate { err: e },
                            );
                            proof {
                                assert(interpolate_v(pre.state.contexts, cur_ctx_v(pre.state, tv), cv)
                                    == Result::<XCmdV, InterpolationErrorV>::Err(ev));
                                assert(thread.deep_view() =~= (ThreadV {
                                    state: ThreadStateV::Errored(
                                        ThreadErrorV::Interpolate { err: ev },
                                    ),
                                    ..tv
                                }));
                            }
                        },
                    }
                },
                ThreadState::Interpolated(command) => {
                    let ghost xv = command.deep_view();
                    let ghost m0 = self.multi_queue@;
                    thread.step = step_next_exec(thread.step);
                    let job = Job::new(thread.id.clone(), thread.step);
                    let ghost jobv = job.deep_view();
                    let assignment = self.multi_queue.job_create(&command.opcode, &job);
                    let ghost outv = assignment.deep_view();
                    proof {
                        step_out = outv;
                        assert(jobv == (JobV { tid: tv.id, step: step_next(tv.step) }));
                        assert(job_create_rel(m0, xv.opcode, jobv, self.multi_queue@, outv)) by {
                            if mq_has_job(m0, jobv) {
                                assert(self.multi_queue@ == m0);
                                assert(outv =~= Seq::<AssignmentV>::empty());
                            } else if !m0.pubsub.queues_workers.contains_key(xv.opcode) {
                                assert(outv =~= Seq::<AssignmentV>::empty());
                            }
                        }
                    }
                    self.append_assignments(assignment);
                    thread.state = ThreadState::Queued(command);
                    proof {
                        assert(thread.deep_view() =~= (ThreadV {
                            step: step_next(tv.step),
                            state: ThreadStateV::Queued(xv),
                            ..tv
                        }));
                    }
                },
                ThreadState::Done(res) => {
                    match res {
                        Err(werr) => {
                            let ghost wv = werr.deep_view();
                            thread.state = ThreadState::Errored(ThreadError::WorkerDuring(werr));
                            proof {
                                assert(thread.deep_view() =~= (ThreadV {
                                    state: ThreadStateV::Errored(ThreadErrorV::WorkerDuring(wv)),
                                    ..tv
                                }));
                            }
                        },
                        Ok(ops) => {
                            let ghost tswap = thread.deep_view();
                            let ghost opsv = ops.deep_view();
                            let _ = self.state.threads.remove(thread_id);
                            let ghost sno = self.state.deep_view();
                            proof {
                                assert(sno =~= (StateV {
                                    threads: pre.state.threads.remove(tidv),
                                    ..pre.state
                                }));
                            }
                            match exec(&mut thread, &mut self.state, &ops) {
                                Ok(u) => {
                                    let ghost s2v = self.state.deep_view();
                                    let ghost l2 = choose|l2: LocalsV|
                                        #![trigger writeback_v(tswap, l2)]
                                        {
                                            &&& commit_ok(sno, tswap, opsv, s2v, l2)
                                            &&& thread.deep_view() == writeback_v(tswap, l2)
                                        };
                                    proof {
                                        lemma_commit_regs(pre.state, tidv, tswap, tv, opsv, s2v);
                                        assert(commit_ok(sno, tv, opsv, s2v, l2));
                                    }
                                    thread.state = ThreadState::Fetching(thread.ip.clone());
                                    proof {
                                        let wb = writeback_v(tv, l2);
                                        assert(thread.deep_view() =~= (ThreadV {
                                            state: ThreadStateV::Fetching(wb.ip),
                                            ..wb
                                        }));
                                    }
                                },
                                Err(e) => {
                                    let ghost s2v = self.state.deep_view();
                                    let ghost ev = e.deep_view();
                                    proof {
                                        lemma_commit_regs(pre.state, tidv, tswap, tv, opsv, s2v);
                                        assert(commit_fail(sno, tv, opsv, s2v, ev));
                                    }
                                    thread.state = ThreadState::Errored(
                                        ThreadError::WorkerPost(e),
                                    );
                                    proof {
                                        assert(thread.deep_view() =~= (ThreadV {
                                            state: ThreadStateV::Errored(
                                                ThreadErrorV::WorkerPost(ev),
                                            ),
                                            ..tv
                                        }));
                                    }
                                },
                            }
                        },
                    }
                },
                ThreadState::Errored(error) => {
                    let ghost ev = error.deep_view();
                    let has_eip = thread.eip.is_some();
                    if has_eip {
                        let target = match &thread.eip {
                            Some(eip) => eip.clone(),
                            None => String::new(),
                        };
                        let ops = unwind_ops(&error, &target);
                        let ghost tswap = thread.deep_view();
                        let ghost opsv = ops.deep_view();
                        let _ = self.state.threads.remove(thread_id);
                        let ghost sno = self.state.deep_view();
                        proof {
                            assert(tv.eip == Some(target@));
                            assert(opsv == unwind_ops_v(err_repr_v(ev), target@));
                            assert(sno =~= (StateV {
                                threads: pre.state.threads.remove(tidv),
                                ..pre.state
                            }));
                        }
                        match exec(&mut thread, &mut self.state, &ops) {
                            Ok(u) => {
                                let ghost s2v = self.state.deep_view();
                                let ghost l2 = choose|l2: LocalsV|
                                    #![trigger writeback_v(tswap, l2)]
                                    {
                                        &&& commit_ok(sno, tswap, opsv, s2v, l2)
                                        &&& thread.deep_view() == writeback_v(tswap, l2)
                                    };
                                proof {
                                    lemma_commit_regs(pre.state, tidv, tswap, tv, opsv, s2v);
                                    assert(commit_ok(sno, tv, opsv, s2v, l2));
                                    // the unwinder's last op clears the
                                    // handler, so at most one unwind can run
                                    assert(opsv.len() == 8);
                                    assert(opsv.last() == OpV::LocalSet(
                                        "$eip"@,
                                        RValueV::Local(RValueLocalV::Const(Seq::empty())),
                                    ));
                                    lemma_commit_last_const(
                                        sno,
                                        tswap,
                                        opsv,
                                        s2v,
                                        l2,
                                        "$eip"@,
                                        Seq::empty(),
                                    );
                                    assert(writeback_v(tswap, l2).eip is None);
                                }
                                thread.state = ThreadState::Fetching(thread.ip.clone());
                                proof {
                                    let wb = writeback_v(tv, l2);
                                    assert(thread.deep_view() =~= (ThreadV {
                                        state: ThreadStateV::Fetching(wb.ip),
                                        ..wb
                                    }));
                                    assert(thread.deep_view().eip is None);
                                }
                            },
                            Err(e) => {
                                let ghost s2v = self.state.deep_view();
                                let ghost e2v = e.deep_view();
                                proof {
                                    lemma_commit_regs(pre.state, tidv, tswap, tv, opsv, s2v);
                                    assert(commit_fail(sno, tv, opsv, s2v, e2v));
                                }
                                thread.state = ThreadState::Exited(Err(error));
                                proof {
                                    assert(thread.deep_view() =~= (ThreadV {
                                        state: ThreadStateV::Exited(
                                            Result::<(), ThreadErrorV>::Err(ev),
                                        ),
                                        ..tv
                                    }));
                                }
                            },
                        }
                    } else {
                        thread.state = ThreadState::Exited(Err(error));
                        proof {
                            assert(thread.deep_view() =~= (ThreadV {
                                state: ThreadStateV::Exited(Result::<(), ThreadErrorV>::Err(ev)),
                                ..tv
                            }));
                        }
                    }
                },
                other => {
                    proof {
                        assert(false);
                    }
                    thread.state = other;
                },
            }
            proof {
                cur = DpuV {
                    state: StateV {
                        threads: self@.state.threads.insert(tidv, thread.deep_view()),
                        ..self@.state
                    },
                    mq: self@.mq,
                    workers: self@.workers,
                    aq: self@.aq,
                };
                let newtv = thread.deep_view();
                assert(pre.state.threads.contains_key(tidv) && pre.state.threads[tidv] == tv);
                match tv.state {
                    ThreadStateV::Done(res) => {
                        match res {
                            Result::Ok(opsx) => {
                                assert(cur.state.threads =~= self@.state.threads.insert(
                                    tidv,
                                    newtv,
                                ));
                                assert(thread_step(pre, cur, tidv));
                            },
                            Result::Err(w) => {
                                assert(cur =~= with_thread(pre, tidv, newtv));
                                assert(thread_step(pre, cur, tidv));
                            },
                        }
                    },
                    ThreadStateV::Errored(e) => {
                        if tv.eip is None {
                            assert(cur =~= with_thread(pre, tidv, newtv));
                        }
                        assert(thread_step(pre, cur, tidv));
                    },
                    ThreadStateV::Interpolated(x) => {
                        assert(cur.state =~= with_thread(
                            pre,
                            tidv,
                            ThreadV {
                                step: step_next(tv.step),
                                state: ThreadStateV::Queued(x),
                                ..tv
                            },
                        ).state);
                        assert(job_create_rel(
                            pre.mq,
                            x.opcode,
                            JobV { tid: tv.id, step: step_next(tv.step) },
                            cur.mq,
                            step_out,
                        ));
                        assert(cur.aq == pre.aq + step_out);
                        assert(thread_step(pre, cur, tidv));
                    },
                    ThreadStateV::Created => {
                        assert(cur =~= with_thread(pre, tidv, newtv));
                        assert(thread_step(pre, cur, tidv));
                    },
                    ThreadStateV::Fetching(ipx) => {
                        assert(cur =~= with_thread(pre, tidv, newtv));
                        assert(thread_step(pre, cur, tidv));
                    },
                    ThreadStateV::Fetched(cx) => {
                        assert(cur =~= with_thread(pre, tidv, newtv));
                        assert(thread_step(pre, cur, tidv));
                    },
                    ThreadStateV::Interpolating(cx) => {
                        assert(cur =~= with_thread(pre, tidv, newtv));
                        assert(thread_step(pre, cur, tidv));
                    },
                    _ => {
                        assert(false);
                    },
                }
                assert(thread_step(pre, cur, tidv));
                lemma_drives_snoc(w0, pre, cur, tidv, n);
                n = n + 1;
                assert(drives_n(w0, cur, tidv, n));
            }
        }
        proof {
            assert(quiescent_v(thread.deep_view().state));
        }
        self.state.threads.insert(thread_id.clone(), thread);
        proof {
            assert(self@.state.threads =~= cur.state.threads);
            assert(self@.state =~= cur.state);
            assert(self@ =~= cur);
            assert(drives_n(w0, self@, tidv, n));
            assert(self@.state.threads.contains_key(tidv));
        }
    }

    /// Append freshly produced assignments to the delivery queue.
    fn append_assignments(&mut self, assignment: Vec<Assignment>)
        ensures
            final(self).state == old(self).state,
            final(self).multi_queue == old(self).multi_queue,
            final(self).workers == old(self).workers,
            final(self)@.aq == old(self)@.aq + assignment.deep_view(),
    {
        let mut assignment = assignment;
        let ghost a0 = self.assignment_queue.deep_view();
        let ghost dv = assignment.deep_view();
        self.assignment_queue.append(&mut assignment);
        proof {
            assert(self.assignment_queue.deep_view() =~= a0 + dv);
        }
    }
}

/// The step counter advances with wrap-around.
pub fn step_next_exec(s: StepId) -> (r: StepId)
    ensures
        r == step_next(s),
{
    if s == StepId::MAX {
        0
    } else {
        s + 1
    }
}

/// A commit's outcome does not depend on the lifecycle field of the thread
/// it runs for: only the registers and the id feed the scratch space.
proof fn lemma_commit_regs(
    pre_state: StateV,
    tid: Seq<char>,
    tswap: ThreadV,
    tv: ThreadV,
    ops: Seq<OpV>,
    s2: StateV,
)
    requires
        tswap.id == tv.id,
        tswap.ip == tv.ip,
        tswap.eip == tv.eip,
        tswap.ctx == tv.ctx,
        tswap.step == tv.step,
    ensures
        init_locals_v(tswap) == init_locals_v(tv),
        forall|l2: LocalsV, sx: StateV| #[trigger]
            commit_ok(sx, tswap, ops, s2, l2) ==> commit_ok(sx, tv, ops, s2, l2),
        forall|e: OpErrV, sx: StateV| #[trigger]
            commit_fail(sx, tswap, ops, s2, e) ==> commit_fail(sx, tv, ops, s2, e),
        forall|l2: LocalsV|
            writeback_v(tswap, l2).ip == #[trigger] writeback_v(tv, l2).ip && writeback_v(
                tswap,
                l2,
            ).eip == writeback_v(tv, l2).eip && writeback_v(tswap, l2).ctx == writeback_v(
                tv,
                l2,
            ).ctx,
{
    assert(init_locals_v(tswap) == init_locals_v(tv));
    assert forall|l2: LocalsV, sx: StateV| #[trigger]
        commit_ok(sx, tswap, ops, s2, l2) implies commit_ok(sx, tv, ops, s2, l2) by {
        let mints = choose|mints: Seq<Seq<char>>|
            #![trigger ops_v(sx, init_locals_v(tswap), tswap.id, ops, mints, 0)]
            {
                &&& mints.len() == ops.len()
                &&& (forall|k: int| 0 <= k < mints.len() ==> (#[trigger] mints[k]).len() >= 1)
                &&& ops_v(sx, init_locals_v(tswap), tswap.id, ops, mints, 0) == (
                    s2,
                    l2,
                    Result::<(), OpErrV>::Ok(()),
                )
            };
        assert(ops_v(sx, init_locals_v(tv), tv.id, ops, mints, 0) == (
            s2,
            l2,
            Result::<(), OpErrV>::Ok(()),
        ));
    }
    assert forall|e: OpErrV, sx: StateV| #[trigger]
        commit_fail(sx, tswap, ops, s2, e) implies commit_fail(sx, tv, ops, s2, e) by {
        let (k, mints, m, sp, lp) = choose|
            k: int,
            mints: Seq<Seq<char>>,
            m: Seq<char>,
            sp: StateV,
            lp: LocalsV,
        |
            #![trigger ops_v(sx, init_locals_v(tswap), tswap.id, ops.take(k), mints, 0), op_v(sp, lp, tswap.id, ops[k], m)]
            {
                &&& 0 <= k < ops.len()
                &&& mints.len() == k
                &&& (forall|kx: int| 0 <= kx < mints.len() ==> (#[trigger] mints[kx]).len() >= 1)
                &&& m.len() >= 1
                &&& ops_v(sx, init_locals_v(tswap), tswap.id, ops.take(k), mints, 0) == (
                    sp,
                    lp,
                    Result::<(), OpErrV>::Ok(()),
                )
                &&& e.op_index == Some(k as usize)
                &&& op_v(sp, lp, tswap.id, ops[k], m) == (
                    s2,
                    lp,
                    Result::<(), OpErrReasonV>::Err(e.op_reason),
                )
            };
        assert(ops_v(sx, init_locals_v(tv), tv.id, ops.take(k), mints, 0) == (
            sp,
            lp,
            Result::<(), OpErrV>::Ok(()),
        ));
        assert(op_v(sp, lp, tv.id, ops[k], m) == (
            s2,
            lp,
            Result::<(), OpErrReasonV>::Err(e.op_reason),
        ));
    }
}

impl XCtxRef {
    /// The commit op that writes `val` under this resolved reference: the
    /// current context is named through the `$ctx` register, another context
    /// by its id.
    pub fn set(&self, val: RValueLocal) -> (r: Op)
        ensures
            r.deep_view() == OpV::ContextSet(
                match self.deep_view().0 {
                    XCtxNsV::Curr => RValueLocalV::Ref("$ctx"@),
                    XCtxNsV::Ref(id) => RValueLocalV::Const(id),
                },
                RValueLocalV::Const(self.deep_view().1),
                val.deep_view(),
            ),
    {
        let XCtxRef(ns, var) = &self;
        Op::ContextSet(
            match ns {
                XCtxNs::Curr => RValueLocal::Ref(String::from_str(local_ctx())),
                XCtxNs::Ref(id) => RValueLocal::Const(id.clone()),
            },
            RValueLocal::Const(var.clone()),
            val,
        )
    }
}

/// The delivery intents produced by draining an assignment queue: one
/// `JobAssigned` message per `Started` entry whose thread still waits in
/// `Queued` state at the fenced step.
pub open spec fn intents_of(aq: Seq<AssignmentV>, threads: Map<Seq<char>, ThreadV>) -> Seq<
    (Seq<char>, DaemonWorkerV),
>
    decreases aq.len(),
{
    if aq.len() == 0 {
        Seq::empty()
    } else {
        let a = aq[0];
        let rest = intents_of(aq.skip(1), threads);
        if a.action == Action::Started && threads.contains_key(a.job_key.tid)
            && threads[a.job_key.tid].step == a.job_key.step && threads[a.job_key.tid].state
            is Queued {
            seq![
                (
                    a.worker_key,
                    DaemonWorkerV::JobAssigned(
                        a.job_key.tid,
                        a.job_key.step,
                        threads[a.job_key.tid].state->Queued_0.id,
                        threads[a.job_key.tid].state->Queued_0,
                    ),
                ),
            ] + rest
        } else {
            rest
        }
    }
}

/// Draining one more assignment appends its intent, if any.
proof fn lemma_intents_snoc(aq: Seq<AssignmentV>, threads: Map<Seq<char>, ThreadV>, a: AssignmentV)
    ensures
        intents_of(aq.push(a), threads) == intents_of(aq, threads) + intents_of(seq![a], threads),
    decreases aq.len(),
{
    if aq.len() == 0 {
        assert(aq.push(a)[0] == a);
        assert(aq.push(a).skip(1) =~= Seq::<AssignmentV>::empty());
        assert(aq =~= Seq::<AssignmentV>::empty());
        assert(seq![a][0] == a);
        assert(seq![a].skip(1) =~= Seq::<AssignmentV>::empty());
        assert(intents_of(aq.push(a), threads) =~= intents_of(aq, threads) + intents_of(
            seq![a],
            threads,
        ));
    } else {
        assert(aq.push(a)[0] == aq[0]);
        assert(aq.push(a).skip(1) =~= aq.skip(1).push(a));
        lemma_intents_snoc(aq.skip(1), threads, a);
        assert(intents_of(aq.push(a), threads) =~= intents_of(aq, threads) + intents_of(
            seq![a],
            threads,
        ));
    }
}

impl DPU {
    /// Register a worker and hand it pending work. Returns whether the key
    /// was already taken, in which case nothing changes.
    pub fn worker_add(&mut self, key: &WorkerId, info: &WorkerInfo) -> (r: bool)
        requires
            old(self).inv(),
        ensures
            final(self).inv(),
            old(self)@.workers.contains_key(key@) ==> r == true && final(self)@ == old(self)@,
            !old(self)@.workers.contains_key(key@) ==> {
                &&& r == false
                &&& final(self)@.workers == old(self)@.workers.insert(
                    key@,
                    DaemonWorkerInfoV {
                        key: key@,
                        capacity: info.deep_view().0,
                        queues: info.deep_view().1,
                    },
                )
                &&& final(self)@.state == old(self)@.state
                &&& final(self)@.mq.pubsub.workers.contains_key(key@)
                &&& final(self)@.mq.pubsub.workers[key@].capacity == info.deep_view().0
                &&& final(self)@.mq.pubsub.workers[key@].queues == info.deep_view().1
                &&& old(self)@.aq.is_prefix_of(final(self)@.aq)
                &&& (forall|i: int|
                    old(self)@.aq.len() <= i < final(self)@.aq.len() ==> {
                        let a = #[trigger] final(self)@.aq[i];
                        &&& a.action == Action::Started
                        &&& old(self)@.mq.pending.contains_key(a.job_key)
                        &&& final(self)@.mq.pubsub.jobs_workers.contains_key(a.job_key)
                    })
                &&& (match info.deep_view().0 {
                    Some(c) => final(self)@.aq.len() - old(self)@.aq.len() <= c,
                    None => true,
                })
                &&& {
                    // the appended entries are exactly the scheduler's drain
                    let out = final(self)@.aq.skip(old(self)@.aq.len() as int);
                    &&& (forall|j: JobV|
                        old(self)@.mq.pending.contains_key(j) && !(
                        #[trigger] final(self)@.mq.pending.contains_key(j)) ==> exists|ix: int|
                            0 <= ix < out.len() && (#[trigger] out[ix]).job_key == j)
                    &&& (forall|q: Seq<char>| #[trigger]
                        old(self)@.mq.queues.contains_key(q) ==> crate::pubsub::started_jobs_for(
                            out,
                            q,
                        ) == old(self)@.mq.queues[q].take(
                            old(self)@.mq.queues[q].len() - final(self)@.mq.queues[q].len(),
                        ))
                    &&& (forall|j: JobV| #[trigger]
                        final(self)@.mq.pubsub.jobs_workers.contains_key(j) ==> old(self)@.mq.pubsub.jobs_workers.contains_key(j) || old(self)@.mq.pending.contains_key(j))
                    &&& ((match info.deep_view().0 {
                        Some(c) => out.len() == c,
                        None => false,
                    }) || (forall|qi: int|
                        0 <= qi < info.deep_view().1.len() ==> {
                            let q = #[trigger] info.deep_view().1[qi];
                            old(self)@.mq.queues.contains_key(q) ==> (final(self)@.mq.queues[q].len() == 0
                                || !final(self)@.mq.pubsub.queues_workers.contains_key(q))
                        }))
                    &&& (info.deep_view().0 is None ==> forall|qi: int|
                        0 <= qi < info.deep_view().1.len() ==> {
                            let q = #[trigger] info.deep_view().1[qi];
                            old(self)@.mq.queues.contains_key(q) ==> final(self)@.mq.queues[q].len() == 0
                        })
                    &&& (out.len() == 0 ==> final(self)@.mq.queues == old(self)@.mq.queues
                        && final(self)@.mq.pending == old(self)@.mq.pending && final(self)@.mq.pubsub.jobs_workers == old(self)@.mq.pubsub.jobs_workers)
                }
            },
    {
        if self.workers.contains_key(key) {
            return true;
        }
        let ghost w0 = self@;
        let dwi = DaemonWorkerInfo {
            key: key.clone(),
            info: WorkerInfo(info.0, clone_str_vec(&info.1)),
        };
        proof {
            assert(dwi.deep_view() == (DaemonWorkerInfoV {
                key: key@,
                capacity: info.deep_view().0,
                queues: info.deep_view().1,
            }));
        }
        self.workers.insert(key.clone(), dwi);
        proof {
            assert(!self.multi_queue@.worker_queues.contains_key(key@));
        }
        let assignment = self.multi_queue.worker_add(key.clone(), info.0, &info.1);
        let ghost outv = assignment.deep_view();
        self.append_assignments(assignment);
        proof {
            assert(self.workers@.dom() =~= self.multi_queue@.worker_queues.dom());
            assert(self@.aq == w0.aq + outv);
            assert(w0.aq.is_prefix_of(self@.aq)) by {
                assert((w0.aq + outv).take(w0.aq.len() as int) =~= w0.aq);
            }
            assert(self@.aq.skip(w0.aq.len() as int) =~= outv);
            assert forall|i: int| w0.aq.len() <= i < self@.aq.len() implies {
                let a = #[trigger] self@.aq[i];
                &&& a.action == Action::Started
                &&& w0.mq.pending.contains_key(a.job_key)
                &&& self@.mq.pubsub.jobs_workers.contains_key(a.job_key)
            } by {
                assert(self@.aq[i] == outv[i - w0.aq.len()]);
            }
        }
        false
    }

    /// Unregister a worker: its held jobs are re-queued, and the cancelled
    /// assignments join the queue of intents (where delivery skips them).
    /// Returns whether the key was known.
    pub fn worker_remove(&mut self, key: &WorkerId) -> (r: bool)
        requires
            old(self).inv(),
        ensures
            final(self).inv(),
            !old(self)@.workers.contains_key(key@) ==> r == false && final(self)@ == old(self)@,
            old(self)@.workers.contains_key(key@) ==> {
                &&& r == true
                &&& final(self)@.workers == old(self)@.workers.remove(key@)
                &&& final(self)@.state == old(self)@.state
                &&& final(self)@.mq.pubsub.workers == old(self)@.mq.pubsub.workers.remove(key@)
                &&& final(self)@.aq == old(self)@.aq + Seq::new(
                    old(self)@.mq.pubsub.workers[key@].current.len(),
                    |i: int|
                        AssignmentV {
                            action: Action::Cancelled,
                            worker_key: key@,
                            queue_key: old(self)@.mq.pubsub.workers[key@].current[i].0,
                            job_key: old(self)@.mq.pubsub.workers[key@].current[i].1,
                        },
                )
                &&& (forall|i: int|
                    0 <= i < old(self)@.mq.pubsub.workers[key@].current.len() ==> {
                        let e = #[trigger] old(self)@.mq.pubsub.workers[key@].current[i];
                        final(self)@.mq.pending.contains_key(e.1) && final(self)@.mq.pending[e.1] == e.0
                    })
            },
    {
        let ghost w0 = self@;
        match self.workers.remove(key) {
            None => {
                proof {
                    assert(self.workers@ =~= w0.workers);
                    assert(self@ =~= w0);
                }
                false
            },
            Some(_dwi) => {
                proof {
                    assert(self.multi_queue@.pubsub.workers.contains_key(key@));
                }
                let out = self.multi_queue.worker_remove(key);
                self.append_assignments(out);
                proof {
                    assert(self.workers@.dom() =~= self.multi_queue@.worker_queues.dom());
                }
                true
            },
        }
    }

    /// Create a thread at the entry command with an optional context and
    /// drive it until it queues, pauses or exits. Returns the new thread id.
    pub fn job_add(&mut self, ep: CommandId, ctx: Option<ContextId>) -> (r: ThreadId)
        requires
            old(self).inv(),
        ensures
            final(self).inv(),
            r@.len() >= 1,
            exists|n: nat|
                #[trigger] drives_n(
                    with_thread(old(self)@, r@, thread_created(r@, ep@, ctx.deep_view())),
                    final(self)@,
                    r@,
                    n,
                ) && {
                    &&& final(self)@.state.threads.contains_key(r@)
                    &&& quiescent_v(final(self)@.state.threads[r@].state)
                },
    {
        let ghost w0 = self@;
        let id = self.state.create_id();
        let thread = Thread::create(id.clone(), ep, ctx);
        self.state.insert_thread(thread);
        proof {
            assert(self@ =~= with_thread(w0, id@, thread_created(id@, ep@, ctx.deep_view())));
        }
        self.proceed(&id);
        id
    }

    /// Take a worker's result for a job. A result for an unknown thread or a
    /// stale step is discarded; otherwise the thread is committed and driven
    /// on, and the freed slot absorbs pending work.
    pub fn on_finished(
        &mut self,
        worker_id: &WorkerId,
        thread_id: &ThreadId,
        step_id: StepId,
        queue_id: &CommandId,
        res: WorkerResult,
    ) -> (r: bool)
        requires
            old(self).inv(),
        ensures
            final(self).inv(),
            !(old(self)@.state.threads.contains_key(thread_id@)
                && old(self)@.state.threads[thread_id@].step == step_id) ==> r == false && final(self)@ == old(self)@,
            (old(self)@.state.threads.contains_key(thread_id@)
                && old(self)@.state.threads[thread_id@].step == step_id) ==> r == true && exists|
                n: nat,
                mid: DpuV,
            |
                {
                    &&& mid.state.threads == old(self)@.state.threads.insert(
                        thread_id@,
                        ThreadV {
                            state: ThreadStateV::Done(worker_result_view(res)),
                            ..old(self)@.state.threads[thread_id@]
                        },
                    )
                    &&& mid.state.commands == old(self)@.state.commands
                    &&& mid.state.contexts == old(self)@.state.contexts
                    &&& mid.workers == old(self)@.workers
                    &&& !mid.mq.pubsub.jobs_workers.contains_key(
                        JobV { tid: thread_id@, step: step_id },
                    )
                    &&& #[trigger] drives_n(mid, final(self)@, thread_id@, n)
                    &&& final(self)@.state.threads.contains_key(thread_id@)
                    &&& quiescent_v(final(self)@.state.threads[thread_id@].state)
                },
    {
        let ghost w0 = self@;
        let ghost resv = worker_result_view(res);
        let accept = match self.state.threads.get(thread_id) {
            Some(t) => t.step == step_id,
            None => false,
        };
        if !accept {
            return false;
        }
        let mut thread = match self.state.threads.remove(thread_id) {
            Some(t) => t,
            None => {
                proof {
                    assert(false);
                }
                return false;
            },
        };
        let ghost t0 = thread.deep_view();
        thread.state = ThreadState::Done(res);
        self.state.threads.insert(thread_id.clone(), thread);
        let out = self.multi_queue.job_finish(queue_id, &Job::new(thread_id.clone(), step_id));
        self.append_assignments(out);
        let ghost mid = self@;
        proof {
            assert(mid.state.threads =~= w0.state.threads.insert(
                thread_id@,
                ThreadV { state: ThreadStateV::Done(resv), ..t0 },
            ));
        }
        self.proceed(thread_id);
        proof {
            let n = choose|n: nat|
                #[trigger] drives_n(mid, self@, thread_id@, n) && {
                    &&& self@.state.threads.contains_key(thread_id@)
                    &&& quiescent_v(self@.state.threads[thread_id@].state)
                };
        }
        true
    }

    /// Drain the assignment queue, turning each `Started` entry whose thread
    /// still waits at the fenced step into a delivery intent for its worker.
    /// Entries whose thread moved on, and `Done` or `Cancelled` entries,
    /// are dropped.
    pub fn process_assignments(&mut self) -> (r: Vec<(WorkerId, DaemonWorker)>)
        requires
            old(self).inv(),
        ensures
            final(self).inv(),
            final(self)@.aq == Seq::<AssignmentV>::empty(),
            final(self).state == old(self).state,
            final(self).multi_queue == old(self).multi_queue,
            final(self).workers == old(self).workers,
            r.deep_view() == intents_of(old(self)@.aq, old(self)@.state.threads),
    {
        let ghost aq0 = self@.aq;
        let ghost thr = self@.state.threads;
        let mut drained: Vec<Assignment> = Vec::new();
        core::mem::swap(&mut self.assignment_queue, &mut drained);
        let mut r: Vec<(WorkerId, DaemonWorker)> = Vec::new();
        let mut i: usize = 0;
        proof {
            assert(aq0.take(0) =~= Seq::<AssignmentV>::empty());
            assert(self@.aq =~= Seq::<AssignmentV>::empty());
        }
        while i < drained.len()
            invariant
                i <= drained@.len(),
                aq0 == drained.deep_view(),
                thr == self@.state.threads,
                self.inv(),
                self@.aq == Seq::<AssignmentV>::empty(),
                self.state == old(self).state,
                self.multi_queue == old(self).multi_queue,
                self.workers == old(self).workers,
                r.deep_view() == intents_of(aq0.take(i as int), thr),
            decreases drained@.len() - i,
        {
            let ass = &drained[i];
            let ghost av = (*ass).deep_view();
            proof {
                reveal_with_fuel(intents_of, 3);
                assert(av == aq0[i as int]);
                lemma_intents_snoc(aq0.take(i as int), thr, av);
                assert(aq0.take(i as int).push(av) =~= aq0.take(i + 1));
                assert(seq![av][0] == av);
                assert(seq![av].skip(1) =~= Seq::<AssignmentV>::empty());
            }
            let mut emit = false;
            match &ass.action {
                Action::Started => {
                    match self.state.threads.get(&ass.job_key.tid) {
                        Some(t) => {
                            if t.step == ass.job_key.step {
                                match &t.state {
                                    ThreadState::Queued(command) => {
                                        r.push(
                                            (
                                                ass.worker_key.clone(),
                                                DaemonWorker::JobAssigned(
                                                    ass.job_key.tid.clone(),
                                                    ass.job_key.step,
                                                    command.id.clone(),
                                                    command.clone(),
                                                ),
                                            ),
                                        );
                                        proof {
                                            reveal_with_fuel(intents_of, 3);
                                            assert(r.deep_view() =~= intents_of(
                                                aq0.take(i + 1),
                                                thr,
                                            ));
                                        }
                                        emit = true;
                                    },
                                    _ => {
                                    },
                                }
                            }
                        },
                        None => {
                        },
                    }
                },
                _ => {
                },
            }
            if !emit {
                proof {
                    reveal_with_fuel(intents_of, 3);
                    assert(intents_of(seq![av], thr) =~= Seq::<(Seq<char>, DaemonWorkerV)>::empty());
                    assert(r.deep_view() =~= intents_of(aq0.take(i + 1), thr));
                }
            }
            i = i + 1;
        }
        proof {
            assert(aq0.take(aq0.len() as int) =~= aq0);
        }
        r
    }
}

/// Ops that never bind register `x` leave it untouched through a
/// successful run.
proof fn lemma_no_write_preserves(
    s: StateV,
    l: LocalsV,
    self_id: Seq<char>,
    ops: Seq<OpV>,
    mints: Seq<Seq<char>>,
    base: int,
    x: Seq<char>,
)
    requires
        mints.len() == ops.len(),
        ops_v(s, l, self_id, ops, mints, base).2 is Ok,
        forall|i: int|
            0 <= i < ops.len() ==> !((#[trigger] ops[i]) matches OpV::LocalSet(y, r) && y == x),
    ensures
        ops_v(s, l, self_id, ops, mints, base).1.contains_key(x) == l.contains_key(x),
        l.contains_key(x) ==> ops_v(s, l, self_id, ops, mints, base).1[x] == l[x],
    decreases ops.len(),
{
    if ops.len() > 0 {
        let (s1, l1, r0) = op_v(s, l, self_id, ops[0], mints[0]);
        assert(r0 is Ok) by {
            if r0 is Err {
                assert(ops_v(s, l, self_id, ops, mints, base).2 is Err);
            }
        }
        assert(!(ops[0] matches OpV::LocalSet(y, r) && y == x));
        assert(l1.contains_key(x) == l.contains_key(x) && (l.contains_key(x) ==> l1[x] == l[x]));
        assert(forall|i: int|
            0 <= i < ops.skip(1).len() ==> !((#[trigger] ops.skip(1)[i]) matches OpV::LocalSet(
                y,
                r,
            ) && y == x));
        lemma_no_write_preserves(s1, l1, self_id, ops.skip(1), mints.skip(1), base + 1, x);
    }
}

/// Within one committed op-list the last binding of a register wins: if op
/// `k` binds `x` to the literal `v` and no later op binds `x`, the final
/// registers hold `v` at `x`.
pub proof fn lemma_local_set_last_wins(
    s: StateV,
    l: LocalsV,
    self_id: Seq<char>,
    ops: Seq<OpV>,
    mints: Seq<Seq<char>>,
    base: int,
    k: int,
    x: Seq<char>,
    v: Seq<char>,
)
    requires
        mints.len() == ops.len(),
        ops_v(s, l, self_id, ops, mints, base).2 is Ok,
        0 <= k < ops.len(),
        ops[k] == OpV::LocalSet(x, RValueV::Local(RValueLocalV::Const(v))),
        forall|jx: int|
            k < jx < ops.len() ==> !((#[trigger] ops[jx]) matches OpV::LocalSet(y, r) && y == x),
    ensures
        ops_v(s, l, self_id, ops, mints, base).1.contains_key(x),
        ops_v(s, l, self_id, ops, mints, base).1[x] == v,
    decreases ops.len(),
{
    let (s1, l1, r0) = op_v(s, l, self_id, ops[0], mints[0]);
    assert(r0 is Ok) by {
        if r0 is Err {
            assert(ops_v(s, l, self_id, ops, mints, base).2 is Err);
        }
    }
    if k == 0 {
        assert(l1 == l.insert(x, v));
        assert(forall|i: int|
            0 <= i < ops.skip(1).len() ==> !((#[trigger] ops.skip(1)[i]) matches OpV::LocalSet(
                y,
                r,
            ) && y == x));
        lemma_no_write_preserves(s1, l1, self_id, ops.skip(1), mints.skip(1), base + 1, x);
    } else {
        assert(ops.skip(1)[k - 1] == ops[k]);
        assert(forall|jx: int|
            k - 1 < jx < ops.skip(1).len() ==> !((#[trigger] ops.skip(1)[jx]) matches OpV::LocalSet(
                y,
                r,
            ) && y == x));
        lemma_local_set_last_wins(s1, l1, self_id, ops.skip(1), mints.skip(1), base + 1, k - 1, x, v);
    }
}

/// The last binding wins across a whole commit: the public face of the
/// register semantics, stated over `commit_ok`.
pub proof fn lemma_commit_local_last_wins(
    s0: StateV,
    t0: ThreadV,
    ops: Seq<OpV>,
    s2: StateV,
    l2: LocalsV,
    k: int,
    x: Seq<char>,
    v: Seq<char>,
)
    requires
        commit_ok(s0, t0, ops, s2, l2),
        0 <= k < ops.len(),
        ops[k] == OpV::LocalSet(x, RValueV::Local(RValueLocalV::Const(v))),
        forall|jx: int|
            k < jx < ops.len() ==> !((#[trigger] ops[jx]) matches OpV::LocalSet(y, r) && y == x),
    ensures
        l2.contains_key(x),
        l2[x] == v,
{
    let mints = choose|mints: Seq<Seq<char>>|
        #![trigger ops_v(s0, init_locals_v(t0), t0.id, ops, mints, 0)]
        {
            &&& mints.len() == ops.len()
            &&& (forall|kx: int| 0 <= kx < mints.len() ==> (#[trigger] mints[kx]).len() >= 1)
            &&& ops_v(s0, init_locals_v(t0), t0.id, ops, mints, 0) == (
                s2,
                l2,
                Result::<(), OpErrV>::Ok(()),
            )
        };
    lemma_local_set_last_wins(s0, init_locals_v(t0), t0.id, ops, mints, 0, k, x, v);
}

/// Interpolation is deterministic: equal command and context snapshots give
/// equal results, success and failure alike.
pub proof fn lemma_interpolation_deterministic(
    contexts1: Map<Seq<char>, CtxV>,
    ctx1: Option<CtxV>,
    cmd1: CmdV,
    contexts2: Map<Seq<char>, CtxV>,
    ctx2: Option<CtxV>,
    cmd2: CmdV,
)
    requires
        contexts1 == contexts2,
        ctx1 == ctx2,
        cmd1 == cmd2,
    ensures
        interpolate_v(contexts1, ctx1, cmd1) == interpolate_v(contexts2, ctx2, cmd2),
{
}

} // verus!
