//! The control-flow representation that the analysis reads: places, assignment
//! effects, call effects, storage slots and basic blocks of one function.

use vstd::prelude::*;
use crate::ids::{BasicBlockId, DefId, LocalId, Span};

verus! {

/// The options that the analysis recognises on its command line.
#[derive(Clone, Debug)]
pub struct AnalysisOptions {
    /// Names of the trace categories that were switched on.
    pub debug_opts: Vec<String>,
    /// Entry functions, each a `::`-separated path suffix; empty to detect them.
    pub entries: Vec<String>,
    /// Whether logging is initialised at all.
    pub open_dbg: bool,
}

/// A copy of a list of strings.
pub fn copy_strings(strings: &Vec<String>) -> (copy: Vec<String>)
    ensures
        copy.deep_view() == strings.deep_view(),
{
    let mut copy: Vec<String> = Vec::new();
    let mut i: usize = 0;
    while i < strings.len()
        invariant
            i <= strings.len(),
            copy.deep_view() == strings.deep_view().take(i as int),
        decreases strings.len() - i,
    {
        let ghost before = copy.deep_view();
        copy.push(strings[i].clone());
        assert(copy.deep_view() =~= before.push(strings@[i as int]@));
        assert(strings.deep_view().take(i + 1) =~= strings.deep_view().take(i as int).push(
            strings@[i as int]@,
        ));
        i = i + 1;
    }
    assert(strings.deep_view().take(strings@.len() as int) =~= strings.deep_view());
    copy
}

impl AnalysisOptions {
    /// The same options in memory of their own.
    pub fn duplicate(&self) -> (copy: Self)
        ensures
            copy.debug_opts.deep_view() == self.debug_opts.deep_view(),
            copy.entries.deep_view() == self.entries.deep_view(),
            copy.open_dbg == self.open_dbg,
    {
        AnalysisOptions {
            debug_opts: copy_strings(&self.debug_opts),
            entries: copy_strings(&self.entries),
            open_dbg: self.open_dbg,
        }
    }
}

/// What is known of a field of a storage slot: nothing so far.
#[derive(Debug)]
pub struct FieldInfo {}

/// How an assignment uses its right-hand place.
#[derive(Clone, Copy, Debug, PartialEq, Eq, Structural)]
pub enum OpKind {
    Copy,
    Move,
    Ref,
    AddressOf,
}

/// One projection operator of an access path.
#[derive(Clone, Copy, Debug, PartialEq, Eq, Hash, Structural)]
pub enum PlaceElem {
    Deref,
    Field(usize),
    Index(LocalId),
    ConstantIndex { offset: u64, min_length: u64, from_end: bool },
    Subslice { from: u64, to: u64, from_end: bool },
    Downcast(usize),
}

/// What the analysis needs to know of a static type.
#[derive(Clone, Copy, Debug, PartialEq, Eq, Hash, Structural)]
pub enum TyKind {
    Unit,
    RawPtr,
    Ref,
    Other,
}

impl TyKind {
    pub open spec fn is_pointer(self) -> bool {
        self == TyKind::RawPtr || self == TyKind::Ref
    }

    pub fn is_unsafe_ptr(&self) -> (b: bool)
        ensures
            b == (*self == TyKind::RawPtr),
    {
        *self == TyKind::RawPtr
    }

    pub fn is_ref(&self) -> (b: bool)
        ensures
            b == (*self == TyKind::Ref),
    {
        *self == TyKind::Ref
    }

    pub fn is_unit(&self) -> (b: bool)
        ensures
            b == (*self == TyKind::Unit),
    {
        *self == TyKind::Unit
    }
}

/// A storage slot with an access path, and the static type of what the path reaches.
#[derive(Debug)]
pub struct Place {
    pub local: LocalId,
    pub projection: Vec<PlaceElem>,
    pub ty: TyKind,
}

/// A `Place` as a mathematical value.
pub struct PlaceView {
    pub local: LocalId,
    pub projection: Seq<PlaceElem>,
    pub ty: TyKind,
}

impl View for Place {
    type V = PlaceView;

    open spec fn view(&self) -> PlaceView {
        PlaceView { local: self.local, projection: self.projection@, ty: self.ty }
    }
}

impl Place {
    pub fn new(local: LocalId, projection: Vec<PlaceElem>, ty: TyKind) -> (place: Self)
        ensures
            place == (Place { local, projection, ty }),
    {
        Place { local, projection, ty }
    }

    /// Whether the access path holds a dereference.
    pub open spec fn has_deref(&self) -> bool {
        self.projection@.contains(PlaceElem::Deref)
    }

    pub fn duplicate(&self) -> (copy: Self)
        ensures
            copy@ == self@,
    {
        Place { local: self.local, projection: copy_path(&self.projection), ty: self.ty }
    }
}

/// A copy of an access path.
pub fn copy_path(path: &Vec<PlaceElem>) -> (copy: Vec<PlaceElem>)
    ensures
        copy@ == path@,
{
    let mut copy: Vec<PlaceElem> = Vec::new();
    let mut i: usize = 0;
    while i < path.len()
        invariant
            i <= path.len(),
            copy@ == path@.take(i as int),
        decreases path.len() - i,
    {
        copy.push(path[i]);
        i = i + 1;
    }
    copy
}

/// Whether an access path holds a dereference.
pub fn path_has_deref(path: &Vec<PlaceElem>) -> (found: bool)
    ensures
        found == path@.contains(PlaceElem::Deref),
{
    let mut i: usize = 0;
    while i < path.len()
        invariant
            i <= path.len(),
            forall|j: int| 0 <= j < i ==> path@[j] != PlaceElem::Deref,
        decreases path.len() - i,
    {
        if path[i] == PlaceElem::Deref {
            return true;
        }
        i = i + 1;
    }
    false
}

/// The right-hand side of an assignment effect.
#[derive(Debug)]
pub enum RvalKind {
    Constant,
    Addressed(Place),
}

/// One assignment effect of a basic block.
#[derive(Debug)]
pub struct AssignmentInfo {
    pub lvalue: Place,
    pub rvalue: RvalKind,
    pub stat_span: Span,
    pub op: OpKind,
}

impl AssignmentInfo {
    pub fn new(lvalue: Place, rvalue: RvalKind, span: Span, op: OpKind) -> (info: Self)
        ensures
            info == (AssignmentInfo { lvalue, rvalue, stat_span: span, op }),
    {
        Self { lvalue, rvalue, stat_span: span, op }
    }
}

/// An operand of a call or of an assignment.
#[derive(Debug)]
pub enum Operand {
    Copy(Place),
    Move(Place),
    Constant,
}

/// The call effect of a basic block.
#[derive(Debug)]
pub struct CallInfo {
    pub callee_def_id: DefId,
    pub caller_bb_id: BasicBlockId,
    pub func: Operand,
    pub args: Vec<Operand>,
    pub destination: Place,
    pub span: Span,
}

impl CallInfo {
    pub fn new(
        callee_def_id: DefId,
        caller_bb_id: BasicBlockId,
        func: Operand,
        args: Vec<Operand>,
        destination: Place,
        span: Span,
    ) -> (info: Self)
        ensures
            info == (CallInfo { callee_def_id, caller_bb_id, func, args, destination, span }),
    {
        Self { callee_def_id, caller_bb_id, func, args, destination, span }
    }
}

/// One storage slot of a function.
#[derive(Debug)]
pub struct LocalInfo {
    pub id: LocalId,
    pub need_drop: bool,
    pub ty: TyKind,
    pub var_name: Option<String>,
    pub decl_span: Span,
}

impl LocalInfo {
    pub fn new(
        id: LocalId,
        need_drop: bool,
        ty: TyKind,
        var_name: Option<String>,
        decl_span: Span,
    ) -> (info: Self)
        ensures
            info == (LocalInfo { id, need_drop, ty, var_name, decl_span }),
    {
        Self { id, need_drop, ty, var_name, decl_span }
    }
}

/// How a basic block ends.
#[derive(Debug)]
#[allow(inconsistent_fields)]
pub enum TerminatorKind {
    Goto { target: BasicBlockId },
    SwitchInt { targets: Vec<BasicBlockId>, otherwise: BasicBlockId },
    Resume,
    Return,
    Abort,
    GeneratorDrop,
    Unreachable,
    Drop { place: Place, target: BasicBlockId, unwind: Option<BasicBlockId> },
    DropAndReplace { place: Place, target: BasicBlockId, unwind: Option<BasicBlockId> },
    Call {
        func: Operand,
        callee: Option<DefId>,
        args: Vec<Operand>,
        destination: Place,
        target: Option<BasicBlockId>,
        cleanup: Option<BasicBlockId>,
    },
    Assert { target: BasicBlockId, cleanup: Option<BasicBlockId> },
    Yield { resume: BasicBlockId, drop: Option<BasicBlockId> },
    FalseEdge { real_target: BasicBlockId },
    FalseUnwind { real_target: BasicBlockId },
    InlineAsm { destination: Option<BasicBlockId>, cleanup: Option<BasicBlockId> },
}

/// The last instruction of a basic block and where it stands in the source.
#[derive(Debug)]
pub struct Terminator {
    pub kind: TerminatorKind,
    pub span: Span,
}

/// One basic block of a function.
#[derive(Debug)]
pub struct BasicBlockInfo {
    pub id: BasicBlockId,
    pub is_cleanup: bool,
    pub successors: Vec<BasicBlockId>,
    pub assignment_infos: Vec<AssignmentInfo>,
    pub terminator: Terminator,
}

impl BasicBlockInfo {
    pub fn new(
        id: BasicBlockId,
        is_cleanup: bool,
        successors: Vec<BasicBlockId>,
        assignment_infos: Vec<AssignmentInfo>,
        terminator: Terminator,
    ) -> (info: Self)
        ensures
            info == (BasicBlockInfo { id, is_cleanup, successors, assignment_infos, terminator }),
    {
        Self { id, is_cleanup, successors, assignment_infos, terminator }
    }
}


/// The right-hand side of an assignment as the front end reads it, by its
/// shape: which operands or places it is made of.
#[derive(Debug)]
pub enum Rvalue {
    Use(Operand),
    Repeat(Operand),
    Ref(Place),
    ThreadLocalRef,
    AddressOf(Place),
    Len(Place),
    Cast(Operand),
    BinaryOp,
    CheckedBinaryOp,
    NullaryOp,
    UnaryOp,
    Discriminant(Place),
    Aggregate(Vec<Operand>),
    ShallowInitBox(Operand),
}

/// A right-hand side of an assignment effect as a mathematical value.
pub enum RvalKindView {
    Constant,
    Addressed(PlaceView),
}

/// An `AssignmentInfo` as a mathematical value.
pub struct AssignmentInfoView {
    pub lvalue: PlaceView,
    pub rvalue: RvalKindView,
    pub stat_span: Span,
    pub op: OpKind,
}

impl View for AssignmentInfo {
    type V = AssignmentInfoView;

    open spec fn view(&self) -> AssignmentInfoView {
        AssignmentInfoView {
            lvalue: self.lvalue@,
            rvalue: match self.rvalue {
                RvalKind::Constant => RvalKindView::Constant,
                RvalKind::Addressed(place) => RvalKindView::Addressed(place@),
            },
            stat_span: self.stat_span,
            op: self.op,
        }
    }
}


/// An `Operand` as a mathematical value.
pub enum OperandView {
    Copy(PlaceView),
    Move(PlaceView),
    Constant,
}

impl View for Operand {
    type V = OperandView;

    open spec fn view(&self) -> OperandView {
        match self {
            Operand::Copy(place) => OperandView::Copy(place@),
            Operand::Move(place) => OperandView::Move(place@),
            Operand::Constant => OperandView::Constant,
        }
    }
}

impl Operand {
    pub fn duplicate(&self) -> (copy: Self)
        ensures
            copy@ == self@,
    {
        match self {
            Operand::Copy(place) => Operand::Copy(place.duplicate()),
            Operand::Move(place) => Operand::Move(place.duplicate()),
            Operand::Constant => Operand::Constant,
        }
    }
}

/// The operands as mathematical values.
pub open spec fn operands_view(operands: Seq<Operand>) -> Seq<OperandView> {
    operands.map_values(|operand: Operand| operand@)
}

/// A copy of a list of operands.
pub fn copy_operands(operands: &Vec<Operand>) -> (copy: Vec<Operand>)
    ensures
        operands_view(copy@) == operands_view(operands@),
{
    let mut copy: Vec<Operand> = Vec::new();
    let mut i: usize = 0;
    while i < operands.len()
        invariant
            i <= operands.len(),
            operands_view(copy@) == operands_view(operands@).take(i as int),
        decreases operands.len() - i,
    {
        let ghost before = operands_view(copy@);
        let operand = operands[i].duplicate();
        copy.push(operand);
        assert(operands_view(copy@) =~= before.push(operand@));
        assert(operands_view(operands@).take(i + 1) =~= operands_view(operands@).take(
            i as int,
        ).push(operands@[i as int]@));
        i = i + 1;
    }
    assert(operands_view(operands@).take(operands@.len() as int) =~= operands_view(operands@));
    copy
}

/// A `CallInfo` as a mathematical value.
pub struct CallInfoView {
    pub callee_def_id: DefId,
    pub caller_bb_id: BasicBlockId,
    pub func: OperandView,
    pub args: Seq<OperandView>,
    pub destination: PlaceView,
    pub span: Span,
}

impl View for CallInfo {
    type V = CallInfoView;

    open spec fn view(&self) -> CallInfoView {
        CallInfoView {
            callee_def_id: self.callee_def_id,
            caller_bb_id: self.caller_bb_id,
            func: self.func@,
            args: operands_view(self.args@),
            destination: self.destination@,
            span: self.span,
        }
    }
}

/// The declaration of a storage slot as the front end reads it.
#[derive(Clone, Copy, Debug)]
pub struct LocalDecl {
    pub ty: TyKind,
    pub needs_drop: bool,
    pub span: Span,
}

/// The name of a variable and the storage slot that holds it, if one does.
#[derive(Debug)]
pub struct VarDebugInfo {
    pub name: String,
    pub local: Option<LocalId>,
}

/// What an instruction of a block does, as far as the analysis reads it.
#[derive(Debug)]
pub enum StatementKind {
    Assign(Place, Rvalue),
    Other,
}

/// An instruction of a block and where it stands in the source.
#[derive(Debug)]
pub struct Statement {
    pub kind: StatementKind,
    pub span: Span,
}

/// A basic block as the front end reads it.
#[derive(Debug)]
pub struct BasicBlockData {
    pub statements: Vec<Statement>,
    pub terminator: Terminator,
    pub is_cleanup: bool,
}

/// The body of a function as the front end reads it.
#[derive(Debug)]
pub struct Body {
    pub local_decls: Vec<LocalDecl>,
    pub var_debug_info: Vec<VarDebugInfo>,
    pub basic_blocks: Vec<BasicBlockData>,
}

} // verus!
