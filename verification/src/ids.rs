//! Identifiers of functions, storage slots, basic blocks and analysis cells.

use vstd::prelude::*;
use vstd::std_specs::convert::FromSpecImpl;

verus! {

/// A function, by its index in the function table.
pub type DefId = usize;

/// A storage slot of a function, by its index in the function's slot table.
pub type LocalId = usize;

/// A basic block of a function, by its index in the function's block table.
pub type BasicBlockId = usize;

/// An access path of one storage slot, by its index among the paths known for that slot.
pub type ProjectionId = usize;

/// A source location, by the number under which the front end keeps it.
pub type Span = u64;

/// A storage slot of a given function.
#[derive(Clone, Copy, Debug, PartialEq, Eq, Hash, Structural)]
pub struct GlobalLocalId {
    pub def_id: DefId,
    pub local_id: LocalId,
}

impl GlobalLocalId {
    pub fn new(def_id: DefId, local_id: LocalId) -> (id: Self)
        ensures
            id == (GlobalLocalId { def_id, local_id }),
    {
        Self { def_id, local_id }
    }
}

/// An analysis cell: one access path of one storage slot.
#[derive(Clone, Copy, Debug, PartialEq, Eq, Hash, Structural)]
pub struct GlobalProjectionId {
    pub g_local_id: GlobalLocalId,
    pub projection_id: ProjectionId,
}

impl GlobalProjectionId {
    pub fn new(g_local_id: GlobalLocalId, projection_id: ProjectionId) -> (id: Self)
        ensures
            id == (GlobalProjectionId { g_local_id, projection_id }),
    {
        GlobalProjectionId { g_local_id, projection_id }
    }
}

/// A basic block of a given function.
#[derive(Clone, Copy, Debug, PartialEq, Eq, Hash, Structural)]
pub struct GlobalBasicBlockId {
    pub def_id: DefId,
    pub bb_id: BasicBlockId,
}

impl GlobalBasicBlockId {
    pub fn new(def_id: DefId, bb_id: BasicBlockId) -> (id: Self)
        ensures
            id == (GlobalBasicBlockId { def_id, bb_id }),
    {
        Self { def_id, bb_id }
    }
}

/// An abstract object, named by the cell at which its destruction was first seen.
#[derive(Clone, Copy, Debug, PartialEq, Eq, Hash, Structural)]
pub struct DropObjectId {
    pub id: GlobalProjectionId,
}

impl From<GlobalProjectionId> for DropObjectId {
    fn from(id: GlobalProjectionId) -> (object: Self) {
        DropObjectId { id }
    }
}

impl FromSpecImpl<GlobalProjectionId> for DropObjectId {
    open spec fn obeys_from_spec() -> bool {
        true
    }

    open spec fn from_spec(id: GlobalProjectionId) -> Self {
        DropObjectId { id }
    }
}

impl DropObjectId {
    /// The cell that names this object.
    pub fn cell(self) -> (id: GlobalProjectionId)
        ensures
            id == self.id,
    {
        self.id
    }
}

/// The call site through which a function was entered; `None` for an entry function.
///
/// A context holds at most one call site: a call replaces the caller's context
/// with its own site and never extends it.
#[derive(Clone, Copy, Debug, PartialEq, Eq, Hash, Structural)]
pub struct CallerContext {
    pub g_bb_id: Option<GlobalBasicBlockId>,
}

impl CallerContext {
    pub fn new(g_bb_id: Option<GlobalBasicBlockId>) -> (context: Self)
        ensures
            context == (CallerContext { g_bb_id }),
    {
        CallerContext { g_bb_id }
    }

    pub fn is_same(&self, other: &CallerContext) -> (same: bool)
        ensures
            same == (*self == *other),
    {
        *self == *other
    }
}

/// A function together with the context it was entered in.
#[derive(Clone, Copy, Debug, PartialEq, Eq, Hash, Structural)]
pub struct CtxtSenCallId {
    pub def_id: DefId,
    pub caller_context: CallerContext,
}

impl CtxtSenCallId {
    pub fn new(def_id: DefId, caller_context: CallerContext) -> (id: Self)
        ensures
            id == (CtxtSenCallId { def_id, caller_context }),
    {
        CtxtSenCallId { def_id, caller_context }
    }
}

/// A source location inside a basic block, with the context it was seen in.
#[derive(Clone, Copy, Debug, PartialEq, Eq, Hash, Structural)]
pub struct CtxtSenSpanInfo {
    pub def_id: DefId,
    pub basic_block_id: BasicBlockId,
    pub span: Span,
    pub caller_context: CallerContext,
}

impl CtxtSenSpanInfo {
    pub fn new(
        def_id: DefId,
        basic_block_id: BasicBlockId,
        span: Span,
        caller_context: CallerContext,
    ) -> (info: Self)
        ensures
            info == (CtxtSenSpanInfo { def_id, basic_block_id, span, caller_context }),
    {
        CtxtSenSpanInfo { def_id, basic_block_id, span, caller_context }
    }

    /// The block this location lies in.
    pub open spec fn block(self) -> GlobalBasicBlockId {
        GlobalBasicBlockId { def_id: self.def_id, bb_id: self.basic_block_id }
    }
}

/// A source location inside a basic block.
#[derive(Clone, Copy, Debug, PartialEq, Eq, Hash, Structural)]
pub struct SpanInfo {
    pub def_id: DefId,
    pub basic_block_id: BasicBlockId,
    pub span: Span,
}

impl SpanInfo {
    pub fn new(def_id: DefId, basic_block_id: BasicBlockId, span: Span) -> (info: Self)
        ensures
            info == (SpanInfo { def_id, basic_block_id, span }),
    {
        SpanInfo { def_id, basic_block_id, span }
    }

    /// The same location, seen from an entry function.
    pub fn into_ctxt_sen(self) -> (info: CtxtSenSpanInfo)
        ensures
            info == (CtxtSenSpanInfo {
                def_id: self.def_id,
                basic_block_id: self.basic_block_id,
                span: self.span,
                caller_context: CallerContext { g_bb_id: None },
            }),
    {
        CtxtSenSpanInfo::new(self.def_id, self.basic_block_id, self.span, CallerContext::new(None))
    }
}

impl From<CtxtSenSpanInfo> for SpanInfo {
    fn from(info: CtxtSenSpanInfo) -> (plain: Self) {
        SpanInfo { def_id: info.def_id, basic_block_id: info.basic_block_id, span: info.span }
    }
}

impl FromSpecImpl<CtxtSenSpanInfo> for SpanInfo {
    open spec fn obeys_from_spec() -> bool {
        true
    }

    open spec fn from_spec(info: CtxtSenSpanInfo) -> Self {
        SpanInfo { def_id: info.def_id, basic_block_id: info.basic_block_id, span: info.span }
    }
}

} // verus!
