//! The control-flow graph of one function, and the table of the functions
//! that an analysis run knows.

use vstd::prelude::*;
use crate::ids::{BasicBlockId, DefId, LocalId};
use crate::ids::Span;
use crate::ir::{
    copy_operands, AssignmentInfo, AssignmentInfoView, BasicBlockData, BasicBlockInfo, Body,
    CallInfo, CallInfoView, LocalDecl, LocalInfo, OpKind, Operand, Place, PlaceView, RvalKind,
    RvalKindView, Rvalue, Statement, StatementKind, Terminator, TerminatorKind, TyKind,
    VarDebugInfo,
};

verus! {

/// The control-flow graph of one function.
#[derive(Debug)]
pub struct ControlFlowGraph {
    pub def_id: DefId,
    /// The storage slots; a slot's `LocalId` is its position here.
    pub local_infos: Vec<LocalInfo>,
    /// The basic blocks; a block's `BasicBlockId` is its position here.
    pub basic_block_infos: Vec<BasicBlockInfo>,
    /// The call effects, in the order of their blocks.
    pub call_infos: Vec<CallInfo>,
    pub has_ret: bool,
}

impl ControlFlowGraph {
    /// Whether `local` is a storage slot of the function.
    pub open spec fn has_local(&self, local: LocalId) -> bool {
        local < self.local_infos@.len()
    }

    /// Whether the operand reads a storage slot of the function, if it reads one.
    pub open spec fn operand_ok(&self, operand: &Operand) -> bool {
        match operand {
            Operand::Copy(place) | Operand::Move(place) => self.has_local(place.local),
            Operand::Constant => true,
        }
    }

    /// Whether the assignment is between storage slots of the function.
    pub open spec fn assignment_ok(&self, assignment: &AssignmentInfo) -> bool {
        &&& self.has_local(assignment.lvalue.local)
        &&& assignment.rvalue matches RvalKind::Addressed(place) ==> self.has_local(place.local)
    }

    /// Whether the block names blocks and storage slots of the function only.
    pub open spec fn block_ok(&self, block: &BasicBlockInfo) -> bool {
        &&& forall|k: int|
            0 <= k < block.successors@.len() ==> (#[trigger] block.successors@[k])
                < self.basic_block_infos@.len()
        &&& forall|a: int|
            0 <= a < block.assignment_infos@.len() ==> self.assignment_ok(
                #[trigger] &block.assignment_infos@[a],
            )
        &&& block.terminator.kind matches TerminatorKind::Drop { place, .. } ==> self.has_local(
            place.local,
        )
    }

    /// Whether the call stands in a block of the function and reads and
    /// writes storage slots of the function only.
    pub open spec fn call_ok(&self, call_info: &CallInfo) -> bool {
        &&& call_info.caller_bb_id < self.basic_block_infos@.len()
        &&& self.has_local(call_info.destination.local)
        &&& forall|k: int|
            0 <= k < call_info.args@.len() ==> self.operand_ok(#[trigger] &call_info.args@[k])
    }

    /// Whether no block of the function ends in a destructor invocation.
    pub open spec fn has_no_destructor(&self) -> bool {
        forall|b: int|
            0 <= b < self.basic_block_infos@.len() ==> !((
            #[trigger] self.basic_block_infos@[b]).terminator.kind is Drop)
    }

    /// Whether no storage slot of the function is flagged as in need of a
    /// destructor.
    pub open spec fn has_no_destructor_flag(&self) -> bool {
        forall|l: int| 0 <= l < self.local_infos@.len() ==> !(#[trigger] self.local_infos@[l]).need_drop
    }

    /// Whether every destructor invocation of the function is on a place of
    /// a storage slot that is flagged as in need of one, as a front end
    /// leaves it.
    pub open spec fn destructs_flagged_slots(&self) -> bool {
        forall|b: int|
            0 <= b < self.basic_block_infos@.len() ==> ((
            #[trigger] self.basic_block_infos@[b]).terminator.kind matches TerminatorKind::Drop {
                place,
                ..
            } ==> place.local < self.local_infos@.len()
                && self.local_infos@[place.local as int].need_drop)
    }

    /// A function without a flagged storage slot destructs nothing.
    pub proof fn lemma_no_flag_no_destructor(&self)
        requires
            self.has_no_destructor_flag(),
            self.destructs_flagged_slots(),
        ensures
            self.has_no_destructor(),
    {
        assert forall|b: int| 0 <= b < self.basic_block_infos@.len() implies !((
        #[trigger] self.basic_block_infos@[b]).terminator.kind is Drop) by {
            if self.basic_block_infos@[b].terminator.kind is Drop {
                let local = self.basic_block_infos@[b].terminator.kind->Drop_place.local;
                assert(self.local_infos@[local as int].need_drop);
            }
        }
    }

    /// The graph has a first block, and its blocks and calls name blocks and
    /// storage slots of the function only.
    pub open spec fn wf(&self) -> bool {
        &&& self.basic_block_infos@.len() > 0
        &&& forall|b: int|
            0 <= b < self.basic_block_infos@.len() ==> self.block_ok(
                #[trigger] &self.basic_block_infos@[b],
            )
        &&& forall|c: int|
            0 <= c < self.call_infos@.len() ==> self.call_ok(#[trigger] &self.call_infos@[c])
    }
}

/// What the front end knows of one function.
#[derive(Debug)]
pub struct FunctionInfo {
    /// The segments of the function's path, outermost first.
    pub def_path: Vec<String>,
    /// The control-flow graph, where the front end can produce one.
    pub cfg: Option<ControlFlowGraph>,
}

/// The functions that an analysis run knows. A function's `DefId` is its
/// position in the table. The graph of a function takes part in the analysis
/// once the function is registered: from the start for the functions of the
/// analysed crate, and for another function when a call to it is reached.
#[derive(Debug)]
pub struct CfgTable {
    pub functions: Vec<FunctionInfo>,
    /// For every function, whether it is registered.
    pub registered: Vec<bool>,
}

/// Whether the graph of `def_id` takes part in the analysis.
pub open spec fn has_cfg(functions: Seq<FunctionInfo>, registered: Seq<bool>, def_id: DefId) -> bool {
    def_id < functions.len() && def_id < registered.len() && registered[def_id as int]
        && functions[def_id as int].cfg is Some
}

/// Whether the call is to a function of the table that, where it has a graph,
/// has a storage slot for its result and one for each argument of the call.
pub open spec fn call_target_ok(functions: Seq<FunctionInfo>, call_info: &CallInfo) -> bool {
    &&& call_info.callee_def_id < functions.len()
    &&& functions[call_info.callee_def_id as int].cfg matches Some(callee) ==> call_info.args@.len()
        < callee.local_infos@.len()
}

/// Every graph is sound in itself, stands at the place of its function, and
/// calls functions of the table only, with no more arguments than they take.
pub open spec fn functions_wf(functions: Seq<FunctionInfo>) -> bool {
    forall|d: int|
        0 <= d < functions.len() && (#[trigger] functions[d]).cfg is Some ==> {
            let cfg = functions[d].cfg->0;
            &&& cfg.wf()
            &&& cfg.def_id == d
            &&& forall|c: int|
                0 <= c < cfg.call_infos@.len() ==> call_target_ok(
                    functions,
                    #[trigger] &cfg.call_infos@[c],
                )
        }
}

impl CfgTable {
    /// Whether the graph of `def_id` takes part in the analysis.
    pub open spec fn has(&self, def_id: DefId) -> bool {
        has_cfg(self.functions@, self.registered@, def_id)
    }

    /// The graph of `def_id`.
    pub open spec fn cfg(&self, def_id: DefId) -> ControlFlowGraph {
        self.functions@[def_id as int].cfg->0
    }

    /// The functions are sound, and every function is registered or not.
    pub open spec fn wf(&self) -> bool {
        functions_wf(self.functions@) && self.registered@.len() == self.functions@.len()
    }

    pub fn contains_key(&self, def_id: DefId) -> (found: bool)
        ensures
            found == self.has(def_id),
    {
        def_id < self.functions.len() && def_id < self.registered.len() && self.registered[def_id]
            && self.functions[def_id].cfg.is_some()
    }

    pub fn get(&self, def_id: DefId) -> (cfg: &ControlFlowGraph)
        requires
            self.has(def_id),
        ensures
            *cfg == self.cfg(def_id),
    {
        self.functions[def_id].cfg.as_ref().unwrap()
    }
}


impl ControlFlowGraph {
    /// Whether the operand reads a storage slot of the function, if it reads one.
    fn check_operand(&self, operand: &Operand) -> (ok: bool)
        ensures
            ok == self.operand_ok(operand),
    {
        match operand {
            Operand::Copy(place) => place.local < self.local_infos.len(),
            Operand::Move(place) => place.local < self.local_infos.len(),
            Operand::Constant => true,
        }
    }

    /// Whether the block names blocks and storage slots of the function only.
    fn check_block(&self, block: &BasicBlockInfo) -> (ok: bool)
        ensures
            ok == self.block_ok(block),
    {
        let mut k: usize = 0;
        while k < block.successors.len()
            invariant
                k <= block.successors.len(),
                forall|j: int|
                    0 <= j < k ==> (#[trigger] block.successors@[j]) < self.basic_block_infos@.len(),
            decreases block.successors.len() - k,
        {
            if block.successors[k] >= self.basic_block_infos.len() {
                return false;
            }
            k = k + 1;
        }
        let mut a: usize = 0;
        while a < block.assignment_infos.len()
            invariant
                a <= block.assignment_infos.len(),
                forall|j: int|
                    0 <= j < a ==> self.assignment_ok(#[trigger] &block.assignment_infos@[j]),
            decreases block.assignment_infos.len() - a,
        {
            let assignment = &block.assignment_infos[a];
            if assignment.lvalue.local >= self.local_infos.len() {
                assert(!self.assignment_ok(&block.assignment_infos@[a as int]));
                return false;
            }
            if let RvalKind::Addressed(place) = &assignment.rvalue {
                if place.local >= self.local_infos.len() {
                    assert(!self.assignment_ok(&block.assignment_infos@[a as int]));
                    return false;
                }
            }
            a = a + 1;
        }
        match &block.terminator.kind {
            TerminatorKind::Drop { place, .. } => place.local < self.local_infos.len(),
            _ => true,
        }
    }

    /// Whether the call stands in a block of the function and reads and
    /// writes storage slots of the function only.
    fn check_call(&self, call_info: &CallInfo) -> (ok: bool)
        ensures
            ok == self.call_ok(call_info),
    {
        if call_info.caller_bb_id >= self.basic_block_infos.len() {
            return false;
        }
        if call_info.destination.local >= self.local_infos.len() {
            return false;
        }
        let mut k: usize = 0;
        while k < call_info.args.len()
            invariant
                k <= call_info.args.len(),
                forall|j: int| 0 <= j < k ==> self.operand_ok(#[trigger] &call_info.args@[j]),
            decreases call_info.args.len() - k,
        {
            if !self.check_operand(&call_info.args[k]) {
                return false;
            }
            k = k + 1;
        }
        true
    }

    /// Whether the graph is sound in itself.
    pub fn check_wf(&self) -> (ok: bool)
        ensures
            ok == self.wf(),
    {
        if self.basic_block_infos.len() == 0 {
            return false;
        }
        let mut b: usize = 0;
        while b < self.basic_block_infos.len()
            invariant
                b <= self.basic_block_infos.len(),
                forall|j: int| 0 <= j < b ==> self.block_ok(#[trigger] &self.basic_block_infos@[j]),
            decreases self.basic_block_infos.len() - b,
        {
            if !self.check_block(&self.basic_block_infos[b]) {
                return false;
            }
            b = b + 1;
        }
        let mut c: usize = 0;
        while c < self.call_infos.len()
            invariant
                c <= self.call_infos.len(),
                forall|j: int| 0 <= j < c ==> self.call_ok(#[trigger] &self.call_infos@[j]),
            decreases self.call_infos.len() - c,
        {
            if !self.check_call(&self.call_infos[c]) {
                return false;
            }
            c = c + 1;
        }
        true
    }
}

impl CfgTable {
    /// Whether the calls of `cfg` are to functions of the table that take as
    /// many arguments.
    fn check_targets(&self, cfg: &ControlFlowGraph) -> (ok: bool)
        ensures
            ok == forall|c: int|
                0 <= c < cfg.call_infos@.len() ==> call_target_ok(
                    self.functions@,
                    #[trigger] &cfg.call_infos@[c],
                ),
    {
        let mut c: usize = 0;
        while c < cfg.call_infos.len()
            invariant
                c <= cfg.call_infos.len(),
                forall|j: int|
                    0 <= j < c ==> call_target_ok(self.functions@, #[trigger] &cfg.call_infos@[j]),
            decreases cfg.call_infos.len() - c,
        {
            let call_info = &cfg.call_infos[c];
            if call_info.callee_def_id >= self.functions.len() {
                assert(!call_target_ok(self.functions@, &cfg.call_infos@[c as int]));
                return false;
            }
            if let Some(callee) = &self.functions[call_info.callee_def_id].cfg {
                if call_info.args.len() >= callee.local_infos.len() {
                    assert(!call_target_ok(self.functions@, &cfg.call_infos@[c as int]));
                    return false;
                }
            }
            c = c + 1;
        }
        true
    }

    /// Whether the table is sound: what every function of the analysis asks
    /// of the table it is given.
    pub fn check_wf(&self) -> (ok: bool)
        ensures
            ok == self.wf(),
    {
        if self.registered.len() != self.functions.len() {
            return false;
        }
        let mut d: usize = 0;
        while d < self.functions.len()
            invariant
                d <= self.functions.len(),
                forall|j: int|
                    0 <= j < d && (#[trigger] self.functions@[j]).cfg is Some ==> {
                        let cfg = self.functions@[j].cfg->0;
                        &&& cfg.wf()
                        &&& cfg.def_id == j
                        &&& forall|c: int|
                            0 <= c < cfg.call_infos@.len() ==> call_target_ok(
                                self.functions@,
                                #[trigger] &cfg.call_infos@[c],
                            )
                    },
            decreases self.functions.len() - d,
        {
            if let Some(cfg) = &self.functions[d].cfg {
                if !cfg.check_wf() || cfg.def_id != d || !self.check_targets(cfg) {
                    assert(!functions_wf(self.functions@)) by {
                        assert(self.functions@[d as int].cfg is Some);
                    }
                    return false;
                }
            }
            d = d + 1;
        }
        true
    }
}


/// The blocks that one of the two optional edges names, the first before the second.
pub open spec fn both(first: Option<BasicBlockId>, second: Option<BasicBlockId>) -> Seq<BasicBlockId> {
    (match first {
        Some(block) => seq![block],
        None => Seq::empty(),
    }) + (match second {
        Some(block) => seq![block],
        None => Seq::empty(),
    })
}

/// The blocks that control can go to from a block that ends in `kind`, in the
/// order in which the instruction names them.
pub open spec fn successors_of(kind: &TerminatorKind) -> Seq<BasicBlockId> {
    match kind {
        TerminatorKind::Goto { target } => seq![*target],
        TerminatorKind::SwitchInt { targets, otherwise } => targets@.push(*otherwise),
        TerminatorKind::Resume
        | TerminatorKind::Return
        | TerminatorKind::Abort
        | TerminatorKind::GeneratorDrop
        | TerminatorKind::Unreachable => Seq::empty(),
        TerminatorKind::Drop { target, unwind, .. } => both(Some(*target), *unwind),
        TerminatorKind::DropAndReplace { target, unwind, .. } => both(Some(*target), *unwind),
        TerminatorKind::Call { target, cleanup, .. } => both(*target, *cleanup),
        TerminatorKind::Assert { target, cleanup } => both(Some(*target), *cleanup),
        TerminatorKind::Yield { resume, drop } => both(Some(*resume), *drop),
        TerminatorKind::FalseEdge { real_target } => seq![*real_target],
        TerminatorKind::FalseUnwind { real_target } => seq![*real_target],
        TerminatorKind::InlineAsm { destination, cleanup } => both(*destination, *cleanup),
    }
}

/// Puts `block` behind `blocks` unless it is among them.
fn insert_block(blocks: &mut Vec<BasicBlockId>, block: BasicBlockId)
    requires
        old(blocks)@.no_duplicates(),
    ensures
        final(blocks)@.no_duplicates(),
        final(blocks)@.to_set() == old(blocks)@.to_set().insert(block),
{
    let mut i: usize = 0;
    while i < blocks.len()
        invariant
            i <= blocks.len(),
            blocks@ == old(blocks)@,
            blocks@.no_duplicates(),
            forall|j: int| 0 <= j < i ==> blocks@[j] != block,
        decreases blocks.len() - i,
    {
        if blocks[i] == block {
            assert(blocks@.contains(block));
            assert(blocks@.to_set() =~= blocks@.to_set().insert(block));
            return ;
        }
        i = i + 1;
    }
    blocks.push(block);
    proof {
        crate::reach::lemma_push_to_set(old(blocks)@, block);
    }
}

/// Puts the block behind `blocks`, if there is one, unless it is among them.
fn insert_optional(blocks: &mut Vec<BasicBlockId>, block: &Option<BasicBlockId>)
    requires
        old(blocks)@.no_duplicates(),
    ensures
        final(blocks)@.no_duplicates(),
        final(blocks)@.to_set() == old(blocks)@.to_set().union(both(*block, None).to_set()),
{
    match block {
        Some(block) => {
            insert_block(blocks, *block);
            assert(seq![*block].to_set() =~= set![*block]) by {
                assert(seq![*block][0] == *block);
            }
            assert(both(Some(*block), None) =~= seq![*block]);
            assert(old(blocks)@.to_set().insert(*block) =~= old(blocks)@.to_set().union(
                set![*block],
            ));
        },
        None => {
            assert(both(None, None) =~= Seq::<BasicBlockId>::empty());
            assert(Seq::<BasicBlockId>::empty().to_set() =~= Set::<BasicBlockId>::empty());
            assert(blocks@.to_set().union(Set::<BasicBlockId>::empty()) =~= blocks@.to_set());
        },
    }
}

/// The blocks of two optional edges, each once.
fn successors_of_both(first: &Option<BasicBlockId>, second: &Option<BasicBlockId>) -> (blocks: Vec<
    BasicBlockId,
>)
    ensures
        blocks@.no_duplicates(),
        blocks@.to_set() == both(*first, *second).to_set(),
{
    let mut blocks: Vec<BasicBlockId> = Vec::new();
    assert(blocks@.to_set() =~= Set::<BasicBlockId>::empty());
    insert_optional(&mut blocks, first);
    insert_optional(&mut blocks, second);
    proof {
        let a = both(*first, None);
        let b = both(*second, None);
        assert(both(*first, *second) =~= a + b);
        vstd::seq_lib::seq_to_set_distributes_over_add(a, b);
        assert(Set::<BasicBlockId>::empty().union(a.to_set()).union(b.to_set()) =~= a.to_set().union(
            b.to_set(),
        ));
    }
    blocks
}

/// The blocks that control can go to from a block that ends in `kind`, each once.
pub fn get_basic_block_successors(terminator_kind: &TerminatorKind) -> (successors: Vec<BasicBlockId>)
    ensures
        successors@.no_duplicates(),
        successors@.to_set() == successors_of(terminator_kind).to_set(),
{
    match terminator_kind {
        TerminatorKind::Goto { target } => successors_of_both(&Some(*target), &None),
        TerminatorKind::SwitchInt { targets, otherwise } => {
            let mut successors: Vec<BasicBlockId> = Vec::new();
            assert(successors@.to_set() =~= targets@.take(0).to_set());
            let mut i: usize = 0;
            while i < targets.len()
                invariant
                    i <= targets.len(),
                    successors@.no_duplicates(),
                    successors@.to_set() == targets@.take(i as int).to_set(),
                decreases targets.len() - i,
            {
                insert_block(&mut successors, targets[i]);
                proof {
                    assert(targets@.take(i + 1) =~= targets@.take(i as int).push(targets@[i as int]));
                    crate::reach::lemma_push_to_set(targets@.take(i as int), targets@[i as int]);
                }
                i = i + 1;
            }
            assert(targets@.take(targets@.len() as int) =~= targets@);
            insert_block(&mut successors, *otherwise);
            proof {
                crate::reach::lemma_push_to_set(targets@, *otherwise);
            }
            successors
        },
        TerminatorKind::Resume => successors_of_both(&None, &None),
        TerminatorKind::Return => successors_of_both(&None, &None),
        TerminatorKind::Abort => successors_of_both(&None, &None),
        TerminatorKind::GeneratorDrop => successors_of_both(&None, &None),
        TerminatorKind::Unreachable => successors_of_both(&None, &None),
        TerminatorKind::Drop { target, unwind, .. } => successors_of_both(&Some(*target), unwind),
        TerminatorKind::DropAndReplace { target, unwind, .. } => successors_of_both(
            &Some(*target),
            unwind,
        ),
        TerminatorKind::Call { target, cleanup, .. } => successors_of_both(target, cleanup),
        TerminatorKind::Assert { target, cleanup } => successors_of_both(&Some(*target), cleanup),
        TerminatorKind::Yield { resume, drop } => successors_of_both(&Some(*resume), drop),
        TerminatorKind::FalseEdge { real_target } => successors_of_both(&Some(*real_target), &None),
        TerminatorKind::FalseUnwind { real_target } => successors_of_both(
            &Some(*real_target),
            &None,
        ),
        TerminatorKind::InlineAsm { destination, cleanup } => successors_of_both(
            destination,
            cleanup,
        ),
    }
}

/// The assignment effect of writing the value of `operand` to `lvalue`: a
/// copy or a move of the place that the operand names, or the copy of a constant.
pub open spec fn operand_effect(lvalue: PlaceView, operand: &Operand, span: Span) -> AssignmentInfoView {
    match operand {
        Operand::Copy(place) => AssignmentInfoView {
            lvalue,
            rvalue: RvalKindView::Addressed(place@),
            stat_span: span,
            op: OpKind::Copy,
        },
        Operand::Move(place) => AssignmentInfoView {
            lvalue,
            rvalue: RvalKindView::Addressed(place@),
            stat_span: span,
            op: OpKind::Move,
        },
        Operand::Constant => AssignmentInfoView {
            lvalue,
            rvalue: RvalKindView::Constant,
            stat_span: span,
            op: OpKind::Copy,
        },
    }
}

/// The assignment effect of writing to `lvalue` what is made of `place` in the way `op`.
pub open spec fn place_effect(lvalue: PlaceView, place: &Place, span: Span, op: OpKind) -> AssignmentInfoView {
    AssignmentInfoView { lvalue, rvalue: RvalKindView::Addressed(place@), stat_span: span, op }
}

/// The assignment effects of the assignment of `rvalue` to `lvalue`. A use, a
/// repetition, a cast or the filling of a box has the effect of its operand; a
/// reference and a raw address have the effect of their kind on their place;
/// reading a discriminant counts as a move; an aggregate has one effect for
/// each of its operands; every other right-hand side has none.
pub open spec fn effects_of(lvalue: PlaceView, rvalue: &Rvalue, span: Span) -> Seq<AssignmentInfoView> {
    match rvalue {
        Rvalue::Use(operand) => seq![operand_effect(lvalue, operand, span)],
        Rvalue::Repeat(operand) => seq![operand_effect(lvalue, operand, span)],
        Rvalue::Cast(operand) => seq![operand_effect(lvalue, operand, span)],
        Rvalue::ShallowInitBox(operand) => seq![operand_effect(lvalue, operand, span)],
        Rvalue::Ref(place) => seq![place_effect(lvalue, place, span, OpKind::Ref)],
        Rvalue::AddressOf(place) => seq![place_effect(lvalue, place, span, OpKind::AddressOf)],
        Rvalue::Discriminant(place) => seq![place_effect(lvalue, place, span, OpKind::Move)],
        Rvalue::Aggregate(operands) => operands@.map_values(
            |operand: Operand| operand_effect(lvalue, &operand, span),
        ),
        Rvalue::ThreadLocalRef
        | Rvalue::Len(_)
        | Rvalue::BinaryOp
        | Rvalue::CheckedBinaryOp
        | Rvalue::NullaryOp
        | Rvalue::UnaryOp => Seq::empty(),
    }
}

/// The assignment effects as mathematical values.
pub open spec fn effects_view(infos: Seq<AssignmentInfo>) -> Seq<AssignmentInfoView> {
    infos.map_values(|info: AssignmentInfo| info@)
}

/// The assignment effect of writing the value of `operand` to `lvalue`.
fn operand_assignment(lvalue: &Place, operand: &Operand, span: Span) -> (info: AssignmentInfo)
    ensures
        info@ == operand_effect(lvalue@, operand, span),
{
    match operand {
        Operand::Copy(place) => AssignmentInfo::new(
            lvalue.duplicate(),
            RvalKind::Addressed(place.duplicate()),
            span,
            OpKind::Copy,
        ),
        Operand::Move(place) => AssignmentInfo::new(
            lvalue.duplicate(),
            RvalKind::Addressed(place.duplicate()),
            span,
            OpKind::Move,
        ),
        Operand::Constant => AssignmentInfo::new(
            lvalue.duplicate(),
            RvalKind::Constant,
            span,
            OpKind::Copy,
        ),
    }
}

/// The one assignment effect `info`.
fn single(info: AssignmentInfo) -> (infos: Vec<AssignmentInfo>)
    ensures
        effects_view(infos@) == seq![info@],
{
    let mut infos: Vec<AssignmentInfo> = Vec::new();
    infos.push(info);
    assert(effects_view(infos@) =~= seq![info@]);
    infos
}

/// The assignment effects of the assignment of `rvalue` to `lvalue` at `span`.
pub fn get_assignment_infos(lvalue: &Place, rvalue: &Rvalue, span: Span) -> (infos: Vec<
    AssignmentInfo,
>)
    ensures
        effects_view(infos@) == effects_of(lvalue@, rvalue, span),
{
    match rvalue {
        Rvalue::Use(operand) => single(operand_assignment(lvalue, operand, span)),
        Rvalue::Repeat(operand) => single(operand_assignment(lvalue, operand, span)),
        Rvalue::Cast(operand) => single(operand_assignment(lvalue, operand, span)),
        Rvalue::ShallowInitBox(operand) => single(operand_assignment(lvalue, operand, span)),
        Rvalue::Ref(place) => single(
            AssignmentInfo::new(
                lvalue.duplicate(),
                RvalKind::Addressed(place.duplicate()),
                span,
                OpKind::Ref,
            ),
        ),
        Rvalue::AddressOf(place) => single(
            AssignmentInfo::new(
                lvalue.duplicate(),
                RvalKind::Addressed(place.duplicate()),
                span,
                OpKind::AddressOf,
            ),
        ),
        Rvalue::Discriminant(place) => single(
            AssignmentInfo::new(
                lvalue.duplicate(),
                RvalKind::Addressed(place.duplicate()),
                span,
                OpKind::Move,
            ),
        ),
        Rvalue::Aggregate(operands) => {
            let mut infos: Vec<AssignmentInfo> = Vec::new();
            let ghost wanted = operands@.map_values(
                |operand: Operand| operand_effect(lvalue@, &operand, span),
            );
            let mut i: usize = 0;
            while i < operands.len()
                invariant
                    i <= operands.len(),
                    wanted == operands@.map_values(
                        |operand: Operand| operand_effect(lvalue@, &operand, span),
                    ),
                    effects_view(infos@) == wanted.take(i as int),
                decreases operands.len() - i,
            {
                let info = operand_assignment(lvalue, &operands[i], span);
                let ghost before = effects_view(infos@);
                infos.push(info);
                assert(effects_view(infos@) =~= before.push(info@));
                assert(wanted.take(i + 1) =~= wanted.take(i as int).push(wanted[i as int]));
                i = i + 1;
            }
            assert(wanted.take(wanted.len() as int) =~= wanted);
            infos
        },
        _ => {
            let infos: Vec<AssignmentInfo> = Vec::new();
            assert(effects_view(infos@) =~= Seq::<AssignmentInfoView>::empty());
            infos
        },
    }
}


/// The name that the first `n` entries give to the variable in slot `local`:
/// that of the last entry for the slot, if there is one.
pub open spec fn var_name_of(infos: Seq<VarDebugInfo>, n: int, local: LocalId) -> Option<Seq<char>>
    decreases n,
{
    if n <= 0 {
        None
    } else if infos[n - 1].local == Some(local) {
        Some(infos[n - 1].name@)
    } else {
        var_name_of(infos, n - 1, local)
    }
}

/// The assignment effects of an instruction.
pub open spec fn statement_effects(statement: &Statement) -> Seq<AssignmentInfoView> {
    match statement.kind {
        StatementKind::Assign(lvalue, rvalue) => effects_of(lvalue@, &rvalue, statement.span),
        StatementKind::Other => Seq::empty(),
    }
}

/// The assignment effects of the first `n` instructions, in their order.
pub open spec fn block_effects(statements: Seq<Statement>, n: int) -> Seq<AssignmentInfoView>
    decreases n,
{
    if n <= 0 {
        Seq::empty()
    } else {
        block_effects(statements, n - 1) + statement_effects(&statements[n - 1])
    }
}

/// The call effect of block `bb` with the given last instruction: a call of a
/// function that is known by name has one.
pub open spec fn call_effect(bb: BasicBlockId, terminator: &Terminator) -> Option<CallInfoView> {
    match terminator.kind {
        TerminatorKind::Call { func, callee: Some(callee_def_id), args, destination, .. } => Some(
            CallInfoView {
                callee_def_id,
                caller_bb_id: bb,
                func: func@,
                args: crate::ir::operands_view(args@),
                destination: destination@,
                span: terminator.span,
            },
        ),
        _ => None,
    }
}

/// The call effects of the first `n` blocks, in their order.
pub open spec fn call_effects(blocks: Seq<BasicBlockData>, n: int) -> Seq<CallInfoView>
    decreases n,
{
    if n <= 0 {
        Seq::empty()
    } else {
        match call_effect((n - 1) as usize, &blocks[n - 1].terminator) {
            Some(call_info) => call_effects(blocks, n - 1).push(call_info),
            None => call_effects(blocks, n - 1),
        }
    }
}

/// The call effects as mathematical values.
pub open spec fn calls_view(call_infos: Seq<CallInfo>) -> Seq<CallInfoView> {
    call_infos.map_values(|call_info: CallInfo| call_info@)
}

/// The name of a variable, if it has one.
pub open spec fn name_of(info: &LocalInfo) -> Option<Seq<char>> {
    match info.var_name {
        Some(name) => Some(name@),
        None => None,
    }
}

impl ControlFlowGraph {
    /// Whether the graph is that of the body: a storage slot for every
    /// declaration, with the name that the debug entries give it; a block for
    /// every block of the body, with its successors, each once, the effects of
    /// its assignments and its last instruction; and the call effects of the
    /// blocks that end in a call of a function known by name.
    pub open spec fn is_graph_of(&self, def_id: DefId, body: &Body) -> bool {
        &&& self.def_id == def_id
        &&& self.has_ret == (body.local_decls@[0].ty != TyKind::Unit)
        &&& self.local_infos@.len() == body.local_decls@.len()
        &&& forall|l: int|
            0 <= l < self.local_infos@.len() ==> {
                let info = #[trigger] self.local_infos@[l];
                &&& info.id == l
                &&& info.need_drop == body.local_decls@[l].needs_drop
                &&& info.ty == body.local_decls@[l].ty
                &&& info.decl_span == body.local_decls@[l].span
                &&& name_of(&info) == var_name_of(
                    body.var_debug_info@,
                    body.var_debug_info@.len() as int,
                    l as usize,
                )
            }
        &&& self.basic_block_infos@.len() == body.basic_blocks@.len()
        &&& forall|b: int|
            0 <= b < self.basic_block_infos@.len() ==> {
                let block = #[trigger] self.basic_block_infos@[b];
                &&& block.id == b
                &&& block.is_cleanup == body.basic_blocks@[b].is_cleanup
                &&& block.terminator == body.basic_blocks@[b].terminator
                &&& block.successors@.no_duplicates()
                &&& block.successors@.to_set() == successors_of(
                    &body.basic_blocks@[b].terminator.kind,
                ).to_set()
                &&& effects_view(block.assignment_infos@) == block_effects(
                    body.basic_blocks@[b].statements@,
                    body.basic_blocks@[b].statements@.len() as int,
                )
            }
        &&& calls_view(self.call_infos@) == call_effects(
            body.basic_blocks@,
            body.basic_blocks@.len() as int,
        )
    }

    /// The storage slots of the declarations, without names.
    fn slots_of(local_decls: &Vec<LocalDecl>) -> (local_infos: Vec<LocalInfo>)
        ensures
            local_infos@.len() == local_decls@.len(),
            forall|l: int|
                0 <= l < local_infos@.len() ==> {
                    let info = #[trigger] local_infos@[l];
                    &&& info.id == l
                    &&& info.need_drop == local_decls@[l].needs_drop
                    &&& info.ty == local_decls@[l].ty
                    &&& info.decl_span == local_decls@[l].span
                    &&& info.var_name is None
                },
    {
        let mut local_infos: Vec<LocalInfo> = Vec::new();
        let mut l: usize = 0;
        while l < local_decls.len()
            invariant
                l <= local_decls.len(),
                local_infos@.len() == l,
                forall|k: int|
                    0 <= k < l ==> {
                        let info = #[trigger] local_infos@[k];
                        &&& info.id == k
                        &&& info.need_drop == local_decls@[k].needs_drop
                        &&& info.ty == local_decls@[k].ty
                        &&& info.decl_span == local_decls@[k].span
                        &&& info.var_name is None
                    },
            decreases local_decls.len() - l,
        {
            let decl = &local_decls[l];
            local_infos.push(LocalInfo::new(l, decl.needs_drop, decl.ty, None, decl.span));
            l = l + 1;
        }
        local_infos
    }

    /// Gives the storage slots the names of the debug entries.
    fn name_slots(local_infos: &mut Vec<LocalInfo>, var_debug_info: &Vec<VarDebugInfo>)
        requires
            forall|l: int| 0 <= l < old(local_infos)@.len() ==> (#[trigger] old(local_infos)@[l]).var_name is None,
        ensures
            final(local_infos)@.len() == old(local_infos)@.len(),
            forall|l: int|
                0 <= l < final(local_infos)@.len() ==> {
                    let info = #[trigger] final(local_infos)@[l];
                    &&& info.id == old(local_infos)@[l].id
                    &&& info.need_drop == old(local_infos)@[l].need_drop
                    &&& info.ty == old(local_infos)@[l].ty
                    &&& info.decl_span == old(local_infos)@[l].decl_span
                    &&& name_of(&info) == var_name_of(
                        var_debug_info@,
                        var_debug_info@.len() as int,
                        l as usize,
                    )
                },
    {
        let mut i: usize = 0;
        while i < var_debug_info.len()
            invariant
                i <= var_debug_info.len(),
                local_infos@.len() == old(local_infos)@.len(),
                forall|l: int|
                    0 <= l < local_infos@.len() ==> {
                        let info = #[trigger] local_infos@[l];
                        &&& info.id == old(local_infos)@[l].id
                        &&& info.need_drop == old(local_infos)@[l].need_drop
                        &&& info.ty == old(local_infos)@[l].ty
                        &&& info.decl_span == old(local_infos)@[l].decl_span
                        &&& name_of(&info) == var_name_of(var_debug_info@, i as int, l as usize)
                    },
            decreases var_debug_info.len() - i,
        {
            let info = &var_debug_info[i];
            if let Some(local) = info.local {
                if local < local_infos.len() {
                    local_infos[local].var_name = Some(info.name.clone());
                }
            }
            i = i + 1;
        }
    }

    /// The assignment effects of the instructions of a block.
    fn effects_of_block(statements: &Vec<Statement>) -> (infos: Vec<AssignmentInfo>)
        ensures
            effects_view(infos@) == block_effects(statements@, statements@.len() as int),
    {
        let mut infos: Vec<AssignmentInfo> = Vec::new();
        assert(effects_view(infos@) =~= Seq::<AssignmentInfoView>::empty());
        let mut i: usize = 0;
        while i < statements.len()
            invariant
                i <= statements.len(),
                effects_view(infos@) == block_effects(statements@, i as int),
            decreases statements.len() - i,
        {
            let statement = &statements[i];
            if let StatementKind::Assign(lvalue, rvalue) = &statement.kind {
                let mut more = get_assignment_infos(lvalue, rvalue, statement.span);
                let ghost before = effects_view(infos@);
                let ghost added = effects_view(more@);
                infos.append(&mut more);
                assert(effects_view(infos@) =~= before + added);
            } else {
                assert(effects_view(infos@) + Seq::<AssignmentInfoView>::empty() =~= effects_view(
                    infos@,
                ));
            }
            i = i + 1;
        }
        infos
    }

    /// The call effect of block `bb` with the given last instruction, if it has one.
    fn call_of(bb: BasicBlockId, terminator: &Terminator) -> (call_info: Option<CallInfo>)
        ensures
            match call_info {
                Some(call_info) => call_effect(bb, terminator) == Some(call_info@),
                None => call_effect(bb, terminator) is None,
            },
    {
        match &terminator.kind {
            TerminatorKind::Call { func, callee: Some(callee_def_id), args, destination, .. } => Some(
                CallInfo::new(
                    *callee_def_id,
                    bb,
                    func.duplicate(),
                    copy_operands(args),
                    destination.duplicate(),
                    terminator.span,
                ),
            ),
            _ => None,
        }
    }

    /// The graph of the function `def_id` with the given body.
    pub fn new(def_id: DefId, body: Body) -> (cfg: Self)
        requires
            body.local_decls@.len() > 0,
        ensures
            cfg.is_graph_of(def_id, &body),
    {
        let ghost whole = body;
        let Body { local_decls, var_debug_info, basic_blocks } = body;
        let has_ret = !local_decls[0].ty.is_unit();
        let mut local_infos = Self::slots_of(&local_decls);
        Self::name_slots(&mut local_infos, &var_debug_info);
        let mut call_infos: Vec<CallInfo> = Vec::new();
        let mut basic_block_infos: Vec<BasicBlockInfo> = Vec::new();
        let ghost blocks = basic_blocks@;
        assert(calls_view(call_infos@) =~= Seq::<CallInfoView>::empty());
        for block in it: basic_blocks
            invariant
                it.seq() == blocks,
                basic_block_infos@.len() == it.index(),
                calls_view(call_infos@) == call_effects(blocks, it.index() as int),
                forall|b: int|
                    0 <= b < basic_block_infos@.len() ==> {
                        let info = #[trigger] basic_block_infos@[b];
                        &&& info.id == b
                        &&& info.is_cleanup == blocks[b].is_cleanup
                        &&& info.terminator == blocks[b].terminator
                        &&& info.successors@.no_duplicates()
                        &&& info.successors@.to_set() == successors_of(
                            &blocks[b].terminator.kind,
                        ).to_set()
                        &&& effects_view(info.assignment_infos@) == block_effects(
                            blocks[b].statements@,
                            blocks[b].statements@.len() as int,
                        )
                    },
        {
            let bb: usize = basic_block_infos.len();
            if let Some(call_info) = Self::call_of(bb, &block.terminator) {
                let ghost before = calls_view(call_infos@);
                call_infos.push(call_info);
                assert(calls_view(call_infos@) =~= before.push(call_info@));
            }
            let successors = get_basic_block_successors(&block.terminator.kind);
            let assignment_infos = Self::effects_of_block(&block.statements);
            basic_block_infos.push(
                BasicBlockInfo::new(
                    bb,
                    block.is_cleanup,
                    successors,
                    assignment_infos,
                    block.terminator,
                ),
            );
        }
        Self { def_id, local_infos, basic_block_infos, call_infos, has_ret }
    }
}

} // verus!
