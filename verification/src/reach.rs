//! Which basic block can be reached from which: inside one function, along
//! the calls between functions, and across both.

use vstd::prelude::*;
use std::collections::HashSet;
use crate::cfg::{CfgTable, ControlFlowGraph};
use crate::ids::{BasicBlockId, DefId, GlobalBasicBlockId};

verus! {

broadcast use vstd::std_specs::hash::group_hash_axioms;

/// Whether the nodes of `walk`, of which there is at least one, follow each
/// other along edges.
pub open spec fn is_walk<A>(edge: spec_fn(A, A) -> bool, walk: Seq<A>) -> bool {
    walk.len() >= 1 && forall|i: int| 0 <= i < walk.len() - 1 ==> edge(#[trigger] walk[i], walk[i + 1])
}

/// Whether no node of `walk` but the last is in `visited`.
pub open spec fn avoids<A>(walk: Seq<A>, visited: Set<A>) -> bool {
    forall|i: int| 0 <= i < walk.len() - 1 ==> !visited.contains(#[trigger] walk[i])
}

/// Whether a walk leads from `from` to `to` that, before its end, keeps out of `visited`.
pub open spec fn reaches_avoiding<A>(
    edge: spec_fn(A, A) -> bool,
    visited: Set<A>,
    from: A,
    to: A,
) -> bool {
    exists|walk: Seq<A>|
        #![trigger is_walk(edge, walk)]
        is_walk(edge, walk) && walk[0] == from && walk.last() == to && avoids(walk, visited)
}

/// Whether a walk leads from `from` to `to`.
pub open spec fn reaches<A>(edge: spec_fn(A, A) -> bool, from: A, to: A) -> bool {
    reaches_avoiding(edge, Set::empty(), from, to)
}

/// Whether every edge out of a node of `explored` leads to a node other than
/// `to` that is in `all` or from which no walk leads to `to`.
pub open spec fn sealed<A>(edge: spec_fn(A, A) -> bool, explored: Set<A>, all: Set<A>, to: A) -> bool {
    forall|x: A, y: A|
        explored.contains(x) && #[trigger] edge(x, y) ==> y != to && (all.contains(y) || !reaches(
            edge,
            y,
            to,
        ))
}

/// The rest of a walk from position `k` on is a walk.
pub proof fn lemma_walk_suffix<A>(edge: spec_fn(A, A) -> bool, walk: Seq<A>, k: int)
    requires
        is_walk(edge, walk),
        0 <= k < walk.len(),
    ensures
        is_walk(edge, walk.skip(k)),
        walk.skip(k)[0] == walk[k],
        walk.skip(k).last() == walk.last(),
{
    let rest = walk.skip(k);
    assert forall|i: int| 0 <= i < rest.len() - 1 implies edge(#[trigger] rest[i], rest[i + 1]) by {
        assert(edge(walk[i + k], walk[i + k + 1]));
    }
}

/// A walk with one more node in front is a walk.
pub proof fn lemma_walk_prepend<A>(edge: spec_fn(A, A) -> bool, first: A, walk: Seq<A>)
    requires
        is_walk(edge, walk),
        edge(first, walk[0]),
    ensures
        is_walk(edge, seq![first] + walk),
        (seq![first] + walk)[0] == first,
        (seq![first] + walk).last() == walk.last(),
{
    let longer = seq![first] + walk;
    assert forall|i: int| 0 <= i < longer.len() - 1 implies edge(#[trigger] longer[i], longer[i + 1]) by {
        if i > 0 {
            assert(edge(walk[i - 1], walk[i]));
        }
    }
}

/// From a node that was explored without success no walk leads to `to` that
/// keeps out of what was visited before: the explored nodes are sealed in
/// themselves and what was visited.
pub proof fn lemma_sealed_is_dead<A>(
    edge: spec_fn(A, A) -> bool,
    explored: Set<A>,
    visited: Set<A>,
    to: A,
    x: A,
)
    requires
        sealed(edge, explored, explored.union(visited), to),
        !explored.contains(to),
        explored.contains(x),
    ensures
        !reaches_avoiding(edge, visited, x, to),
{
    if reaches_avoiding(edge, visited, x, to) {
        let walk = choose|walk: Seq<A>|
            #![trigger is_walk(edge, walk)]
            is_walk(edge, walk) && walk[0] == x && walk.last() == to && avoids(walk, visited);
        lemma_walk_stays_explored(edge, explored, visited, to, walk, walk.len() - 1);
    }
}

/// A walk to `to` that starts among sealed nodes and keeps out of what was
/// visited stays among them; so it cannot end in `to`.
proof fn lemma_walk_stays_explored<A>(
    edge: spec_fn(A, A) -> bool,
    explored: Set<A>,
    visited: Set<A>,
    to: A,
    walk: Seq<A>,
    k: int,
)
    requires
        sealed(edge, explored, explored.union(visited), to),
        is_walk(edge, walk),
        walk.last() == to,
        avoids(walk, visited),
        explored.contains(walk[0]),
        0 <= k < walk.len(),
    ensures
        explored.contains(walk[k]),
    decreases k,
{
    if k > 0 {
        lemma_walk_stays_explored(edge, explored, visited, to, walk, k - 1);
        assert(edge(walk[k - 1], walk[k]));
        let y = walk[k];
        if !reaches(edge, y, to) {
            lemma_walk_suffix(edge, walk, k);
            let rest = walk.skip(k);
            assert(avoids(rest, Set::empty()));
            assert(is_walk(edge, rest) && rest[0] == y && rest.last() == to);
        }
        assert(walk[k] != to);
        assert(k < walk.len() - 1);
    }
}

/// A walk from `from` is a walk that keeps out of `visited` if `from` is the
/// target, and none does if `from` is another node that was visited.
pub proof fn lemma_visited_start<A>(edge: spec_fn(A, A) -> bool, visited: Set<A>, from: A, to: A)
    ensures
        from == to ==> reaches_avoiding(edge, visited, from, to),
        from != to && visited.contains(from) ==> !reaches_avoiding(edge, visited, from, to),
{
    if from == to {
        let walk = seq![from];
        assert(is_walk(edge, walk) && walk[0] == from && walk.last() == to && avoids(walk, visited));
    }
    if from != to && visited.contains(from) {
        if reaches_avoiding(edge, visited, from, to) {
            let walk = choose|walk: Seq<A>|
                #![trigger is_walk(edge, walk)]
                is_walk(edge, walk) && walk[0] == from && walk.last() == to && avoids(walk, visited);
            assert(walk.len() > 1);
            assert(!visited.contains(walk[0]));
        }
    }
}

/// A walk that keeps out of more keeps out of less; and an edge in front of
/// it, from a node that was not visited, gives a walk that keeps out of less.
pub proof fn lemma_step_then_walk<A>(
    edge: spec_fn(A, A) -> bool,
    visited: Set<A>,
    later: Set<A>,
    from: A,
    next: A,
    to: A,
)
    requires
        visited.subset_of(later),
        !visited.contains(from),
        edge(from, next),
        reaches_avoiding(edge, later, next, to),
    ensures
        reaches_avoiding(edge, visited, from, to),
{
    let walk = choose|walk: Seq<A>|
        #![trigger is_walk(edge, walk)]
        is_walk(edge, walk) && walk[0] == next && walk.last() == to && avoids(walk, later);
    lemma_walk_prepend(edge, from, walk);
    let longer = seq![from] + walk;
    assert forall|i: int| 0 <= i < longer.len() - 1 implies !visited.contains(#[trigger] longer[i]) by {
        if i > 0 {
            assert(!later.contains(walk[i - 1]));
        }
    }
    assert(is_walk(edge, longer) && longer[0] == from && longer.last() == to && avoids(
        longer,
        visited,
    ));
}


/// What a search from `from` that did not find `to` leaves behind: `from` is
/// not `to`; the nodes it visited are sealed in what is visited now, and `to`
/// is none of them; and `from` is visited, or no walk leads from it to `to`.
pub open spec fn search_failed<A>(
    edge: spec_fn(A, A) -> bool,
    before: Set<A>,
    after: Set<A>,
    from: A,
    to: A,
) -> bool {
    &&& from != to
    &&& sealed(edge, after.difference(before), after, to)
    &&& !after.difference(before).contains(to)
    &&& after.contains(from) || !reaches(edge, from, to)
}

/// A search that failed has shown that no walk leads to `to` that keeps out of
/// what was visited before.
pub proof fn lemma_search_failed<A>(
    edge: spec_fn(A, A) -> bool,
    before: Set<A>,
    after: Set<A>,
    from: A,
    to: A,
)
    requires
        before.subset_of(after),
        search_failed(edge, before, after, from, to),
    ensures
        !reaches_avoiding(edge, before, from, to),
{
    if before.contains(from) {
        lemma_visited_start(edge, before, from, to);
    } else if after.contains(from) {
        let explored = after.difference(before);
        assert(explored.union(before) =~= after);
        lemma_sealed_is_dead(edge, explored, before, to, from);
    } else {
        if reaches_avoiding(edge, before, from, to) {
            let walk = choose|walk: Seq<A>|
                #![trigger is_walk(edge, walk)]
                is_walk(edge, walk) && walk[0] == from && walk.last() == to && avoids(walk, before);
            assert(avoids(walk, Set::empty()));
        }
    }
}

/// The nodes that two searches, one after the other, visited are sealed if
/// those of each are.
pub proof fn lemma_sealed_grows<A>(
    edge: spec_fn(A, A) -> bool,
    before: Set<A>,
    middle: Set<A>,
    after: Set<A>,
    kept_open: Set<A>,
    to: A,
)
    requires
        before.subset_of(middle),
        middle.subset_of(after),
        sealed(edge, middle.difference(before).difference(kept_open), middle, to),
        sealed(edge, after.difference(middle), after, to),
        !kept_open.intersect(after.difference(middle)).contains(to),
        forall|x: A| kept_open.contains(x) ==> middle.contains(x),
    ensures
        sealed(edge, after.difference(before).difference(kept_open), after, to),
{
    assert forall|x: A, y: A|
        after.difference(before).difference(kept_open).contains(x) && #[trigger] edge(
            x,
            y,
        ) implies y != to && (after.contains(y) || !reaches(edge, y, to)) by {
        if middle.contains(x) {
            assert(middle.difference(before).difference(kept_open).contains(x));
        } else {
            assert(after.difference(middle).contains(x));
        }
    }
}

/// The edges between the blocks of a function: from a block to its successors.
pub open spec fn block_edge(cfg: &ControlFlowGraph) -> spec_fn(BasicBlockId, BasicBlockId) -> bool {
    |x: BasicBlockId, y: BasicBlockId|
        x < cfg.basic_block_infos@.len() && cfg.basic_block_infos@[x as int].successors@.contains(y)
}

/// The blocks of a function.
pub open spec fn blocks_of(cfg: &ControlFlowGraph) -> Set<BasicBlockId> {
    Set::<usize>::range(0, cfg.basic_block_infos.len())
}

/// Visiting one more of finitely many nodes leaves fewer to visit, and
/// visiting more leaves no more.
pub proof fn lemma_fewer_unvisited<A>(all: Set<A>, before: Set<A>, after: Set<A>, x: A)
    requires
        all.finite(),
        before.subset_of(after),
    ensures
        all.difference(after).len() <= all.difference(before).len(),
        all.contains(x) && !before.contains(x) && after.contains(x) ==> all.difference(after).len()
            < all.difference(before).len(),
{
    vstd::set_lib::lemma_set_subset_finite(all, all.difference(before));
    vstd::set_lib::lemma_len_subset(all.difference(after), all.difference(before));
    if all.contains(x) && !before.contains(x) && after.contains(x) {
        all.difference(after).lemma_subset_not_in_lt(all.difference(before), x);
    }
}

/// Whether a walk along successor edges leads from block `from` to block `to`
/// that, before its end, keeps out of `visited`. The blocks that the search
/// comes to are added to `visited`.
pub fn can_inner_basic_block_arrive(
    cfg: &ControlFlowGraph,
    visited: &mut HashSet<BasicBlockId>,
    from: BasicBlockId,
    to: BasicBlockId,
) -> (arrives: bool)
    requires
        cfg.wf(),
        from != to && !old(visited)@.contains(from) ==> from < cfg.basic_block_infos@.len(),
    ensures
        arrives == reaches_avoiding(block_edge(cfg), old(visited)@, from, to),
        old(visited)@.subset_of(final(visited)@),
        !arrives ==> search_failed(block_edge(cfg), old(visited)@, final(visited)@, from, to),
    decreases blocks_of(cfg).difference(old(visited)@).len(),
{
    let ghost edge = block_edge(cfg);
    let ghost before = visited@;
    let ghost all = blocks_of(cfg);
    proof {
        lemma_visited_start(edge, before, from, to);
        <usize as vstd::set_lib::FiniteRange>::range_properties(0, cfg.basic_block_infos.len());
    }
    if from == to {
        return true;
    }
    if visited.contains(&from) {
        assert(visited@.difference(before) =~= Set::empty());
        return false;
    }
    assert(all.contains(from));
    visited.insert(from);
    proof {
        lemma_fewer_unvisited(all, before, visited@, from);
        assert(visited@.difference(before).remove(from) =~= Set::empty());
    }
    let successors = &cfg.basic_block_infos[from].successors;
    let mut k: usize = 0;
    while k < successors.len()
        invariant
            k <= successors.len(),
            cfg.wf(),
            from < cfg.basic_block_infos@.len(),
            *successors == cfg.basic_block_infos@[from as int].successors,
            edge == block_edge(cfg),
            all == blocks_of(cfg),
            all.finite(),
            before == old(visited)@,
            from != to,
            !before.contains(from),
            before.insert(from).subset_of(visited@),
            all.difference(visited@).len() < all.difference(before).len(),
            sealed(edge, visited@.difference(before).remove(from), visited@, to),
            !visited@.difference(before).contains(to),
            forall|j: int|
                0 <= j < k ==> (#[trigger] successors@[j]) != to && (visited@.contains(
                    successors@[j],
                ) || !reaches(edge, successors@[j], to)),
        decreases successors.len() - k,
    {
        let next = successors[k];
        let ghost middle = visited@;
        assert(next < cfg.basic_block_infos@.len());
        assert(edge(from, next));
        if can_inner_basic_block_arrive(cfg, visited, next, to) {
            proof {
                lemma_step_then_walk(edge, before, middle, from, next, to);
            }
            return true;
        }
        proof {
            lemma_fewer_unvisited(all, middle, visited@, from);
            assert(middle.difference(before).difference(set![from]) =~= middle.difference(
                before,
            ).remove(from));
            assert(visited@.difference(before).difference(set![from]) =~= visited@.difference(
                before,
            ).remove(from));
            lemma_sealed_grows(edge, before, middle, visited@, set![from], to);
        }
        k = k + 1;
    }
    proof {
        assert forall|x: BasicBlockId, y: BasicBlockId|
            visited@.difference(before).contains(x) && #[trigger] edge(x, y) implies y != to && (
        visited@.contains(y) || !reaches(edge, y, to)) by {
            if x == from {
                let j = choose|j: int| 0 <= j < successors@.len() && successors@[j] == y;
                assert(successors@[j] != to);
            } else {
                assert(visited@.difference(before).remove(from).contains(x));
            }
        }
        lemma_search_failed(edge, before, visited@, from, to);
    }
    false
}


/// The call edges between the functions whose graphs take part in the analysis.
pub open spec fn call_edge(cfgs: &CfgTable) -> spec_fn(DefId, DefId) -> bool {
    |f: DefId, g: DefId|
        cfgs.has(f) && cfgs.has(g) && exists|c: int|
            0 <= c < cfgs.cfg(f).call_infos@.len() && (#[trigger] cfgs.cfg(f).call_infos@[c]).callee_def_id
                == g
}

/// The functions of a table.
pub open spec fn functions_of(cfgs: &CfgTable) -> Set<DefId> {
    Set::<usize>::range(0, cfgs.functions.len())
}

/// Whether a chain of calls leads from function `from` to function `to` that,
/// before its end, keeps out of `visited`. The functions that the search comes
/// to are added to `visited`.
pub fn can_call_arrive(cfgs: &CfgTable, visited: &mut HashSet<DefId>, from: DefId, to: DefId) -> (arrives:
    bool)
    requires
        cfgs.wf(),
        from != to && !old(visited)@.contains(from) ==> cfgs.has(from),
    ensures
        arrives == reaches_avoiding(call_edge(cfgs), old(visited)@, from, to),
        old(visited)@.subset_of(final(visited)@),
        !arrives ==> search_failed(call_edge(cfgs), old(visited)@, final(visited)@, from, to),
    decreases functions_of(cfgs).difference(old(visited)@).len(),
{
    let ghost edge = call_edge(cfgs);
    let ghost before = visited@;
    let ghost all = functions_of(cfgs);
    proof {
        lemma_visited_start(edge, before, from, to);
        <usize as vstd::set_lib::FiniteRange>::range_properties(0, cfgs.functions.len());
    }
    if from == to {
        return true;
    }
    if visited.contains(&from) {
        assert(visited@.difference(before) =~= Set::empty());
        return false;
    }
    assert(all.contains(from));
    visited.insert(from);
    proof {
        lemma_fewer_unvisited(all, before, visited@, from);
        assert(visited@.difference(before).remove(from) =~= Set::empty());
    }
    let from_cfg = cfgs.get(from);
    let mut c: usize = 0;
    while c < from_cfg.call_infos.len()
        invariant
            c <= from_cfg.call_infos.len(),
            cfgs.wf(),
            cfgs.has(from),
            *from_cfg == cfgs.cfg(from),
            edge == call_edge(cfgs),
            all == functions_of(cfgs),
            all.finite(),
            before == old(visited)@,
            from != to,
            !before.contains(from),
            before.insert(from).subset_of(visited@),
            all.difference(visited@).len() < all.difference(before).len(),
            sealed(edge, visited@.difference(before).remove(from), visited@, to),
            !visited@.difference(before).contains(to),
            forall|j: int|
                0 <= j < c && cfgs.has((#[trigger] from_cfg.call_infos@[j]).callee_def_id)
                    ==> from_cfg.call_infos@[j].callee_def_id != to && (visited@.contains(
                    from_cfg.call_infos@[j].callee_def_id,
                ) || !reaches(edge, from_cfg.call_infos@[j].callee_def_id, to)),
        decreases from_cfg.call_infos.len() - c,
    {
        let next = from_cfg.call_infos[c].callee_def_id;
        let ghost middle = visited@;
        if cfgs.contains_key(next) {
            assert(edge(from, next));
            if can_call_arrive(cfgs, visited, next, to) {
                proof {
                    lemma_step_then_walk(edge, before, middle, from, next, to);
                }
                return true;
            }
            proof {
                lemma_fewer_unvisited(all, middle, visited@, from);
                assert(middle.difference(before).difference(set![from]) =~= middle.difference(
                    before,
                ).remove(from));
                assert(visited@.difference(before).difference(set![from])
                    =~= visited@.difference(before).remove(from));
                lemma_sealed_grows(edge, before, middle, visited@, set![from], to);
            }
        }
        c = c + 1;
    }
    proof {
        assert forall|x: DefId, y: DefId|
            visited@.difference(before).contains(x) && #[trigger] edge(x, y) implies y != to && (
        visited@.contains(y) || !reaches(edge, y, to)) by {
            if x == from {
                let j = choose|j: int|
                    0 <= j < cfgs.cfg(from).call_infos@.len() && (
                    #[trigger] cfgs.cfg(from).call_infos@[j]).callee_def_id == y;
                assert(cfgs.has(from_cfg.call_infos@[j].callee_def_id));
            } else {
                assert(visited@.difference(before).remove(from).contains(x));
            }
        }
        lemma_search_failed(edge, before, visited@, from, to);
    }
    false
}


/// The first block of a function.
pub open spec fn entry_block(def_id: DefId) -> GlobalBasicBlockId {
    GlobalBasicBlockId { def_id, bb_id: 0 }
}

/// The steps of a search for the block `to`. From a block of the function of
/// `to`, the only step is to `to` itself, where a walk along successor edges
/// leads there. From a block of another function, a step leads to the first
/// block of every function with a graph that is called in a block to which a
/// walk along successor edges leads.
pub open spec fn arrival_edge(cfgs: &CfgTable, to: GlobalBasicBlockId) -> spec_fn(
    GlobalBasicBlockId,
    GlobalBasicBlockId,
) -> bool {
    |x: GlobalBasicBlockId, y: GlobalBasicBlockId|
        cfgs.has(x.def_id) && if x.def_id == to.def_id {
            y == to && reaches(block_edge(&cfgs.cfg(x.def_id)), x.bb_id, to.bb_id)
        } else {
            exists|c: int|
                0 <= c < cfgs.cfg(x.def_id).call_infos@.len() && #[trigger] calls_into(cfgs, x, c, y)
        }
}

/// Whether call `c` of the function of `x` can be reached from `x` and enters
/// the function with a graph of which `y` is the first block.
pub open spec fn calls_into(cfgs: &CfgTable, x: GlobalBasicBlockId, c: int, y: GlobalBasicBlockId) -> bool {
    let cfg = cfgs.cfg(x.def_id);
    &&& cfgs.has(cfg.call_infos@[c].callee_def_id)
    &&& y == entry_block(cfg.call_infos@[c].callee_def_id)
    &&& reaches(block_edge(&cfg), x.bb_id, cfg.call_infos@[c].caller_bb_id)
}

/// The first blocks of the functions of a table.
pub open spec fn entries_of(cfgs: &CfgTable) -> Set<GlobalBasicBlockId> {
    functions_of(cfgs).map(|def_id: DefId| entry_block(def_id))
}

/// Along a walk of search steps to `to`, a chain of calls leads from the
/// function of every block to the function of `to`.
proof fn lemma_arrival_needs_calls(
    cfgs: &CfgTable,
    to: GlobalBasicBlockId,
    walk: Seq<GlobalBasicBlockId>,
    k: int,
)
    requires
        is_walk(arrival_edge(cfgs, to), walk),
        walk.last() == to,
        0 <= k < walk.len(),
    ensures
        reaches(call_edge(cfgs), walk[k].def_id, to.def_id),
    decreases walk.len() - k,
{
    let calls = call_edge(cfgs);
    lemma_visited_start(calls, Set::empty(), walk[k].def_id, to.def_id);
    if walk[k].def_id != to.def_id {
        assert(k < walk.len() - 1);
        assert(arrival_edge(cfgs, to)(walk[k], walk[k + 1]));
        lemma_arrival_needs_calls(cfgs, to, walk, k + 1);
        let c = choose|c: int|
            0 <= c < cfgs.cfg(walk[k].def_id).call_infos@.len() && #[trigger] calls_into(
                cfgs,
                walk[k],
                c,
                walk[k + 1],
            );
        assert(calls(walk[k].def_id, walk[k + 1].def_id));
        lemma_step_then_walk(
            calls,
            Set::empty(),
            Set::empty(),
            walk[k].def_id,
            walk[k + 1].def_id,
            to.def_id,
        );
    }
}

/// Without a chain of calls to the function of `to`, no search steps lead to `to`.
proof fn lemma_no_calls_no_arrival(cfgs: &CfgTable, from: GlobalBasicBlockId, to: GlobalBasicBlockId)
    requires
        !reaches(call_edge(cfgs), from.def_id, to.def_id),
    ensures
        !reaches(arrival_edge(cfgs, to), from, to),
{
    let edge = arrival_edge(cfgs, to);
    if reaches(edge, from, to) {
        let walk = choose|walk: Seq<GlobalBasicBlockId>|
            #![trigger is_walk(edge, walk)]
            is_walk(edge, walk) && walk[0] == from && walk.last() == to && avoids(
                walk,
                Set::empty(),
            );
        lemma_arrival_needs_calls(cfgs, to, walk, 0);
    }
}

/// What a list holds after one more was put behind.
pub proof fn lemma_push_to_set<A>(list: Seq<A>, x: A)
    ensures
        list.push(x).to_set() == list.to_set().insert(x),
{
    assert forall|y: A| list.push(x).to_set().contains(y) <==> list.to_set().insert(x).contains(
        y,
    ) by {
        if list.push(x).contains(y) {
            let k = choose|k: int| 0 <= k < list.push(x).len() && list.push(x)[k] == y;
            if k < list.len() {
                assert(list[k] == y);
            }
        }
        if list.contains(y) {
            let k = choose|k: int| 0 <= k < list.len() && list[k] == y;
            assert(list.push(x)[k] == y);
        }
        if y == x {
            assert(list.push(x)[list.len() as int] == y);
        }
    }
    assert(list.push(x).to_set() =~= list.to_set().insert(x));
}

/// Whether `block` is among `blocks`.
fn holds_block(blocks: &Vec<GlobalBasicBlockId>, block: GlobalBasicBlockId) -> (found: bool)
    ensures
        found == blocks@.to_set().contains(block),
{
    let mut i: usize = 0;
    while i < blocks.len()
        invariant
            i <= blocks.len(),
            forall|j: int| 0 <= j < i ==> blocks@[j] != block,
        decreases blocks.len() - i,
    {
        if blocks[i] == block {
            assert(blocks@.contains(block));
            return true;
        }
        i = i + 1;
    }
    false
}

/// Whether the block `to` can be reached from the block `from`, by search
/// steps that, before the end, keep out of the blocks in `visited`. The blocks
/// that the search comes to are put behind those in `visited`. A block
/// reaches itself, and from a visited block nothing is reached, whatever the
/// table holds; else `from` has to be a block of a function with a graph.
pub fn can_basic_block_arrive(
    cfgs: &CfgTable,
    visited: &mut Vec<GlobalBasicBlockId>,
    from: GlobalBasicBlockId,
    to: GlobalBasicBlockId,
) -> (arrives: bool)
    requires
        cfgs.wf(),
        from != to && !old(visited)@.contains(from) ==> cfgs.has(from.def_id) && from.bb_id
            < cfgs.cfg(from.def_id).basic_block_infos@.len(),
    ensures
        arrives == reaches_avoiding(arrival_edge(cfgs, to), old(visited)@.to_set(), from, to),
        old(visited)@.to_set().subset_of(final(visited)@.to_set()),
        !arrives ==> search_failed(
            arrival_edge(cfgs, to),
            old(visited)@.to_set(),
            final(visited)@.to_set(),
            from,
            to,
        ),
    decreases
            entries_of(cfgs).difference(old(visited)@.to_set()).len(),
            (if from.bb_id == 0 {
                0int
            } else {
                1int
            }),
{
    let ghost edge = arrival_edge(cfgs, to);
    let ghost before = visited@.to_set();
    let ghost all = entries_of(cfgs);
    proof {
        lemma_visited_start(edge, before, from, to);
        <usize as vstd::set_lib::FiniteRange>::range_properties(0, cfgs.functions.len());
        functions_of(cfgs).lemma_map_finite(|def_id: DefId| entry_block(def_id));
    }
    if from == to {
        return true;
    }
    if holds_block(visited, from) {
        assert(visited@.to_set().difference(before) =~= Set::empty());
        return false;
    }
    assert(cfgs.functions@[from.def_id as int].cfg is Some);
    let mut calls_seen: HashSet<DefId> = HashSet::new();
    if !can_call_arrive(cfgs, &mut calls_seen, from.def_id, to.def_id) {
        proof {
            lemma_no_calls_no_arrival(cfgs, from, to);
            assert(visited@.to_set().difference(before) =~= Set::empty());
        }
        return false;
    }
    visited.push(from);
    proof {
        lemma_push_to_set(old(visited)@, from);
        lemma_fewer_unvisited(all, before, visited@.to_set(), from);
        assert(visited@.to_set().difference(before).remove(from) =~= Set::empty());
        if from.bb_id == 0 {
            assert(functions_of(cfgs).contains(from.def_id));
            assert(from == entry_block(from.def_id));
            assert(all.contains(from));
        }
    }
    let from_cfg = cfgs.get(from.def_id);
    if from.def_id == to.def_id {
        let mut blocks_seen: HashSet<BasicBlockId> = HashSet::new();
        let inside = can_inner_basic_block_arrive(from_cfg, &mut blocks_seen, from.bb_id, to.bb_id);
        proof {
            if inside {
                assert(edge(from, to));
                lemma_visited_start(edge, visited@.to_set(), to, to);
                lemma_step_then_walk(edge, before, visited@.to_set(), from, to, to);
            } else {
                assert(visited@.to_set().difference(before) =~= set![from]);
                lemma_search_failed(edge, before, visited@.to_set(), from, to);
            }
        }
        return inside;
    }
    let mut c: usize = 0;
    while c < from_cfg.call_infos.len()
        invariant
            c <= from_cfg.call_infos.len(),
            cfgs.wf(),
            cfgs.has(from.def_id),
            from.bb_id < cfgs.cfg(from.def_id).basic_block_infos@.len(),
            *from_cfg == cfgs.cfg(from.def_id),
            edge == arrival_edge(cfgs, to),
            all == entries_of(cfgs),
            all.finite(),
            before == old(visited)@.to_set(),
            from != to,
            from.def_id != to.def_id,
            !before.contains(from),
            before.insert(from).subset_of(visited@.to_set()),
            all.difference(visited@.to_set()).len() <= all.difference(before).len(),
            from.bb_id == 0 ==> all.difference(visited@.to_set()).len() < all.difference(
                before,
            ).len(),
            sealed(edge, visited@.to_set().difference(before).remove(from), visited@.to_set(), to),
            !visited@.to_set().difference(before).contains(to),
            forall|j: int, y: GlobalBasicBlockId|
                0 <= j < c && #[trigger] calls_into(cfgs, from, j, y) ==> y != to && (
                visited@.to_set().contains(y) || !reaches(edge, y, to)),
        decreases from_cfg.call_infos.len() - c,
    {
        let call_info = &from_cfg.call_infos[c];
        let ghost middle = visited@.to_set();
        if cfgs.contains_key(call_info.callee_def_id) {
            let mut blocks_seen: HashSet<BasicBlockId> = HashSet::new();
            assert(from_cfg.wf());
            if can_inner_basic_block_arrive(
                from_cfg,
                &mut blocks_seen,
                from.bb_id,
                call_info.caller_bb_id,
            ) {
                let next = GlobalBasicBlockId::new(call_info.callee_def_id, 0);
                assert(calls_into(cfgs, from, c as int, next));
                assert(edge(from, next));
                assert(cfgs.cfg(next.def_id).wf()) by {
                    assert(cfgs.functions@[next.def_id as int].cfg is Some);
                }
                if can_basic_block_arrive(cfgs, visited, next, to) {
                    proof {
                        lemma_step_then_walk(edge, before, middle, from, next, to);
                    }
                    return true;
                }
                proof {
                    lemma_fewer_unvisited(all, middle, visited@.to_set(), from);
                    assert(middle.difference(before).difference(set![from])
                        =~= middle.difference(before).remove(from));
                    assert(visited@.to_set().difference(before).difference(set![from])
                        =~= visited@.to_set().difference(before).remove(from));
                    lemma_sealed_grows(edge, before, middle, visited@.to_set(), set![from], to);
                }
            }
        }
        c = c + 1;
    }
    proof {
        assert forall|x: GlobalBasicBlockId, y: GlobalBasicBlockId|
            visited@.to_set().difference(before).contains(x) && #[trigger] edge(
                x,
                y,
            ) implies y != to && (visited@.to_set().contains(y) || !reaches(edge, y, to)) by {
            if x == from {
                let j = choose|j: int|
                    0 <= j < cfgs.cfg(from.def_id).call_infos@.len() && #[trigger] calls_into(
                        cfgs,
                        from,
                        j,
                        y,
                    );
                assert(calls_into(cfgs, from, j, y));
            } else {
                assert(visited@.to_set().difference(before).remove(from).contains(x));
            }
        }
        lemma_search_failed(edge, before, visited@.to_set(), from, to);
    }
    false
}

} // verus!
