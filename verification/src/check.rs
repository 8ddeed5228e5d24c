//! The detectors that run on the finished pointer flow graph: uses of an
//! object after its destruction, and second destructions of an object.

use vstd::prelude::*;
use itertools::Itertools;
use crate::analysis::{demands_of, AnalysisContext};
use crate::cfg::CfgTable;
use crate::findings::{is_df, is_uaf, lemma_found_df, lemma_found_uaf};
use crate::ids::{
    CtxtSenSpanInfo, DropObjectId, GlobalBasicBlockId, GlobalLocalId, GlobalProjectionId,
};
use crate::pfg::{DerefEdgeInfo, PfgView};
use crate::reach::{arrival_edge, can_basic_block_arrive, reaches};

verus! {

/// A use after free as the detector finds it: the object `drop_obj_id` is
/// destructed at `drop_span`, and the cell `deref_proj_id`, which may refer
/// to it, is read through at `deref_span`.
#[derive(Clone, Copy, Debug, PartialEq, Eq, Structural)]
pub struct UafInfo {
    pub deref_proj_id: GlobalProjectionId,
    pub deref_span: CtxtSenSpanInfo,
    pub drop_obj_id: DropObjectId,
    pub drop_span: CtxtSenSpanInfo,
}

impl UafInfo {
    pub fn new(
        deref_proj_id: GlobalProjectionId,
        deref_span: CtxtSenSpanInfo,
        drop_obj_id: DropObjectId,
        drop_span: CtxtSenSpanInfo,
    ) -> (info: Self)
        ensures
            info == (UafInfo { deref_proj_id, deref_span, drop_obj_id, drop_span }),
    {
        Self { deref_proj_id, deref_span, drop_obj_id, drop_span }
    }
}

/// A double free as the detector finds it: the object `first_drop_obj_id` is
/// destructed at `first_drop_span`, and the object `then_drop_obj_id`, which
/// may be the same, at `then_drop_span`.
#[derive(Clone, Copy, Debug, PartialEq, Eq, Structural)]
pub struct DfInfo {
    pub first_drop_obj_id: DropObjectId,
    pub first_drop_span: CtxtSenSpanInfo,
    pub then_drop_obj_id: DropObjectId,
    pub then_drop_span: CtxtSenSpanInfo,
}

impl DfInfo {
    pub fn new(
        first_drop_obj_id: DropObjectId,
        first_drop_span: CtxtSenSpanInfo,
        then_drop_obj_id: DropObjectId,
        then_drop_span: CtxtSenSpanInfo,
    ) -> (info: Self)
        ensures
            info == (DfInfo { first_drop_obj_id, first_drop_span, then_drop_obj_id, then_drop_span }),
    {
        Self { first_drop_obj_id, first_drop_span, then_drop_obj_id, then_drop_span }
    }
}

/// Findings that name the same two source locations.
pub trait SameSpan {
    spec fn same_span(&self, other: &Self) -> bool;

    fn is_same_span(&self, other: &Self) -> (same: bool)
        ensures
            same == self.same_span(other),
    ;
}

impl SameSpan for UafInfo {
    open spec fn same_span(&self, other: &Self) -> bool {
        self.deref_span.span == other.deref_span.span && self.drop_span.span
            == other.drop_span.span
    }

    fn is_same_span(&self, other: &Self) -> (same: bool) {
        self.deref_span.span == other.deref_span.span && self.drop_span.span
            == other.drop_span.span
    }
}

impl SameSpan for DfInfo {
    open spec fn same_span(&self, other: &Self) -> bool {
        self.first_drop_span.span == other.first_drop_span.span && self.then_drop_span.span
            == other.then_drop_span.span
    }

    fn is_same_span(&self, other: &Self) -> (same: bool) {
        self.first_drop_span.span == other.first_drop_span.span && self.then_drop_span.span
            == other.then_drop_span.span
    }
}

/// Whether one of `infos` names the same two source locations as `target`.
pub fn contains_same_span<T: SameSpan>(infos: &Vec<T>, target: &T) -> (found: bool)
    ensures
        found == exists|i: int| 0 <= i < infos@.len() && (#[trigger] infos@[i]).same_span(target),
{
    let mut i: usize = 0;
    while i < infos.len()
        invariant
            i <= infos.len(),
            forall|j: int| 0 <= j < i ==> !(#[trigger] infos@[j]).same_span(target),
        decreases infos.len() - i,
    {
        if infos[i].is_same_span(target) {
            return true;
        }
        i = i + 1;
    }
    false
}

/// What the detectors find in one analysis run.
#[derive(Debug)]
pub struct CheckInfo {
    pub uaf_infos: Vec<UafInfo>,
    pub df_infos: Vec<DfInfo>,
}

impl CheckInfo {
    pub fn new() -> (info: Self)
        ensures
            info.uaf_infos@.len() == 0,
            info.df_infos@.len() == 0,
    {
        Self { uaf_infos: Vec::new(), df_infos: Vec::new() }
    }
}

/// Whether `slot` is a storage slot of a function whose graph takes part.
pub open spec fn known_slot(cfgs: &CfgTable, slot: GlobalLocalId) -> bool {
    cfgs.has(slot.def_id) && cfgs.cfg(slot.def_id).has_local(slot.local_id)
}

/// Whether the uses after free speak of known storage slots.
pub open spec fn uaf_known(cfgs: &CfgTable, infos: Seq<UafInfo>) -> bool {
    forall|k: int|
        0 <= k < infos.len() ==> known_slot(cfgs, (#[trigger] infos[k]).deref_proj_id.g_local_id)
            && known_slot(cfgs, infos[k].drop_obj_id.id.g_local_id)
}

/// Whether the double frees speak of known storage slots.
pub open spec fn df_known(cfgs: &CfgTable, infos: Seq<DfInfo>) -> bool {
    forall|k: int|
        0 <= k < infos.len() ==> known_slot(cfgs, (#[trigger] infos[k]).first_drop_obj_id.id.g_local_id)
            && known_slot(cfgs, infos[k].then_drop_obj_id.id.g_local_id)
}

/// Whether the findings of a run speak of known storage slots.
pub open spec fn check_info_known(cfgs: &CfgTable, check_info: &CheckInfo) -> bool {
    uaf_known(cfgs, check_info.uaf_infos@) && df_known(cfgs, check_info.df_infos@)
}

/// A cell of the graph of a sound context stands in a known storage slot.
pub proof fn lemma_cell_known(ctxt: &AnalysisContext, id: GlobalProjectionId)
    requires
        ctxt.wf(),
        ctxt.pfg@.contains(id),
    ensures
        known_slot(&ctxt.cfgs, id.g_local_id),
{
    let demands = demands_of(ctxt.cfgs.functions@, ctxt.cfgs.registered@);
    assert(ctxt.pfg@.has_slot(id.g_local_id));
    assert((demands.slot_ok)(id.g_local_id));
}

/// Whether the block `to` can be reached from the block `from`: inside one
/// function along successor edges; across functions by reaching a call and
/// going on from the first block of the callee.
pub open spec fn can_reach(cfgs: &CfgTable, from: GlobalBasicBlockId, to: GlobalBasicBlockId) -> bool {
    reaches(arrival_edge(cfgs, to), from, to)
}

/// Whether a destruction at `drop_site` comes before a use at `deref_site`:
/// the two lie in different blocks, and the second can be reached from the first.
pub open spec fn used_after(cfgs: &CfgTable, drop_site: CtxtSenSpanInfo, deref_site: CtxtSenSpanInfo) -> bool {
    drop_site.block() != deref_site.block() && can_reach(cfgs, drop_site.block(), deref_site.block())
}

/// The uses after free of `object` at `deref_span`, for the first `n` of its sites.
pub open spec fn uaf_at_sites(
    cfgs: &CfgTable,
    deref_proj_id: GlobalProjectionId,
    deref_span: CtxtSenSpanInfo,
    object: DropObjectId,
    sites: Seq<CtxtSenSpanInfo>,
    n: int,
) -> Seq<UafInfo>
    decreases n,
{
    if n <= 0 {
        Seq::empty()
    } else {
        let before = uaf_at_sites(cfgs, deref_proj_id, deref_span, object, sites, n - 1);
        if used_after(cfgs, sites[n - 1], deref_span) {
            before.push(
                UafInfo { deref_proj_id, deref_span, drop_obj_id: object, drop_span: sites[n - 1] },
            )
        } else {
            before
        }
    }
}

/// The uses after free at `deref_span` of the first `n` of the objects.
pub open spec fn uaf_at_objects(
    cfgs: &CfgTable,
    pfg: PfgView,
    deref_proj_id: GlobalProjectionId,
    deref_span: CtxtSenSpanInfo,
    objects: Seq<DropObjectId>,
    n: int,
) -> Seq<UafInfo>
    decreases n,
{
    if n <= 0 {
        Seq::empty()
    } else {
        let sites = pfg.node(objects[n - 1].id).cs_drop_spans;
        uaf_at_objects(cfgs, pfg, deref_proj_id, deref_span, objects, n - 1) + uaf_at_sites(
            cfgs,
            deref_proj_id,
            deref_span,
            objects[n - 1],
            sites,
            sites.len() as int,
        )
    }
}

/// The uses after free when the cell `deref_proj_id` is read through at
/// `deref_span`: one for every object that the cell may refer to and every
/// destruction of that object that comes before.
pub open spec fn uaf_at_cell(
    cfgs: &CfgTable,
    pfg: PfgView,
    deref_proj_id: GlobalProjectionId,
    deref_span: CtxtSenSpanInfo,
) -> Seq<UafInfo> {
    uaf_at_objects(
        cfgs,
        pfg,
        deref_proj_id,
        deref_span,
        pfg.node(deref_proj_id).points_to,
        pfg.node(deref_proj_id).points_to.len() as int,
    )
}

/// Where the flow along the edge from `from` to `to` happens.
pub open spec fn edge_span(pfg: PfgView, from: GlobalProjectionId, to: GlobalProjectionId) -> CtxtSenSpanInfo {
    pfg.node(from).neighbors[pfg.node(from).neighbor_index(to)].span_info
}

/// The uses after free at a dereferencing edge: those at its source if the
/// source is read through, then those at its target if the target is.
pub open spec fn uaf_at_edge(cfgs: &CfgTable, pfg: PfgView, edge: DerefEdgeInfo) -> Seq<UafInfo> {
    let span = edge_span(pfg, edge.from, edge.to);
    (if edge.is_deref.0 {
        uaf_at_cell(cfgs, pfg, edge.from, span)
    } else {
        Seq::empty()
    }) + (if edge.is_deref.1 {
        uaf_at_cell(cfgs, pfg, edge.to, span)
    } else {
        Seq::empty()
    })
}

/// The uses after free at the first `n` of the dereferencing edges.
pub open spec fn uaf_at_edges(cfgs: &CfgTable, pfg: PfgView, edges: Seq<DerefEdgeInfo>, n: int) -> Seq<
    UafInfo,
>
    decreases n,
{
    if n <= 0 {
        Seq::empty()
    } else {
        uaf_at_edges(cfgs, pfg, edges, n - 1) + uaf_at_edge(cfgs, pfg, edges[n - 1])
    }
}

/// Whether the block of `to` can be reached from the block of `from`.
fn site_reaches(ctxt: &AnalysisContext, from: &CtxtSenSpanInfo, to: &CtxtSenSpanInfo) -> (arrives: bool)
    requires
        ctxt.wf(),
        (demands_of(ctxt.cfgs.functions@, ctxt.cfgs.registered@).site_ok)(*from),
    ensures
        arrives == can_reach(&ctxt.cfgs, from.block(), to.block()),
{
    let mut visited: Vec<GlobalBasicBlockId> = Vec::new();
    assert(visited@.to_set() =~= Set::empty());
    can_basic_block_arrive(
        &ctxt.cfgs,
        &mut visited,
        GlobalBasicBlockId::new(from.def_id, from.basic_block_id),
        GlobalBasicBlockId::new(to.def_id, to.basic_block_id),
    )
}

/// The uses after free of `object` when `deref_proj_id` is read through at `deref_span`.
fn add_uaf_of_object(
    ctxt: &AnalysisContext,
    deref_proj_id: GlobalProjectionId,
    deref_span: &CtxtSenSpanInfo,
    object: DropObjectId,
    uaf_infos: &mut Vec<UafInfo>,
)
    requires
        ctxt.wf(),
        ctxt.pfg@.contains(object.id),
        ctxt.pfg@.contains(deref_proj_id),
        uaf_known(&ctxt.cfgs, old(uaf_infos)@),
    ensures
        final(uaf_infos)@ == old(uaf_infos)@ + uaf_at_sites(
            &ctxt.cfgs,
            deref_proj_id,
            *deref_span,
            object,
            ctxt.pfg@.node(object.id).cs_drop_spans,
            ctxt.pfg@.node(object.id).cs_drop_spans.len() as int,
        ),
        uaf_known(&ctxt.cfgs, final(uaf_infos)@),
{
    proof {
        lemma_cell_known(ctxt, object.id);
        lemma_cell_known(ctxt, deref_proj_id);
    }
    let sites = &ctxt.pfg.get_projection_node(object.id).cs_drop_spans;
    let ghost found = uaf_infos@;
    let mut k: usize = 0;
    assert(found + Seq::<UafInfo>::empty() =~= found);
    while k < sites.len()
        invariant
            k <= sites.len(),
            ctxt.wf(),
            ctxt.pfg@.contains(object.id),
            known_slot(&ctxt.cfgs, object.id.g_local_id),
            known_slot(&ctxt.cfgs, deref_proj_id.g_local_id),
            uaf_known(&ctxt.cfgs, uaf_infos@),
            sites@ == ctxt.pfg@.node(object.id).cs_drop_spans,
            uaf_infos@ == found + uaf_at_sites(
                &ctxt.cfgs,
                deref_proj_id,
                *deref_span,
                object,
                sites@,
                k as int,
            ),
        decreases sites.len() - k,
    {
        let site = &sites[k];
        let ghost before = uaf_at_sites(
            &ctxt.cfgs,
            deref_proj_id,
            *deref_span,
            object,
            sites@,
            k as int,
        );
        assert((demands_of(ctxt.cfgs.functions@, ctxt.cfgs.registered@).site_ok)(
            ctxt.pfg@.node(object.id).cs_drop_spans[k as int],
        ));
        let different = site.def_id != deref_span.def_id || site.basic_block_id
            != deref_span.basic_block_id;
        if site_reaches(ctxt, site, deref_span) && different {
            let info = UafInfo::new(deref_proj_id, *deref_span, object, *site);
            uaf_infos.push(info);
            assert(found + before.push(info) =~= (found + before).push(info));
        }
        k = k + 1;
    }
}

/// The uses after free when `deref_proj_id` is read through at `deref_span`.
fn add_uaf_infos(
    ctxt: &AnalysisContext,
    deref_proj_id: GlobalProjectionId,
    deref_span: &CtxtSenSpanInfo,
    uaf_infos: &mut Vec<UafInfo>,
)
    requires
        ctxt.wf(),
        ctxt.pfg@.contains(deref_proj_id),
        uaf_known(&ctxt.cfgs, old(uaf_infos)@),
    ensures
        final(uaf_infos)@ == old(uaf_infos)@ + uaf_at_cell(
            &ctxt.cfgs,
            ctxt.pfg@,
            deref_proj_id,
            *deref_span,
        ),
        uaf_known(&ctxt.cfgs, final(uaf_infos)@),
{
    let objects = &ctxt.pfg.get_projection_node(deref_proj_id).points_to;
    let ghost found = uaf_infos@;
    let mut k: usize = 0;
    assert(found + Seq::<UafInfo>::empty() =~= found);
    while k < objects.len()
        invariant
            k <= objects.len(),
            ctxt.wf(),
            ctxt.pfg@.contains(deref_proj_id),
            uaf_known(&ctxt.cfgs, uaf_infos@),
            objects@ == ctxt.pfg@.node(deref_proj_id).points_to,
            uaf_infos@ == found + uaf_at_objects(
                &ctxt.cfgs,
                ctxt.pfg@,
                deref_proj_id,
                *deref_span,
                objects@,
                k as int,
            ),
        decreases objects.len() - k,
    {
        let ghost before = uaf_at_objects(
            &ctxt.cfgs,
            ctxt.pfg@,
            deref_proj_id,
            *deref_span,
            objects@,
            k as int,
        );
        proof {
            ctxt.pfg@.lemma_closed_node(deref_proj_id);
            assert(ctxt.pfg@.contains(ctxt.pfg@.node(deref_proj_id).points_to[k as int].id));
        }
        add_uaf_of_object(ctxt, deref_proj_id, deref_span, objects[k], uaf_infos);
        proof {
            let sites = ctxt.pfg@.node(objects@[k as int].id).cs_drop_spans;
            let more = uaf_at_sites(
                &ctxt.cfgs,
                deref_proj_id,
                *deref_span,
                objects@[k as int],
                sites,
                sites.len() as int,
            );
            assert((found + before) + more =~= found + (before + more));
        }
        k = k + 1;
    }
}

/// The uses after free: for every dereferencing edge, every object that the
/// end read through may refer to, and every destruction of that object in a
/// block other than that of the edge from which the block of the edge can be
/// reached.
pub fn check_uaf(ctxt: &AnalysisContext) -> (uaf_infos: Vec<UafInfo>)
    requires
        ctxt.wf(),
    ensures
        uaf_infos@ == uaf_at_edges(
            &ctxt.cfgs,
            ctxt.pfg@,
            ctxt.pfg@.deref_edges,
            ctxt.pfg@.deref_edges.len() as int,
        ),
        uaf_known(&ctxt.cfgs, uaf_infos@),
{
    let mut uaf_infos: Vec<UafInfo> = Vec::new();
    let mut k: usize = 0;
    while k < ctxt.pfg.deref_edges.len()
        invariant
            k <= ctxt.pfg.deref_edges.len(),
            ctxt.wf(),
            uaf_known(&ctxt.cfgs, uaf_infos@),
            uaf_infos@ == uaf_at_edges(&ctxt.cfgs, ctxt.pfg@, ctxt.pfg@.deref_edges, k as int),
        decreases ctxt.pfg.deref_edges.len() - k,
    {
        let edge = &ctxt.pfg.deref_edges[k];
        let ghost found = uaf_infos@;
        assert(ctxt.pfg@.contains(ctxt.pfg@.deref_edges[k as int].from));
        let span_info = ctxt.pfg.get_neighbor_info(edge.from, edge.to).span_info;
        assert(span_info == edge_span(ctxt.pfg@, edge.from, edge.to));
        if edge.is_deref.0 {
            add_uaf_infos(ctxt, edge.from, &span_info, &mut uaf_infos);
        }
        let ghost middle = uaf_infos@;
        if edge.is_deref.1 {
            add_uaf_infos(ctxt, edge.to, &span_info, &mut uaf_infos);
        }
        proof {
            let first = if edge.is_deref.0 {
                uaf_at_cell(&ctxt.cfgs, ctxt.pfg@, edge.from, span_info)
            } else {
                Seq::empty()
            };
            let second = if edge.is_deref.1 {
                uaf_at_cell(&ctxt.cfgs, ctxt.pfg@, edge.to, span_info)
            } else {
                Seq::empty()
            };
            assert(middle =~= found + first);
            assert(uaf_infos@ =~= middle + second);
            assert((found + first) + second =~= found + (first + second));
        }
        k = k + 1;
    }
    uaf_infos
}


/// All pairs of an item of `first` and an item of `then`: the pairs with the
/// first item of `first` in the order of `then`, then those with its second
/// item, and so on.
pub open spec fn product<A, B>(first: Seq<A>, then: Seq<B>) -> Seq<(A, B)> {
    Seq::new(
        first.len() * then.len(),
        |k: int| (first[k / (then.len() as int)], then[k % (then.len() as int)]),
    )
}

/// Every pair of a product is made of an item of each list.
pub proof fn lemma_product_members<A, B>(first: Seq<A>, then: Seq<B>, k: int)
    requires
        0 <= k < product(first, then).len(),
    ensures
        then.len() > 0,
        0 <= k / (then.len() as int) < first.len(),
        0 <= k % (then.len() as int) < then.len(),
        product(first, then)[k] == (first[k / (then.len() as int)], then[k % (then.len() as int)]),
{
    let n = first.len() as int;
    let m = then.len() as int;
    assert(m > 0) by (nonlinear_arith)
        requires
            0 <= k < n * m,
            0 <= n,
            0 <= m,
    ;
    vstd::arithmetic::div_mod::lemma_div_pos_is_pos(k, m);
    assert(k < m * n) by (nonlinear_arith)
        requires
            k < n * m,
    ;
    vstd::arithmetic::div_mod::lemma_multiply_divide_lt(k, m, n);
    vstd::arithmetic::div_mod::lemma_mod_pos_bound(k, m);
}

/// The pairs that `itertools::Itertools::cartesian_product` yields for the two
/// lists of sites, collected. The contract states what the documentation of
/// the adaptor and its source show: every pair of an item of `first` and an
/// item of `then`, the items of `first` in their order and, for each, the
/// items of `then` in theirs.
#[verifier::external_body]
fn site_pairs(first: &Vec<CtxtSenSpanInfo>, then: &Vec<CtxtSenSpanInfo>) -> (pairs: Vec<
    (CtxtSenSpanInfo, CtxtSenSpanInfo),
>)
    ensures
        pairs@ == product(first@, then@),
{
    first.iter().copied().cartesian_product(then.iter().copied()).collect()
}

/// The double frees of the two objects at a pair of their sites: one in the
/// order of the pair if the second site can be reached from the first, then
/// one in the other order if the first can be reached from the second.
pub open spec fn df_at_pair(
    cfgs: &CfgTable,
    first: DropObjectId,
    then: DropObjectId,
    pair: (CtxtSenSpanInfo, CtxtSenSpanInfo),
) -> Seq<DfInfo> {
    (if can_reach(cfgs, pair.0.block(), pair.1.block()) {
        seq![
            DfInfo {
                first_drop_obj_id: first,
                first_drop_span: pair.0,
                then_drop_obj_id: then,
                then_drop_span: pair.1,
            },
        ]
    } else {
        Seq::empty()
    }) + (if can_reach(cfgs, pair.1.block(), pair.0.block()) {
        seq![
            DfInfo {
                first_drop_obj_id: then,
                first_drop_span: pair.1,
                then_drop_obj_id: first,
                then_drop_span: pair.0,
            },
        ]
    } else {
        Seq::empty()
    })
}

/// The double frees of the two objects at the first `n` of the pairs of sites.
pub open spec fn df_at_pairs(
    cfgs: &CfgTable,
    first: DropObjectId,
    then: DropObjectId,
    pairs: Seq<(CtxtSenSpanInfo, CtxtSenSpanInfo)>,
    n: int,
) -> Seq<DfInfo>
    decreases n,
{
    if n <= 0 {
        Seq::empty()
    } else {
        df_at_pairs(cfgs, first, then, pairs, n - 1) + df_at_pair(cfgs, first, then, pairs[n - 1])
    }
}

/// The double frees of `first` with another object: at every pair of a site
/// of `first` and a site of the other. None with itself.
pub open spec fn df_with(cfgs: &CfgTable, pfg: PfgView, first: DropObjectId, then: DropObjectId) -> Seq<
    DfInfo,
> {
    if then == first {
        Seq::empty()
    } else {
        let pairs = product(pfg.node(first.id).cs_drop_spans, pfg.node(then.id).cs_drop_spans);
        df_at_pairs(cfgs, first, then, pairs, pairs.len() as int)
    }
}

/// The double frees of `first` with the first `n` of the objects.
pub open spec fn df_with_all(
    cfgs: &CfgTable,
    pfg: PfgView,
    first: DropObjectId,
    others: Seq<DropObjectId>,
    n: int,
) -> Seq<DfInfo>
    decreases n,
{
    if n <= 0 {
        Seq::empty()
    } else {
        df_with_all(cfgs, pfg, first, others, n - 1) + df_with(cfgs, pfg, first, others[n - 1])
    }
}

/// The double frees of a multiply dropped object: with every other object
/// that its cell may refer to, if the cell may refer to more than one.
pub open spec fn df_of(cfgs: &CfgTable, pfg: PfgView, first: DropObjectId) -> Seq<DfInfo> {
    let objects = pfg.node(first.id).points_to;
    if objects.len() <= 1 {
        Seq::empty()
    } else {
        df_with_all(cfgs, pfg, first, objects, objects.len() as int)
    }
}

/// The double frees of the first `n` of the multiply dropped objects.
pub open spec fn df_of_all(cfgs: &CfgTable, pfg: PfgView, objects: Seq<DropObjectId>, n: int) -> Seq<
    DfInfo,
>
    decreases n,
{
    if n <= 0 {
        Seq::empty()
    } else {
        df_of_all(cfgs, pfg, objects, n - 1) + df_of(cfgs, pfg, objects[n - 1])
    }
}

/// The double frees of `first` with `then`, another object.
fn add_df_with(ctxt: &AnalysisContext, first: DropObjectId, then: DropObjectId, df_infos: &mut Vec<DfInfo>)
    requires
        ctxt.wf(),
        ctxt.pfg@.contains(first.id),
        ctxt.pfg@.contains(then.id),
        first != then,
        df_known(&ctxt.cfgs, old(df_infos)@),
    ensures
        final(df_infos)@ == old(df_infos)@ + df_with(&ctxt.cfgs, ctxt.pfg@, first, then),
        df_known(&ctxt.cfgs, final(df_infos)@),
{
    proof {
        lemma_cell_known(ctxt, first.id);
        lemma_cell_known(ctxt, then.id);
    }
    let first_sites = &ctxt.pfg.get_projection_node(first.id).cs_drop_spans;
    let then_sites = &ctxt.pfg.get_projection_node(then.id).cs_drop_spans;
    let pairs = site_pairs(first_sites, then_sites);
    let ghost found = df_infos@;
    let ghost demands = demands_of(ctxt.cfgs.functions@, ctxt.cfgs.registered@);
    let mut k: usize = 0;
    assert(found + Seq::<DfInfo>::empty() =~= found);
    while k < pairs.len()
        invariant
            k <= pairs.len(),
            ctxt.wf(),
            ctxt.pfg@.contains(first.id),
            ctxt.pfg@.contains(then.id),
            demands == demands_of(ctxt.cfgs.functions@, ctxt.cfgs.registered@),
            first_sites@ == ctxt.pfg@.node(first.id).cs_drop_spans,
            then_sites@ == ctxt.pfg@.node(then.id).cs_drop_spans,
            pairs@ == product(first_sites@, then_sites@),
            known_slot(&ctxt.cfgs, first.id.g_local_id),
            known_slot(&ctxt.cfgs, then.id.g_local_id),
            df_known(&ctxt.cfgs, df_infos@),
            df_infos@ == found + df_at_pairs(&ctxt.cfgs, first, then, pairs@, k as int),
        decreases pairs.len() - k,
    {
        let (first_site, then_site) = pairs[k];
        let ghost before = df_at_pairs(&ctxt.cfgs, first, then, pairs@, k as int);
        let ghost middle = df_infos@;
        proof {
            lemma_product_members(first_sites@, then_sites@, k as int);
            let i = k as int / (then_sites@.len() as int);
            let j = k as int % (then_sites@.len() as int);
            assert((demands.site_ok)(ctxt.pfg@.node(first.id).cs_drop_spans[i]));
            assert((demands.site_ok)(ctxt.pfg@.node(then.id).cs_drop_spans[j]));
        }
        if site_reaches(ctxt, &first_site, &then_site) {
            df_infos.push(DfInfo::new(first, first_site, then, then_site));
        }
        if site_reaches(ctxt, &then_site, &first_site) {
            df_infos.push(DfInfo::new(then, then_site, first, first_site));
        }
        assert(df_infos@ =~= middle + df_at_pair(&ctxt.cfgs, first, then, pairs@[k as int]));
        assert((found + before) + df_at_pair(&ctxt.cfgs, first, then, pairs@[k as int]) =~= found
            + (before + df_at_pair(&ctxt.cfgs, first, then, pairs@[k as int])));
        k = k + 1;
    }
}

/// The double frees of the multiply dropped object `first`.
fn add_df_of(ctxt: &AnalysisContext, first: DropObjectId, df_infos: &mut Vec<DfInfo>)
    requires
        ctxt.wf(),
        ctxt.pfg@.contains(first.id),
        df_known(&ctxt.cfgs, old(df_infos)@),
    ensures
        final(df_infos)@ == old(df_infos)@ + df_of(&ctxt.cfgs, ctxt.pfg@, first),
        df_known(&ctxt.cfgs, final(df_infos)@),
{
    let objects = &ctxt.pfg.get_projection_node(first.id).points_to;
    let ghost found = df_infos@;
    assert(found + Seq::<DfInfo>::empty() =~= found);
    if objects.len() <= 1 {
        return ;
    }
    let mut k: usize = 0;
    while k < objects.len()
        invariant
            k <= objects.len(),
            ctxt.wf(),
            ctxt.pfg@.contains(first.id),
            objects@ == ctxt.pfg@.node(first.id).points_to,
            df_known(&ctxt.cfgs, df_infos@),
            df_infos@ == found + df_with_all(&ctxt.cfgs, ctxt.pfg@, first, objects@, k as int),
        decreases objects.len() - k,
    {
        let then = objects[k];
        let ghost before = df_with_all(&ctxt.cfgs, ctxt.pfg@, first, objects@, k as int);
        proof {
            ctxt.pfg@.lemma_closed_node(first.id);
            assert(ctxt.pfg@.contains(ctxt.pfg@.node(first.id).points_to[k as int].id));
        }
        if then != first {
            add_df_with(ctxt, first, then, df_infos);
        }
        proof {
            let more = df_with(&ctxt.cfgs, ctxt.pfg@, first, then);
            assert(df_infos@ =~= (found + before) + more);
            assert((found + before) + more =~= found + (before + more));
        }
        k = k + 1;
    }
}

/// The double frees: for every multiply dropped object and every other
/// object that its cell may refer to, every pair of a destruction of the one
/// and a destruction of the other of which the second can be reached from
/// the first.
pub fn check_df(ctxt: &AnalysisContext) -> (df_infos: Vec<DfInfo>)
    requires
        ctxt.wf(),
    ensures
        df_infos@ == df_of_all(
            &ctxt.cfgs,
            ctxt.pfg@,
            ctxt.pfg@.multi_drop_objects,
            ctxt.pfg@.multi_drop_objects.len() as int,
        ),
        df_known(&ctxt.cfgs, df_infos@),
{
    let mut df_infos: Vec<DfInfo> = Vec::new();
    let mut k: usize = 0;
    while k < ctxt.pfg.multi_drop_objects.len()
        invariant
            k <= ctxt.pfg.multi_drop_objects.len(),
            ctxt.wf(),
            df_known(&ctxt.cfgs, df_infos@),
            df_infos@ == df_of_all(&ctxt.cfgs, ctxt.pfg@, ctxt.pfg@.multi_drop_objects, k as int),
        decreases ctxt.pfg.multi_drop_objects.len() - k,
    {
        assert(ctxt.pfg@.contains(ctxt.pfg@.multi_drop_objects[k as int].id));
        add_df_of(ctxt, ctxt.pfg.multi_drop_objects[k], &mut df_infos);
        k = k + 1;
    }
    df_infos
}

/// Runs both detectors on the finished graph. What they find are the uses
/// after free and the double frees of the graph, in the order of its
/// dereferencing edges and of its multiply dropped objects.
pub fn check_memory_bug(ctxt: &AnalysisContext) -> (check_info: CheckInfo)
    requires
        ctxt.wf(),
    ensures
        forall|info: UafInfo|
            #[trigger] check_info.uaf_infos@.contains(info) <==> is_uaf(&ctxt.cfgs, ctxt.pfg@, info),
        forall|info: DfInfo|
            #[trigger] check_info.df_infos@.contains(info) <==> is_df(&ctxt.cfgs, ctxt.pfg@, info),
        check_info.uaf_infos@ == uaf_at_edges(
            &ctxt.cfgs,
            ctxt.pfg@,
            ctxt.pfg@.deref_edges,
            ctxt.pfg@.deref_edges.len() as int,
        ),
        check_info.df_infos@ == df_of_all(
            &ctxt.cfgs,
            ctxt.pfg@,
            ctxt.pfg@.multi_drop_objects,
            ctxt.pfg@.multi_drop_objects.len() as int,
        ),
        check_info_known(&ctxt.cfgs, &check_info),
        ctxt.pfg@.no_facts() ==> check_info.uaf_infos@.len() == 0 && check_info.df_infos@.len() == 0,
{
    proof {
        if ctxt.pfg@.no_facts() {
            lemma_no_facts_no_findings(&ctxt.cfgs, ctxt.pfg@);
        }
    }
    let mut check_info = CheckInfo::new();
    check_info.uaf_infos = check_uaf(ctxt);
    check_info.df_infos = check_df(ctxt);
    proof {
        assert forall|info: UafInfo| #[trigger]
            check_info.uaf_infos@.contains(info) <==> is_uaf(&ctxt.cfgs, ctxt.pfg@, info) by {
            lemma_found_uaf(&ctxt.cfgs, ctxt.pfg@, info);
        }
        assert forall|info: DfInfo| #[trigger]
            check_info.df_infos@.contains(info) <==> is_df(&ctxt.cfgs, ctxt.pfg@, info) by {
            lemma_found_df(&ctxt.cfgs, ctxt.pfg@, info);
        }
    }
    check_info
}


/// Where no cell holds an object, the detectors find nothing.
pub proof fn lemma_no_facts_no_findings(cfgs: &CfgTable, pfg: PfgView)
    requires
        pfg.wf(),
        pfg.closed(),
        pfg.no_facts(),
    ensures
        uaf_at_edges(cfgs, pfg, pfg.deref_edges, pfg.deref_edges.len() as int) == Seq::<
            UafInfo,
        >::empty(),
        df_of_all(cfgs, pfg, pfg.multi_drop_objects, pfg.multi_drop_objects.len() as int) == Seq::<
            DfInfo,
        >::empty(),
{
    lemma_no_facts_no_uaf(cfgs, pfg, pfg.deref_edges.len() as int);
    lemma_no_facts_no_df(cfgs, pfg, pfg.multi_drop_objects.len() as int);
}

proof fn lemma_no_facts_no_uaf(cfgs: &CfgTable, pfg: PfgView, n: int)
    requires
        pfg.wf(),
        pfg.closed(),
        pfg.no_facts(),
        n <= pfg.deref_edges.len(),
    ensures
        uaf_at_edges(cfgs, pfg, pfg.deref_edges, n) == Seq::<UafInfo>::empty(),
    decreases n,
{
    if n > 0 {
        lemma_no_facts_no_uaf(cfgs, pfg, n - 1);
        let edge = pfg.deref_edges[n - 1];
        assert(pfg.contains(edge.from) && pfg.contains(edge.to));
        let span = edge_span(pfg, edge.from, edge.to);
        assert(uaf_at_cell(cfgs, pfg, edge.from, span) =~= Seq::<UafInfo>::empty());
        assert(uaf_at_cell(cfgs, pfg, edge.to, span) =~= Seq::<UafInfo>::empty());
        assert(uaf_at_edge(cfgs, pfg, edge) =~= Seq::<UafInfo>::empty());
        assert(uaf_at_edges(cfgs, pfg, pfg.deref_edges, n) =~= Seq::<UafInfo>::empty());
    }
}

proof fn lemma_no_facts_no_df(cfgs: &CfgTable, pfg: PfgView, n: int)
    requires
        pfg.wf(),
        pfg.closed(),
        pfg.no_facts(),
        n <= pfg.multi_drop_objects.len(),
    ensures
        df_of_all(cfgs, pfg, pfg.multi_drop_objects, n) == Seq::<DfInfo>::empty(),
    decreases n,
{
    if n > 0 {
        lemma_no_facts_no_df(cfgs, pfg, n - 1);
        let first = pfg.multi_drop_objects[n - 1];
        assert(pfg.contains(first.id));
        assert(df_of(cfgs, pfg, first) =~= Seq::<DfInfo>::empty());
        assert(df_of_all(cfgs, pfg, pfg.multi_drop_objects, n) =~= Seq::<DfInfo>::empty());
    }
}

} // verus!
