//! What the detectors find, said of one finding at a time: when a use after
//! free, and when a double free, is among the findings of a graph. Said so,
//! the findings depend on the graph only through what its cells hold as
//! sets, not through the order in which the objects came.

use vstd::prelude::*;
use crate::cfg::CfgTable;
use crate::check::{
    can_reach, df_at_pair, df_at_pairs, df_of, df_of_all, df_with, df_with_all, edge_span, product,
    uaf_at_cell, uaf_at_edge, uaf_at_edges, uaf_at_objects, uaf_at_sites, used_after, DfInfo,
    UafInfo,
};
use crate::ids::{CtxtSenSpanInfo, DropObjectId, GlobalProjectionId};
use crate::pfg::{DerefEdgeInfo, PfgView};

verus! {

/// An item is in two lists put together if and only if it is in one of them.
pub proof fn lemma_concat_contains<A>(a: Seq<A>, b: Seq<A>, x: A)
    ensures
        (a + b).contains(x) <==> a.contains(x) || b.contains(x),
{
    if a.contains(x) {
        let i = choose|i: int| 0 <= i < a.len() && a[i] == x;
        assert((a + b)[i] == x);
    }
    if b.contains(x) {
        let i = choose|i: int| 0 <= i < b.len() && b[i] == x;
        assert((a + b)[a.len() + i] == x);
    }
    let both = a + b;
    if both.contains(x) {
        let i = choose|i: int| 0 <= i < both.len() && both[i] == x;
        if i < a.len() {
            assert(a[i] == x);
        } else {
            assert(b[i - a.len()] == x);
        }
    }
}

/// An item is among the first `n` of a list if and only if it is among the
/// first `n - 1` or is the one behind them.
pub proof fn lemma_take_contains<A>(s: Seq<A>, n: int, x: A)
    requires
        0 < n <= s.len(),
    ensures
        s.take(n).contains(x) <==> s.take(n - 1).contains(x) || s[n - 1] == x,
{
    let head = s.take(n - 1);
    let whole = s.take(n);
    assert(whole =~= head.push(s[n - 1]));
    if head.contains(x) {
        let i = choose|i: int| 0 <= i < head.len() && head[i] == x;
        assert(whole[i] == x);
    }
    if s[n - 1] == x {
        assert(whole[n - 1] == x);
    }
    if whole.contains(x) {
        let i = choose|i: int| 0 <= i < whole.len() && whole[i] == x;
        if i < n - 1 {
            assert(head[i] == x);
        }
    }
}

/// Whether `info` is a use after free at the dereferencing edge `edge`: the
/// cell that is read through is an end of the edge that is dereferenced, the
/// place is that of the edge, the cell holds the object, the object is
/// destructed at the site, and the destruction comes before the use.
pub open spec fn uaf_on_edge(cfgs: &CfgTable, pfg: PfgView, edge: DerefEdgeInfo, info: UafInfo) -> bool {
    &&& info.deref_span == edge_span(pfg, edge.from, edge.to)
    &&& (edge.is_deref.0 && info.deref_proj_id == edge.from) || (edge.is_deref.1
        && info.deref_proj_id == edge.to)
    &&& pfg.node(info.deref_proj_id).points_to.contains(info.drop_obj_id)
    &&& pfg.node(info.drop_obj_id.id).cs_drop_spans.contains(info.drop_span)
    &&& used_after(cfgs, info.drop_span, info.deref_span)
}

/// Whether `info` is a use after free in the graph: one at one of its
/// dereferencing edges.
pub open spec fn is_uaf(cfgs: &CfgTable, pfg: PfgView, info: UafInfo) -> bool {
    exists|k: int|
        0 <= k < pfg.deref_edges.len() && uaf_on_edge(cfgs, pfg, #[trigger] pfg.deref_edges[k], info)
}

/// When a use after free is among those of an object at its first `n` sites.
pub proof fn lemma_uaf_at_sites(
    cfgs: &CfgTable,
    cell: GlobalProjectionId,
    span: CtxtSenSpanInfo,
    object: DropObjectId,
    sites: Seq<CtxtSenSpanInfo>,
    n: int,
    info: UafInfo,
)
    requires
        0 <= n <= sites.len(),
    ensures
        uaf_at_sites(cfgs, cell, span, object, sites, n).contains(info) <==> {
            &&& info.deref_proj_id == cell
            &&& info.deref_span == span
            &&& info.drop_obj_id == object
            &&& sites.take(n).contains(info.drop_span)
            &&& used_after(cfgs, info.drop_span, span)
        },
    decreases n,
{
    if n <= 0 {
        assert(sites.take(0) =~= Seq::<CtxtSenSpanInfo>::empty());
    } else {
        lemma_uaf_at_sites(cfgs, cell, span, object, sites, n - 1, info);
        lemma_take_contains(sites, n, info.drop_span);
        let before = uaf_at_sites(cfgs, cell, span, object, sites, n - 1);
        let found = UafInfo {
            deref_proj_id: cell,
            deref_span: span,
            drop_obj_id: object,
            drop_span: sites[n - 1],
        };
        if used_after(cfgs, sites[n - 1], span) {
            assert(before.push(found) =~= before + seq![found]);
            lemma_concat_contains(before, seq![found], info);
            assert(seq![found].contains(info) <==> info == found) by {
                if info == found {
                    assert(seq![found][0] == info);
                }
            }
        }
    }
}

/// When a use after free is among those of the first `n` objects.
pub proof fn lemma_uaf_at_objects(
    cfgs: &CfgTable,
    pfg: PfgView,
    cell: GlobalProjectionId,
    span: CtxtSenSpanInfo,
    objects: Seq<DropObjectId>,
    n: int,
    info: UafInfo,
)
    requires
        0 <= n <= objects.len(),
    ensures
        uaf_at_objects(cfgs, pfg, cell, span, objects, n).contains(info) <==> {
            &&& info.deref_proj_id == cell
            &&& info.deref_span == span
            &&& objects.take(n).contains(info.drop_obj_id)
            &&& pfg.node(info.drop_obj_id.id).cs_drop_spans.contains(info.drop_span)
            &&& used_after(cfgs, info.drop_span, span)
        },
    decreases n,
{
    if n <= 0 {
        assert(objects.take(0) =~= Seq::<DropObjectId>::empty());
    } else {
        lemma_uaf_at_objects(cfgs, pfg, cell, span, objects, n - 1, info);
        lemma_take_contains(objects, n, info.drop_obj_id);
        let sites = pfg.node(objects[n - 1].id).cs_drop_spans;
        lemma_uaf_at_sites(cfgs, cell, span, objects[n - 1], sites, sites.len() as int, info);
        assert(sites.take(sites.len() as int) =~= sites);
        lemma_concat_contains(
            uaf_at_objects(cfgs, pfg, cell, span, objects, n - 1),
            uaf_at_sites(cfgs, cell, span, objects[n - 1], sites, sites.len() as int),
            info,
        );
    }
}

/// When a use after free is among those at a cell that is read through.
pub proof fn lemma_uaf_at_cell(
    cfgs: &CfgTable,
    pfg: PfgView,
    cell: GlobalProjectionId,
    span: CtxtSenSpanInfo,
    info: UafInfo,
)
    ensures
        uaf_at_cell(cfgs, pfg, cell, span).contains(info) <==> {
            &&& info.deref_proj_id == cell
            &&& info.deref_span == span
            &&& pfg.node(cell).points_to.contains(info.drop_obj_id)
            &&& pfg.node(info.drop_obj_id.id).cs_drop_spans.contains(info.drop_span)
            &&& used_after(cfgs, info.drop_span, span)
        },
{
    let objects = pfg.node(cell).points_to;
    lemma_uaf_at_objects(cfgs, pfg, cell, span, objects, objects.len() as int, info);
    assert(objects.take(objects.len() as int) =~= objects);
}

/// When a use after free is among those at a dereferencing edge.
pub proof fn lemma_uaf_at_edge(cfgs: &CfgTable, pfg: PfgView, edge: DerefEdgeInfo, info: UafInfo)
    ensures
        uaf_at_edge(cfgs, pfg, edge).contains(info) <==> uaf_on_edge(cfgs, pfg, edge, info),
{
    let span = edge_span(pfg, edge.from, edge.to);
    let first = if edge.is_deref.0 {
        uaf_at_cell(cfgs, pfg, edge.from, span)
    } else {
        Seq::empty()
    };
    let second = if edge.is_deref.1 {
        uaf_at_cell(cfgs, pfg, edge.to, span)
    } else {
        Seq::empty()
    };
    lemma_uaf_at_cell(cfgs, pfg, edge.from, span, info);
    lemma_uaf_at_cell(cfgs, pfg, edge.to, span, info);
    lemma_concat_contains(first, second, info);
}

/// When a use after free is among those at the first `n` dereferencing edges.
pub proof fn lemma_uaf_at_edges(
    cfgs: &CfgTable,
    pfg: PfgView,
    edges: Seq<DerefEdgeInfo>,
    n: int,
    info: UafInfo,
)
    requires
        0 <= n <= edges.len(),
    ensures
        uaf_at_edges(cfgs, pfg, edges, n).contains(info) <==> exists|k: int|
            0 <= k < n && uaf_on_edge(cfgs, pfg, #[trigger] edges[k], info),
    decreases n,
{
    if n > 0 {
        lemma_uaf_at_edges(cfgs, pfg, edges, n - 1, info);
        lemma_uaf_at_edge(cfgs, pfg, edges[n - 1], info);
        lemma_concat_contains(
            uaf_at_edges(cfgs, pfg, edges, n - 1),
            uaf_at_edge(cfgs, pfg, edges[n - 1]),
            info,
        );
        if exists|k: int| 0 <= k < n && uaf_on_edge(cfgs, pfg, #[trigger] edges[k], info) {
            let k = choose|k: int| 0 <= k < n && uaf_on_edge(cfgs, pfg, #[trigger] edges[k], info);
            if k < n - 1 {
                assert(uaf_at_edges(cfgs, pfg, edges, n - 1).contains(info));
            }
        }
    }
}

/// The uses after free that the detector finds are the uses after free of
/// the graph.
pub proof fn lemma_found_uaf(cfgs: &CfgTable, pfg: PfgView, info: UafInfo)
    ensures
        uaf_at_edges(cfgs, pfg, pfg.deref_edges, pfg.deref_edges.len() as int).contains(info)
            <==> is_uaf(cfgs, pfg, info),
{
    lemma_uaf_at_edges(cfgs, pfg, pfg.deref_edges, pfg.deref_edges.len() as int, info);
}

/// A pair is among all pairs of two lists if and only if its first item is
/// in the first list and its second in the second.
pub proof fn lemma_product_contains<A, B>(first: Seq<A>, then: Seq<B>, x: A, y: B)
    ensures
        product(first, then).contains((x, y)) <==> first.contains(x) && then.contains(y),
{
    let pairs = product(first, then);
    let n = first.len() as int;
    let m = then.len() as int;
    if pairs.contains((x, y)) {
        let k = choose|k: int| 0 <= k < pairs.len() && pairs[k] == (x, y);
        crate::check::lemma_product_members(first, then, k);
        assert(first[k / m] == x);
        assert(then[k % m] == y);
    }
    if first.contains(x) && then.contains(y) {
        let i = choose|i: int| 0 <= i < first.len() && first[i] == x;
        let j = choose|j: int| 0 <= j < then.len() && then[j] == y;
        let k = i * m + j;
        assert(0 <= k < n * m) by (nonlinear_arith)
            requires
                0 <= i < n,
                0 <= j < m,
                k == i * m + j,
        ;
        vstd::arithmetic::div_mod::lemma_fundamental_div_mod_converse(k, m, i, j);
        assert(pairs[k] == (x, y));
    }
}

/// Whether the first destruction of `info` comes before its second: the
/// block of the second can be reached from the block of the first.
pub open spec fn in_order(cfgs: &CfgTable, info: DfInfo) -> bool {
    can_reach(cfgs, info.first_drop_span.block(), info.then_drop_span.block())
}

/// The object of `info` that is not `first`.
pub open spec fn other_of(first: DropObjectId, info: DfInfo) -> DropObjectId {
    if info.first_drop_obj_id == first {
        info.then_drop_obj_id
    } else {
        info.first_drop_obj_id
    }
}

/// Whether `info` is a double free of the two different objects `first` and
/// `then`: it names the two, each with one of its destructor sites, in the
/// one order or the other, and its first destruction comes before its second.
pub open spec fn df_between(
    cfgs: &CfgTable,
    pfg: PfgView,
    first: DropObjectId,
    then: DropObjectId,
    info: DfInfo,
) -> bool {
    &&& then != first
    &&& in_order(cfgs, info)
    &&& ({
        &&& info.first_drop_obj_id == first
        &&& info.then_drop_obj_id == then
        &&& pfg.node(first.id).cs_drop_spans.contains(info.first_drop_span)
        &&& pfg.node(then.id).cs_drop_spans.contains(info.then_drop_span)
    }) || ({
        &&& info.first_drop_obj_id == then
        &&& info.then_drop_obj_id == first
        &&& pfg.node(first.id).cs_drop_spans.contains(info.then_drop_span)
        &&& pfg.node(then.id).cs_drop_spans.contains(info.first_drop_span)
    })
}

/// Whether `info` is a double free of the multiply dropped object `first`:
/// the cell of `first` holds more than one object, among them the other
/// object of `info`, and `info` is a double free of the two.
pub open spec fn df_from(cfgs: &CfgTable, pfg: PfgView, first: DropObjectId, info: DfInfo) -> bool {
    &&& pfg.node(first.id).points_to.len() > 1
    &&& pfg.node(first.id).points_to.contains(other_of(first, info))
    &&& df_between(cfgs, pfg, first, other_of(first, info), info)
}

/// Whether `info` is a double free in the graph: one of one of its multiply
/// dropped objects.
pub open spec fn is_df(cfgs: &CfgTable, pfg: PfgView, info: DfInfo) -> bool {
    exists|k: int|
        0 <= k < pfg.multi_drop_objects.len() && df_from(
            cfgs,
            pfg,
            #[trigger] pfg.multi_drop_objects[k],
            info,
        )
}

/// The double free of `first` and `then` at a pair of sites, in the order of the pair.
pub open spec fn forward(first: DropObjectId, then: DropObjectId, pair: (CtxtSenSpanInfo, CtxtSenSpanInfo)) -> DfInfo {
    DfInfo {
        first_drop_obj_id: first,
        first_drop_span: pair.0,
        then_drop_obj_id: then,
        then_drop_span: pair.1,
    }
}

/// The double free of `first` and `then` at a pair of sites, against the order of the pair.
pub open spec fn backward(first: DropObjectId, then: DropObjectId, pair: (CtxtSenSpanInfo, CtxtSenSpanInfo)) -> DfInfo {
    DfInfo {
        first_drop_obj_id: then,
        first_drop_span: pair.1,
        then_drop_obj_id: first,
        then_drop_span: pair.0,
    }
}

/// When a double free is among those at a pair of sites.
pub proof fn lemma_df_at_pair(
    cfgs: &CfgTable,
    first: DropObjectId,
    then: DropObjectId,
    pair: (CtxtSenSpanInfo, CtxtSenSpanInfo),
    info: DfInfo,
)
    ensures
        df_at_pair(cfgs, first, then, pair).contains(info) <==> in_order(cfgs, info) && (info
            == forward(first, then, pair) || info == backward(first, then, pair)),
{
    let one = if can_reach(cfgs, pair.0.block(), pair.1.block()) {
        seq![forward(first, then, pair)]
    } else {
        Seq::empty()
    };
    let two = if can_reach(cfgs, pair.1.block(), pair.0.block()) {
        seq![backward(first, then, pair)]
    } else {
        Seq::empty()
    };
    assert(df_at_pair(cfgs, first, then, pair) == one + two);
    lemma_concat_contains(one, two, info);
    if can_reach(cfgs, pair.0.block(), pair.1.block()) && info == forward(first, then, pair) {
        assert(one[0] == info);
    }
    if can_reach(cfgs, pair.1.block(), pair.0.block()) && info == backward(first, then, pair) {
        assert(two[0] == info);
    }
}

/// When a double free is among those at the first `n` pairs of sites.
pub proof fn lemma_df_at_pairs(
    cfgs: &CfgTable,
    first: DropObjectId,
    then: DropObjectId,
    pairs: Seq<(CtxtSenSpanInfo, CtxtSenSpanInfo)>,
    n: int,
    info: DfInfo,
)
    requires
        0 <= n <= pairs.len(),
    ensures
        df_at_pairs(cfgs, first, then, pairs, n).contains(info) <==> in_order(cfgs, info) && ((
        info.first_drop_obj_id == first && info.then_drop_obj_id == then && pairs.take(n).contains(
            (info.first_drop_span, info.then_drop_span),
        )) || (info.first_drop_obj_id == then && info.then_drop_obj_id == first && pairs.take(
            n,
        ).contains((info.then_drop_span, info.first_drop_span)))),
    decreases n,
{
    if n <= 0 {
        assert(pairs.take(0) =~= Seq::<(CtxtSenSpanInfo, CtxtSenSpanInfo)>::empty());
    } else {
        lemma_df_at_pairs(cfgs, first, then, pairs, n - 1, info);
        lemma_df_at_pair(cfgs, first, then, pairs[n - 1], info);
        lemma_take_contains(pairs, n, (info.first_drop_span, info.then_drop_span));
        lemma_take_contains(pairs, n, (info.then_drop_span, info.first_drop_span));
        lemma_concat_contains(
            df_at_pairs(cfgs, first, then, pairs, n - 1),
            df_at_pair(cfgs, first, then, pairs[n - 1]),
            info,
        );
    }
}

/// When a double free is among those of `first` with `then`.
pub proof fn lemma_df_with(
    cfgs: &CfgTable,
    pfg: PfgView,
    first: DropObjectId,
    then: DropObjectId,
    info: DfInfo,
)
    ensures
        df_with(cfgs, pfg, first, then).contains(info) <==> df_between(cfgs, pfg, first, then, info),
{
    if then != first {
        let first_sites = pfg.node(first.id).cs_drop_spans;
        let then_sites = pfg.node(then.id).cs_drop_spans;
        let pairs = product(first_sites, then_sites);
        lemma_df_at_pairs(cfgs, first, then, pairs, pairs.len() as int, info);
        assert(pairs.take(pairs.len() as int) =~= pairs);
        lemma_product_contains(
            first_sites,
            then_sites,
            info.first_drop_span,
            info.then_drop_span,
        );
        lemma_product_contains(
            first_sites,
            then_sites,
            info.then_drop_span,
            info.first_drop_span,
        );
    }
}

/// When a double free is among those of `first` with the first `n` objects.
pub proof fn lemma_df_with_all(
    cfgs: &CfgTable,
    pfg: PfgView,
    first: DropObjectId,
    others: Seq<DropObjectId>,
    n: int,
    info: DfInfo,
)
    requires
        0 <= n <= others.len(),
    ensures
        df_with_all(cfgs, pfg, first, others, n).contains(info) <==> others.take(n).contains(
            other_of(first, info),
        ) && df_between(cfgs, pfg, first, other_of(first, info), info),
    decreases n,
{
    if n <= 0 {
        assert(others.take(0) =~= Seq::<DropObjectId>::empty());
    } else {
        lemma_df_with_all(cfgs, pfg, first, others, n - 1, info);
        lemma_df_with(cfgs, pfg, first, others[n - 1], info);
        lemma_take_contains(others, n, other_of(first, info));
        lemma_concat_contains(
            df_with_all(cfgs, pfg, first, others, n - 1),
            df_with(cfgs, pfg, first, others[n - 1]),
            info,
        );
    }
}

/// When a double free is among those of a multiply dropped object.
pub proof fn lemma_df_of(cfgs: &CfgTable, pfg: PfgView, first: DropObjectId, info: DfInfo)
    ensures
        df_of(cfgs, pfg, first).contains(info) <==> df_from(cfgs, pfg, first, info),
{
    let objects = pfg.node(first.id).points_to;
    if objects.len() > 1 {
        lemma_df_with_all(cfgs, pfg, first, objects, objects.len() as int, info);
        assert(objects.take(objects.len() as int) =~= objects);
    }
}

/// When a double free is among those of the first `n` multiply dropped objects.
pub proof fn lemma_df_of_all(
    cfgs: &CfgTable,
    pfg: PfgView,
    objects: Seq<DropObjectId>,
    n: int,
    info: DfInfo,
)
    requires
        0 <= n <= objects.len(),
    ensures
        df_of_all(cfgs, pfg, objects, n).contains(info) <==> exists|k: int|
            0 <= k < n && df_from(cfgs, pfg, #[trigger] objects[k], info),
    decreases n,
{
    if n > 0 {
        lemma_df_of_all(cfgs, pfg, objects, n - 1, info);
        lemma_df_of(cfgs, pfg, objects[n - 1], info);
        lemma_concat_contains(
            df_of_all(cfgs, pfg, objects, n - 1),
            df_of(cfgs, pfg, objects[n - 1]),
            info,
        );
        if exists|k: int| 0 <= k < n && df_from(cfgs, pfg, #[trigger] objects[k], info) {
            let k = choose|k: int| 0 <= k < n && df_from(cfgs, pfg, #[trigger] objects[k], info);
            if k < n - 1 {
                assert(df_of_all(cfgs, pfg, objects, n - 1).contains(info));
            }
        }
    }
}

/// The double frees that the detector finds are the double frees of the graph.
pub proof fn lemma_found_df(cfgs: &CfgTable, pfg: PfgView, info: DfInfo)
    ensures
        df_of_all(cfgs, pfg, pfg.multi_drop_objects, pfg.multi_drop_objects.len() as int).contains(
            info,
        ) <==> is_df(cfgs, pfg, info),
{
    lemma_df_of_all(
        cfgs,
        pfg,
        pfg.multi_drop_objects,
        pfg.multi_drop_objects.len() as int,
        info,
    );
}

/// A use is reported only after the destruction: the two lie in different
/// blocks, and the block of the use can be reached from the block of the
/// destruction. A read that comes before the drop of what it reads is no
/// finding.
pub proof fn lemma_uaf_comes_after(cfgs: &CfgTable, pfg: PfgView, info: UafInfo)
    requires
        is_uaf(cfgs, pfg, info),
    ensures
        info.drop_span.block() != info.deref_span.block(),
        can_reach(cfgs, info.drop_span.block(), info.deref_span.block()),
        pfg.node(info.deref_proj_id).points_to.contains(info.drop_obj_id),
{
}

/// Two destructions are paired only if they are of two different objects
/// and the second can be reached from the first. Destructions in branches
/// that do not lead to each other are no finding, and neither are two
/// destructions of one cell.
pub proof fn lemma_df_comes_in_order(cfgs: &CfgTable, pfg: PfgView, info: DfInfo)
    requires
        is_df(cfgs, pfg, info),
    ensures
        info.first_drop_obj_id != info.then_drop_obj_id,
        can_reach(cfgs, info.first_drop_span.block(), info.then_drop_span.block()),
        pfg.node(info.first_drop_obj_id.id).cs_drop_spans.contains(info.first_drop_span),
        pfg.node(info.then_drop_obj_id.id).cs_drop_spans.contains(info.then_drop_span),
{
    let k = choose|k: int|
        0 <= k < pfg.multi_drop_objects.len() && df_from(
            cfgs,
            pfg,
            #[trigger] pfg.multi_drop_objects[k],
            info,
        );
    let first = pfg.multi_drop_objects[k];
    assert(df_between(cfgs, pfg, first, other_of(first, info), info));
}

} // verus!
