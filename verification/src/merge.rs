//! The merger: the findings of all analysis runs, grouped by the pair of
//! source locations they name, with the named variables where they are known.

use vstd::prelude::*;
use crate::cfg::CfgTable;
use crate::check::{check_info_known, known_slot, CheckInfo, DfInfo, UafInfo};
use crate::ids::{DefId, GlobalLocalId, Span};


verus! {

/// A finding as the merger handles it: two source locations, each with the
/// name of the variable that it is about, where that is known.
pub struct Finding {
    pub first_span: Span,
    pub first_name: Option<String>,
    pub second_span: Span,
    pub second_name: Option<String>,
}

/// A `Finding` as a mathematical value.
pub struct FindingView {
    pub first_span: Span,
    pub first_name: Option<Seq<char>>,
    pub second_span: Span,
    pub second_name: Option<Seq<char>>,
}

/// The characters of a name, if there is one.
pub open spec fn name_view(name: Option<String>) -> Option<Seq<char>> {
    match name {
        Some(name) => Some(name@),
        None => None,
    }
}

impl View for Finding {
    type V = FindingView;

    open spec fn view(&self) -> FindingView {
        FindingView {
            first_span: self.first_span,
            first_name: name_view(self.first_name),
            second_span: self.second_span,
            second_name: name_view(self.second_name),
        }
    }
}

impl FindingView {
    /// The pair of locations that the finding names.
    pub open spec fn key(self) -> (Span, Span) {
        (self.first_span, self.second_span)
    }

    /// Whether the finding names a variable.
    pub open spec fn has_var_name(self) -> bool {
        self.first_name is Some || self.second_name is Some
    }
}

/// Whether the merger keeps the finding `f` of `all`: it names a variable,
/// or no finding of `all` with the same pair of locations names one.
pub open spec fn kept(all: Seq<FindingView>, f: FindingView) -> bool {
    all.contains(f) && (f.has_var_name() || forall|k: int|
        0 <= k < all.len() && (#[trigger] all[k]).key() == f.key() ==> !all[k].has_var_name())
}

/// The findings with one pair of locations.
pub struct Bucket {
    pub key: (Span, Span),
    pub items: Vec<Finding>,
}

/// A `Bucket` as a mathematical value.
pub struct BucketView {
    pub key: (Span, Span),
    pub items: Seq<FindingView>,
}

impl View for Bucket {
    type V = BucketView;

    open spec fn view(&self) -> BucketView {
        BucketView { key: self.key, items: self.items@.map_values(|f: Finding| f@) }
    }
}

/// The buckets as mathematical values.
pub open spec fn buckets_view(buckets: Seq<Bucket>) -> Seq<BucketView> {
    buckets.map_values(|b: Bucket| b@)
}

/// Whether `buckets` is what merging `all` gives: there is one bucket for
/// every pair of locations, each bucket holds findings of its pair, each
/// once and at least one, and the buckets hold the kept findings and no others.
pub open spec fn merged(all: Seq<FindingView>, buckets: Seq<BucketView>) -> bool {
    &&& forall|i: int, j: int|
        0 <= i < j < buckets.len() ==> (#[trigger] buckets[i]).key != (#[trigger] buckets[j]).key
    &&& forall|i: int|
        0 <= i < buckets.len() ==> (#[trigger] buckets[i]).items.no_duplicates()
            && buckets[i].items.len() > 0
    &&& forall|i: int, k: int|
        0 <= i < buckets.len() && 0 <= k < buckets[i].items.len() ==> (
        #[trigger] buckets[i].items[k]).key() == buckets[i].key && kept(all, buckets[i].items[k])
    &&& forall|f: FindingView| #[trigger]
        kept(all, f) ==> exists|i: int|
            0 <= i < buckets.len() && (#[trigger] buckets[i]).key == f.key()
                && buckets[i].items.contains(f)
}

/// Whether two names are the same.
fn same_name(a: &Option<String>, b: &Option<String>) -> (same: bool)
    ensures
        same == (name_view(*a) == name_view(*b)),
{
    match (a, b) {
        (Some(x), Some(y)) => crate::utils::same_text(x.as_str(), y.as_str()),
        (None, None) => true,
        _ => false,
    }
}

/// A copy of a name.
fn copy_name(name: &Option<String>) -> (copy: Option<String>)
    ensures
        name_view(copy) == name_view(*name),
{
    match name {
        Some(name) => Some(name.clone()),
        None => None,
    }
}

impl Finding {
    pub fn has_var_name(&self) -> (named: bool)
        ensures
            named == self@.has_var_name(),
    {
        self.first_name.is_some() || self.second_name.is_some()
    }

    fn is_same(&self, other: &Finding) -> (same: bool)
        ensures
            same == (self@ == other@),
    {
        self.first_span == other.first_span && self.second_span == other.second_span && same_name(
            &self.first_name,
            &other.first_name,
        ) && same_name(&self.second_name, &other.second_name)
    }

    fn duplicate(&self) -> (copy: Finding)
        ensures
            copy@ == self@,
    {
        Finding {
            first_span: self.first_span,
            first_name: copy_name(&self.first_name),
            second_span: self.second_span,
            second_name: copy_name(&self.second_name),
        }
    }
}

/// The position of the bucket for `key`, if there is one.
fn find_bucket(buckets: &Vec<Bucket>, key: (Span, Span)) -> (found: Option<usize>)
    ensures
        match found {
            Some(at) => at < buckets@.len() && buckets@[at as int].key == key,
            None => forall|i: int| 0 <= i < buckets@.len() ==> (#[trigger] buckets@[i]).key != key,
        },
{
    let mut i: usize = 0;
    while i < buckets.len()
        invariant
            i <= buckets.len(),
            forall|j: int| 0 <= j < i ==> (#[trigger] buckets@[j]).key != key,
        decreases buckets.len() - i,
    {
        if buckets[i].key.0 == key.0 && buckets[i].key.1 == key.1 {
            return Some(i);
        }
        i = i + 1;
    }
    None
}

/// Whether one of `items` is the finding `f`.
fn holds_finding(items: &Vec<Finding>, f: &Finding) -> (found: bool)
    ensures
        found == items@.map_values(|g: Finding| g@).contains(f@),
{
    let ghost views = items@.map_values(|g: Finding| g@);
    let mut i: usize = 0;
    while i < items.len()
        invariant
            i <= items.len(),
            views == items@.map_values(|g: Finding| g@),
            forall|j: int| 0 <= j < i ==> views[j] != f@,
        decreases items.len() - i,
    {
        if items[i].is_same(f) {
            assert(views[i as int] == f@);
            return true;
        }
        i = i + 1;
    }
    false
}


/// What a list with one more item holds.
proof fn lemma_push_contains<A>(all: Seq<A>, f: A, g: A)
    ensures
        all.push(f).contains(g) <==> (all.contains(g) || g == f),
{
    if all.push(f).contains(g) {
        let k = choose|k: int| 0 <= k < all.push(f).len() && all.push(f)[k] == g;
        if k < all.len() {
            assert(all[k] == g);
        }
    }
    if all.contains(g) {
        let k = choose|k: int| 0 <= k < all.len() && all[k] == g;
        assert(all.push(f)[k] == g);
    }
    if g == f {
        assert(all.push(f)[all.len() as int] == g);
    }
}

/// Which findings are kept when one more finding comes.
proof fn lemma_kept_push(all: Seq<FindingView>, f: FindingView, g: FindingView)
    ensures
        kept(all.push(f), g) <==> {
            &&& all.contains(g) || g == f
            &&& g.has_var_name() || (!(f.key() == g.key() && f.has_var_name()) && forall|k: int|
                0 <= k < all.len() && (#[trigger] all[k]).key() == g.key() ==> !all[k].has_var_name())
        },
{
    let more = all.push(f);
    lemma_push_contains(all, f, g);
    if forall|k: int| 0 <= k < more.len() && (#[trigger] more[k]).key() == g.key() ==> !more[k].has_var_name() {
        assert(more[all.len() as int] == f);
        assert forall|k: int| 0 <= k < all.len() && (#[trigger] all[k]).key() == g.key() implies !all[k].has_var_name() by {
            assert(more[k] == all[k]);
        }
    }
    if !(f.key() == g.key() && f.has_var_name()) && forall|k: int|
        0 <= k < all.len() && (#[trigger] all[k]).key() == g.key() ==> !all[k].has_var_name() {
        assert forall|k: int| 0 <= k < more.len() && (#[trigger] more[k]).key() == g.key() implies !more[k].has_var_name() by {
            if k < all.len() {
                assert(more[k] == all[k]);
            }
        }
    }
}

/// If a finding of `all` has the pair of locations `key`, a kept one has it.
proof fn lemma_some_kept(all: Seq<FindingView>, k: int) -> (g: FindingView)
    requires
        0 <= k < all.len(),
    ensures
        kept(all, g),
        g.key() == all[k].key(),
{
    if exists|j: int| 0 <= j < all.len() && (#[trigger] all[j]).key() == all[k].key() && all[j].has_var_name() {
        let j = choose|j: int|
            0 <= j < all.len() && (#[trigger] all[j]).key() == all[k].key() && all[j].has_var_name();
        all[j]
    } else {
        all[k]
    }
}

/// Without a bucket for a pair of locations, no finding has that pair.
proof fn lemma_no_bucket_no_finding(all: Seq<FindingView>, buckets: Seq<BucketView>, key: (Span, Span))
    requires
        merged(all, buckets),
        forall|i: int| 0 <= i < buckets.len() ==> (#[trigger] buckets[i]).key != key,
    ensures
        forall|k: int| 0 <= k < all.len() ==> (#[trigger] all[k]).key() != key,
{
    assert forall|k: int| 0 <= k < all.len() implies (#[trigger] all[k]).key() != key by {
        if all[k].key() == key {
            let g = lemma_some_kept(all, k);
            assert(kept(all, g));
        }
    }
}

/// The first finding with its pair of locations opens a bucket.
proof fn lemma_merged_new_bucket(all: Seq<FindingView>, buckets: Seq<BucketView>, f: FindingView)
    requires
        merged(all, buckets),
        forall|i: int| 0 <= i < buckets.len() ==> (#[trigger] buckets[i]).key != f.key(),
    ensures
        merged(all.push(f), buckets.push(BucketView { key: f.key(), items: seq![f] })),
{
    let more = all.push(f);
    let after = buckets.push(BucketView { key: f.key(), items: seq![f] });
    let at = buckets.len() as int;
    lemma_no_bucket_no_finding(all, buckets, f.key());
    assert forall|i: int, k: int|
        0 <= i < after.len() && 0 <= k < after[i].items.len() implies (
    #[trigger] after[i].items[k]).key() == after[i].key && kept(more, after[i].items[k]) by {
        let g = after[i].items[k];
        lemma_kept_push(all, f, g);
        if i < at {
            assert(kept(all, buckets[i].items[k]));
        }
    }
    assert forall|g: FindingView| #[trigger] kept(more, g) implies exists|i: int|
        0 <= i < after.len() && (#[trigger] after[i]).key == g.key() && after[i].items.contains(
            g,
        ) by {
        lemma_kept_push(all, f, g);
        if g == f {
            assert(after[at].items[0] == g);
            assert(after[at].key == g.key());
        } else {
            assert(kept(all, g));
            let i = choose|i: int|
                0 <= i < buckets.len() && (#[trigger] buckets[i]).key == g.key()
                    && buckets[i].items.contains(g);
            assert(after[i] == buckets[i]);
        }
    }
}

/// A finding without a name changes nothing where its bucket is open.
proof fn lemma_merged_nameless(all: Seq<FindingView>, buckets: Seq<BucketView>, f: FindingView, at: int)
    requires
        merged(all, buckets),
        0 <= at < buckets.len(),
        buckets[at].key == f.key(),
        !f.has_var_name(),
    ensures
        merged(all.push(f), buckets),
{
    let more = all.push(f);
    assert forall|i: int, k: int|
        0 <= i < buckets.len() && 0 <= k < buckets[i].items.len() implies (
    #[trigger] buckets[i].items[k]).key() == buckets[i].key && kept(more, buckets[i].items[k]) by {
        lemma_kept_push(all, f, buckets[i].items[k]);
        assert(kept(all, buckets[i].items[k]));
    }
    assert forall|g: FindingView| #[trigger] kept(more, g) implies exists|i: int|
        0 <= i < buckets.len() && (#[trigger] buckets[i]).key == g.key() && buckets[i].items.contains(
            g,
        ) by {
        lemma_kept_push(all, f, g);
        if all.contains(g) {
            assert(kept(all, g));
        } else {
            let first = buckets[at].items[0];
            assert(kept(all, first) && first.key() == f.key());
            let k = choose|k: int| 0 <= k < all.len() && all[k] == first;
            assert(!all[k].has_var_name());
            assert(first == f);
            assert(buckets[at].items.contains(f));
        }
    }
}

/// A finding with a name takes the place of one without.
proof fn lemma_merged_replace(all: Seq<FindingView>, buckets: Seq<BucketView>, f: FindingView, at: int)
    requires
        merged(all, buckets),
        0 <= at < buckets.len(),
        buckets[at].key == f.key(),
        f.has_var_name(),
        buckets[at].items.len() == 1,
        !buckets[at].items[0].has_var_name(),
    ensures
        merged(all.push(f), buckets.update(at, BucketView { key: f.key(), items: seq![f] })),
{
    let more = all.push(f);
    let after = buckets.update(at, BucketView { key: f.key(), items: seq![f] });
    let gone = buckets[at].items[0];
    assert(kept(all, gone) && gone.key() == f.key());
    assert forall|i: int, j: int| 0 <= i < j < after.len() implies (#[trigger] after[i]).key != (
    #[trigger] after[j]).key by {
        assert(buckets[i].key != buckets[j].key);
    }
    assert forall|i: int, k: int|
        0 <= i < after.len() && 0 <= k < after[i].items.len() implies (
    #[trigger] after[i].items[k]).key() == after[i].key && kept(more, after[i].items[k]) by {
        let g = after[i].items[k];
        lemma_kept_push(all, f, g);
        if i != at {
            assert(kept(all, buckets[i].items[k]));
            assert(buckets[i].key != buckets[at].key);
        }
    }
    assert forall|g: FindingView| #[trigger] kept(more, g) implies exists|i: int|
        0 <= i < after.len() && (#[trigger] after[i]).key == g.key() && after[i].items.contains(
            g,
        ) by {
        lemma_kept_push(all, f, g);
        if g == f {
            assert(after[at].items[0] == g);
            assert(after[at].key == g.key());
        } else {
            if g.key() == f.key() {
                let k = choose|k: int| 0 <= k < all.len() && all[k] == g;
                assert(!all[k].has_var_name());
            }
            assert(kept(all, g));
            let i = choose|i: int|
                0 <= i < buckets.len() && (#[trigger] buckets[i]).key == g.key()
                    && buckets[i].items.contains(g);
            assert(i != at);
            assert(after[i] == buckets[i]);
        }
    }
}

/// A finding with a name joins the named findings of its bucket.
proof fn lemma_merged_join(all: Seq<FindingView>, buckets: Seq<BucketView>, f: FindingView, at: int)
    requires
        merged(all, buckets),
        0 <= at < buckets.len(),
        buckets[at].key == f.key(),
        f.has_var_name(),
        !(buckets[at].items.len() == 1 && !buckets[at].items[0].has_var_name()),
    ensures
        buckets[at].items.contains(f) ==> merged(all.push(f), buckets),
        !buckets[at].items.contains(f) ==> merged(
            all.push(f),
            buckets.update(at, BucketView { key: f.key(), items: buckets[at].items.push(f) }),
        ),
{
    let more = all.push(f);
    let items = buckets[at].items;
    assert forall|k: int| 0 <= k < items.len() implies (#[trigger] items[k]).has_var_name() by {
        if !items[k].has_var_name() {
            assert(kept(all, buckets[at].items[k]));
            assert forall|m: int| 0 <= m < items.len() implies #[trigger] items[m] == items[k] by {
                assert(kept(all, buckets[at].items[m]) && buckets[at].items[m].key() == f.key());
                let j = choose|j: int| 0 <= j < all.len() && all[j] == items[m];
                assert(!all[j].has_var_name());
            }
            if items.len() > 1 {
                assert(items[0] == items[k] && items[1] == items[k]);
            }
            assert(items[0] == items[k]);
        }
    }
    let after = if items.contains(f) {
        buckets
    } else {
        buckets.update(at, BucketView { key: f.key(), items: items.push(f) })
    };
    assert forall|i: int, j: int| 0 <= i < j < after.len() implies (#[trigger] after[i]).key != (
    #[trigger] after[j]).key by {
        assert(buckets[i].key != buckets[j].key);
    }
    assert forall|i: int| 0 <= i < after.len() implies (#[trigger] after[i]).items.no_duplicates()
        && after[i].items.len() > 0 by {
        assert(buckets[i].items.no_duplicates() && buckets[i].items.len() > 0);
        if i == at && !items.contains(f) {
            assert forall|a: int, b: int|
                0 <= a < after[i].items.len() && 0 <= b < after[i].items.len() && a
                    != b implies after[i].items[a] != after[i].items[b] by {
                if a < items.len() && b < items.len() {
                } else if a < items.len() {
                    assert(items[a] != f);
                } else {
                    assert(items[b] != f);
                }
            }
        }
    }
    assert forall|i: int, k: int|
        0 <= i < after.len() && 0 <= k < after[i].items.len() implies (
    #[trigger] after[i].items[k]).key() == after[i].key && kept(more, after[i].items[k]) by {
        let g = after[i].items[k];
        lemma_kept_push(all, f, g);
        if i == at && k >= items.len() {
        } else {
            assert(kept(all, buckets[i].items[k]));
            if i == at {
                assert(items[k].has_var_name());
            } else {
                assert(buckets[i].key != buckets[at].key);
            }
        }
    }
    assert forall|g: FindingView| #[trigger] kept(more, g) implies exists|i: int|
        0 <= i < after.len() && (#[trigger] after[i]).key == g.key() && after[i].items.contains(
            g,
        ) by {
        lemma_kept_push(all, f, g);
        if g == f {
            assert(after[at].key == g.key());
            if !items.contains(f) {
                assert(after[at].items[items.len() as int] == f);
            }
            assert(after[at].items.contains(g));
        } else {
            assert(all.contains(g));
            assert(kept(all, g));
            let i = choose|i: int|
                0 <= i < buckets.len() && (#[trigger] buckets[i]).key == g.key()
                    && buckets[i].items.contains(g);
            if i == at {
                let k = choose|k: int| 0 <= k < items.len() && items[k] == g;
                assert(after[at].items[k] == g);
                assert(after[at].items.contains(g));
                assert(after[at].key == g.key());
            } else {
                assert(after[i] == buckets[i]);
            }
        }
    }
}


/// Merges one more finding into the buckets.
fn add_finding(buckets: &mut Vec<Bucket>, f: Finding, Ghost(all): Ghost<Seq<FindingView>>)
    requires
        merged(all, buckets_view(old(buckets)@)),
    ensures
        merged(all.push(f@), buckets_view(final(buckets)@)),
{
    let ghost before = buckets_view(buckets@);
    let ghost fv = f@;
    match find_bucket(buckets, (f.first_span, f.second_span)) {
        None => {
            proof {
                assert forall|i: int| 0 <= i < before.len() implies (#[trigger] before[i]).key
                    != fv.key() by {
                    assert(before[i].key == buckets@[i].key);
                }
                lemma_merged_new_bucket(all, before, fv);
            }
            let key = (f.first_span, f.second_span);
            let mut items: Vec<Finding> = Vec::new();
            items.push(f);
            let bucket = Bucket { key, items };
            assert(bucket@.items =~= seq![fv]);
            buckets.push(bucket);
            assert(buckets_view(buckets@) =~= before.push(BucketView { key: fv.key(), items: seq![fv] }));
        },
        Some(at) => {
            assert(before[at as int] == buckets@[at as int]@);
            if f.has_var_name() {
                if buckets[at].items.len() == 1 && !buckets[at].items[0].has_var_name() {
                    proof {
                        assert(before[at as int].items[0] == buckets@[at as int].items@[0]@);
                        lemma_merged_replace(all, before, fv, at as int);
                    }
                    buckets[at].items.clear();
                    buckets[at].items.push(f);
                    assert(buckets@[at as int]@.items =~= seq![fv]);
                    assert(buckets_view(buckets@) =~= before.update(
                        at as int,
                        BucketView { key: fv.key(), items: seq![fv] },
                    ));
                } else {
                    proof {
                        if buckets@[at as int].items@.len() == 1 {
                            assert(before[at as int].items[0] == buckets@[at as int].items@[0]@);
                        }
                        lemma_merged_join(all, before, fv, at as int);
                    }
                    if !holds_finding(&buckets[at].items, &f) {
                        buckets[at].items.push(f);
                        assert(buckets@[at as int]@.items =~= before[at as int].items.push(fv));
                        assert(buckets_view(buckets@) =~= before.update(
                            at as int,
                            BucketView { key: fv.key(), items: before[at as int].items.push(fv) },
                        ));
                    }
                }
            } else {
                proof {
                    lemma_merged_nameless(all, before, fv, at as int);
                }
            }
        },
    }
}

/// The findings as mathematical values.
pub open spec fn findings_view(findings: Seq<Finding>) -> Seq<FindingView> {
    findings.map_values(|f: Finding| f@)
}

/// Groups the findings by the pair of locations that they name. Of the
/// findings with one pair, those that name a variable are kept, each once; if
/// none names one, the finding without a name is kept.
pub fn merge_findings(findings: &Vec<Finding>) -> (buckets: Vec<Bucket>)
    ensures
        merged(findings_view(findings@), buckets_view(buckets@)),
{
    let mut buckets: Vec<Bucket> = Vec::new();
    let mut i: usize = 0;
    assert(findings_view(findings@).take(0) =~= Seq::<FindingView>::empty());
    assert(buckets_view(buckets@) =~= Seq::<BucketView>::empty());
    assert(merged(Seq::<FindingView>::empty(), buckets_view(buckets@))) by {
        assert forall|f: FindingView| #[trigger]
            kept(Seq::<FindingView>::empty(), f) implies false by {}
    }
    while i < findings.len()
        invariant
            i <= findings.len(),
            merged(findings_view(findings@).take(i as int), buckets_view(buckets@)),
        decreases findings.len() - i,
    {
        let ghost all = findings_view(findings@).take(i as int);
        add_finding(&mut buckets, findings[i].duplicate(), Ghost(all));
        assert(findings_view(findings@).take(i + 1) =~= all.push(findings@[i as int]@));
        i = i + 1;
    }
    assert(findings_view(findings@).take(findings@.len() as int) =~= findings_view(findings@));
    buckets
}


/// A use after free as it is reported: where the object is read through, where
/// it is destructed, and the variables concerned, where they are known.
#[derive(Debug)]
pub struct UafResult {
    pub deref_span: Span,
    pub deref_var_name: Option<String>,
    pub drop_span: Span,
    pub drop_var_name: Option<String>,
}

impl View for UafResult {
    type V = FindingView;

    open spec fn view(&self) -> FindingView {
        FindingView {
            first_span: self.deref_span,
            first_name: name_view(self.deref_var_name),
            second_span: self.drop_span,
            second_name: name_view(self.drop_var_name),
        }
    }
}

impl UafResult {
    pub fn new(
        deref_span: Span,
        deref_var_name: Option<String>,
        drop_span: Span,
        drop_var_name: Option<String>,
    ) -> (result: Self)
        ensures
            result == (UafResult { deref_span, deref_var_name, drop_span, drop_var_name }),
    {
        Self { deref_span, deref_var_name, drop_span, drop_var_name }
    }

    pub fn has_var_name(&self) -> (named: bool)
        ensures
            named == self@.has_var_name(),
    {
        self.deref_var_name.is_some() || self.drop_var_name.is_some()
    }
}

/// The two locations of a use after free.
#[derive(Clone, Copy, Debug, PartialEq, Eq, Hash, Structural)]
pub struct UafSpan {
    pub deref_span: Span,
    pub drop_span: Span,
}

impl UafSpan {
    pub fn new(deref_span: Span, drop_span: Span) -> (span: Self)
        ensures
            span == (UafSpan { deref_span, drop_span }),
    {
        Self { deref_span, drop_span }
    }
}

/// A double free as it is reported: where the object is destructed first,
/// where it is destructed again, and the variables concerned, where they are
/// known.
#[derive(Debug)]
pub struct DfResult {
    pub first_drop_span: Span,
    pub first_drop_var_name: Option<String>,
    pub then_drop_span: Span,
    pub then_drop_var_name: Option<String>,
}

impl View for DfResult {
    type V = FindingView;

    open spec fn view(&self) -> FindingView {
        FindingView {
            first_span: self.first_drop_span,
            first_name: name_view(self.first_drop_var_name),
            second_span: self.then_drop_span,
            second_name: name_view(self.then_drop_var_name),
        }
    }
}

impl DfResult {
    pub fn new(
        first_drop_span: Span,
        first_drop_var_name: Option<String>,
        then_drop_span: Span,
        then_drop_var_name: Option<String>,
    ) -> (result: Self)
        ensures
            result == (DfResult {
                first_drop_span,
                first_drop_var_name,
                then_drop_span,
                then_drop_var_name,
            }),
    {
        Self { first_drop_span, first_drop_var_name, then_drop_span, then_drop_var_name }
    }

    pub fn has_var_name(&self) -> (named: bool)
        ensures
            named == self@.has_var_name(),
    {
        self.first_drop_var_name.is_some() || self.then_drop_var_name.is_some()
    }
}

/// The two locations of a double free.
#[derive(Clone, Copy, Debug, PartialEq, Eq, Hash, Structural)]
pub struct DfSpan {
    pub first_drop_span: Span,
    pub then_drop_span: Span,
}

impl DfSpan {
    pub fn new(first_drop_span: Span, then_drop_span: Span) -> (span: Self)
        ensures
            span == (DfSpan { first_drop_span, then_drop_span }),
    {
        Self { first_drop_span, then_drop_span }
    }
}

/// The merged findings: for every pair of locations, the findings that are
/// reported for it.
#[derive(Debug)]
pub struct CheckResult {
    pub uaf_results: Vec<(UafSpan, Vec<UafResult>)>,
    pub df_results: Vec<(DfSpan, Vec<DfResult>)>,
}

impl CheckResult {
    pub fn new() -> (result: Self)
        ensures
            result.uaf_results@.len() == 0,
            result.df_results@.len() == 0,
    {
        Self { uaf_results: Vec::new(), df_results: Vec::new() }
    }
}

impl CheckResult {
    /// Whether a finding is reported: some entry holds one.
    pub open spec fn reports(&self) -> bool {
        ||| exists|i: int|
            0 <= i < self.uaf_results@.len() && (#[trigger] self.uaf_results@[i]).1@.len() > 0
        ||| exists|i: int|
            0 <= i < self.df_results@.len() && (#[trigger] self.df_results@[i]).1@.len() > 0
    }

    /// Whether a finding is reported. Where one is, the program ends with a
    /// status other than zero.
    pub fn has_findings(&self) -> (found: bool)
        ensures
            found == self.reports(),
    {
        let mut i: usize = 0;
        while i < self.uaf_results.len()
            invariant
                i <= self.uaf_results.len(),
                forall|j: int| 0 <= j < i ==> (#[trigger] self.uaf_results@[j]).1@.len() == 0,
            decreases self.uaf_results.len() - i,
        {
            if self.uaf_results[i].1.len() > 0 {
                return true;
            }
            i = i + 1;
        }
        let mut k: usize = 0;
        while k < self.df_results.len()
            invariant
                k <= self.df_results.len(),
                forall|j: int|
                    0 <= j < self.uaf_results@.len() ==> (#[trigger] self.uaf_results@[j]).1@.len()
                        == 0,
                forall|j: int| 0 <= j < k ==> (#[trigger] self.df_results@[j]).1@.len() == 0,
            decreases self.df_results.len() - k,
        {
            if self.df_results[k].1.len() > 0 {
                return true;
            }
            k = k + 1;
        }
        false
    }
}

/// The reported uses after free as buckets.
pub open spec fn uaf_buckets(results: Seq<(UafSpan, Vec<UafResult>)>) -> Seq<BucketView> {
    results.map_values(
        |entry: (UafSpan, Vec<UafResult>)|
            BucketView {
                key: (entry.0.deref_span, entry.0.drop_span),
                items: entry.1@.map_values(|r: UafResult| r@),
            },
    )
}

/// The reported double frees as buckets.
pub open spec fn df_buckets(results: Seq<(DfSpan, Vec<DfResult>)>) -> Seq<BucketView> {
    results.map_values(
        |entry: (DfSpan, Vec<DfResult>)|
            BucketView {
                key: (entry.0.first_drop_span, entry.0.then_drop_span),
                items: entry.1@.map_values(|r: DfResult| r@),
            },
    )
}

/// The name of the variable that a storage slot stands for, if it has one.
pub open spec fn var_name(cfgs: &CfgTable, slot: GlobalLocalId) -> Option<Seq<char>> {
    name_view(cfgs.cfg(slot.def_id).local_infos@[slot.local_id as int].var_name)
}

/// A use after free as a finding: its two locations with the names of the
/// variables of its two cells.
pub open spec fn uaf_finding(cfgs: &CfgTable, info: UafInfo) -> FindingView {
    FindingView {
        first_span: info.deref_span.span,
        first_name: var_name(cfgs, info.deref_proj_id.g_local_id),
        second_span: info.drop_span.span,
        second_name: var_name(cfgs, info.drop_obj_id.id.g_local_id),
    }
}

/// A double free as a finding.
pub open spec fn df_finding(cfgs: &CfgTable, info: DfInfo) -> FindingView {
    FindingView {
        first_span: info.first_drop_span.span,
        first_name: var_name(cfgs, info.first_drop_obj_id.id.g_local_id),
        second_span: info.then_drop_span.span,
        second_name: var_name(cfgs, info.then_drop_obj_id.id.g_local_id),
    }
}

/// The uses after free of the first `n` runs as findings, in their order.
pub open spec fn raw_uaf(cfgs: &CfgTable, check_infos: Seq<(DefId, CheckInfo)>, n: int) -> Seq<
    FindingView,
>
    decreases n,
{
    if n <= 0 {
        Seq::empty()
    } else {
        raw_uaf(cfgs, check_infos, n - 1) + check_infos[n - 1].1.uaf_infos@.map_values(
            |info: UafInfo| uaf_finding(cfgs, info),
        )
    }
}

/// The double frees of the first `n` runs as findings, in their order.
pub open spec fn raw_df(cfgs: &CfgTable, check_infos: Seq<(DefId, CheckInfo)>, n: int) -> Seq<
    FindingView,
>
    decreases n,
{
    if n <= 0 {
        Seq::empty()
    } else {
        raw_df(cfgs, check_infos, n - 1) + check_infos[n - 1].1.df_infos@.map_values(
            |info: DfInfo| df_finding(cfgs, info),
        )
    }
}

/// The name of the variable that `slot` stands for, if it has one.
fn get_var_name(cfgs: &CfgTable, slot: GlobalLocalId) -> (name: Option<String>)
    requires
        known_slot(cfgs, slot),
    ensures
        name_view(name) == var_name(cfgs, slot),
{
    copy_name(&cfgs.get(slot.def_id).local_infos[slot.local_id].var_name)
}

/// The findings of all runs, in their order.
fn raw_findings(cfgs: &CfgTable, check_infos: &Vec<(DefId, CheckInfo)>) -> (raw: (
    Vec<Finding>,
    Vec<Finding>,
))
    requires
        forall|i: int|
            0 <= i < check_infos@.len() ==> check_info_known(cfgs, &(#[trigger] check_infos@[i]).1),
    ensures
        findings_view(raw.0@) == raw_uaf(cfgs, check_infos@, check_infos@.len() as int),
        findings_view(raw.1@) == raw_df(cfgs, check_infos@, check_infos@.len() as int),
{
    let mut uaf: Vec<Finding> = Vec::new();
    let mut df: Vec<Finding> = Vec::new();
    assert(findings_view(uaf@) =~= Seq::<FindingView>::empty());
    assert(findings_view(df@) =~= Seq::<FindingView>::empty());
    let mut i: usize = 0;
    while i < check_infos.len()
        invariant
            i <= check_infos.len(),
            forall|j: int|
                0 <= j < check_infos@.len() ==> check_info_known(
                    cfgs,
                    &(#[trigger] check_infos@[j]).1,
                ),
            findings_view(uaf@) == raw_uaf(cfgs, check_infos@, i as int),
            findings_view(df@) == raw_df(cfgs, check_infos@, i as int),
        decreases check_infos.len() - i,
    {
        let check_info = &check_infos[i].1;
        assert(check_info_known(cfgs, &check_infos@[i as int].1));
        let ghost uaf_before = findings_view(uaf@);
        let ghost df_before = findings_view(df@);
        let mut k: usize = 0;
        assert(uaf_before + Seq::<FindingView>::empty() =~= uaf_before);
        while k < check_info.uaf_infos.len()
            invariant
                k <= check_info.uaf_infos.len(),
                check_info_known(cfgs, check_info),
                findings_view(uaf@) == uaf_before + check_info.uaf_infos@.map_values(
                    |info: UafInfo| uaf_finding(cfgs, info),
                ).take(k as int),
            decreases check_info.uaf_infos.len() - k,
        {
            let info = &check_info.uaf_infos[k];
            let finding = Finding {
                first_span: info.deref_span.span,
                first_name: get_var_name(cfgs, info.deref_proj_id.g_local_id),
                second_span: info.drop_span.span,
                second_name: get_var_name(cfgs, info.drop_obj_id.id.g_local_id),
            };
            let ghost before = findings_view(uaf@);
            let ghost mapped = check_info.uaf_infos@.map_values(
                |info: UafInfo| uaf_finding(cfgs, info),
            );
            assert(finding@ == mapped[k as int]);
            uaf.push(finding);
            assert(findings_view(uaf@) =~= before.push(finding@));
            assert(uaf_before + mapped.take(k + 1) =~= (uaf_before + mapped.take(k as int)).push(
                mapped[k as int],
            ));
            k = k + 1;
        }
        assert(check_info.uaf_infos@.map_values(|info: UafInfo| uaf_finding(cfgs, info)).take(
            check_info.uaf_infos@.len() as int,
        ) =~= check_info.uaf_infos@.map_values(|info: UafInfo| uaf_finding(cfgs, info)));
        let mut m: usize = 0;
        assert(df_before + Seq::<FindingView>::empty() =~= df_before);
        while m < check_info.df_infos.len()
            invariant
                m <= check_info.df_infos.len(),
                check_info_known(cfgs, check_info),
                findings_view(df@) == df_before + check_info.df_infos@.map_values(
                    |info: DfInfo| df_finding(cfgs, info),
                ).take(m as int),
            decreases check_info.df_infos.len() - m,
        {
            let info = &check_info.df_infos[m];
            let finding = Finding {
                first_span: info.first_drop_span.span,
                first_name: get_var_name(cfgs, info.first_drop_obj_id.id.g_local_id),
                second_span: info.then_drop_span.span,
                second_name: get_var_name(cfgs, info.then_drop_obj_id.id.g_local_id),
            };
            let ghost before = findings_view(df@);
            let ghost mapped = check_info.df_infos@.map_values(
                |info: DfInfo| df_finding(cfgs, info),
            );
            assert(finding@ == mapped[m as int]);
            df.push(finding);
            assert(findings_view(df@) =~= before.push(finding@));
            assert(df_before + mapped.take(m + 1) =~= (df_before + mapped.take(m as int)).push(
                mapped[m as int],
            ));
            m = m + 1;
        }
        assert(check_info.df_infos@.map_values(|info: DfInfo| df_finding(cfgs, info)).take(
            check_info.df_infos@.len() as int,
        ) =~= check_info.df_infos@.map_values(|info: DfInfo| df_finding(cfgs, info)));
        i = i + 1;
    }
    (uaf, df)
}

/// The buckets as reported uses after free.
fn uaf_results_of(buckets: &Vec<Bucket>) -> (results: Vec<(UafSpan, Vec<UafResult>)>)
    ensures
        uaf_buckets(results@) == buckets_view(buckets@),
{
    let mut results: Vec<(UafSpan, Vec<UafResult>)> = Vec::new();
    let mut i: usize = 0;
    while i < buckets.len()
        invariant
            i <= buckets.len(),
            uaf_buckets(results@) == buckets_view(buckets@).take(i as int),
        decreases buckets.len() - i,
    {
        let bucket = &buckets[i];
        let mut items: Vec<UafResult> = Vec::new();
        let mut k: usize = 0;
        while k < bucket.items.len()
            invariant
                k <= bucket.items.len(),
                items@.map_values(|r: UafResult| r@) == bucket@.items.take(k as int),
            decreases bucket.items.len() - k,
        {
            let f = &bucket.items[k];
            let ghost before = items@.map_values(|r: UafResult| r@);
            let item = UafResult::new(
                f.first_span,
                copy_name(&f.first_name),
                f.second_span,
                copy_name(&f.second_name),
            );
            assert(item@ == bucket@.items[k as int]);
            items.push(item);
            assert(items@.map_values(|r: UafResult| r@) =~= before.push(item@));
            k = k + 1;
        }
        assert(bucket@.items.take(bucket@.items.len() as int) =~= bucket@.items);
        let ghost before = uaf_buckets(results@);
        results.push((UafSpan::new(bucket.key.0, bucket.key.1), items));
        assert(uaf_buckets(results@) =~= before.push(bucket@));
        i = i + 1;
    }
    assert(buckets_view(buckets@).take(buckets@.len() as int) =~= buckets_view(buckets@));
    results
}

/// The buckets as reported double frees.
fn df_results_of(buckets: &Vec<Bucket>) -> (results: Vec<(DfSpan, Vec<DfResult>)>)
    ensures
        df_buckets(results@) == buckets_view(buckets@),
{
    let mut results: Vec<(DfSpan, Vec<DfResult>)> = Vec::new();
    let mut i: usize = 0;
    while i < buckets.len()
        invariant
            i <= buckets.len(),
            df_buckets(results@) == buckets_view(buckets@).take(i as int),
        decreases buckets.len() - i,
    {
        let bucket = &buckets[i];
        let mut items: Vec<DfResult> = Vec::new();
        let mut k: usize = 0;
        while k < bucket.items.len()
            invariant
                k <= bucket.items.len(),
                items@.map_values(|r: DfResult| r@) == bucket@.items.take(k as int),
            decreases bucket.items.len() - k,
        {
            let f = &bucket.items[k];
            let ghost before = items@.map_values(|r: DfResult| r@);
            let item = DfResult::new(
                f.first_span,
                copy_name(&f.first_name),
                f.second_span,
                copy_name(&f.second_name),
            );
            assert(item@ == bucket@.items[k as int]);
            items.push(item);
            assert(items@.map_values(|r: DfResult| r@) =~= before.push(item@));
            k = k + 1;
        }
        assert(bucket@.items.take(bucket@.items.len() as int) =~= bucket@.items);
        let ghost before = df_buckets(results@);
        results.push((DfSpan::new(bucket.key.0, bucket.key.1), items));
        assert(df_buckets(results@) =~= before.push(bucket@));
        i = i + 1;
    }
    assert(buckets_view(buckets@).take(buckets@.len() as int) =~= buckets_view(buckets@));
    results
}

/// Merges the findings of all runs. For every pair of locations that a
/// finding names there is one entry; it holds the findings for that pair that
/// name a variable, each once, or, if none names one, the finding without a
/// name.
pub fn merge_check_info(cfgs: &CfgTable, check_infos: &Vec<(DefId, CheckInfo)>) -> (check_result:
    CheckResult)
    requires
        forall|i: int|
            0 <= i < check_infos@.len() ==> check_info_known(cfgs, &(#[trigger] check_infos@[i]).1),
    ensures
        merged(
            raw_uaf(cfgs, check_infos@, check_infos@.len() as int),
            uaf_buckets(check_result.uaf_results@),
        ),
        merged(
            raw_df(cfgs, check_infos@, check_infos@.len() as int),
            df_buckets(check_result.df_results@),
        ),
{
    let (uaf, df) = raw_findings(cfgs, check_infos);
    let uaf_merged = merge_findings(&uaf);
    let df_merged = merge_findings(&df);
    let mut check_result = CheckResult::new();
    check_result.uaf_results = uaf_results_of(&uaf_merged);
    check_result.df_results = df_results_of(&df_merged);
    check_result
}

} // verus!
