//! What one pass computes, stated over sequences: the values every kind settles
//! on, and the transition records emitted for the kinds that changed.
use vstd::prelude::*;
use crate::kinds::{KindDef, deps, is_primary, derived_value, all_present, values_of, evaluate};
use crate::graph::{edges_ok, is_topo_order};

verus! {

/// A change of one kind's value within a pass; `None` stands for "absent".
#[derive(Clone, Copy, Debug, PartialEq, Eq)]
pub struct TransitionRecord {
    pub kind: usize,
    pub old: Option<u64>,
    pub new: Option<u64>,
}

/// `after` is what every kind settles on: primary kinds keep their value in
/// `start`, and every other kind holds what it derives from the values in
/// `after` of the kinds it depends on and its own value in `prior`.
pub open spec fn consistent(defs: Seq<KindDef>, start: Seq<Option<u64>>, prior: Seq<Option<u64>>, after: Seq<Option<u64>>) -> bool {
    &&& after.len() == defs.len()
    &&& forall|k: int| 0 <= k < defs.len() ==> #[trigger] after[k] == if is_primary(defs[k]) {
        start[k]
    } else {
        derived_value(defs[k], prior[k], after)
    }
}

/// The values `cur` are settled: a sweep with no request would change nothing.
pub open spec fn settled(defs: Seq<KindDef>, cur: Seq<Option<u64>>) -> bool {
    consistent(defs, cur, cur, cur)
}

/// The records for the kinds of `ks`, in order, whose value differs between
/// `before` and `after`.
pub open spec fn changes(ks: Seq<usize>, before: Seq<Option<u64>>, after: Seq<Option<u64>>) -> Seq<TransitionRecord>
    decreases ks.len(),
{
    if ks.len() == 0 {
        Seq::empty()
    } else {
        let k = ks.last();
        let rest = changes(ks.drop_last(), before, after);
        if before[k as int] != after[k as int] {
            rest.push(TransitionRecord { kind: k, old: before[k as int], new: after[k as int] })
        } else {
            rest
        }
    }
}

/// The sub and computed kinds of `order`, in order.
pub open spec fn dependents(defs: Seq<KindDef>, order: Seq<usize>) -> Seq<usize>
    decreases order.len(),
{
    if order.len() == 0 {
        Seq::empty()
    } else {
        let rest = dependents(defs, order.drop_last());
        if is_primary(defs[order.last() as int]) {
            rest
        } else {
            rest.push(order.last())
        }
    }
}

/// A kind's derived value reads only the kinds it depends on.
pub proof fn lemma_derived_reads_deps(d: KindDef, prior: Option<u64>, a: Seq<Option<u64>>, b: Seq<Option<u64>>)
    requires
        forall|j: int| 0 <= j < deps(d).len() ==> deps(d)[j] < a.len() && deps(d)[j] < b.len(),
        forall|j: int| 0 <= j < deps(d).len() ==> a[#[trigger] deps(d)[j] as int] == b[deps(d)[j] as int],
    ensures
        derived_value(d, prior, a) == derived_value(d, prior, b),
{
    match d {
        KindDef::Primary { .. } => {},
        KindDef::Sub { parent, .. } => {
            assert(deps(d)[0] == parent);
        },
        KindDef::Computed { sources, .. } => {
            assert(forall|j: int| 0 <= j < sources@.len() ==> deps(d)[j] == sources@[j]);
            assert(all_present(sources@, a) == all_present(sources@, b));
            assert(values_of(sources@, a) =~= values_of(sources@, b));
        },
    }
}

/// The records read only the values of the kinds they list.
pub proof fn lemma_changes_reads_kinds(
    ks: Seq<usize>,
    before: Seq<Option<u64>>,
    a: Seq<Option<u64>>,
    before2: Seq<Option<u64>>,
    b: Seq<Option<u64>>,
)
    requires
        forall|i: int| 0 <= i < ks.len() ==> a[#[trigger] ks[i] as int] == b[ks[i] as int],
        forall|i: int| 0 <= i < ks.len() ==> before[#[trigger] ks[i] as int] == before2[ks[i] as int],
    ensures
        changes(ks, before, a) == changes(ks, before2, b),
    decreases ks.len(),
{
    if ks.len() > 0 {
        lemma_changes_reads_kinds(ks.drop_last(), before, a, before2, b);
        assert(a[ks[ks.len() - 1] as int] == b[ks[ks.len() - 1] as int]);
        assert(before[ks[ks.len() - 1] as int] == before2[ks[ks.len() - 1] as int]);
    }
}

/// No kind changes between equal value vectors.
pub proof fn lemma_changes_none(ks: Seq<usize>, cur: Seq<Option<u64>>)
    ensures
        changes(ks, cur, cur) == Seq::<TransitionRecord>::empty(),
    decreases ks.len(),
{
    if ks.len() > 0 {
        lemma_changes_none(ks.drop_last(), cur);
    }
}

/// A derived value does not move when its own prior value is the one it derived.
pub proof fn lemma_derived_keeps_own(d: KindDef, prior: Option<u64>, cur: Seq<Option<u64>>)
    ensures
        derived_value(d, derived_value(d, prior, cur), cur) == derived_value(d, prior, cur),
{
}

/// Values consistent with some request and prior values are settled.
pub proof fn lemma_consistent_settled(defs: Seq<KindDef>, start: Seq<Option<u64>>, prior: Seq<Option<u64>>, r: Seq<Option<u64>>)
    requires
        consistent(defs, start, prior, r),
    ensures
        settled(defs, r),
{
    assert forall|k: int| 0 <= k < defs.len() implies #[trigger] r[k] == if is_primary(defs[k]) {
        r[k]
    } else {
        derived_value(defs[k], r[k], r)
    } by {
        if !is_primary(defs[k]) {
            lemma_derived_keeps_own(defs[k], prior[k], r);
        }
    }
}

proof fn lemma_unique_upto(
    defs: Seq<KindDef>,
    order: Seq<usize>,
    start: Seq<Option<u64>>,
    prior: Seq<Option<u64>>,
    a: Seq<Option<u64>>,
    b: Seq<Option<u64>>,
    i: int,
)
    requires
        edges_ok(defs),
        is_topo_order(defs, order),
        consistent(defs, start, prior, a),
        consistent(defs, start, prior, b),
        0 <= i <= order.len(),
    ensures
        forall|p: int| 0 <= p < i ==> a[#[trigger] order[p] as int] == b[order[p] as int],
    decreases i,
{
    if i > 0 {
        lemma_unique_upto(defs, order, start, prior, a, b, i - 1);
        let k = order[i - 1] as int;
        let d = defs[k];
        assert forall|j: int| 0 <= j < deps(d).len() implies deps(d)[j] < a.len() && deps(d)[j] < b.len()
            && a[#[trigger] deps(d)[j] as int] == b[deps(d)[j] as int] by {
            assert(order.take(i - 1).contains(deps(d)[j]));
            let pre = order.take(i - 1);
            let q = choose|q: int| 0 <= q < pre.len() && pre[q] == deps(d)[j];
            assert(order[q] == deps(d)[j]);
        }
        lemma_derived_reads_deps(d, prior[k], a, b);
        assert(a[k] == b[k]);
    }
}

/// Over an acyclic graph, the requests and the prior values determine the
/// settled values: there is only one consistent outcome.
pub proof fn lemma_consistent_unique(
    defs: Seq<KindDef>,
    order: Seq<usize>,
    start: Seq<Option<u64>>,
    prior: Seq<Option<u64>>,
    a: Seq<Option<u64>>,
    b: Seq<Option<u64>>,
)
    requires
        edges_ok(defs),
        is_topo_order(defs, order),
        consistent(defs, start, prior, a),
        consistent(defs, start, prior, b),
        defs.len() <= usize::MAX,
    ensures
        a == b,
{
    lemma_unique_upto(defs, order, start, prior, a, b, order.len() as int);
    lemma_equal_on_order(order, a, b);
}

proof fn lemma_equal_on_order(order: Seq<usize>, a: Seq<Option<u64>>, b: Seq<Option<u64>>)
    requires
        a.len() == b.len(),
        a.len() <= usize::MAX,
        forall|k: usize| k < a.len() ==> order.contains(k),
        forall|p: int| 0 <= p < order.len() ==> a[#[trigger] order[p] as int] == b[order[p] as int],
    ensures
        a == b,
{
    assert forall|k: int| 0 <= k < a.len() implies a[k] == b[k] by {
        assert(order.contains(k as usize));
        let p = choose|p: int| 0 <= p < order.len() && order[p] == k as usize;
        assert(a[order[p] as int] == b[order[p] as int]);
    }
    assert(a =~= b);
}

/// Kind `k` holds in `cur` what `consistent` asks of it.
pub open spec fn holds_derived(defs: Seq<KindDef>, start: Seq<Option<u64>>, cur: Seq<Option<u64>>, k: int) -> bool {
    cur[k] == if is_primary(defs[k]) {
        start[k]
    } else {
        derived_value(defs[k], start[k], cur)
    }
}

proof fn lemma_dependents_within(defs: Seq<KindDef>, s: Seq<usize>)
    ensures
        forall|i: int| 0 <= i < dependents(defs, s).len() ==> s.contains(#[trigger] dependents(defs, s)[i]),
    decreases s.len(),
{
    if s.len() > 0 {
        lemma_dependents_within(defs, s.drop_last());
        let r = dependents(defs, s.drop_last());
        assert forall|i: int| 0 <= i < r.len() implies s.contains(#[trigger] r[i]) by {
            let q = choose|q: int| 0 <= q < s.drop_last().len() && s.drop_last()[q] == r[i];
            assert(s[q] == r[i]);
        }
        assert(s[s.len() - 1] == s.last());
    }
}

/// The kinds that `dependents` lists are sub or computed kinds of `s`.
pub proof fn lemma_dependents_nonprimary(defs: Seq<KindDef>, s: Seq<usize>)
    ensures
        forall|i: int| 0 <= i < dependents(defs, s).len() ==> !is_primary(defs[#[trigger] dependents(defs, s)[i] as int]),
        forall|i: int| 0 <= i < dependents(defs, s).len() ==> s.contains(#[trigger] dependents(defs, s)[i]),
    decreases s.len(),
{
    lemma_dependents_within(defs, s);
    if s.len() > 0 {
        lemma_dependents_nonprimary(defs, s.drop_last());
        let r = dependents(defs, s.drop_last());
        if !is_primary(defs[s.last() as int]) {
            assert(dependents(defs, s) == r.push(s.last()));
            assert forall|i: int| 0 <= i < r.len() + 1 implies !is_primary(defs[#[trigger] r.push(s.last())[i] as int]) by {
                if i < r.len() {
                    assert(r.push(s.last())[i] == r[i]);
                }
            }
        }
    }
}

proof fn lemma_sweep_step(
    defs: Seq<KindDef>,
    order: Seq<usize>,
    start: Seq<Option<u64>>,
    cur: Seq<Option<u64>>,
    i: int,
    v: Option<u64>,
)
    requires
        edges_ok(defs),
        is_topo_order(defs, order),
        cur.len() == defs.len(),
        start.len() == defs.len(),
        0 <= i < order.len(),
        forall|p: int| 0 <= p < i ==> holds_derived(defs, start, cur, #[trigger] order[p] as int),
        forall|p: int| i <= p < order.len() ==> cur[#[trigger] order[p] as int] == start[order[p] as int],
        v == (if is_primary(defs[order[i] as int]) {
            cur[order[i] as int]
        } else {
            derived_value(defs[order[i] as int], cur[order[i] as int], cur)
        }),
    ensures
        ({
            let k = order[i] as int;
            let next = cur.update(k, v);
            &&& forall|p: int| 0 <= p <= i ==> holds_derived(defs, start, next, #[trigger] order[p] as int)
            &&& forall|p: int| i < p < order.len() ==> next[#[trigger] order[p] as int] == start[order[p] as int]
            &&& changes(dependents(defs, order.take(i + 1)), start, next) == if is_primary(defs[k]) {
                changes(dependents(defs, order.take(i)), start, cur)
            } else if start[k] != v {
                changes(dependents(defs, order.take(i)), start, cur).push(
                    TransitionRecord { kind: order[i], old: start[k], new: v },
                )
            } else {
                changes(dependents(defs, order.take(i)), start, cur)
            }
        }),
{
    let k = order[i] as int;
    let next = cur.update(k, v);
    assert(cur[order[i] as int] == start[order[i] as int]);
    assert forall|p: int| 0 <= p <= i implies holds_derived(defs, start, next, #[trigger] order[p] as int) by {
        let kp = order[p] as int;
        let d = defs[kp];
        assert forall|j: int| 0 <= j < deps(d).len() implies deps(d)[j] < cur.len() && deps(d)[j] < next.len() by {
            assert(order.take(p).contains(deps(d)[j]));
        }
        assert forall|j: int| 0 <= j < deps(d).len() implies cur[#[trigger] deps(d)[j] as int] == next[deps(d)[j] as int] by {
            assert(order.take(p).contains(deps(d)[j]));
            let q = choose|q: int| 0 <= q < order.take(p).len() && order.take(p)[q] == deps(d)[j];
            assert(order[q] == deps(d)[j]);
            assert(q != i);
        }
        lemma_derived_reads_deps(d, start[kp], cur, next);
        if p < i {
            assert(order[p] != order[i]);
        }
    }
    assert forall|p: int| i < p < order.len() implies next[#[trigger] order[p] as int] == start[order[p] as int] by {
        assert(order[p] != order[i]);
    }
    let ks = dependents(defs, order.take(i));
    lemma_dependents_within(defs, order.take(i));
    assert forall|x: int| 0 <= x < ks.len() implies cur[#[trigger] ks[x] as int] == next[ks[x] as int] by {
        let q = choose|q: int| 0 <= q < order.take(i).len() && order.take(i)[q] == ks[x];
        assert(order[q] == ks[x]);
    }
    lemma_changes_reads_kinds(ks, start, cur, start, next);
    assert(order.take(i + 1).drop_last() =~= order.take(i));
    let ks1 = dependents(defs, order.take(i + 1));
    if !is_primary(defs[k]) {
        assert(ks1.drop_last() =~= ks);
    }
}

/// Re-derives every sub and computed kind, visiting the kinds in `order`, and
/// appends a record for each kind whose value changed.
pub fn sweep(defs: &Vec<KindDef>, order: &Vec<usize>, cur: &mut Vec<Option<u64>>, records: &mut Vec<TransitionRecord>)
    requires
        edges_ok(defs@),
        is_topo_order(defs@, order@),
        old(cur)@.len() == defs@.len(),
    ensures
        consistent(defs@, old(cur)@, old(cur)@, final(cur)@),
        final(records)@ == old(records)@ + changes(dependents(defs@, order@), old(cur)@, final(cur)@),
{
    let ghost start = cur@;
    let ghost recs0 = records@;
    let n = defs.len();
    let mut i: usize = 0;
    assert(order@.take(0) =~= Seq::<usize>::empty());
    while i < order.len()
        invariant
            n == defs@.len(),
            edges_ok(defs@),
            is_topo_order(defs@, order@),
            cur@.len() == n,
            start.len() == n,
            0 <= i <= order@.len(),
            forall|p: int| 0 <= p < i ==> holds_derived(defs@, start, cur@, #[trigger] order@[p] as int),
            forall|p: int| i <= p < order@.len() ==> cur@[#[trigger] order@[p] as int] == start[order@[p] as int],
            records@ == recs0 + changes(dependents(defs@, order@.take(i as int)), start, cur@),
        decreases order@.len() - i,
    {
        let k = order[i];
        let prior = cur[k];
        let v = match &defs[k] {
            KindDef::Primary { .. } => prior,
            _ => {
                proof {
                    assert(crate::graph::kind_ok(defs@, k as int));
                }
                evaluate(&defs[k], prior, cur)
            },
        };
        proof {
            lemma_sweep_step(defs@, order@, start, cur@, i as int, v);
        }
        let is_dependent = match &defs[k] {
            KindDef::Primary { .. } => false,
            _ => true,
        };
        if is_dependent && prior != v {
            records.push(TransitionRecord { kind: k, old: prior, new: v });
        }
        cur.set(k, v);
        i = i + 1;
    }
    proof {
        assert(order@.take(order@.len() as int) =~= order@);
        assert forall|k: int| 0 <= k < n implies #[trigger] cur@[k] == if is_primary(defs@[k]) {
            start[k]
        } else {
            derived_value(defs@[k], start[k], cur@)
        } by {
            assert(order@.contains(k as usize));
            let p = choose|p: int| 0 <= p < order@.len() && order@[p] == k as usize;
            assert(holds_derived(defs@, start, cur@, order@[p] as int));
        }
    }
}

} // verus!
