//! Properties of the runtime that relate several calls or hold of every input.
use vstd::prelude::*;
use crate::kinds::{KindDef, derived_value, table_lookup, values_of, all_present};
use crate::graph::{edges_ok, is_topo_order};
use crate::pass::{TransitionRecord, consistent, settled, changes, dependents, lemma_consistent_unique, lemma_changes_none, lemma_consistent_settled};
use crate::engine::{Polarity, ScopedTag, applied, request_kinds, with_request, fires, fired, kept};

verus! {

/// After a pass the values are settled, and a following pass with no request
/// changes no value and produces no transition record.
pub proof fn law_second_pass_is_quiet(
    defs: Seq<KindDef>,
    order: Seq<usize>,
    start: Seq<Option<u64>>,
    prior: Seq<Option<u64>>,
    first: Seq<Option<u64>>,
    second: Seq<Option<u64>>,
)
    requires
        edges_ok(defs),
        is_topo_order(defs, order),
        defs.len() <= usize::MAX,
        consistent(defs, start, prior, first),
        consistent(defs, applied(first, Seq::empty()), first, second),
    ensures
        settled(defs, first),
        second == first,
        changes(request_kinds(Seq::empty()), first, second) + changes(dependents(defs, order), first, second)
            == Seq::<crate::pass::TransitionRecord>::empty(),
{
    lemma_consistent_settled(defs, start, prior, first);
    lemma_consistent_unique(defs, order, first, first, first, second);
    lemma_changes_none(request_kinds(Seq::<(usize, u64)>::empty()), first);
    lemma_changes_none(dependents(defs, order), first);
    assert(Seq::<crate::pass::TransitionRecord>::empty() + Seq::<crate::pass::TransitionRecord>::empty()
        =~= Seq::<crate::pass::TransitionRecord>::empty());
}

/// Two requests on one kind before a pass leave only the second one pending,
/// exactly as if the first had never been made.
pub proof fn law_last_request_wins(reqs: Seq<(usize, u64)>, kind: usize, first: u64, second: u64)
    requires
        forall|i: int, j: int| 0 <= i < reqs.len() && 0 <= j < reqs.len() && i != j ==> (#[trigger] reqs[i]).0 != (#[trigger] reqs[j]).0,
    ensures
        with_request(with_request(reqs, kind, first), kind, second) == with_request(reqs, kind, second),
{
    let once = with_request(reqs, kind, first);
    if exists|i: int| 0 <= i < reqs.len() && reqs[i].0 == kind {
        let i = choose|i: int| 0 <= i < reqs.len() && reqs[i].0 == kind;
        assert(once[i].0 == kind);
        let j = choose|j: int| 0 <= j < once.len() && once[j].0 == kind;
        if j != i {
            assert(reqs[j].0 == kind);
            assert(reqs[i].0 != reqs[j].0);
        }
        assert(once.update(i, (kind, second)) =~= reqs.update(i, (kind, second)));
    } else {
        let last = reqs.len() as int;
        assert(once[last].0 == kind);
        let j = choose|j: int| 0 <= j < once.len() && once[j].0 == kind;
        if j != last {
            assert(reqs[j].0 == kind);
        }
        assert(once.update(last, (kind, second)) =~= reqs.push((kind, second)));
    }
}

/// A tag scoped to leaving `value` fires exactly on a pass that moves its kind
/// from `value` to anything else: never while the kind stays at `value`, and
/// never while it stays away from it.
pub proof fn law_exit_scope_exact(t: ScopedTag, before: Seq<Option<u64>>, after: Seq<Option<u64>>)
    requires
        t.polarity == Polarity::DespawnOnExit,
    ensures
        fires(t, before, after) <==> before[t.kind as int] == Some(t.value) && after[t.kind as int] != Some(t.value),
        before[t.kind as int] == Some(t.value) && after[t.kind as int] == Some(t.value) ==> !fires(t, before, after),
        before[t.kind as int] != Some(t.value) && after[t.kind as int] != Some(t.value) ==> !fires(t, before, after),
{
}

/// A tag scoped to entering `value` fires exactly on a pass that moves its kind
/// to `value` from anything else.
pub proof fn law_enter_scope_exact(t: ScopedTag, before: Seq<Option<u64>>, after: Seq<Option<u64>>)
    requires
        t.polarity == Polarity::DespawnOnEnter,
    ensures
        fires(t, before, after) <==> after[t.kind as int] == Some(t.value) && before[t.kind as int] != Some(t.value),
        before[t.kind as int] == after[t.kind as int] ==> !fires(t, before, after),
{
}

/// Cleanup splits the tags exactly: the entity of every tag that fires is
/// queued, every tag that does not fire stays, and no tag that stays fires.
pub proof fn law_cleanup_partition(tags: Seq<ScopedTag>, before: Seq<Option<u64>>, after: Seq<Option<u64>>)
    ensures
        forall|i: int| 0 <= i < tags.len() && fires(tags[i], before, after)
            ==> fired(tags, before, after).contains(#[trigger] tags[i].entity),
        forall|i: int| 0 <= i < tags.len() && !fires(tags[i], before, after)
            ==> kept(tags, before, after).contains(#[trigger] tags[i]),
        forall|i: int| 0 <= i < kept(tags, before, after).len()
            ==> !fires(#[trigger] kept(tags, before, after)[i], before, after),
        fired(tags, before, after).len() + kept(tags, before, after).len() == tags.len(),
    decreases tags.len(),
{
    if tags.len() > 0 {
        let init = tags.drop_last();
        law_cleanup_partition(init, before, after);
        let f0 = fired(init, before, after);
        let k0 = kept(init, before, after);
        let t = tags.last();
        assert forall|i: int| 0 <= i < tags.len() && fires(tags[i], before, after)
            implies fired(tags, before, after).contains(#[trigger] tags[i].entity) by {
            if i < tags.len() - 1 {
                assert(init[i] == tags[i]);
                assert(f0.contains(init[i].entity));
                let q = choose|q: int| 0 <= q < f0.len() && f0[q] == init[i].entity;
                assert(fired(tags, before, after)[q] == tags[i].entity);
            } else {
                assert(fired(tags, before, after) == f0.push(t.entity));
                assert(fired(tags, before, after)[f0.len() as int] == tags[i].entity);
            }
        }
        assert forall|i: int| 0 <= i < tags.len() && !fires(tags[i], before, after)
            implies kept(tags, before, after).contains(#[trigger] tags[i]) by {
            if i < tags.len() - 1 {
                assert(init[i] == tags[i]);
                assert(k0.contains(init[i]));
                let q = choose|q: int| 0 <= q < k0.len() && k0[q] == init[i];
                assert(kept(tags, before, after)[q] == tags[i]);
            } else {
                assert(kept(tags, before, after) == k0.push(t));
                assert(kept(tags, before, after)[k0.len() as int] == tags[i]);
            }
        }
        assert forall|i: int| 0 <= i < kept(tags, before, after).len()
            implies !fires(#[trigger] kept(tags, before, after)[i], before, after) by {
            if i < k0.len() {
                assert(kept(tags, before, after)[i] == k0[i]);
            }
        }
    }
}

/// Absence propagates: a sub kind whose parent is absent or outside its
/// allowed values is absent; it takes its default when it becomes valid with
/// no prior value; a computed kind with an absent source is absent.
pub proof fn law_absence_propagates(
    defs: Seq<KindDef>,
    start: Seq<Option<u64>>,
    prior: Seq<Option<u64>>,
    r: Seq<Option<u64>>,
    k: int,
)
    requires
        consistent(defs, start, prior, r),
        0 <= k < defs.len(),
    ensures
        match defs[k] {
            KindDef::Primary { .. } => r[k] == start[k],
            KindDef::Sub { parent, allowed, default } => {
                &&& (r[parent as int] is None || !allowed@.contains(r[parent as int]->0)) ==> r[k] is None
                &&& (r[parent as int] is Some && allowed@.contains(r[parent as int]->0) && prior[k] is None)
                    ==> r[k] == Some(default)
                &&& (r[parent as int] is Some && allowed@.contains(r[parent as int]->0) && prior[k] is Some)
                    ==> r[k] == prior[k]
            },
            KindDef::Computed { sources, .. } => (exists|j: int| 0 <= j < sources@.len() && r[sources@[j] as int] is None)
                ==> r[k] is None,
        },
{
    assert(r[k] == if crate::kinds::is_primary(defs[k]) { start[k] } else { derived_value(defs[k], prior[k], r) });
    match defs[k] {
        KindDef::Computed { sources, .. } => {
            if exists|j: int| 0 <= j < sources@.len() && r[sources@[j] as int] is None {
                let j = choose|j: int| 0 <= j < sources@.len() && r[sources@[j] as int] is None;
                assert(!crate::kinds::all_present(sources@, r));
            }
        },
        _ => {},
    }
}

/// For a chain of a primary kind, a sub kind valid only at the primary's value
/// `a`, and a kind computed from the sub kind alone: moving the primary from
/// `b` to `a` makes the sub kind take its default and the computed kind derive
/// from that default, and records the three kinds in chain order.
pub proof fn law_chain_records_in_order(
    defs: Seq<KindDef>,
    a: u64,
    b: u64,
    r: Seq<Option<u64>>,
)
    requires
        a != b,
        defs.len() == 3,
        defs[0] is Primary,
        defs[1] is Sub && defs[1]->Sub_parent == 0 && defs[1]->Sub_allowed@ == seq![a],
        defs[2] is Computed && defs[2]->Computed_sources@ == seq![1usize],
        consistent(defs, applied(seq![Some(b), None, None], seq![(0usize, a)]), seq![Some(b), None, None], r),
    ensures
        ({
            let s = defs[1]->Sub_default;
            let c = table_lookup(defs[2]->Computed_rules@, defs[2]->Computed_otherwise, seq![s]);
            &&& r == seq![Some(a), Some(s), Some(c)]
            &&& changes(request_kinds(seq![(0usize, a)]), seq![Some(b), None, None], r)
                + changes(dependents(defs, seq![0usize, 1, 2]), seq![Some(b), None, None], r) == seq![
                TransitionRecord { kind: 0, old: Some(b), new: Some(a) },
                TransitionRecord { kind: 1, old: None, new: Some(s) },
                TransitionRecord { kind: 2, old: None, new: Some(c) },
            ]
        }),
{
    let prior = seq![Some(b), None, None];
    let reqs = seq![(0usize, a)];
    let start = applied(prior, reqs);
    assert(reqs.drop_last() =~= Seq::<(usize, u64)>::empty());
    assert(applied(prior, reqs.drop_last()) == prior);
    assert(start == prior.update(0, Some(a)));
    assert(start =~= seq![Some(a), None, None]);
    let s = defs[1]->Sub_default;
    let c = table_lookup(defs[2]->Computed_rules@, defs[2]->Computed_otherwise, seq![s]);
    assert(r[0] == Some(a));
    assert(seq![a].contains(a)) by {
        assert(seq![a][0] == a);
    }
    assert(r[1] == Some(s));
    let srcs = defs[2]->Computed_sources@;
    assert(srcs[0] == 1usize);
    assert(all_present(srcs, r));
    assert(values_of(srcs, r) =~= seq![s]);
    assert(r[2] == Some(c));
    assert(r =~= seq![Some(a), Some(s), Some(c)]);
    let rk = request_kinds(reqs);
    assert(rk =~= seq![0usize]);
    assert(rk.drop_last() =~= Seq::<usize>::empty());
    let order = seq![0usize, 1, 2];
    assert(order.drop_last() =~= seq![0usize, 1]);
    assert(order.drop_last().drop_last() =~= seq![0usize]);
    assert(order.drop_last().drop_last().drop_last() =~= Seq::<usize>::empty());
    let dk = dependents(defs, order);
    assert(seq![0usize].drop_last() =~= Seq::<usize>::empty());
    assert(dependents(defs, Seq::<usize>::empty()) == Seq::<usize>::empty());
    assert(seq![0usize].last() == 0usize);
    assert(dependents(defs, seq![0usize]) =~= Seq::<usize>::empty());
    assert(seq![0usize, 1].drop_last() =~= seq![0usize]);
    assert(seq![0usize, 1].last() == 1usize);
    assert(dependents(defs, seq![0usize, 1]) =~= seq![1usize]);
    assert(order.last() == 2usize);
    assert(dk =~= seq![1usize, 2]);
    assert(dk.drop_last() =~= seq![1usize]);
    assert(dk.drop_last().drop_last() =~= Seq::<usize>::empty());
    assert(rk.last() == 0usize);
    assert(changes(rk.drop_last(), prior, r) == Seq::<TransitionRecord>::empty());
    assert(prior[0] != r[0]);
    assert(changes(rk, prior, r) =~= seq![TransitionRecord { kind: 0, old: Some(b), new: Some(a) }]);
    assert(changes(dk.drop_last(), prior, r) =~= seq![TransitionRecord { kind: 1, old: None, new: Some(s) }]);
    assert(changes(dk, prior, r) =~= seq![
        TransitionRecord { kind: 1, old: None, new: Some(s) },
        TransitionRecord { kind: 2, old: None, new: Some(c) },
    ]);
    assert(changes(rk, prior, r) + changes(dk, prior, r) =~= seq![
        TransitionRecord { kind: 0, old: Some(b), new: Some(a) },
        TransitionRecord { kind: 1, old: None, new: Some(s) },
        TransitionRecord { kind: 2, old: None, new: Some(c) },
    ]);
}

} // verus!
