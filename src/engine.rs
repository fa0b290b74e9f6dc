//! The transition engine: the value store, pending requests, the per-pass
//! algorithm, run conditions and state-scoped cleanup.
use vstd::prelude::*;
use crate::kinds::{KindDef, is_primary};
use crate::graph::{ConfigError, edges_ok, acyclic, is_topo_order, sourceless, deps_in_range, kind_ok, closed_cycle, evaluation_order};
use crate::schedules::Schedule;
use crate::pass::{TransitionRecord, consistent, settled, changes, dependents, sweep};

verus! {

/// Whether a scoped entity goes when its state value is left or when it is entered.
#[derive(Clone, Copy, Debug, PartialEq, Eq)]
pub enum Polarity {
    DespawnOnEnter,
    DespawnOnExit,
}

/// An entity whose lifetime is scoped to kind `kind` holding `value`.
#[derive(Clone, Copy, Debug, PartialEq, Eq)]
pub struct ScopedTag {
    pub entity: u64,
    pub kind: usize,
    pub value: u64,
    pub polarity: Polarity,
}

/// Why a request or a tag was refused.
#[derive(Clone, Copy, Debug, PartialEq, Eq)]
pub enum RequestError {
    /// No kind of that index was registered.
    UnknownKind,
    /// The kind is a sub or computed kind, whose value is never set directly.
    NotPrimary,
}

/// The engine's contents, as mathematical sequences.
pub ghost struct EngineView {
    pub defs: Seq<KindDef>,
    pub order: Seq<usize>,
    pub current: Seq<Option<u64>>,
    pub pending: Seq<(usize, u64)>,
    pub records: Seq<TransitionRecord>,
    pub tags: Seq<ScopedTag>,
}

/// The state machine of a set of registered kinds.
pub struct Engine {
    defs: Vec<KindDef>,
    order: Vec<usize>,
    current: Vec<Option<u64>>,
    pending: Vec<(usize, u64)>,
    records: Vec<TransitionRecord>,
    tags: Vec<ScopedTag>,
}

impl View for Engine {
    type V = EngineView;

    closed spec fn view(&self) -> EngineView {
        EngineView {
            defs: self.defs@,
            order: self.order@,
            current: self.current@,
            pending: self.pending@,
            records: self.records@,
            tags: self.tags@,
        }
    }
}

/// The kinds of a request list, in order.
pub open spec fn request_kinds(reqs: Seq<(usize, u64)>) -> Seq<usize> {
    reqs.map_values(|r: (usize, u64)| r.0)
}

/// `cur` with each request of `reqs` applied, in order.
pub open spec fn applied(cur: Seq<Option<u64>>, reqs: Seq<(usize, u64)>) -> Seq<Option<u64>>
    decreases reqs.len(),
{
    if reqs.len() == 0 {
        cur
    } else {
        applied(cur, reqs.drop_last()).update(reqs.last().0 as int, Some(reqs.last().1))
    }
}

/// The pending list after a request that `kind` take `value`: an earlier
/// request on the same kind is overwritten in place, else the request is added
/// at the end.
pub open spec fn with_request(reqs: Seq<(usize, u64)>, kind: usize, value: u64) -> Seq<(usize, u64)> {
    if exists|i: int| 0 <= i < reqs.len() && reqs[i].0 == kind {
        let i = choose|i: int| 0 <= i < reqs.len() && reqs[i].0 == kind;
        reqs.update(i, (kind, value))
    } else {
        reqs.push((kind, value))
    }
}

/// Each pending request names a distinct primary kind.
pub open spec fn requests_ok(defs: Seq<KindDef>, reqs: Seq<(usize, u64)>) -> bool {
    &&& forall|i: int| 0 <= i < reqs.len() ==> (#[trigger] reqs[i]).0 < defs.len() && is_primary(defs[reqs[i].0 as int])
    &&& forall|i: int, j: int| 0 <= i < reqs.len() && 0 <= j < reqs.len() && i != j ==> (#[trigger] reqs[i]).0 != (#[trigger] reqs[j]).0
}

/// Whether tag `t` ends its entity on a pass that moved the values from
/// `before` to `after`.
pub open spec fn fires(t: ScopedTag, before: Seq<Option<u64>>, after: Seq<Option<u64>>) -> bool {
    match t.polarity {
        Polarity::DespawnOnExit => before[t.kind as int] == Some(t.value) && after[t.kind as int] != Some(t.value),
        Polarity::DespawnOnEnter => after[t.kind as int] == Some(t.value) && before[t.kind as int] != Some(t.value),
    }
}

/// The entities of the tags that fire, in order.
pub open spec fn fired(tags: Seq<ScopedTag>, before: Seq<Option<u64>>, after: Seq<Option<u64>>) -> Seq<u64>
    decreases tags.len(),
{
    if tags.len() == 0 {
        Seq::empty()
    } else if fires(tags.last(), before, after) {
        fired(tags.drop_last(), before, after).push(tags.last().entity)
    } else {
        fired(tags.drop_last(), before, after)
    }
}

/// The tags that do not fire, in order.
pub open spec fn kept(tags: Seq<ScopedTag>, before: Seq<Option<u64>>, after: Seq<Option<u64>>) -> Seq<ScopedTag>
    decreases tags.len(),
{
    if tags.len() == 0 {
        Seq::empty()
    } else if fires(tags.last(), before, after) {
        kept(tags.drop_last(), before, after)
    } else {
        kept(tags.drop_last(), before, after).push(tags.last())
    }
}

/// Each primary kind at its initial value, every other kind absent.
pub open spec fn initial_values(defs: Seq<KindDef>) -> Seq<Option<u64>> {
    Seq::new(defs.len(), |k: int| match defs[k] {
        KindDef::Primary { initial } => Some(initial),
        _ => None,
    })
}

impl EngineView {
    /// The invariant every engine keeps between calls.
    pub open spec fn wf(self) -> bool {
        &&& edges_ok(self.defs)
        &&& is_topo_order(self.defs, self.order)
        &&& self.defs.len() <= usize::MAX
        &&& self.current.len() == self.defs.len()
        &&& settled(self.defs, self.current)
        &&& requests_ok(self.defs, self.pending)
        &&& forall|i: int| 0 <= i < self.tags.len() ==> (#[trigger] self.tags[i]).kind < self.defs.len()
    }
}

proof fn lemma_applied_len(c: Seq<Option<u64>>, reqs: Seq<(usize, u64)>)
    requires
        forall|j: int| 0 <= j < reqs.len() ==> (#[trigger] reqs[j]).0 < c.len(),
    ensures
        applied(c, reqs).len() == c.len(),
    decreases reqs.len(),
{
    if reqs.len() > 0 {
        lemma_applied_len(c, reqs.drop_last());
    }
}

/// A kind that no request names keeps its value.
pub proof fn lemma_applied_other(c: Seq<Option<u64>>, reqs: Seq<(usize, u64)>, k: int)
    requires
        0 <= k < c.len(),
        forall|j: int| 0 <= j < reqs.len() ==> (#[trigger] reqs[j]).0 < c.len(),
        forall|j: int| 0 <= j < reqs.len() ==> (#[trigger] reqs[j]).0 != k,
    ensures
        applied(c, reqs)[k] == c[k],
    decreases reqs.len(),
{
    if reqs.len() > 0 {
        assert(reqs.last().0 != k);
        lemma_applied_len(c, reqs.drop_last());
        lemma_applied_other(c, reqs.drop_last(), k);
    }
}

/// Applies the requests in order, appending a record for each kind whose
/// value changed.
fn apply_requests(cur: &mut Vec<Option<u64>>, reqs: &Vec<(usize, u64)>, records: &mut Vec<TransitionRecord>)
    requires
        forall|i: int| 0 <= i < reqs@.len() ==> (#[trigger] reqs@[i]).0 < old(cur)@.len(),
        forall|i: int, j: int| 0 <= i < reqs@.len() && 0 <= j < reqs@.len() && i != j ==> (#[trigger] reqs@[i]).0 != (#[trigger] reqs@[j]).0,
    ensures
        final(cur)@ == applied(old(cur)@, reqs@),
        final(records)@ == old(records)@ + changes(request_kinds(reqs@), old(cur)@, final(cur)@),
{
    let ghost prior = cur@;
    let ghost recs0 = records@;
    let mut i: usize = 0;
    assert(reqs@.take(0) =~= Seq::<(usize, u64)>::empty());
    assert(request_kinds(reqs@.take(0)) =~= Seq::<usize>::empty());
    while i < reqs.len()
        invariant
            0 <= i <= reqs@.len(),
            prior.len() == cur@.len(),
            forall|i: int| 0 <= i < reqs@.len() ==> (#[trigger] reqs@[i]).0 < prior.len(),
            forall|i: int, j: int| 0 <= i < reqs@.len() && 0 <= j < reqs@.len() && i != j ==> (#[trigger] reqs@[i]).0 != (#[trigger] reqs@[j]).0,
            cur@ == applied(prior, reqs@.take(i as int)),
            records@ == recs0 + changes(request_kinds(reqs@.take(i as int)), prior, cur@),
        decreases reqs@.len() - i,
    {
        let (k, v) = reqs[i];
        let ghost before = cur@;
        proof {
            assert forall|j: int| 0 <= j < reqs@.take(i as int).len() implies (#[trigger] reqs@.take(i as int)[j]).0 != k by {
                assert(reqs@[j].0 != reqs@[i as int].0);
            }
            lemma_applied_other(prior, reqs@.take(i as int), k as int);
            lemma_applied_len(prior, reqs@.take(i as int));
        }
        if cur[k] != Some(v) {
            records.push(TransitionRecord { kind: k, old: cur[k], new: Some(v) });
        }
        cur.set(k, Some(v));
        proof {
            let t = reqs@.take(i as int);
            let t1 = reqs@.take(i + 1);
            assert(t1.drop_last() =~= t);
            let ks = request_kinds(t);
            let ks1 = request_kinds(t1);
            assert(ks1.drop_last() =~= ks);
            assert forall|x: int| 0 <= x < ks.len() implies before[#[trigger] ks[x] as int] == cur@[ks[x] as int] by {
                assert(reqs@[x].0 != reqs@[i as int].0);
            }
            crate::pass::lemma_changes_reads_kinds(ks, prior, before, prior, cur@);
        }
        i = i + 1;
    }
    assert(reqs@.take(reqs@.len() as int) =~= reqs@);
}

/// Splits the tags into the entities whose scope ended and the tags that stay.
fn cleanup(tags: &Vec<ScopedTag>, before: &Vec<Option<u64>>, after: &Vec<Option<u64>>) -> (r: (Vec<u64>, Vec<ScopedTag>))
    requires
        forall|i: int| 0 <= i < tags@.len() ==> (#[trigger] tags@[i]).kind < before@.len() && tags@[i].kind < after@.len(),
    ensures
        r.0@ == fired(tags@, before@, after@),
        r.1@ == kept(tags@, before@, after@),
{
    let mut gone: Vec<u64> = Vec::new();
    let mut stay: Vec<ScopedTag> = Vec::new();
    let mut i: usize = 0;
    assert(tags@.take(0) =~= Seq::<ScopedTag>::empty());
    while i < tags.len()
        invariant
            0 <= i <= tags@.len(),
            forall|i: int| 0 <= i < tags@.len() ==> (#[trigger] tags@[i]).kind < before@.len() && tags@[i].kind < after@.len(),
            gone@ == fired(tags@.take(i as int), before@, after@),
            stay@ == kept(tags@.take(i as int), before@, after@),
        decreases tags@.len() - i,
    {
        let t = tags[i];
        let b = before[t.kind];
        let a = after[t.kind];
        let fire = match t.polarity {
            Polarity::DespawnOnExit => b == Some(t.value) && a != Some(t.value),
            Polarity::DespawnOnEnter => a == Some(t.value) && b != Some(t.value),
        };
        if fire {
            gone.push(t.entity);
        } else {
            stay.push(t);
        }
        assert(tags@.take(i + 1).drop_last() =~= tags@.take(i as int));
        i = i + 1;
    }
    assert(tags@.take(tags@.len() as int) =~= tags@);
    (gone, stay)
}

/// The tags that stay are among the given ones.
pub proof fn lemma_kept_within(tags: Seq<ScopedTag>, before: Seq<Option<u64>>, after: Seq<Option<u64>>)
    ensures
        forall|i: int| 0 <= i < kept(tags, before, after).len() ==> tags.contains(#[trigger] kept(tags, before, after)[i]),
    decreases tags.len(),
{
    if tags.len() > 0 {
        lemma_kept_within(tags.drop_last(), before, after);
        let r = kept(tags.drop_last(), before, after);
        assert forall|i: int| 0 <= i < r.len() implies tags.contains(#[trigger] r[i]) by {
            let q = choose|q: int| 0 <= q < tags.drop_last().len() && tags.drop_last()[q] == r[i];
            assert(tags[q] == r[i]);
        }
        assert(tags[tags.len() - 1] == tags.last());
    }
}

impl Engine {
    /// Registers the kinds `defs`; kind `k` is `defs[k]`. Rejects a kind whose
    /// edges are unacceptable (the first one), or a dependency cycle. Each
    /// primary kind starts at its initial value and the other kinds settle on
    /// what they derive from them.
    pub fn new(defs: Vec<KindDef>) -> (r: Result<Engine, ConfigError>)
        ensures
            r is Ok <==> edges_ok(defs@) && acyclic(defs@),
            match r {
                Ok(e) => e@.wf() && e@.defs == defs@ && consistent(defs@, initial_values(defs@),
                    initial_values(defs@), e@.current) && e@.pending.len() == 0 && e@.records.len() == 0
                    && e@.tags.len() == 0,
                Err(ConfigError::MissingSource { kind }) => kind < defs@.len() && !sourceless(defs@[kind as int])
                    && !deps_in_range(defs@, kind as int) && forall|k: int| 0 <= k < kind ==> kind_ok(defs@, k),
                Err(ConfigError::NoSource { kind }) => kind < defs@.len() && sourceless(defs@[kind as int])
                    && forall|k: int| 0 <= k < kind ==> kind_ok(defs@, k),
                Err(ConfigError::Cycle { kinds }) => edges_ok(defs@) && closed_cycle(defs@, kinds@),
            },
    {
        let order = match evaluation_order(&defs) {
            Ok(order) => order,
            Err(e) => {
                return Err(e);
            },
        };
        let n = defs.len();
        let mut current: Vec<Option<u64>> = Vec::new();
        while current.len() < n
            invariant
                n == defs@.len(),
                current@.len() <= n,
                forall|k: int| 0 <= k < current@.len() ==> current@[k] == initial_values(defs@)[k],
            decreases n - current@.len(),
        {
            let k = current.len();
            let v = match &defs[k] {
                KindDef::Primary { initial } => Some(*initial),
                _ => None,
            };
            current.push(v);
        }
        assert(current@ =~= initial_values(defs@));
        let mut scratch: Vec<TransitionRecord> = Vec::new();
        sweep(&defs, &order, &mut current, &mut scratch);
        proof {
            crate::pass::lemma_consistent_settled(defs@, initial_values(defs@), initial_values(defs@), current@);
        }
        Ok(Engine { defs, order, current, pending: Vec::new(), records: Vec::new(), tags: Vec::new() })
    }

    /// The current value of `kind`; `None` when it is absent or not registered.
    pub fn current(&self, kind: usize) -> (r: Option<u64>)
        ensures
            r == if kind < self@.current.len() { self@.current[kind as int] } else { None },
    {
        if kind < self.current.len() {
            self.current[kind]
        } else {
            None
        }
    }

    /// Run condition: `kind` currently holds `value`. An absent or unknown
    /// kind equals no value.
    pub fn equals(&self, kind: usize, value: u64) -> (r: bool)
        ensures
            r == (kind < self@.current.len() && self@.current[kind as int] == Some(value)),
    {
        match self.current(kind) {
            Some(v) => v == value,
            None => false,
        }
    }

    /// Run condition: the last pass produced a transition record for `kind`.
    pub fn changed(&self, kind: usize) -> (r: bool)
        ensures
            r == exists|i: int| 0 <= i < self@.records.len() && (#[trigger] self@.records[i]).kind == kind,
    {
        let mut i: usize = 0;
        while i < self.records.len()
            invariant
                0 <= i <= self.records@.len(),
                forall|j: int| 0 <= j < i ==> (#[trigger] self.records@[j]).kind != kind,
            decreases self.records@.len() - i,
        {
            if self.records[i].kind == kind {
                return true;
            }
            i = i + 1;
        }
        false
    }

    /// The transition records of the last pass, in the order they were produced.
    pub fn transitions(&self) -> (r: &Vec<TransitionRecord>)
        ensures
            r@ == self@.records,
    {
        &self.records
    }

    /// Queues a request that primary kind `kind` take `value` on the next pass.
    /// A later request on the same kind before that pass replaces this one.
    pub fn request_transition(&mut self, kind: usize, value: u64) -> (r: Result<(), RequestError>)
        requires
            old(self)@.wf(),
        ensures
            final(self)@.wf(),
            r == if kind >= old(self)@.defs.len() {
                Err(RequestError::UnknownKind)
            } else if !is_primary(old(self)@.defs[kind as int]) {
                Err(RequestError::NotPrimary)
            } else {
                Ok(())
            },
            r is Ok ==> final(self)@ == (EngineView { pending: with_request(old(self)@.pending, kind, value), ..old(self)@ }),
            r is Err ==> final(self)@ == old(self)@,
    {
        if kind >= self.defs.len() {
            return Err(RequestError::UnknownKind);
        }
        match &self.defs[kind] {
            KindDef::Primary { .. } => {},
            _ => {
                return Err(RequestError::NotPrimary);
            },
        }
        let mut i: usize = 0;
        while i < self.pending.len()
            invariant
                self@ == old(self)@,
                old(self)@.wf(),
                kind < self.defs@.len(),
                is_primary(self.defs@[kind as int]),
                0 <= i <= self.pending@.len(),
                forall|j: int| 0 <= j < i ==> (#[trigger] self.pending@[j]).0 != kind,
            decreases self.pending@.len() - i,
        {
            if self.pending[i].0 == kind {
                let ghost before = self.pending@;
                self.pending.set(i, (kind, value));
                proof {
                    assert forall|j: int| 0 <= j < before.len() && before[j].0 == kind implies j == i by {
                        if j != i {
                            assert(before[j].0 != before[i as int].0);
                        }
                    }
                    assert(with_request(before, kind, value) == before.update(i as int, (kind, value)));
                    assert(requests_ok(self.defs@, self.pending@));
                }
                return Ok(());
            }
            i = i + 1;
        }
        let ghost before = self.pending@;
        self.pending.push((kind, value));
        proof {
            assert(with_request(before, kind, value) == before.push((kind, value)));
            assert forall|a: int, b: int| 0 <= a < self.pending@.len() && 0 <= b < self.pending@.len() && a != b
                implies (#[trigger] self.pending@[a]).0 != (#[trigger] self.pending@[b]).0 by {
                if a < before.len() && b < before.len() {
                    assert(before[a].0 != before[b].0);
                } else if a < before.len() {
                    assert(before[a].0 != kind);
                } else {
                    assert(before[b].0 != kind);
                }
            }
        }
        Ok(())
    }

    /// Runs one pass: applies the pending requests, re-derives the sub and
    /// computed kinds in dependency order, records every kind that changed
    /// (requested kinds first, in request order, then the others in dependency
    /// order), and returns the entities whose scope ended, whose tags it drops.
    pub fn run_pass(&mut self) -> (despawn: Vec<u64>)
        requires
            old(self)@.wf(),
        ensures
            final(self)@.wf(),
            ({
                let o = old(self)@;
                let f = final(self)@;
                &&& f.defs == o.defs
                &&& f.order == o.order
                &&& consistent(o.defs, applied(o.current, o.pending), o.current, f.current)
                &&& f.records == changes(request_kinds(o.pending), o.current, f.current)
                    + changes(dependents(o.defs, o.order), o.current, f.current)
                &&& f.pending.len() == 0
                &&& despawn@ == fired(o.tags, o.current, f.current)
                &&& f.tags == kept(o.tags, o.current, f.current)
            }),
    {
        let ghost o = self@;
        let mut cur = self.current.clone();
        assert(cur@ == o.current);
        let mut records: Vec<TransitionRecord> = Vec::new();
        apply_requests(&mut cur, &self.pending, &mut records);
        let ghost mid = cur@;
        let ghost rec_mid = records@;
        proof {
            lemma_applied_len(o.current, o.pending);
        }
        sweep(&self.defs, &self.order, &mut cur, &mut records);
        proof {
            let n = o.defs.len();
            let r = cur@;
            // Sub and computed kinds are never requested: their values before
            // the sweep are the prior ones.
            assert forall|k: int| 0 <= k < n && !is_primary(o.defs[k]) implies mid[k] == o.current[k] by {
                assert forall|j: int| 0 <= j < o.pending.len() implies (#[trigger] o.pending[j]).0 != k by {
                    assert(is_primary(o.defs[o.pending[j].0 as int]));
                }
                lemma_applied_other(o.current, o.pending, k);
            }
            assert forall|k: int| 0 <= k < n implies #[trigger] r[k] == if is_primary(o.defs[k]) {
                mid[k]
            } else {
                crate::kinds::derived_value(o.defs[k], o.current[k], r)
            } by {}
            assert(consistent(o.defs, mid, o.current, r));
            crate::pass::lemma_consistent_settled(o.defs, mid, o.current, r);
            let rk = request_kinds(o.pending);
            assert forall|x: int| 0 <= x < rk.len() implies mid[#[trigger] rk[x] as int] == r[rk[x] as int] by {
                assert(is_primary(o.defs[o.pending[x].0 as int]));
            }
            crate::pass::lemma_changes_reads_kinds(rk, o.current, mid, o.current, r);
            let dk = dependents(o.defs, o.order);
            crate::pass::lemma_dependents_nonprimary(o.defs, o.order);
            assert forall|x: int| 0 <= x < dk.len() implies mid[#[trigger] dk[x] as int] == o.current[dk[x] as int] by {}
            crate::pass::lemma_changes_reads_kinds(dk, mid, r, o.current, r);
        }
        let (despawn, stay) = cleanup(&self.tags, &self.current, &cur);
        self.current = cur;
        self.records = records;
        self.pending = Vec::new();
        self.tags = stay;
        proof {
            crate::engine::lemma_kept_within(o.tags, o.current, self.current@);
        }
        despawn
    }

    /// The handle of the callback group run when `kind` enters `value`.
    pub fn on_enter(&self, kind: usize, value: u64) -> (r: Result<Schedule, RequestError>)
        ensures
            r == if kind < self@.defs.len() {
                Ok(Schedule::OnEnter { kind, value })
            } else {
                Err(RequestError::UnknownKind)
            },
    {
        if kind < self.defs.len() {
            Ok(Schedule::OnEnter { kind, value })
        } else {
            Err(RequestError::UnknownKind)
        }
    }

    /// The handle of the callback group run when `kind` leaves `value`.
    pub fn on_exit(&self, kind: usize, value: u64) -> (r: Result<Schedule, RequestError>)
        ensures
            r == if kind < self@.defs.len() {
                Ok(Schedule::OnExit { kind, value })
            } else {
                Err(RequestError::UnknownKind)
            },
    {
        if kind < self.defs.len() {
            Ok(Schedule::OnExit { kind, value })
        } else {
            Err(RequestError::UnknownKind)
        }
    }

    /// The handle of the callback group run when `kind` moves from `old` to `new`.
    pub fn on_transition(&self, kind: usize, old: Option<u64>, new: Option<u64>) -> (r: Result<Schedule, RequestError>)
        ensures
            r == if kind < self@.defs.len() {
                Ok(Schedule::OnTransition { kind, old, new })
            } else {
                Err(RequestError::UnknownKind)
            },
    {
        if kind < self.defs.len() {
            Ok(Schedule::OnTransition { kind, old, new })
        } else {
            Err(RequestError::UnknownKind)
        }
    }

    /// Tags `entity` as alive only within the window that `polarity` gives for
    /// `kind` holding `value`.
    pub fn scope_to(&mut self, entity: u64, kind: usize, value: u64, polarity: Polarity) -> (r: Result<(), RequestError>)
        requires
            old(self)@.wf(),
        ensures
            final(self)@.wf(),
            r == if kind >= old(self)@.defs.len() { Err(RequestError::UnknownKind) } else { Ok(()) },
            r is Ok ==> final(self)@ == (EngineView {
                tags: old(self)@.tags.push(ScopedTag { entity, kind, value, polarity }),
                ..old(self)@
            }),
            r is Err ==> final(self)@ == old(self)@,
    {
        if kind >= self.defs.len() {
            return Err(RequestError::UnknownKind);
        }
        self.tags.push(ScopedTag { entity, kind, value, polarity });
        Ok(())
    }
}

} // verus!
