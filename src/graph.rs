//! Registration checks on the dependency graph, and the evaluation order that is
//! computed once when the kinds are registered.
use vstd::prelude::*;
use crate::kinds::{KindDef, deps};

verus! {

/// Why a set of kind declarations was rejected.
#[derive(Clone, Debug)]
pub enum ConfigError {
    /// `kind` depends on a kind that was never registered.
    MissingSource { kind: usize },
    /// `kind` is a computed kind with no source at all.
    NoSource { kind: usize },
    /// The dependency edges form a cycle; `kinds` lists the kinds that could not
    /// be ordered, each of which depends on another kind of the list.
    Cycle { kinds: Vec<usize> },
}

/// A computed kind that has no source.
pub open spec fn sourceless(d: KindDef) -> bool {
    d is Computed && deps(d).len() == 0
}

/// Every kind that `defs[k]` depends on is registered.
pub open spec fn deps_in_range(defs: Seq<KindDef>, k: int) -> bool {
    forall|j: int| 0 <= j < deps(defs[k]).len() ==> (#[trigger] deps(defs[k])[j]) < defs.len()
}

/// The edges of kind `k` are acceptable.
pub open spec fn kind_ok(defs: Seq<KindDef>, k: int) -> bool {
    !sourceless(defs[k]) && deps_in_range(defs, k)
}

/// The edges of every kind are acceptable.
pub open spec fn edges_ok(defs: Seq<KindDef>) -> bool {
    forall|k: int| 0 <= k < defs.len() ==> kind_ok(defs, k)
}

/// `order` lists every kind exactly once, each after all the kinds it depends on.
pub open spec fn is_topo_order(defs: Seq<KindDef>, order: Seq<usize>) -> bool {
    &&& order.no_duplicates()
    &&& forall|i: int| 0 <= i < order.len() ==> order[i] < defs.len()
    &&& forall|k: usize| k < defs.len() ==> order.contains(k)
    &&& forall|i: int, j: int|
        0 <= i < order.len() && 0 <= j < deps(defs[order[i] as int]).len()
            ==> order.take(i).contains(#[trigger] deps(defs[order[i] as int])[j])
}

/// The dependency graph has no cycle: some order visits each kind after all the
/// kinds it depends on.
pub open spec fn acyclic(defs: Seq<KindDef>) -> bool {
    exists|order: Seq<usize>| is_topo_order(defs, order)
}

/// Every kind of the non-empty `ks` depends on some kind of `ks`: a set of kinds
/// that no order can start.
pub open spec fn closed_cycle(defs: Seq<KindDef>, ks: Seq<usize>) -> bool {
    &&& ks.len() > 0
    &&& forall|i: int| 0 <= i < ks.len() ==> ks[i] < defs.len()
    &&& forall|i: int| 0 <= i < ks.len() ==> depends_on_one_of(defs, #[trigger] ks[i], ks)
}

/// Kind `k` depends on some kind of `ks`.
pub open spec fn depends_on_one_of(defs: Seq<KindDef>, k: usize, ks: Seq<usize>) -> bool {
    exists|j: int| 0 <= j < deps(defs[k as int]).len() && ks.contains(#[trigger] deps(defs[k as int])[j])
}

proof fn lemma_cycle_blocks_position(defs: Seq<KindDef>, ks: Seq<usize>, order: Seq<usize>, p: int)
    requires
        closed_cycle(defs, ks),
        is_topo_order(defs, order),
        0 <= p < order.len(),
    ensures
        !ks.contains(order[p]),
    decreases p,
{
    if ks.contains(order[p]) {
    let k = order[p];
    let i = choose|i: int| 0 <= i < ks.len() && ks[i] == k;
    assert(depends_on_one_of(defs, ks[i], ks));
    let j = choose|j: int| 0 <= j < deps(defs[k as int]).len() && ks.contains(#[trigger] deps(defs[k as int])[j]);
    let d = deps(defs[k as int])[j];
    assert(order.take(p).contains(d));
    let q = choose|q: int| 0 <= q < p && order.take(p)[q] == d;
    assert(order[q] == d);
    lemma_cycle_blocks_position(defs, ks, order, q);
    }
}

/// A set of kinds in which each depends on another rules out every order.
pub proof fn lemma_cycle_not_acyclic(defs: Seq<KindDef>, ks: Seq<usize>)
    requires
        closed_cycle(defs, ks),
    ensures
        !acyclic(defs),
{
    if acyclic(defs) {
        let order = choose|order: Seq<usize>| is_topo_order(defs, order);
        assert(order.contains(ks[0]));
        let p = choose|p: int| 0 <= p < order.len() && order[p] == ks[0];
        lemma_cycle_blocks_position(defs, ks, order, p);
    }
}

/// The number of kinds not yet placed.
pub open spec fn count_unplaced(placed: Seq<bool>) -> nat
    decreases placed.len(),
{
    if placed.len() == 0 {
        0
    } else {
        count_unplaced(placed.drop_last()) + if placed.last() { 0nat } else { 1nat }
    }
}

proof fn lemma_place_one(placed: Seq<bool>, k: int)
    requires
        0 <= k < placed.len(),
        !placed[k],
    ensures
        count_unplaced(placed.update(k, true)) + 1 == count_unplaced(placed),
    decreases placed.len(),
{
    let up = placed.update(k, true);
    if k == placed.len() - 1 {
        assert(up.drop_last() =~= placed.drop_last());
    } else {
        assert(up.drop_last() =~= placed.drop_last().update(k, true));
        lemma_place_one(placed.drop_last(), k);
    }
}

/// `order` holds exactly the placed kinds, once each, each after every kind it
/// depends on.
pub open spec fn placement_ok(defs: Seq<KindDef>, placed: Seq<bool>, order: Seq<usize>) -> bool {
    &&& edges_ok(defs)
    &&& defs.len() <= usize::MAX
    &&& placed.len() == defs.len()
    &&& order.no_duplicates()
    &&& forall|i: int| 0 <= i < order.len() ==> order[i] < defs.len()
    &&& forall|k: int| 0 <= k < defs.len() ==> (placed[k] <==> order.contains(k as usize))
    &&& forall|i: int, j: int|
        0 <= i < order.len() && 0 <= j < deps(defs[order[i] as int]).len()
            ==> order.take(i).contains(#[trigger] deps(defs[order[i] as int])[j])
}

proof fn lemma_place_ready(defs: Seq<KindDef>, placed: Seq<bool>, order: Seq<usize>, k: usize)
    requires
        placement_ok(defs, placed, order),
        0 <= k < defs.len(),
        !placed[k as int],
        forall|j: int| 0 <= j < deps(defs[k as int]).len() ==> placed[#[trigger] deps(defs[k as int])[j] as int],
    ensures
        placement_ok(defs, placed.update(k as int, true), order.push(k)),
        count_unplaced(placed.update(k as int, true)) + 1 == count_unplaced(placed),
{
    lemma_place_one(placed, k as int);
    let new_order = order.push(k);
    let new_placed = placed.update(k as int, true);
    assert forall|i: int| 0 <= i < order.len() implies #[trigger] new_order.take(i) =~= order.take(i) by {}
    assert(new_order.take(order.len() as int) =~= order);
    assert forall|q: int| 0 <= q < defs.len() implies (new_placed[q] <==> new_order.contains(q as usize)) by {
        if q == k as int {
            assert(new_order[order.len() as int] == k);
        } else if new_order.contains(q as usize) {
            let p = choose|p: int| 0 <= p < new_order.len() && new_order[p] == q as usize;
            assert(order[p] == q);
        } else if placed[q] {
            let p = choose|p: int| 0 <= p < order.len() && order[p] == q as usize;
            assert(new_order[p] == q);
        }
    }
    assert forall|i: int, j: int|
        0 <= i < new_order.len() && 0 <= j < deps(defs[new_order[i] as int]).len()
            implies new_order.take(i).contains(#[trigger] deps(defs[new_order[i] as int])[j]) by {
        if i == order.len() {
            let d = deps(defs[k as int])[j];
            assert(kind_ok(defs, k as int));
            assert(d < defs.len());
            assert(placed[d as int]);
        } else {
            assert(new_order[i] == order[i]);
        }
    }
}

/// The kinds that `d` depends on, as a vector.
pub fn dep_list(d: &KindDef) -> (r: Vec<usize>)
    ensures
        r@ == deps(*d),
{
    match d {
        KindDef::Primary { .. } => Vec::new(),
        KindDef::Sub { parent, .. } => {
            let mut v: Vec<usize> = Vec::new();
            v.push(*parent);
            assert(v@ =~= seq![*parent]);
            v
        },
        KindDef::Computed { sources, .. } => sources.clone(),
    }
}

/// Whether every kind in `ds` is placed.
fn all_placed(ds: &Vec<usize>, placed: &Vec<bool>) -> (r: bool)
    requires
        forall|j: int| 0 <= j < ds@.len() ==> ds@[j] < placed@.len(),
    ensures
        r <==> forall|j: int| 0 <= j < ds@.len() ==> placed@[#[trigger] ds@[j] as int],
{
    let mut j: usize = 0;
    while j < ds.len()
        invariant
            0 <= j <= ds@.len(),
            forall|i: int| 0 <= i < ds@.len() ==> ds@[i] < placed@.len(),
            forall|i: int| 0 <= i < j ==> placed@[#[trigger] ds@[i] as int],
        decreases ds@.len() - j,
    {
        if !placed[ds[j]] {
            return false;
        }
        j = j + 1;
    }
    true
}

/// Checks the edges of every kind, in order of registration.
fn check_edges(defs: &Vec<KindDef>) -> (r: Result<(), ConfigError>)
    ensures
        match r {
            Ok(()) => edges_ok(defs@),
            Err(ConfigError::MissingSource { kind }) => kind < defs@.len() && !sourceless(defs@[kind as int])
                && !deps_in_range(defs@, kind as int) && forall|k: int| 0 <= k < kind ==> kind_ok(defs@, k),
            Err(ConfigError::NoSource { kind }) => kind < defs@.len() && sourceless(defs@[kind as int])
                && forall|k: int| 0 <= k < kind ==> kind_ok(defs@, k),
            Err(ConfigError::Cycle { .. }) => false,
        },
{
    let n = defs.len();
    let mut k: usize = 0;
    while k < n
        invariant
            n == defs@.len(),
            0 <= k <= n,
            forall|i: int| 0 <= i < k ==> kind_ok(defs@, i),
        decreases n - k,
    {
        let ds = dep_list(&defs[k]);
        if ds.len() == 0 {
            if let KindDef::Computed { .. } = &defs[k] {
                return Err(ConfigError::NoSource { kind: k });
            }
        }
        let mut j: usize = 0;
        while j < ds.len()
            invariant
                n == defs@.len(),
                0 <= k < n,
                forall|i: int| 0 <= i < k ==> kind_ok(defs@, i),
                ds@ == deps(defs@[k as int]),
                0 <= j <= ds@.len(),
                forall|i: int| 0 <= i < j ==> ds@[i] < n,
            decreases ds@.len() - j,
        {
            if ds[j] >= n {
                assert(deps(defs@[k as int])[j as int] >= n);
                assert(!sourceless(defs@[k as int]));
                return Err(ConfigError::MissingSource { kind: k });
            }
            j = j + 1;
        }
        k = k + 1;
    }
    Ok(())
}

proof fn lemma_stuck_is_cycle(defs: Seq<KindDef>, placed: Seq<bool>, rest: Seq<usize>)
    requires
        edges_ok(defs),
        placed.len() == defs.len(),
        forall|i: int| 0 <= i < defs.len() && !placed[i]
            ==> exists|j: int| 0 <= j < deps(defs[i]).len() && !placed[#[trigger] deps(defs[i])[j] as int],
        forall|i: int| 0 <= i < rest.len() ==> rest[i] < placed.len() && !placed[rest[i] as int],
        forall|i: int| 0 <= i < placed.len() && !placed[i] ==> rest.contains(i as usize),
        rest.len() > 0,
    ensures
        closed_cycle(defs, rest),
{
    assert forall|i: int| 0 <= i < rest.len() implies depends_on_one_of(defs, #[trigger] rest[i], rest) by {
        let ki = rest[i] as int;
        assert(0 <= ki < defs.len() && !placed[ki]);
        let j = choose|j: int| 0 <= j < deps(defs[ki]).len() && !placed[#[trigger] deps(defs[ki])[j] as int];
        assert(kind_ok(defs, ki));
        assert(deps(defs[ki])[j] < defs.len());
        assert(rest.contains(deps(defs[ki])[j]));
    }
}

/// One scan over all kinds, placing each unplaced kind whose dependencies are
/// all placed. Returns whether it placed any, and whether it met an unplaced one.
fn place_round(defs: &Vec<KindDef>, placed: &mut Vec<bool>, order: &mut Vec<usize>) -> (r: (bool, bool))
    requires
        placement_ok(defs@, old(placed)@, old(order)@),
    ensures
        placement_ok(defs@, final(placed)@, final(order)@),
        r.0 ==> count_unplaced(final(placed)@) < count_unplaced(old(placed)@),
        !r.1 ==> forall|i: int| 0 <= i < defs@.len() ==> final(placed)@[i],
        !r.0 ==> final(placed)@ == old(placed)@ && forall|i: int| 0 <= i < defs@.len() && !final(placed)@[i]
            ==> exists|j: int| 0 <= j < deps(defs@[i]).len() && !final(placed)@[#[trigger] deps(defs@[i])[j] as int],
        !r.0 && r.1 ==> exists|i: int| 0 <= i < defs@.len() && !final(placed)@[i],
{
    let n = defs.len();
    let ghost start = old(placed)@;
    let mut progressed = false;
    let mut any_unplaced = false;
    let mut k: usize = 0;
    while k < n
        invariant
            n == defs@.len(),
            0 <= k <= n,
            placement_ok(defs@, placed@, order@),
            count_unplaced(placed@) <= count_unplaced(start),
            progressed ==> count_unplaced(placed@) < count_unplaced(start),
            !progressed ==> placed@ == start,
            !any_unplaced ==> forall|i: int| 0 <= i < k ==> placed@[i],
            any_unplaced && !progressed ==> exists|i: int| 0 <= i < k && !placed@[i],
            !progressed ==> forall|i: int| 0 <= i < k && !placed@[i] ==> exists|j: int|
                0 <= j < deps(defs@[i]).len() && !placed@[#[trigger] deps(defs@[i])[j] as int],
        decreases n - k,
    {
        if !placed[k] {
            any_unplaced = true;
            let ds = dep_list(&defs[k]);
            assert(kind_ok(defs@, k as int));
            if all_placed(&ds, placed) {
                proof {
                    lemma_place_ready(defs@, placed@, order@, k);
                }
                placed.set(k, true);
                order.push(k);
                progressed = true;
            }
        }
        k = k + 1;
    }
    (progressed, any_unplaced)
}

/// The kinds not yet placed, in increasing order.
fn unplaced_kinds(placed: &Vec<bool>) -> (rest: Vec<usize>)
    ensures
        forall|i: int| 0 <= i < rest@.len() ==> rest@[i] < placed@.len() && !placed@[rest@[i] as int],
        forall|i: int| 0 <= i < placed@.len() && !placed@[i] ==> rest@.contains(i as usize),
        (exists|i: int| 0 <= i < placed@.len() && !placed@[i]) ==> rest@.len() > 0,
{
    let mut rest: Vec<usize> = Vec::new();
    let mut k: usize = 0;
    while k < placed.len()
        invariant
            0 <= k <= placed@.len(),
            forall|i: int| 0 <= i < rest@.len() ==> rest@[i] < placed@.len() && !placed@[rest@[i] as int],
            forall|i: int| 0 <= i < k && !placed@[i] ==> rest@.contains(i as usize),
            (exists|i: int| 0 <= i < k && !placed@[i]) ==> rest@.len() > 0,
        decreases placed@.len() - k,
    {
        if !placed[k] {
            let ghost before = rest@;
            rest.push(k);
            assert(rest@[rest@.len() - 1] == k);
            assert forall|i: int| 0 <= i < k && !placed@[i] implies rest@.contains(i as usize) by {
                let p = choose|p: int| 0 <= p < before.len() && before[p] == i as usize;
                assert(rest@[p] == i as usize);
            }
        }
        k = k + 1;
    }
    rest
}

/// Orders the kinds so that each comes after every kind it depends on, or
/// reports why no such order exists.
pub fn evaluation_order(defs: &Vec<KindDef>) -> (r: Result<Vec<usize>, ConfigError>)
    ensures
        r is Ok <==> edges_ok(defs@) && acyclic(defs@),
        match r {
            Ok(order) => is_topo_order(defs@, order@),
            Err(ConfigError::MissingSource { kind }) => kind < defs@.len() && !sourceless(defs@[kind as int])
                && !deps_in_range(defs@, kind as int) && forall|k: int| 0 <= k < kind ==> kind_ok(defs@, k),
            Err(ConfigError::NoSource { kind }) => kind < defs@.len() && sourceless(defs@[kind as int])
                && forall|k: int| 0 <= k < kind ==> kind_ok(defs@, k),
            Err(ConfigError::Cycle { kinds }) => edges_ok(defs@) && closed_cycle(defs@, kinds@),
        },
{
    match check_edges(defs) {
        Ok(()) => {},
        Err(e) => {
            proof {
                match e {
                    ConfigError::MissingSource { kind } => assert(!kind_ok(defs@, kind as int)),
                    ConfigError::NoSource { kind } => assert(!kind_ok(defs@, kind as int)),
                    _ => {},
                }
            }
            return Err(e);
        },
    }
    let n = defs.len();
    let mut placed: Vec<bool> = Vec::new();
    while placed.len() < n
        invariant
            placed@.len() <= n,
            forall|i: int| 0 <= i < placed@.len() ==> !placed@[i],
        decreases n - placed@.len(),
    {
        placed.push(false);
    }
    let mut order: Vec<usize> = Vec::new();
    assert(placement_ok(defs@, placed@, order@));
    loop
        invariant
            n == defs@.len(),
            placement_ok(defs@, placed@, order@),
        decreases count_unplaced(placed@),
    {
        let (progressed, any_unplaced) = place_round(defs, &mut placed, &mut order);
        if !any_unplaced {
            assert forall|k: usize| k < defs@.len() implies order@.contains(k) by {
                assert(placed@[k as int]);
            }
            assert(is_topo_order(defs@, order@));
            return Ok(order);
        }
        if !progressed {
            let rest = unplaced_kinds(&placed);
            proof {
                lemma_stuck_is_cycle(defs@, placed@, rest@);
                lemma_cycle_not_acyclic(defs@, rest@);
            }
            return Err(ConfigError::Cycle { kinds: rest });
        }
    }
}

} // verus!
