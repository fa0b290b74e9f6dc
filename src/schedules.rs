//! The callback groups a pass's transition records call for, in the order the
//! host runs them: every exit, then every transition, then every enter.
use vstd::prelude::*;
use crate::pass::TransitionRecord;

verus! {

/// A callback group keyed by kind and value.
#[derive(Clone, Copy, Debug, PartialEq, Eq)]
pub enum Schedule {
    OnExit { kind: usize, value: u64 },
    OnTransition { kind: usize, old: Option<u64>, new: Option<u64> },
    OnEnter { kind: usize, value: u64 },
}

/// One exit for each record whose old value is present.
pub open spec fn exits(recs: Seq<TransitionRecord>) -> Seq<Schedule>
    decreases recs.len(),
{
    if recs.len() == 0 {
        Seq::empty()
    } else {
        let rest = exits(recs.drop_last());
        match recs.last().old {
            Some(v) => rest.push(Schedule::OnExit { kind: recs.last().kind, value: v }),
            None => rest,
        }
    }
}

/// One transition for each record.
pub open spec fn transitions_of(recs: Seq<TransitionRecord>) -> Seq<Schedule> {
    recs.map_values(|t: TransitionRecord| Schedule::OnTransition { kind: t.kind, old: t.old, new: t.new })
}

/// One enter for each record whose new value is present.
pub open spec fn enters(recs: Seq<TransitionRecord>) -> Seq<Schedule>
    decreases recs.len(),
{
    if recs.len() == 0 {
        Seq::empty()
    } else {
        let rest = enters(recs.drop_last());
        match recs.last().new {
            Some(v) => rest.push(Schedule::OnEnter { kind: recs.last().kind, value: v }),
            None => rest,
        }
    }
}

/// The callback groups to run for `recs`: all exits, then all transitions,
/// then all enters, each in record order.
pub fn schedules(recs: &Vec<TransitionRecord>) -> (r: Vec<Schedule>)
    ensures
        r@ == exits(recs@) + transitions_of(recs@) + enters(recs@),
{
    let mut ex: Vec<Schedule> = Vec::new();
    let mut i: usize = 0;
    assert(recs@.take(0) =~= Seq::<TransitionRecord>::empty());
    while i < recs.len()
        invariant
            0 <= i <= recs@.len(),
            ex@ == exits(recs@.take(i as int)),
        decreases recs@.len() - i,
    {
        let t = recs[i];
        if let Some(v) = t.old {
            ex.push(Schedule::OnExit { kind: t.kind, value: v });
        }
        assert(recs@.take(i + 1).drop_last() =~= recs@.take(i as int));
        i = i + 1;
    }
    let mut tr: Vec<Schedule> = Vec::new();
    let mut i: usize = 0;
    while i < recs.len()
        invariant
            0 <= i <= recs@.len(),
            tr@ == transitions_of(recs@.take(i as int)),
        decreases recs@.len() - i,
    {
        let t = recs[i];
        tr.push(Schedule::OnTransition { kind: t.kind, old: t.old, new: t.new });
        assert(transitions_of(recs@.take(i + 1)) =~= transitions_of(recs@.take(i as int)).push(
            Schedule::OnTransition { kind: t.kind, old: t.old, new: t.new },
        ));
        i = i + 1;
    }
    let mut en: Vec<Schedule> = Vec::new();
    let mut i: usize = 0;
    while i < recs.len()
        invariant
            0 <= i <= recs@.len(),
            en@ == enters(recs@.take(i as int)),
        decreases recs@.len() - i,
    {
        let t = recs[i];
        if let Some(v) = t.new {
            en.push(Schedule::OnEnter { kind: t.kind, value: v });
        }
        assert(recs@.take(i + 1).drop_last() =~= recs@.take(i as int));
        i = i + 1;
    }
    assert(recs@.take(recs@.len() as int) =~= recs@);
    let mut out = ex;
    let mut tr = tr;
    let mut en = en;
    out.append(&mut tr);
    out.append(&mut en);
    out
}

} // verus!
