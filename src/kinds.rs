//! State kinds, their dependency edges, and the value each kind takes given the
//! values of the kinds it depends on.
use vstd::prelude::*;

verus! {

/// One row of a computed kind's derivation table: `pattern` lists, for each
/// source in order, the value it must hold (`None` matches any value).
#[derive(Clone, Debug)]
pub struct Rule {
    pub pattern: Vec<Option<u64>>,
    pub out: u64,
}

/// The declaration of one state kind.
#[derive(Clone, Debug)]
pub enum KindDef {
    /// Set only by explicit requests; starts at `initial`.
    Primary { initial: u64 },
    /// Present only while the value of kind `parent` is one of `allowed`;
    /// takes `default` when it becomes present.
    Sub { parent: usize, allowed: Vec<u64>, default: u64 },
    /// Present when all `sources` are present; its value is the `out` of the
    /// first rule whose pattern matches the sources' values, else `otherwise`.
    Computed { sources: Vec<usize>, rules: Vec<Rule>, otherwise: u64 },
}

/// The kinds that `d` depends on.
pub open spec fn deps(d: KindDef) -> Seq<usize> {
    match d {
        KindDef::Primary { .. } => Seq::empty(),
        KindDef::Sub { parent, .. } => seq![parent],
        KindDef::Computed { sources, .. } => sources@,
    }
}

pub open spec fn is_primary(d: KindDef) -> bool {
    d is Primary
}

/// Whether `vals` (one value per source) matches `pattern`.
pub open spec fn pattern_matches(pattern: Seq<Option<u64>>, vals: Seq<u64>) -> bool {
    &&& pattern.len() == vals.len()
    &&& forall|i: int| 0 <= i < pattern.len() && pattern[i] is Some ==> pattern[i] == Some(vals[i])
}

/// The `out` of the first rule in `rules` matching `vals`, else `otherwise`.
pub open spec fn table_lookup(rules: Seq<Rule>, otherwise: u64, vals: Seq<u64>) -> u64
    decreases rules.len(),
{
    if rules.len() == 0 {
        otherwise
    } else if pattern_matches(rules[0].pattern@, vals) {
        rules[0].out
    } else {
        table_lookup(rules.drop_first(), otherwise, vals)
    }
}

/// Whether every kind in `ks` has a value in `cur`.
pub open spec fn all_present(ks: Seq<usize>, cur: Seq<Option<u64>>) -> bool {
    forall|i: int| 0 <= i < ks.len() ==> (#[trigger] cur[ks[i] as int]) is Some
}

/// The values of the kinds in `ks`, all of which are present in `cur`.
pub open spec fn values_of(ks: Seq<usize>, cur: Seq<Option<u64>>) -> Seq<u64> {
    ks.map_values(|k: usize| cur[k as int]->0)
}

/// The value kind `k` (a sub or computed kind) takes when the kinds it depends
/// on hold the values in `cur` and its own value before the pass was `prior`.
pub open spec fn derived_value(d: KindDef, prior: Option<u64>, cur: Seq<Option<u64>>) -> Option<u64> {
    match d {
        KindDef::Primary { .. } => prior,
        KindDef::Sub { parent, allowed, default } => {
            match cur[parent as int] {
                Some(p) if allowed@.contains(p) => match prior {
                    Some(v) => Some(v),
                    None => Some(default),
                },
                _ => None,
            }
        },
        KindDef::Computed { sources, rules, otherwise } => {
            if all_present(sources@, cur) {
                Some(table_lookup(rules@, otherwise, values_of(sources@, cur)))
            } else {
                None
            }
        },
    }
}

impl Rule {
    /// Whether `vals` matches this rule's pattern.
    pub fn matches(&self, vals: &Vec<u64>) -> (r: bool)
        ensures
            r == pattern_matches(self.pattern@, vals@),
    {
        if self.pattern.len() != vals.len() {
            return false;
        }
        let mut i: usize = 0;
        while i < self.pattern.len()
            invariant
                self.pattern@.len() == vals@.len(),
                0 <= i <= self.pattern@.len(),
                forall|j: int| 0 <= j < i && self.pattern@[j] is Some ==> self.pattern@[j] == Some(vals@[j]),
            decreases self.pattern@.len() - i,
        {
            match self.pattern[i] {
                Some(want) => {
                    if want != vals[i] {
                        return false;
                    }
                },
                None => {},
            }
            i = i + 1;
        }
        true
    }
}

/// The `out` of the first rule matching `vals`, else `otherwise`.
pub fn derive_value(rules: &Vec<Rule>, otherwise: u64, vals: &Vec<u64>) -> (r: u64)
    ensures
        r == table_lookup(rules@, otherwise, vals@),
{
    let mut i: usize = 0;
    assert(rules@.skip(0) =~= rules@);
    while i < rules.len()
        invariant
            0 <= i <= rules@.len(),
            table_lookup(rules@, otherwise, vals@) == table_lookup(rules@.skip(i as int), otherwise, vals@),
        decreases rules@.len() - i,
    {
        assert(rules@.skip(i as int).drop_first() =~= rules@.skip(i + 1));
        if rules[i].matches(vals) {
            return rules[i].out;
        }
        i = i + 1;
    }
    otherwise
}

/// The value a sub or computed kind `d` takes when the kinds it depends on hold
/// `cur` and its value before the pass was `prior`.
pub fn evaluate(d: &KindDef, prior: Option<u64>, cur: &Vec<Option<u64>>) -> (r: Option<u64>)
    requires
        forall|i: int| 0 <= i < deps(*d).len() ==> deps(*d)[i] < cur@.len(),
    ensures
        r == derived_value(*d, prior, cur@),
{
    match d {
        KindDef::Primary { .. } => prior,
        KindDef::Sub { parent, allowed, default } => {
            assert(deps(*d)[0] == *parent);
            match cur[*parent] {
                Some(p) => {
                    let mut found = false;
                    let mut i: usize = 0;
                    while i < allowed.len()
                        invariant
                            0 <= i <= allowed@.len(),
                            found == (exists|j: int| 0 <= j < i && allowed@[j] == p),
                        decreases allowed@.len() - i,
                    {
                        if allowed[i] == p {
                            found = true;
                        }
                        i = i + 1;
                    }
                    if found {
                        match prior {
                            Some(v) => Some(v),
                            None => Some(*default),
                        }
                    } else {
                        None
                    }
                },
                None => None,
            }
        },
        KindDef::Computed { sources, rules, otherwise } => {
            assert(forall|j: int| 0 <= j < sources@.len() ==> deps(*d)[j] == sources@[j]);
            let mut vals: Vec<u64> = Vec::new();
            let mut i: usize = 0;
            while i < sources.len()
                invariant
                    0 <= i <= sources@.len(),
                    *d == (KindDef::Computed { sources: *sources, rules: *rules, otherwise: *otherwise }),
                    forall|j: int| 0 <= j < sources@.len() ==> sources@[j] < cur@.len(),
                    all_present(sources@.take(i as int), cur@),
                    vals@ == values_of(sources@.take(i as int), cur@),
                decreases sources@.len() - i,
            {
                match cur[sources[i]] {
                    Some(v) => {
                        vals.push(v);
                    },
                    None => {
                        assert(cur@[sources@[i as int] as int] is None);
                        assert(!all_present(sources@, cur@));
                        return None;
                    },
                }
                i = i + 1;
                assert(sources@.take(i as int) =~= sources@.take(i - 1).push(sources@[i - 1]));
                assert(vals@ =~= values_of(sources@.take(i as int), cur@));
            }
            assert(sources@.take(i as int) =~= sources@);
            Some(derive_value(rules, *otherwise, &vals))
        },
    }
}

} // verus!
