//! The style system: named styles that are either concrete definitions or
//! aliases to other styles, layered freely, with validation that every alias
//! chain reaches a concrete style without cycling.

use vstd::prelude::*;

use crate::assoc::lemma_assoc_at;
use crate::assoc::lemma_assoc_none;
use crate::assoc::spec_assoc;
use crate::text::chars_eq;
use crate::text::chars_string;
use crate::text::str_chars;

verus! {

/// A named style's value: a concrete definition of its own, or an alias to
/// another style name.
#[derive(Debug, Clone, PartialEq, Eq)]
pub enum StyleValue {
    /// A concrete style definition.
    Concrete(String),
    /// The name of another style to resolve to.
    Alias(String),
}

impl StyleValue {
    /// A concrete style with the given definition.
    pub fn concrete(definition: &str) -> (r: StyleValue)
        ensures
            r matches StyleValue::Concrete(d) && d@ == definition@,
    {
        StyleValue::Concrete(definition.to_owned())
    }

    /// An alias to another style name.
    pub fn alias(target: &str) -> (r: StyleValue)
        ensures
            r matches StyleValue::Alias(t) && t@ == target@,
    {
        StyleValue::Alias(target.to_owned())
    }
}

/// Error returned when style validation fails.
#[derive(Debug, Clone, PartialEq, Eq)]
pub enum StyleValidationError {
    /// An alias references a style that doesn't exist.
    UnresolvedAlias { from: String, to: String },
    /// A cycle was detected in alias resolution.
    CycleDetected { path: Vec<String> },
}

impl StyleValidationError {
    /// A human-readable description of the validation failure.
    pub fn message(&self) -> String {
        match self {
            StyleValidationError::UnresolvedAlias { from, to } => {
                let mut m = "style '".to_owned();
                m.append(from.as_str());
                m.append("' aliases non-existent style '");
                m.append(to.as_str());
                m.append("'");
                m
            },
            StyleValidationError::CycleDetected { path } => {
                let mut m = "cycle detected in style aliases: ".to_owned();
                let mut i: usize = 0;
                while i < path.len()
                    decreases path@.len() - i,
                {
                    if i > 0 {
                        m.append(" -> ");
                    }
                    m.append(path[i].as_str());
                    i = i + 1;
                }
                m
            },
        }
    }
}

/// Whether a style value reaches a concrete definition within `fuel` alias
/// steps; a chain longer than the number of styles must revisit a name, so a
/// fuel of one more than that count decides resolvability.
pub open spec fn spec_resolves(
    entries: Seq<(Seq<char>, StyleValue)>,
    v: StyleValue,
    fuel: nat,
) -> bool
    decreases fuel,
{
    match v {
        StyleValue::Concrete(_) => true,
        StyleValue::Alias(t) => fuel > 0 && match spec_assoc(entries, t@) {
            Some(v2) => spec_resolves(entries, v2, (fuel - 1) as nat),
            None => false,
        },
    }
}

/// How one style's alias chain ends: at a concrete style, at an alias whose
/// target does not exist, or still walking when the fuel runs out (which,
/// with fuel above the style count, means a cycle).
#[derive(Debug, Clone, Copy, PartialEq, Eq, Structural)]
pub enum ChainFate {
    Reached,
    MissingTarget,
    FuelSpent,
}

/// The fate of following a style value's alias chain for at most `fuel`
/// lookups.
pub open spec fn spec_chain_fate(
    entries: Seq<(Seq<char>, StyleValue)>,
    v: StyleValue,
    fuel: nat,
) -> ChainFate
    decreases fuel,
{
    match v {
        StyleValue::Concrete(_) => ChainFate::Reached,
        StyleValue::Alias(t) => if fuel == 0 {
            ChainFate::FuelSpent
        } else {
            match spec_assoc(entries, t@) {
                None => ChainFate::MissingTarget,
                Some(v2) => spec_chain_fate(entries, v2, (fuel - 1) as nat),
            }
        },
    }
}

/// A chain resolves exactly when its fate is to reach a concrete style.
pub proof fn lemma_fate_resolves(entries: Seq<(Seq<char>, StyleValue)>, v: StyleValue, fuel: nat)
    ensures
        spec_resolves(entries, v, fuel) == (spec_chain_fate(entries, v, fuel)
            == ChainFate::Reached),
    decreases fuel,
{
    match v {
        StyleValue::Concrete(_) => {},
        StyleValue::Alias(t) => {
            if fuel > 0 {
                match spec_assoc(entries, t@) {
                    None => {},
                    Some(v2) => {
                        lemma_fate_resolves(entries, v2, (fuel - 1) as nat);
                    },
                }
            }
        },
    }
}

/// A registry of named styles; later additions shadow earlier ones.
#[derive(Debug, Clone)]
pub struct Styles {
    entries: Vec<(String, StyleValue)>,
}

impl Styles {
    /// The name-to-value view of the registry. The list is searched from the
    /// front, and `add` prepends, so the most recent binding of a name wins.
    pub closed spec fn entries_view(self) -> Seq<(Seq<char>, StyleValue)> {
        self.entries@.map_values(|p: (String, StyleValue)| (p.0@, p.1))
    }

    /// Creates an empty style registry.
    pub fn new() -> (r: Styles)
        ensures
            r.entries_view().len() == 0,
    {
        let r = Styles { entries: Vec::new() };
        proof {
            assert(r.entries_view() =~= Seq::<(Seq<char>, StyleValue)>::empty());
        }
        r
    }

    /// Adds a named style, shadowing any earlier style of the same name, and
    /// returns the updated registry for chaining.
    pub fn add(self, name: &str, value: StyleValue) -> (r: Styles)
        ensures
            spec_assoc(r.entries_view(), name@) == Some(value),
            forall|k: Seq<char>|
                k != name@ ==> #[trigger] spec_assoc(r.entries_view(), k) == spec_assoc(
                    self.entries_view(),
                    k,
                ),
    {
        let Styles { mut entries } = self;
        let ghost before = self.entries_view();
        entries.insert(0, (name.to_owned(), value));
        let r = Styles { entries };
        proof {
            assert(r.entries_view() =~= seq![(name@, value)] + before);
            assert(r.entries_view()[0] == (name@, value));
            assert(r.entries_view().drop_first() =~= before);
        }
        r
    }

    /// Whether a style of this name exists.
    pub fn has(&self, name: &str) -> (r: bool)
        ensures
            r == (spec_assoc(self.entries_view(), name@) is Some),
    {
        let chars = str_chars(name);
        self.find(&chars).is_some()
    }

    /// Whether no styles are registered.
    pub fn is_empty(&self) -> (r: bool)
        ensures
            r == (self.entries_view().len() == 0),
    {
        self.entries.is_empty()
    }

    /// Index of the first entry bound to `name`, if any.
    fn find(&self, name: &Vec<char>) -> (r: Option<usize>)
        ensures
            match r {
                Some(i) => i < self.entries_view().len() && spec_assoc(
                    self.entries_view(),
                    name@,
                ) == Some(self.entries_view()[i as int].1),
                None => spec_assoc(self.entries_view(), name@) is None,
            },
    {
        let mut i: usize = 0;
        while i < self.entries.len()
            invariant
                i <= self.entries@.len(),
                forall|j: int| 0 <= j < i ==> (#[trigger] self.entries_view()[j]).0 != name@,
            decreases self.entries@.len() - i,
        {
            let key = str_chars(self.entries[i].0.as_str());
            proof {
                assert(self.entries_view()[i as int].0 == self.entries@[i as int].0@);
            }
            if chars_eq(&key, name) {
                proof {
                    lemma_assoc_at(self.entries_view(), name@, i as int);
                }
                return Some(i);
            }
            i = i + 1;
        }
        proof {
            lemma_assoc_none(self.entries_view(), name@);
        }
        None
    }

    /// Validates that every alias chain reaches a concrete style: `Ok` when
    /// each style resolves, an `UnresolvedAlias` or `CycleDetected` error
    /// naming a failing chain otherwise.
    pub fn validate(&self) -> (r: Result<(), StyleValidationError>)
        requires
            self.entries_view().len() < usize::MAX,
        ensures
            r is Ok <==> (forall|i: int|
                0 <= i < self.entries_view().len() ==> spec_resolves(
                    self.entries_view(),
                    (#[trigger] self.entries_view()[i]).1,
                    (self.entries_view().len() + 1) as nat,
                )),
            r matches Err(e) ==> exists|i: int|
                {
                    let fuel = (self.entries_view().len() + 1) as nat;
                    &&& 0 <= i < self.entries_view().len()
                    &&& forall|j: int|
                        0 <= j < i ==> spec_resolves(
                            self.entries_view(),
                            (#[trigger] self.entries_view()[j]).1,
                            fuel,
                        )
                    &&& ((e is UnresolvedAlias) <==> spec_chain_fate(
                        self.entries_view(),
                        (#[trigger] self.entries_view()[i]).1,
                        fuel,
                    ) == ChainFate::MissingTarget)
                    &&& ((e is CycleDetected) <==> spec_chain_fate(
                        self.entries_view(),
                        self.entries_view()[i].1,
                        fuel,
                    ) == ChainFate::FuelSpent)
                },
    {
        let ghost entries = self.entries_view();
        let fuel = self.entries.len() + 1;
        let mut i: usize = 0;
        while i < self.entries.len()
            invariant
                i <= self.entries@.len(),
                entries == self.entries_view(),
                fuel == self.entries@.len() + 1,
                forall|j: int|
                    0 <= j < i ==> spec_resolves(
                        entries,
                        (#[trigger] entries[j]).1,
                        (entries.len() + 1) as nat,
                    ),
            decreases self.entries@.len() - i,
        {
            proof {
                assert(entries[i as int].1 == self.entries@[i as int].1);
            }
            match self.resolve_chain(&self.entries[i].0, &self.entries[i].1, fuel) {
                Ok(_) => {},
                Err(e) => {
                    return Err(e);
                },
            }
            i = i + 1;
        }
        Ok(())
    }

    /// Follows one style's alias chain for at most `fuel` steps, reporting
    /// how the chain ends: `Ok` when it reaches a concrete style, an
    /// unresolved alias when a target is missing, a detected cycle when the
    /// fuel runs out first.
    fn resolve_chain(&self, start_name: &String, start: &StyleValue, fuel: usize) -> (r: Result<
        (),
        StyleValidationError,
    >)
        ensures
            r is Ok <==> spec_resolves(self.entries_view(), *start, fuel as nat),
            (r matches Err(e) && e is UnresolvedAlias) <==> spec_chain_fate(
                self.entries_view(),
                *start,
                fuel as nat,
            ) == ChainFate::MissingTarget,
            (r matches Err(e) && e is CycleDetected) <==> spec_chain_fate(
                self.entries_view(),
                *start,
                fuel as nat,
            ) == ChainFate::FuelSpent,
    {
        proof {
            lemma_fate_resolves(self.entries_view(), *start, fuel as nat);
        }
        let ghost entries = self.entries_view();
        let mut path: Vec<String> = Vec::new();
        path.push(clone_string(start_name));
        let mut current: &StyleValue = start;
        let mut steps: usize = 0;
        loop
            invariant
                steps <= fuel,
                entries == self.entries_view(),
                spec_resolves(entries, *start, fuel as nat) == spec_resolves(
                    entries,
                    *current,
                    (fuel - steps) as nat,
                ),
                spec_chain_fate(entries, *start, fuel as nat) == spec_chain_fate(
                    entries,
                    *current,
                    (fuel - steps) as nat,
                ),
            decreases fuel - steps,
        {
            proof {
                lemma_fate_resolves(entries, *start, fuel as nat);
            }
            match current {
                StyleValue::Concrete(_) => {
                    return Ok(());
                },
                StyleValue::Alias(target) => {
                    if steps == fuel {
                        return Err(StyleValidationError::CycleDetected { path });
                    }
                    let target_chars = str_chars(target.as_str());
                    match self.find(&target_chars) {
                        Some(idx) => {
                            path.push(clone_string(target));
                            proof {
                                assert(entries[idx as int].1 == self.entries@[idx as int].1);
                            }
                            current = &self.entries[idx].1;
                            steps = steps + 1;
                        },
                        None => {
                            return Err(
                                StyleValidationError::UnresolvedAlias {
                                    from: match path.last() {
                                        Some(last) => clone_string(last),
                                        None => clone_string(start_name),
                                    },
                                    to: clone_string(target),
                                },
                            );
                        },
                    }
                },
            }
        }
    }
}

/// Copies a string.
fn clone_string(s: &String) -> (r: String)
    ensures
        r@ == s@,
{
    let chars = str_chars(s.as_str());
    chars_string(&chars)
}

} // verus!
