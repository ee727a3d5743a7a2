//! The derivation chain: the result type shared by both chain finders.
//!
//! A chain is an ordered sequence of (name, version) steps explaining why a
//! package is part of a resolution: the root-ward end comes first, the
//! target-ward end last, and neither the root nor the target itself is
//! included. An empty chain means the target is a direct requirement of the
//! root, or that no chain could be established.

use crate::version::version_chars;
use crate::version::PackageName;
use crate::version::Version;
use vstd::prelude::*;
use vstd::std_specs::cmp::PartialEqSpec;

verus! {

/// The mathematical value of one derivation step.
#[verifier::ext_equal]
pub ghost struct StepView {
    /// The package's name, as text.
    pub name: Seq<char>,
    /// The chosen version's release segments.
    pub version: Seq<u64>,
}

/// The canonical text of one step: `name==version`.
pub open spec fn step_chars(s: StepView) -> Seq<char> {
    s.name + seq!['=', '='] + version_chars(s.version)
}

/// The canonical text of a chain: its steps joined by `" -> "`; a single
/// step stands alone, and the empty chain renders as the empty string.
pub open spec fn chain_chars(c: Seq<StepView>) -> Seq<char>
    decreases c.len(),
{
    if c.len() == 0 {
        Seq::empty()
    } else if c.len() == 1 {
        step_chars(c[0])
    } else {
        step_chars(c[0]) + seq![' ', '-', '>', ' '] + chain_chars(c.drop_first())
    }
}

/// Appending one more step appends a `" -> "` separator and its text.
proof fn lemma_chain_chars_snoc(c: Seq<StepView>, s: StepView)
    requires
        c.len() >= 1,
    ensures
        chain_chars(c.push(s)) == chain_chars(c) + seq![' ', '-', '>', ' '] + step_chars(s),
    decreases c.len(),
{
    if c.len() == 1 {
        assert(c.push(s).drop_first() =~= seq![s]);
        assert(chain_chars(seq![s]) == step_chars(s));
        assert(chain_chars(c.push(s)) == step_chars(c.push(s)[0]) + seq![' ', '-', '>', ' ']
            + chain_chars(c.push(s).drop_first()));
        assert(chain_chars(c.push(s)) =~= chain_chars(c) + seq![' ', '-', '>', ' '] + step_chars(
            s,
        ));
    } else {
        let w = c.drop_first();
        lemma_chain_chars_snoc(w, s);
        assert(c.push(s).drop_first() =~= w.push(s));
        assert(chain_chars(c.push(s)) == step_chars(c[0]) + seq![' ', '-', '>', ' '] + chain_chars(
            w.push(s),
        ));
        assert(chain_chars(c.push(s)) =~= chain_chars(c) + seq![' ', '-', '>', ' '] + step_chars(
            s,
        ));
    }
}

/// A step in a derivation chain.
#[derive(Debug, Eq, Hash)]
pub struct DerivationStep {
    /// The name of the package.
    name: PackageName,
    /// The version of the package.
    version: Version,
}

impl View for DerivationStep {
    type V = StepView;

    closed spec fn view(&self) -> StepView {
        StepView { name: self.name@, version: self.version@ }
    }
}

impl DerivationStep {
    /// Create a [`DerivationStep`] from a package name and version.
    pub fn new(name: PackageName, version: Version) -> (r: DerivationStep)
        ensures
            r@ == (StepView { name: name@, version: version@ }),
    {
        DerivationStep { name, version }
    }

    /// The package's name.
    pub fn name(&self) -> (r: &PackageName)
        ensures
            r@ == self@.name,
    {
        &self.name
    }

    /// The chosen version.
    pub fn version(&self) -> (r: &Version)
        ensures
            r@ == self@.version,
    {
        &self.version
    }

    /// The step's canonical text, per [`step_chars`].
    pub fn render(&self) -> (s: String)
        ensures
            s@ == step_chars(self@),
    {
        proof {
            reveal_strlit("==");
        }
        let mut s = String::new();
        s.append(self.name.as_str());
        s.append("==");
        let v = self.version.render();
        s.append(v.as_str());
        proof {
            assert(("=="@) =~= seq!['=', '=']);
            assert(s@ =~= step_chars(self@));
        }
        s
    }
}

impl Clone for DerivationStep {
    fn clone(&self) -> (r: Self)
        ensures
            r@ == self@,
    {
        DerivationStep { name: self.name.clone(), version: self.version.clone() }
    }
}

impl PartialEq for DerivationStep {
    fn eq(&self, other: &Self) -> (r: bool) {
        self.name == other.name && self.version == other.version
    }
}

impl vstd::std_specs::cmp::PartialEqSpecImpl for DerivationStep {
    open spec fn obeys_eq_spec() -> bool {
        true
    }

    open spec fn eq_spec(&self, other: &Self) -> bool {
        self@ == other@
    }
}

/// A chain of derivation steps from the root package to the current package,
/// to explain why a package is included in the resolution.
#[derive(Debug, Default, Eq, Hash)]
pub struct DerivationChain(Vec<DerivationStep>);

impl View for DerivationChain {
    type V = Seq<StepView>;

    closed spec fn view(&self) -> Seq<StepView> {
        self.0@.map_values(|s: DerivationStep| s@)
    }
}

impl DerivationChain {
    /// Wrap an ordered sequence of steps, root-ward end first.
    pub fn from_steps(steps: Vec<DerivationStep>) -> (r: DerivationChain)
        ensures
            r@ == steps@.map_values(|s: DerivationStep| s@),
    {
        DerivationChain(steps)
    }

    /// Returns the length of the derivation chain.
    pub fn len(&self) -> (r: usize)
        ensures
            r == self@.len(),
    {
        self.0.len()
    }

    /// Returns `true` if the derivation chain is empty.
    pub fn is_empty(&self) -> (r: bool)
        ensures
            r == (self@.len() == 0),
    {
        self.0.is_empty()
    }

    /// Returns the steps in the derivation chain, for iteration.
    pub fn iter(&self) -> (r: &Vec<DerivationStep>)
        ensures
            r@.map_values(|s: DerivationStep| s@) == self@,
    {
        &self.0
    }

    /// Consumes the chain, yielding its owned steps.
    pub fn into_steps(self) -> (r: Vec<DerivationStep>)
        ensures
            r@.map_values(|s: DerivationStep| s@) == self@,
    {
        self.0
    }

    /// The chain's canonical text, per [`chain_chars`].
    pub fn render(&self) -> (s: String)
        ensures
            s@ == chain_chars(self@),
    {
        let n = self.0.len();
        let mut s = String::new();
        if n == 0 {
            return s;
        }
        let first = self.0[0].render();
        s.append(first.as_str());
        proof {
            assert(self@.take(1) =~= seq![self@[0]]);
            assert(chain_chars(self@.take(1)) == step_chars(self@[0]));
        }
        let mut i: usize = 1;
        while i < n
            invariant
                1 <= i <= n,
                n == self.0@.len(),
                self@.len() == n,
                s@ == chain_chars(self@.take(i as int)),
            decreases n - i,
        {
            proof {
                reveal_strlit(" -> ");
            }
            s.append(" -> ");
            let step = self.0[i].render();
            s.append(step.as_str());
            proof {
                lemma_chain_chars_snoc(self@.take(i as int), self@[i as int]);
                assert(self@.take(i as int).push(self@[i as int]) =~= self@.take(i + 1));
                assert((" -> "@) =~= seq![' ', '-', '>', ' ']);
            }
            i = i + 1;
        }
        proof {
            assert(self@.take(n as int) =~= self@);
        }
        s
    }
}

impl Clone for DerivationChain {
    fn clone(&self) -> (r: Self)
        ensures
            r@ == self@,
    {
        let n = self.0.len();
        let mut steps: Vec<DerivationStep> = Vec::new();
        let mut i: usize = 0;
        while i < n
            invariant
                i <= n,
                n == self.0@.len(),
                steps@.len() == i,
                forall|x: int| 0 <= x < i ==> (#[trigger] steps@[x])@ == self.0@[x]@,
            decreases n - i,
        {
            steps.push(self.0[i].clone());
            i = i + 1;
        }
        let r = DerivationChain(steps);
        proof {
            assert(r@ =~= self@);
        }
        r
    }
}

impl PartialEq for DerivationChain {
    fn eq(&self, other: &Self) -> (r: bool) {
        let r = self.0 == other.0;
        proof {
            let a = self@;
            let b = other@;
            assert(a.len() == self.0@.len());
            assert(b.len() == other.0@.len());
            if r {
                assert forall|i: int| 0 <= i < a.len() implies a[i] == b[i] by {
                    assert(self.0@[i].eq_spec(&other.0@[i]));
                    assert(a[i] == self.0@[i]@);
                    assert(b[i] == other.0@[i]@);
                }
                assert(a =~= b);
            } else if a == b {
                assert forall|i: int|
                    0 <= i < self.0@.len() implies self.0@[i].eq_spec(&other.0@[i]) by {
                    assert(a[i] == self.0@[i]@);
                    assert(b[i] == other.0@[i]@);
                    assert(a[i] == b[i]);
                }
                assert(false);
            }
        }
        r
    }
}

impl vstd::std_specs::cmp::PartialEqSpecImpl for DerivationChain {
    open spec fn obeys_eq_spec() -> bool {
        true
    }

    open spec fn eq_spec(&self, other: &Self) -> bool {
        self@ == other@
    }
}

} // verus!
