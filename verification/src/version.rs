//! Plain-value models of package names, versions and version ranges.
//!
//! The surrounding resolver treats names and versions as opaque, totally
//! ordered value types; all this subsystem ever does with them is compare
//! them, test range membership, and render them. A version is therefore a
//! sequence of numeric release segments ordered lexicographically, and a
//! range is a pair of optional bounds over that order.

use vstd::prelude::*;

verus! {

/// The character for a single decimal digit.
pub open spec fn digit_char(d: int) -> char {
    if d == 0 {
        '0'
    } else if d == 1 {
        '1'
    } else if d == 2 {
        '2'
    } else if d == 3 {
        '3'
    } else if d == 4 {
        '4'
    } else if d == 5 {
        '5'
    } else if d == 6 {
        '6'
    } else if d == 7 {
        '7'
    } else if d == 8 {
        '8'
    } else {
        '9'
    }
}

/// The decimal rendering of a natural number, most significant digit first.
pub open spec fn dec_chars(n: nat) -> Seq<char>
    decreases n,
{
    if n < 10 {
        seq![digit_char(n as int)]
    } else {
        dec_chars(n / 10) + seq![digit_char((n % 10) as int)]
    }
}

/// Strict lexicographic order on release-segment sequences; a strict prefix
/// sorts before its extensions.
pub open spec fn seq_lt(a: Seq<u64>, b: Seq<u64>) -> bool
    decreases a.len(),
{
    if b.len() == 0 {
        false
    } else if a.len() == 0 {
        true
    } else if a[0] < b[0] {
        true
    } else if a[0] > b[0] {
        false
    } else {
        seq_lt(a.drop_first(), b.drop_first())
    }
}

/// Non-strict counterpart of [`seq_lt`].
pub open spec fn seq_le(a: Seq<u64>, b: Seq<u64>) -> bool {
    seq_lt(a, b) || a == b
}

/// A normalized package name, as handed over by the host resolver.
#[derive(Debug, Eq, Hash)]
pub struct PackageName {
    text: String,
}

impl View for PackageName {
    type V = Seq<char>;

    closed spec fn view(&self) -> Seq<char> {
        self.text@
    }
}

impl PackageName {
    /// Wrap an already-normalized name.
    pub fn new(text: String) -> (r: PackageName)
        ensures
            r@ == text@,
    {
        PackageName { text }
    }

    /// The name as text.
    pub fn as_str(&self) -> (r: &str)
        ensures
            r@ == self@,
    {
        self.text.as_str()
    }
}

impl Clone for PackageName {
    fn clone(&self) -> (r: Self)
        ensures
            r@ == self@,
    {
        PackageName { text: self.text.clone() }
    }
}

impl PartialEq for PackageName {
    fn eq(&self, other: &Self) -> (r: bool) {
        self.text == other.text
    }
}

impl vstd::std_specs::cmp::PartialEqSpecImpl for PackageName {
    open spec fn obeys_eq_spec() -> bool {
        true
    }

    open spec fn eq_spec(&self, other: &Self) -> bool {
        self@ == other@
    }
}

/// A package version: its numeric release segments, e.g. `1.0` as `[1, 0]`.
#[derive(Debug, Eq, Hash)]
pub struct Version {
    release: Vec<u64>,
}

impl View for Version {
    type V = Seq<u64>;

    closed spec fn view(&self) -> Seq<u64> {
        self.release@
    }
}

impl Clone for Version {
    fn clone(&self) -> (r: Self)
        ensures
            r@ == self@,
    {
        let n = self.release.len();
        let mut release: Vec<u64> = Vec::new();
        let mut i: usize = 0;
        while i < n
            invariant
                i <= n,
                n == self.release.len(),
                release@ == self.release@.take(i as int),
            decreases n - i,
        {
            release.push(self.release[i]);
            i = i + 1;
            proof {
                assert(release@ =~= self.release@.take(i as int));
            }
        }
        proof {
            assert(self.release@.take(n as int) =~= self.release@);
        }
        Version { release }
    }
}

impl PartialEq for Version {
    fn eq(&self, other: &Self) -> (r: bool) {
        let r = self.release == other.release;
        proof {
            assert(r == (self@ =~= other@));
        }
        r
    }
}

impl vstd::std_specs::cmp::PartialEqSpecImpl for Version {
    open spec fn obeys_eq_spec() -> bool {
        true
    }

    open spec fn eq_spec(&self, other: &Self) -> bool {
        self@ == other@
    }
}

impl Version {
    /// A version from its release segments.
    pub fn new(release: Vec<u64>) -> (r: Version)
        ensures
            r@ == release@,
    {
        Version { release }
    }

    /// Strict order test, per [`seq_lt`].
    pub fn lt(&self, other: &Version) -> (r: bool)
        ensures
            r == seq_lt(self@, other@),
    {
        let n1 = self.release.len();
        let n2 = other.release.len();
        let mut i: usize = 0;
        proof {
            assert(self@.skip(0) =~= self@);
            assert(other@.skip(0) =~= other@);
        }
        while i < n1 && i < n2
            invariant
                i <= n1,
                i <= n2,
                n1 == self.release.len(),
                n2 == other.release.len(),
                seq_lt(self@, other@) == seq_lt(self@.skip(i as int), other@.skip(i as int)),
            decreases n1 - i,
        {
            if self.release[i] < other.release[i] {
                return true;
            }
            if self.release[i] > other.release[i] {
                return false;
            }
            i = i + 1;
            proof {
                assert(self@.skip(i - 1).drop_first() =~= self@.skip(i as int));
                assert(other@.skip(i - 1).drop_first() =~= other@.skip(i as int));
            }
        }
        proof {
            if i == n2 {
                assert(other@.skip(i as int).len() == 0);
            } else {
                assert(self@.skip(i as int).len() == 0);
                assert(other@.skip(i as int).len() > 0);
            }
        }
        i < n2
    }

    /// The version's canonical text, per [`version_chars`].
    pub fn render(&self) -> (s: String)
        ensures
            s@ == version_chars(self@),
    {
        let n = self.release.len();
        let mut s = String::new();
        if n == 0 {
            return s;
        }
        let first = decimal_string(self.release[0]);
        s.append(first.as_str());
        proof {
            assert(self@.take(1) =~= seq![self@[0]]);
            assert(version_chars(self@.take(1)) == dec_chars(self@[0] as nat));
        }
        let mut i: usize = 1;
        while i < n
            invariant
                1 <= i <= n,
                n == self.release@.len(),
                s@ == version_chars(self@.take(i as int)),
            decreases n - i,
        {
            proof {
                reveal_strlit(".");
            }
            s.append(".");
            let seg = decimal_string(self.release[i]);
            s.append(seg.as_str());
            proof {
                lemma_version_chars_snoc(self@.take(i as int), self@[i as int]);
                assert(self@.take(i as int).push(self@[i as int]) =~= self@.take(i + 1));
                assert(("."@) =~= seq!['.']);
            }
            i = i + 1;
        }
        proof {
            assert(self@.take(n as int) =~= self@);
        }
        s
    }

    /// Non-strict order test, per [`seq_le`].
    pub fn le(&self, other: &Version) -> (r: bool)
        ensures
            r == seq_le(self@, other@),
    {
        let eq = self.release == other.release;
        proof {
            assert(eq == (self@ =~= other@));
        }
        if self.lt(other) {
            true
        } else {
            eq
        }
    }
}

/// The digits of `digits`, drawn as characters in reverse order (the vector
/// holds the least significant digit first).
spec fn rev_digit_chars(digits: Seq<u64>) -> Seq<char> {
    Seq::new(digits.len(), |j: int| digit_char(digits[digits.len() - 1 - j] as int))
}

/// The rendering of the digits of `m` still to be emitted; empty once `m`
/// has been consumed.
spec fn dec_prefix(m: nat) -> Seq<char> {
    if m == 0 {
        Seq::empty()
    } else {
        dec_chars(m)
    }
}

/// The text for a single decimal digit.
fn digit_str(d: u64) -> (r: &'static str)
    requires
        d < 10,
    ensures
        r@ == seq![digit_char(d as int)],
{
    proof {
        reveal_strlit("0");
        reveal_strlit("1");
        reveal_strlit("2");
        reveal_strlit("3");
        reveal_strlit("4");
        reveal_strlit("5");
        reveal_strlit("6");
        reveal_strlit("7");
        reveal_strlit("8");
        reveal_strlit("9");
    }
    let r = match d {
        0 => "0",
        1 => "1",
        2 => "2",
        3 => "3",
        4 => "4",
        5 => "5",
        6 => "6",
        7 => "7",
        8 => "8",
        _ => "9",
    };
    proof {
        assert(r@ =~= seq![digit_char(d as int)]);
    }
    r
}

/// The decimal rendering of `n`, per [`dec_chars`].
fn decimal_string(n: u64) -> (s: String)
    ensures
        s@ == dec_chars(n as nat),
{
    let mut digits: Vec<u64> = Vec::new();
    digits.push(n % 10);
    let mut m: u64 = n / 10;
    proof {
        assert(dec_chars(n as nat) =~= dec_prefix((n / 10) as nat) + rev_digit_chars(digits@));
    }
    while m > 0
        invariant
            digits@.len() >= 1,
            forall|i: int| 0 <= i < digits@.len() ==> digits@[i] < 10,
            dec_chars(n as nat) == dec_prefix(m as nat) + rev_digit_chars(digits@),
        decreases m,
    {
        digits.push(m % 10);
        proof {
            assert(dec_prefix(m as nat) + rev_digit_chars(digits@.drop_last()) =~= dec_prefix(
                (m / 10) as nat,
            ) + rev_digit_chars(digits@));
        }
        m = m / 10;
    }
    let mut s = String::new();
    let k = digits.len();
    let mut i: usize = k;
    proof {
        assert(s@ =~= rev_digit_chars(digits@).take(0));
    }
    while i > 0
        invariant
            i <= k,
            k == digits@.len(),
            forall|j: int| 0 <= j < digits@.len() ==> digits@[j] < 10,
            dec_chars(n as nat) == rev_digit_chars(digits@),
            s@ == rev_digit_chars(digits@).take(k - i),
        decreases i,
    {
        i = i - 1;
        let d = digit_str(digits[i]);
        s.append(d);
        proof {
            assert(s@ =~= rev_digit_chars(digits@).take(k - i));
        }
    }
    proof {
        assert(rev_digit_chars(digits@).take(k as int) =~= rev_digit_chars(digits@));
    }
    s
}

/// The canonical text of a version: its release segments, rendered in
/// decimal and joined by `.`.
pub open spec fn version_chars(v: Seq<u64>) -> Seq<char>
    decreases v.len(),
{
    if v.len() == 0 {
        Seq::empty()
    } else if v.len() == 1 {
        dec_chars(v[0] as nat)
    } else {
        dec_chars(v[0] as nat) + seq!['.'] + version_chars(v.drop_first())
    }
}

/// Appending one more segment appends a dot and its decimal text.
proof fn lemma_version_chars_snoc(v: Seq<u64>, x: u64)
    requires
        v.len() >= 1,
    ensures
        version_chars(v.push(x)) == version_chars(v) + seq!['.'] + dec_chars(x as nat),
    decreases v.len(),
{
    if v.len() == 1 {
        assert(v.push(x).drop_first() =~= seq![x]);
        assert(version_chars(seq![x]) == dec_chars(x as nat));
        assert(version_chars(v.push(x)) == dec_chars(v.push(x)[0] as nat) + seq!['.']
            + version_chars(v.push(x).drop_first()));
        assert(version_chars(v.push(x)) =~= version_chars(v) + seq!['.'] + dec_chars(x as nat));
    } else {
        let w = v.drop_first();
        lemma_version_chars_snoc(w, x);
        assert(v.push(x).drop_first() =~= w.push(x));
        assert(version_chars(v.push(x)) == dec_chars(v[0] as nat) + seq!['.'] + version_chars(
            w.push(x),
        ));
        assert(version_chars(v.push(x)) =~= version_chars(v) + seq!['.'] + dec_chars(x as nat));
    }
}

/// One end of a version range.
#[derive(Debug)]
pub enum Bound {
    /// No constraint at this end.
    Unbounded,
    /// The end point, itself allowed.
    Inclusive(Version),
    /// The end point, itself excluded.
    Exclusive(Version),
}

/// Whether a version lies above the lower bound.
pub open spec fn above_lower(lower: Bound, v: Seq<u64>) -> bool {
    match lower {
        Bound::Unbounded => true,
        Bound::Inclusive(l) => seq_le(l@, v),
        Bound::Exclusive(l) => seq_lt(l@, v),
    }
}

/// Whether a version lies below the upper bound.
pub open spec fn below_upper(upper: Bound, v: Seq<u64>) -> bool {
    match upper {
        Bound::Unbounded => true,
        Bound::Inclusive(u) => seq_le(v, u@),
        Bound::Exclusive(u) => seq_lt(v, u@),
    }
}

/// A contiguous range of versions, as recorded by the solver in a
/// "derived from dependency" incompatibility.
#[derive(Debug)]
pub struct VersionRange {
    pub lower: Bound,
    pub upper: Bound,
}

impl VersionRange {
    /// Which versions the range admits.
    pub open spec fn spec_contains(self, v: Seq<u64>) -> bool {
        above_lower(self.lower, v) && below_upper(self.upper, v)
    }

    /// A range from its two bounds.
    pub fn new(lower: Bound, upper: Bound) -> (r: VersionRange)
        ensures
            r == (VersionRange { lower, upper }),
    {
        VersionRange { lower, upper }
    }

    /// The range admitting every version.
    pub fn any() -> (r: VersionRange)
        ensures
            forall|v: Seq<u64>| r.spec_contains(v),
    {
        VersionRange { lower: Bound::Unbounded, upper: Bound::Unbounded }
    }

    /// Membership test, per [`VersionRange::spec_contains`].
    pub fn contains(&self, v: &Version) -> (r: bool)
        ensures
            r == self.spec_contains(v@),
    {
        let lo = match &self.lower {
            Bound::Unbounded => true,
            Bound::Inclusive(l) => l.le(v),
            Bound::Exclusive(l) => l.lt(v),
        };
        let hi = match &self.upper {
            Bound::Unbounded => true,
            Bound::Inclusive(u) => v.le(u),
            Bound::Exclusive(u) => v.lt(u),
        };
        lo && hi
    }
}

} // verus!
