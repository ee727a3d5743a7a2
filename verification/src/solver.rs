//! The solver-state chain finder: a depth-first backtracking search over
//! the solver's recorded "derived from dependency" incompatibilities,
//! looking for an ancestry path from a package/version pair back to the
//! root package.
//!
//! The solver's state is handed over as plain values: the incompatibility
//! store, an index from package to the store positions mentioning it, and
//! the selected-dependencies snapshot extracted from the partial solution.

use crate::chain::DerivationChain;
use crate::chain::DerivationStep;
use crate::chain::StepView;
use crate::version::PackageName;
use crate::version::Version;
use crate::version::VersionRange;
use vstd::prelude::*;

verus! {

/// The mathematical value of a solver package.
#[verifier::ext_equal]
pub ghost enum PkgView {
    /// The distinguished root package.
    Root,
    /// An ordinary named package.
    Package(Seq<char>),
    /// A synthetic package used internally by the solver; it has no name.
    Synthetic(u64),
}

/// A package as the solver tracks it.
#[derive(Debug)]
pub enum PubGrubPackage {
    /// The distinguished root package: the user's direct requirements.
    Root,
    /// An ordinary named package.
    Package(PackageName),
    /// A synthetic package used internally by the solver, distinguished by
    /// an arbitrary tag; it has no name and is dropped from rendered chains.
    Synthetic(u64),
}

impl View for PubGrubPackage {
    type V = PkgView;

    open spec fn view(&self) -> PkgView {
        match self {
            PubGrubPackage::Root => PkgView::Root,
            PubGrubPackage::Package(n) => PkgView::Package(n@),
            PubGrubPackage::Synthetic(tag) => PkgView::Synthetic(*tag),
        }
    }
}

impl PubGrubPackage {
    /// Whether this is the root package.
    pub fn is_root(&self) -> (r: bool)
        ensures
            r == (self@ is Root),
    {
        match self {
            PubGrubPackage::Root => true,
            _ => false,
        }
    }

    /// The package's name, if it has one.
    pub fn name(&self) -> (r: Option<&PackageName>)
        ensures
            match r {
                Some(n) => self@ is Package && self@->Package_0 == n@,
                None => !(self@ is Package),
            },
    {
        match self {
            PubGrubPackage::Package(n) => Some(n),
            _ => None,
        }
    }
}

impl Clone for PubGrubPackage {
    fn clone(&self) -> (r: Self)
        ensures
            r@ == self@,
    {
        match self {
            PubGrubPackage::Root => PubGrubPackage::Root,
            PubGrubPackage::Package(n) => PubGrubPackage::Package(n.clone()),
            PubGrubPackage::Synthetic(tag) => PubGrubPackage::Synthetic(*tag),
        }
    }
}

impl PartialEq for PubGrubPackage {
    fn eq(&self, other: &Self) -> (r: bool) {
        match (self, other) {
            (PubGrubPackage::Root, PubGrubPackage::Root) => true,
            (PubGrubPackage::Package(a), PubGrubPackage::Package(b)) => a == b,
            (PubGrubPackage::Synthetic(a), PubGrubPackage::Synthetic(b)) => a == b,
            _ => false,
        }
    }
}

impl vstd::std_specs::cmp::PartialEqSpecImpl for PubGrubPackage {
    open spec fn obeys_eq_spec() -> bool {
        true
    }

    open spec fn eq_spec(&self, other: &Self) -> bool {
        self@ == other@
    }
}

/// An incompatibility recorded by the solver, tagged by its kind. Only the
/// "derived from dependency" kind drives the chain search; every other
/// kind is opaque to it.
#[derive(Debug)]
pub enum Incompatibility {
    /// "`p1` within `v1` depends on `p2` only within `v2`": any pairing of
    /// `p1` in `v1` with `p2` outside `v2` is infeasible.
    FromDependencyOf(PubGrubPackage, VersionRange, PubGrubPackage, VersionRange),
    /// A package has no usable versions in a range; opaque to this search.
    NoVersions(PubGrubPackage, VersionRange),
}

/// The solver's state, as this subsystem reads it.
#[derive(Debug)]
pub struct SolverState {
    /// The incompatibility store.
    pub incompatibility_store: Vec<Incompatibility>,
    /// For each package, the store positions of the incompatibilities that
    /// mention it; the search looks packages up by the first entry.
    pub incompatibilities: Vec<(PubGrubPackage, Vec<usize>)>,
    /// The selected-dependencies snapshot extracted from the partial
    /// solution: each package's chosen version, if chosen.
    pub partial_solution: Vec<(PubGrubPackage, Version)>,
}

/// The version selected for `p`, per the snapshot's first matching entry.
pub open spec fn lookup_selected(
    sol: Seq<(PubGrubPackage, Version)>,
    p: PkgView,
) -> Option<Seq<u64>>
    decreases sol.len(),
{
    if sol.len() == 0 {
        None
    } else if sol[0].0@ == p {
        Some(sol[0].1@)
    } else {
        lookup_selected(sol.drop_first(), p)
    }
}

/// The store positions indexed under `p`, per the index's first matching
/// entry.
pub open spec fn lookup_index(
    idx: Seq<(PubGrubPackage, Vec<usize>)>,
    p: PkgView,
) -> Option<Seq<usize>>
    decreases idx.len(),
{
    if idx.len() == 0 {
        None
    } else if idx[0].0@ == p {
        Some(idx[0].1@)
    } else {
        lookup_index(idx.drop_first(), p)
    }
}

/// Whether a record is a dependency derivation whose dependency side is
/// `p` at a version within the recorded range `v2`.
pub open spec fn dependency_mentions(r: Incompatibility, p: PkgView, v: Seq<u64>) -> bool {
    match r {
        Incompatibility::FromDependencyOf(_, _, p2, v2) => p2@ == p && v2.spec_contains(v),
        _ => false,
    }
}

/// Whether a record explains `p` at `v` as required by `q`.
pub open spec fn record_links(r: Incompatibility, p: PkgView, v: Seq<u64>, q: PkgView) -> bool {
    match r {
        Incompatibility::FromDependencyOf(p1, _, p2, v2) => p1@ == q && p2@ == p
            && v2.spec_contains(v),
        _ => false,
    }
}

/// Whether `q` at its selected version `w` is a recorded requirer of `p`
/// at `v`.
pub open spec fn requirer_link(
    st: SolverState,
    p: PkgView,
    v: Seq<u64>,
    q: PkgView,
    w: Seq<u64>,
) -> bool {
    &&& exists|i: int|
        0 <= i < st.incompatibility_store@.len() && record_links(
            #[trigger] st.incompatibility_store@[i],
            p,
            v,
            q,
        )
    &&& lookup_selected(st.partial_solution@, q) == Some(w)
}

/// Whether `trail` is a complete recorded ancestry for `p` at `v`: each
/// entry is a selected requirer of its predecessor, and the last entry is
/// the root package (a root query needs no entries at all).
pub open spec fn linked(
    st: SolverState,
    p: PkgView,
    v: Seq<u64>,
    trail: Seq<(PkgView, Seq<u64>)>,
) -> bool
    decreases trail.len(),
{
    if p is Root {
        trail.len() == 0
    } else {
        &&& trail.len() > 0
        &&& requirer_link(st, p, v, trail[0].0, trail[0].1)
        &&& linked(st, trail[0].0, trail[0].1, trail.drop_first())
    }
}

/// Whether a trail entry carries a named package.
pub open spec fn named(e: (PkgView, Seq<u64>)) -> bool {
    e.0 is Package
}

/// The derivation step a named trail entry stands for.
pub open spec fn entry_step(e: (PkgView, Seq<u64>)) -> StepView {
    StepView { name: e.0->Package_0, version: e.1 }
}

/// The steps of a root-to-target entry sequence: entries for packages
/// without a name (the root, synthetic packages) are silently dropped.
pub open spec fn steps_of(rt: Seq<(PkgView, Seq<u64>)>) -> Seq<StepView>
    decreases rt.len(),
{
    if rt.len() == 0 {
        Seq::empty()
    } else if named(rt[0]) {
        seq![entry_step(rt[0])] + steps_of(rt.drop_first())
    } else {
        steps_of(rt.drop_first())
    }
}

/// The chain a trail renders to: the trail reversed into root-to-target
/// order, nameless entries dropped.
pub open spec fn trail_steps(trail: Seq<(PkgView, Seq<u64>)>) -> Seq<StepView> {
    steps_of(trail.reverse())
}

/// The requirer a candidate record offers for `p` at `v`: its dependent
/// side and that side's selected version, if the record is a dependency
/// derivation for `p` within range and its dependent was selected.
spec fn cand_requirer(st: SolverState, p: PkgView, v: Seq<u64>, ci: int) -> Option<
    (PkgView, Seq<u64>),
> {
    match st.incompatibility_store@[ci] {
        Incompatibility::FromDependencyOf(p1, _, p2, v2) => {
            if p2@ == p && v2.spec_contains(v) {
                match lookup_selected(st.partial_solution@, p1@) {
                    Some(w) => Some((p1@, w)),
                    None => None,
                }
            } else {
                None
            }
        },
        _ => None,
    }
}

/// Whether no recorded ancestry at all reaches the root from `p` at `v`.
pub open spec fn no_trail(st: SolverState, p: PkgView, v: Seq<u64>) -> bool {
    forall|tr: Seq<(PkgView, Seq<u64>)>| !(#[trigger] linked(st, p, v, tr))
}

impl SolverState {
    /// The index is consistent with the store: indexed positions are valid,
    /// and every dependency derivation is indexed under its dependency side.
    pub open spec fn wf(&self) -> bool {
        &&& forall|e: int, j: int|
            0 <= e < self.incompatibilities@.len() && 0 <= j
                < self.incompatibilities@[e].1@.len() ==> (#[trigger] self.incompatibilities@[e].1@[j])
                < self.incompatibility_store@.len()
        &&& forall|i: int|
            0 <= i < self.incompatibility_store@.len() ==> #[trigger] self.listed_under(i)
    }

    /// Whether record `i`, if it is a dependency derivation, is indexed
    /// under its dependency side.
    pub open spec fn listed_under(&self, i: int) -> bool {
        match self.incompatibility_store@[i] {
            Incompatibility::FromDependencyOf(_, _, p2, _) => match lookup_index(
                self.incompatibilities@,
                p2@,
            ) {
                Some(l) => exists|j: int| 0 <= j < l.len() && #[trigger] l[j] as int == i,
                None => false,
            },
            _ => true,
        }
    }
}

/// No recorded ancestry reaches the root from a non-root package when no
/// dependency derivation in the store mentions it as the dependency side
/// within the queried version: with `from_state`'s contract, the finder
/// returns `None` for such a query.
pub proof fn lemma_no_dependency_record(st: SolverState, p: PkgView, v: Seq<u64>)
    requires
        !(p is Root),
        forall|i: int|
            0 <= i < st.incompatibility_store@.len() ==> !dependency_mentions(
                #[trigger] st.incompatibility_store@[i],
                p,
                v,
            ),
    ensures
        no_trail(st, p, v),
{
    assert forall|tr: Seq<(PkgView, Seq<u64>)>| !(#[trigger] linked(st, p, v, tr)) by {
        if linked(st, p, v, tr) {
            assert(requirer_link(st, p, v, tr[0].0, tr[0].1));
            let i = choose|i: int|
                0 <= i < st.incompatibility_store@.len() && record_links(
                    #[trigger] st.incompatibility_store@[i],
                    p,
                    v,
                    tr[0].0,
                );
            assert(dependency_mentions(st.incompatibility_store@[i], p, v));
        }
    }
}

/// A frame whose candidates are exhausted has no recorded ancestry: every
/// candidate the index offers either does not apply or leads nowhere.
proof fn lemma_frame_exhausted(st: SolverState, p: PkgView, v: Seq<u64>)
    requires
        st.wf(),
        !(p is Root),
        match lookup_index(st.incompatibilities@, p) {
            Some(l) => forall|j: int|
                0 <= j < l.len() ==> match cand_requirer(st, p, v, #[trigger] l[j] as int) {
                    Some(pw) => no_trail(st, pw.0, pw.1),
                    None => true,
                },
            None => true,
        },
    ensures
        no_trail(st, p, v),
{
    assert forall|tr: Seq<(PkgView, Seq<u64>)>| !(#[trigger] linked(st, p, v, tr)) by {
        if linked(st, p, v, tr) {
            let q = tr[0].0;
            let w = tr[0].1;
            assert(requirer_link(st, p, v, q, w));
            let i = choose|i: int|
                0 <= i < st.incompatibility_store@.len() && record_links(
                    #[trigger] st.incompatibility_store@[i],
                    p,
                    v,
                    q,
                );
            assert(st.listed_under(i));
            match st.incompatibility_store@[i] {
                Incompatibility::FromDependencyOf(p1, _, p2, v2) => {
                    assert(p2@ == p);
                    let l = lookup_index(st.incompatibilities@, p)->Some_0;
                    let j = choose|j: int| 0 <= j < l.len() && #[trigger] l[j] as int == i;
                    assert(cand_requirer(st, p, v, i) == Some((q, w)));
                    assert(no_trail(st, q, w));
                    assert(linked(st, q, w, tr.drop_first()));
                    assert(false);
                },
                _ => {
                    assert(false);
                },
            }
        }
    }
}

/// Appending an entry to a root-to-target sequence appends its step, or
/// nothing when the entry is nameless.
proof fn lemma_steps_of_snoc(rt: Seq<(PkgView, Seq<u64>)>, e: (PkgView, Seq<u64>))
    ensures
        steps_of(rt.push(e)) == steps_of(rt) + (if named(e) {
            seq![entry_step(e)]
        } else {
            Seq::<StepView>::empty()
        }),
    decreases rt.len(),
{
    let tail = (if named(e) {
        seq![entry_step(e)]
    } else {
        Seq::<StepView>::empty()
    });
    if rt.len() == 0 {
        assert(rt.push(e)[0] == e);
        assert(rt.push(e).drop_first() =~= Seq::<(PkgView, Seq<u64>)>::empty());
        assert(steps_of(rt.push(e).drop_first()) == Seq::<StepView>::empty());
        if named(e) {
            assert(steps_of(rt.push(e)) == seq![entry_step(e)] + steps_of(
                rt.push(e).drop_first(),
            ));
        } else {
            assert(steps_of(rt.push(e)) == steps_of(rt.push(e).drop_first()));
        }
        assert(steps_of(rt.push(e)) =~= steps_of(rt) + tail);
    } else {
        lemma_steps_of_snoc(rt.drop_first(), e);
        assert(rt.push(e)[0] == rt[0]);
        assert(rt.push(e).drop_first() =~= rt.drop_first().push(e));
        if named(rt[0]) {
            assert(steps_of(rt.push(e)) == seq![entry_step(rt[0])] + steps_of(
                rt.drop_first().push(e),
            ));
            assert(steps_of(rt) == seq![entry_step(rt[0])] + steps_of(rt.drop_first()));
        } else {
            assert(steps_of(rt.push(e)) == steps_of(rt.drop_first().push(e)));
            assert(steps_of(rt) == steps_of(rt.drop_first()));
        }
        assert(steps_of(rt.push(e)) =~= steps_of(rt) + tail);
    }
}

/// Find the index entry for a package: the first entry whose key is it.
fn find_index_entry(state: &SolverState, p: &PubGrubPackage) -> (r: Option<usize>)
    ensures
        match r {
            Some(e) => 0 <= e < state.incompatibilities@.len()
                && state.incompatibilities@[e as int].0@ == p@ && lookup_index(
                state.incompatibilities@,
                p@,
            ) == Some(state.incompatibilities@[e as int].1@),
            None => lookup_index(state.incompatibilities@, p@) is None,
        },
{
    let n = state.incompatibilities.len();
    let mut i: usize = 0;
    proof {
        assert(state.incompatibilities@.skip(0) =~= state.incompatibilities@);
    }
    while i < n
        invariant
            i <= n,
            n == state.incompatibilities@.len(),
            lookup_index(state.incompatibilities@, p@) == lookup_index(
                state.incompatibilities@.skip(i as int),
                p@,
            ),
        decreases n - i,
    {
        if state.incompatibilities[i].0 == *p {
            proof {
                assert(state.incompatibilities@.skip(i as int)[0] == state.incompatibilities@[i as int]);
            }
            return Some(i);
        }
        i = i + 1;
        proof {
            assert(state.incompatibilities@.skip(i - 1)[0] == state.incompatibilities@[i - 1]);
            assert(state.incompatibilities@.skip(i - 1).drop_first()
                =~= state.incompatibilities@.skip(i as int));
        }
    }
    proof {
        assert(state.incompatibilities@.skip(n as int).len() == 0);
    }
    None
}

/// Find a package's selected version in the snapshot, if any.
fn find_selected<'a>(state: &'a SolverState, p: &PubGrubPackage) -> (r: Option<&'a Version>)
    ensures
        match r {
            Some(w) => lookup_selected(state.partial_solution@, p@) == Some(w@),
            None => lookup_selected(state.partial_solution@, p@) is None,
        },
{
    let n = state.partial_solution.len();
    let mut i: usize = 0;
    proof {
        assert(state.partial_solution@.skip(0) =~= state.partial_solution@);
    }
    while i < n
        invariant
            i <= n,
            n == state.partial_solution@.len(),
            lookup_selected(state.partial_solution@, p@) == lookup_selected(
                state.partial_solution@.skip(i as int),
                p@,
            ),
        decreases n - i,
    {
        if state.partial_solution[i].0 == *p {
            proof {
                assert(state.partial_solution@.skip(i as int)[0] == state.partial_solution@[i as int]);
            }
            return Some(&state.partial_solution[i].1);
        }
        i = i + 1;
        proof {
            assert(state.partial_solution@.skip(i - 1)[0] == state.partial_solution@[i - 1]);
            assert(state.partial_solution@.skip(i - 1).drop_first() =~= state.partial_solution@.skip(
                i as int,
            ));
        }
    }
    proof {
        assert(state.partial_solution@.skip(n as int).len() == 0);
    }
    None
}

/// Whether requirers strictly descend under `rank`: no recorded
/// derivation can then cycle.
pub open spec fn rank_ok(st: SolverState, rank: Map<PkgView, nat>) -> bool {
    forall|p: PkgView, v: Seq<u64>, q: PkgView, w: Seq<u64>|
        #[trigger] requirer_link(st, p, v, q, w) ==> rank[q] < rank[p]
}

/// The solver guarantees by construction that "is required by" chains are
/// acyclic and terminate at the root; as a precondition this is phrased as
/// the existence of a rank under which recorded requirers strictly descend.
pub open spec fn acyclic_requirers(st: SolverState) -> bool {
    exists|rank: Map<PkgView, nat>| rank_ok(st, rank)
}

/// A rank witnessing `acyclic_requirers`, when one exists.
spec fn rank_of(st: SolverState) -> Map<PkgView, nat> {
    choose|rank: Map<PkgView, nat>| rank_ok(st, rank)
}

/// Search for a recorded ancestry from `package` at `version` to the
/// root. Candidates are tried in index order; the first candidate whose
/// recursive continuation reaches the root wins, and dead ends are
/// abandoned. A found trail runs from the first requirer up to the root.
fn fill_complete_path(
    state: &SolverState,
    package: &PubGrubPackage,
    version: &Version,
) -> (r: Option<Vec<(PubGrubPackage, Version)>>)
    requires
        state.wf(),
        acyclic_requirers(*state),
    ensures
        match r {
            Some(tr) => linked(
                *state,
                package@,
                version@,
                tr@.map_values(|x: (PubGrubPackage, Version)| (x.0@, x.1@)),
            ),
            None => no_trail(*state, package@, version@),
        },
    decreases rank_of(*state)[package@],
{
    if package.is_root() {
        let tr: Vec<(PubGrubPackage, Version)> = Vec::new();
        proof {
            assert(tr@.map_values(|x: (PubGrubPackage, Version)| (x.0@, x.1@)) =~= Seq::<
                (PkgView, Seq<u64>),
            >::empty());
        }
        return Some(tr);
    }
    let entry = find_index_entry(state, package);
    match entry {
        None => {
            proof {
                lemma_frame_exhausted(*state, package@, version@);
            }
            None
        },
        Some(e) => {
            let l_len = state.incompatibilities[e].1.len();
            let mut j: usize = 0;
            while j < l_len
                invariant
                    state.wf(),
                    acyclic_requirers(*state),
                    j <= l_len,
                    0 <= e < state.incompatibilities@.len(),
                    state.incompatibilities@[e as int].0@ == package@,
                    lookup_index(state.incompatibilities@, package@) == Some(
                        state.incompatibilities@[e as int].1@,
                    ),
                    l_len == state.incompatibilities@[e as int].1@.len(),
                    !(package@ is Root),
                    forall|jj: int|
                        0 <= jj < j ==> match cand_requirer(
                            *state,
                            package@,
                            version@,
                            (#[trigger] state.incompatibilities@[e as int].1@[jj]) as int,
                        ) {
                            Some(pw) => no_trail(*state, pw.0, pw.1),
                            None => true,
                        },
                decreases l_len - j,
            {
                let ci = state.incompatibilities[e].1[j];
                proof {
                    assert(ci < state.incompatibility_store@.len());
                }
                match &state.incompatibility_store[ci] {
                    Incompatibility::FromDependencyOf(p1, _v1, p2, v2) => {
                        if *p2 == *package && v2.contains(version) {
                            match find_selected(state, p1) {
                                Some(w) => {
                                    proof {
                                        assert(record_links(
                                            state.incompatibility_store@[ci as int],
                                            package@,
                                            version@,
                                            p1@,
                                        ));
                                        assert(requirer_link(
                                            *state,
                                            package@,
                                            version@,
                                            p1@,
                                            w@,
                                        ));
                                        assert(rank_ok(*state, rank_of(*state)));
                                        assert(rank_of(*state)[p1@] < rank_of(*state)[package@]);
                                    }
                                    let sub = fill_complete_path(state, p1, w);
                                    match sub {
                                        Some(mut tr) => {
                                            let ghost tr_views = tr@.map_values(
                                                |x: (PubGrubPackage, Version)| (x.0@, x.1@),
                                            );
                                            let mut out: Vec<(PubGrubPackage, Version)> =
                                                Vec::new();
                                            out.push((p1.clone(), w.clone()));
                                            out.append(&mut tr);
                                            proof {
                                                let out_views = out@.map_values(
                                                    |x: (PubGrubPackage, Version)| (x.0@, x.1@),
                                                );
                                                assert(out_views[0] == (p1@, w@));
                                                assert(out_views.drop_first() =~= tr_views);
                                                assert(linked(
                                                    *state,
                                                    package@,
                                                    version@,
                                                    out_views,
                                                ));
                                            }
                                            return Some(out);
                                        },
                                        None => {
                                            proof {
                                                assert(cand_requirer(
                                                    *state,
                                                    package@,
                                                    version@,
                                                    ci as int,
                                                ) == Some((p1@, w@)));
                                            }
                                        },
                                    }
                                },
                                None => {
                                    proof {
                                        assert(cand_requirer(
                                            *state,
                                            package@,
                                            version@,
                                            ci as int,
                                        ) is None);
                                    }
                                },
                            }
                        } else {
                            proof {
                                assert(cand_requirer(
                                    *state,
                                    package@,
                                    version@,
                                    ci as int,
                                ) is None);
                            }
                        }
                    },
                    Incompatibility::NoVersions(_, _) => {
                        proof {
                            assert(cand_requirer(*state, package@, version@, ci as int) is None);
                        }
                    },
                }
                j = j + 1;
            }
            proof {
                lemma_frame_exhausted(*state, package@, version@);
            }
            None
        },
    }
}

impl DerivationChain {
    /// Compute a [`DerivationChain`] from the current solver state.
    ///
    /// The search walks the recorded "derived from dependency"
    /// incompatibilities backward from the queried package, trying each
    /// candidate requirer in index order and backtracking past dead ends;
    /// the first ancestry that reaches the root package wins, so the chain
    /// found is a valid one but not necessarily shortest. `Some(c)` means
    /// some complete recorded ancestry exists and `c` renders it,
    /// root-ward end first, entries without a name silently dropped.
    /// `None` means no recorded ancestry connects the query to the root.
    pub fn from_state(
        package: &PubGrubPackage,
        version: &Version,
        state: &SolverState,
    ) -> (res: Option<DerivationChain>)
        requires
            state.wf(),
            acyclic_requirers(*state),
        ensures
            match res {
                Some(c) => exists|trail: Seq<(PkgView, Seq<u64>)>|
                    (#[trigger] linked(*state, package@, version@, trail)) && c@ == trail_steps(
                        trail,
                    ),
                None => no_trail(*state, package@, version@),
            },
    {
        let tr = match fill_complete_path(state, package, version) {
            Some(tr) => tr,
            None => {
                return None;
            },
        };
        let ghost trail = tr@.map_values(|x: (PubGrubPackage, Version)| (x.0@, x.1@));
        let ghost rt = trail.reverse();
        let tr_len = tr.len();
        let mut steps: Vec<DerivationStep> = Vec::new();
        let mut i: usize = tr_len;
        proof {
            assert(rt.take(0) =~= Seq::<(PkgView, Seq<u64>)>::empty());
            assert(steps@.map_values(|s: DerivationStep| s@) =~= steps_of(rt.take(0)));
        }
        while i > 0
            invariant
                i <= tr_len,
                tr_len == tr@.len(),
                trail == tr@.map_values(|x: (PubGrubPackage, Version)| (x.0@, x.1@)),
                rt == trail.reverse(),
                steps@.map_values(|s: DerivationStep| s@) == steps_of(rt.take(tr_len - i as int)),
            decreases i,
        {
            i = i - 1;
            let ghost k = tr_len - 1 - i as int;
            proof {
                assert(rt[k] == trail[i as int]);
                assert(trail[i as int] == (tr@[i as int].0@, tr@[i as int].1@));
            }
            let ghost prev = steps@;
            match &tr[i].0 {
                PubGrubPackage::Package(nm) => {
                    steps.push(DerivationStep::new(nm.clone(), tr[i].1.clone()));
                    proof {
                        assert(named(rt[k]));
                        assert(steps@.last()@ == entry_step(rt[k]));
                    }
                },
                PubGrubPackage::Root => {
                    proof {
                        assert(!named(rt[k]));
                    }
                },
                PubGrubPackage::Synthetic(_) => {
                    proof {
                        assert(!named(rt[k]));
                    }
                },
            }
            proof {
                lemma_steps_of_snoc(rt.take(k), rt[k]);
                assert(rt.take(k).push(rt[k]) =~= rt.take(k + 1));
                assert forall|x: int|
                    0 <= x < steps@.len() implies (#[trigger] steps@[x])@ == steps_of(
                    rt.take(k + 1),
                )[x] by {
                    if x < prev.len() {
                        assert(steps@[x] == prev[x]);
                        assert(prev[x]@ == steps_of(rt.take(k))[x]);
                    } else {
                        assert(steps@[x] == steps@.last());
                    }
                }
                assert(steps@.len() == steps_of(rt.take(k + 1)).len());
                assert(steps@.map_values(|s: DerivationStep| s@) =~= steps_of(rt.take(k + 1)));
            }
        }
        let chain = DerivationChain::from_steps(steps);
        proof {
            assert(rt.take(tr_len as int) =~= rt);
            assert(chain@ == trail_steps(trail));
            assert(linked(*state, package@, version@, trail));
        }
        Some(chain)
    }
}

} // verus!
