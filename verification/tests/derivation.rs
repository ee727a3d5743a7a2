use derivation::graph::{
    AnnotatedDist, DistId, ResolutionGraph, ResolutionGraphNode, ResolvedDist,
};
use derivation::solver::{Incompatibility, PubGrubPackage, SolverState};
use derivation::version::{Bound, PackageName, Version, VersionRange};
use derivation::{DerivationChain, DerivationStep};

fn name(s: &str) -> PackageName {
    PackageName::new(String::from(s))
}

fn ver(segments: &[u64]) -> Version {
    Version::new(segments.to_vec())
}

fn step(n: &str, segments: &[u64]) -> DerivationStep {
    DerivationStep::new(name(n), ver(segments))
}

fn dist(n: &str, segments: &[u64], id: u64) -> ResolutionGraphNode {
    ResolutionGraphNode::Dist(AnnotatedDist {
        name: name(n),
        version: ver(segments),
        dist: ResolvedDist::Installable(DistId(id)),
    })
}

#[test]
fn render_empty_chain() {
    let chain = DerivationChain::from_steps(Vec::new());
    assert_eq!(chain.render(), "");
    assert!(chain.is_empty());
    assert_eq!(chain.len(), 0);
}

#[test]
fn render_single_step() {
    let chain = DerivationChain::from_steps(vec![step("A", &[1, 0])]);
    assert_eq!(chain.render(), "A==1.0");
    assert_eq!(chain.len(), 1);
}

#[test]
fn render_two_steps() {
    let chain = DerivationChain::from_steps(vec![step("A", &[1, 0]), step("B", &[2, 0])]);
    assert_eq!(chain.render(), "A==1.0 -> B==2.0");
    assert!(!chain.is_empty());
}

#[test]
fn render_step_and_version() {
    let s = step("pkg", &[1, 22, 333]);
    assert_eq!(s.render(), "pkg==1.22.333");
    assert_eq!(s.name().as_str(), "pkg");
    assert_eq!(s.version().render(), "1.22.333");
    assert_eq!(ver(&[0]).render(), "0");
    assert_eq!(ver(&[10, 0]).render(), "10.0");
}

#[test]
fn chain_iteration() {
    let chain = DerivationChain::from_steps(vec![step("A", &[1]), step("B", &[2])]);
    let texts: Vec<String> = chain.iter().iter().map(|s| s.render()).collect();
    assert_eq!(texts, vec![String::from("A==1"), String::from("B==2")]);
    let owned = chain.into_steps();
    assert_eq!(owned.len(), 2);
    assert_eq!(owned[0], step("A", &[1]));
}

#[test]
fn chain_equality_is_structural() {
    let a = DerivationChain::from_steps(vec![step("A", &[1, 0])]);
    let b = DerivationChain::from_steps(vec![step("A", &[1, 0])]);
    let c = DerivationChain::from_steps(vec![step("A", &[1, 1])]);
    assert_eq!(a, b);
    assert_ne!(a, c);
}

/// Root -> A==1.0 -> B==2.0 -> C==3.0.
fn line_graph() -> ResolutionGraph {
    ResolutionGraph {
        nodes: vec![
            ResolutionGraphNode::Root,
            dist("A", &[1, 0], 1),
            dist("B", &[2, 0], 2),
            dist("C", &[3, 0], 3),
        ],
        edges: vec![(0, 1), (1, 2), (2, 3)],
    }
}

#[test]
fn graph_line_scenario() {
    let g = line_graph();
    let c = DerivationChain::from_graph(&g, DistId(3)).unwrap();
    assert_eq!(c.render(), "A==1.0 -> B==2.0");
    assert_eq!(c.len(), 2);
    let b = DerivationChain::from_graph(&g, DistId(2)).unwrap();
    assert_eq!(b.render(), "A==1.0");
    let a = DerivationChain::from_graph(&g, DistId(1)).unwrap();
    assert!(a.is_empty());
    assert_eq!(a.render(), "");
}

#[test]
fn graph_shortest_path_wins() {
    // Root -> A -> C and Root -> B1 -> B2 -> C: the short way is reported.
    let g = ResolutionGraph {
        nodes: vec![
            ResolutionGraphNode::Root,
            dist("A", &[1, 0], 1),
            dist("B1", &[1, 0], 2),
            dist("B2", &[1, 0], 3),
            dist("C", &[1, 0], 4),
        ],
        edges: vec![(0, 1), (0, 2), (2, 3), (1, 4), (3, 4)],
    };
    let c = DerivationChain::from_graph(&g, DistId(4)).unwrap();
    assert_eq!(c.len(), 1);
    assert_eq!(c.render(), "A==1.0");
}

#[test]
fn graph_disconnected_is_not_an_empty_chain() {
    // No path from the target to the root: the finder reports the
    // breakdown as None rather than silently returning an empty chain.
    let g = ResolutionGraph {
        nodes: vec![ResolutionGraphNode::Root, dist("A", &[1, 0], 1), dist("B", &[2, 0], 2)],
        edges: vec![(0, 1)],
    };
    let res = DerivationChain::from_graph(&g, DistId(2));
    assert!(res.is_none());
}

#[test]
fn graph_cycle_terminates() {
    // A cycle among distribution nodes, unreachable from the root: the
    // seen-set bounds the search, which ends with None.
    let g = ResolutionGraph {
        nodes: vec![ResolutionGraphNode::Root, dist("A", &[1], 1), dist("B", &[2], 2)],
        edges: vec![(1, 2), (2, 1)],
    };
    let res = DerivationChain::from_graph(&g, DistId(1));
    assert!(res.is_none());
}

#[test]
fn graph_installed_node_is_not_a_target() {
    // Two nodes carry distribution 1, but only the installable one is an
    // eligible target; it sits two steps below the root.
    let installed = ResolutionGraphNode::Dist(AnnotatedDist {
        name: name("A"),
        version: ver(&[1, 0]),
        dist: ResolvedDist::Installed(DistId(1)),
    });
    let g = ResolutionGraph {
        nodes: vec![
            ResolutionGraphNode::Root,
            installed,
            dist("B", &[2, 0], 2),
            dist("A", &[1, 0], 1),
        ],
        edges: vec![(0, 1), (0, 2), (2, 3)],
    };
    let c = DerivationChain::from_graph(&g, DistId(1)).unwrap();
    assert_eq!(c.render(), "B==2.0");
}

fn pkg(n: &str) -> PubGrubPackage {
    PubGrubPackage::Package(name(n))
}

fn depends(requirer: &str, dependency: &str, range: VersionRange) -> Incompatibility {
    Incompatibility::FromDependencyOf(pkg(requirer), VersionRange::any(), pkg(dependency), range)
}

#[test]
fn package_accessors() {
    assert!(PubGrubPackage::Root.is_root());
    assert!(!pkg("A").is_root());
    assert_eq!(pkg("A").name().unwrap().as_str(), "A");
    assert!(PubGrubPackage::Root.name().is_none());
    assert!(PubGrubPackage::Synthetic(3).name().is_none());
}

#[test]
fn solver_no_record_returns_none() {
    let state = SolverState {
        incompatibility_store: vec![Incompatibility::NoVersions(pkg("B"), VersionRange::any())],
        incompatibilities: vec![(pkg("B"), vec![0])],
        partial_solution: vec![(PubGrubPackage::Root, ver(&[0])), (pkg("B"), ver(&[2, 0]))],
    };
    let res = DerivationChain::from_state(&pkg("B"), &ver(&[2, 0]), &state);
    assert!(res.is_none());
}

#[test]
fn solver_range_must_contain_version() {
    // The only record for B covers versions below 2.0; querying B at 2.0
    // finds no applicable derivation.
    let below_two = VersionRange::new(Bound::Unbounded, Bound::Exclusive(ver(&[2, 0])));
    let state = SolverState {
        incompatibility_store: vec![depends("A", "B", below_two)],
        incompatibilities: vec![(pkg("B"), vec![0])],
        partial_solution: vec![
            (PubGrubPackage::Root, ver(&[0])),
            (pkg("A"), ver(&[1, 0])),
            (pkg("B"), ver(&[2, 0])),
        ],
    };
    let res = DerivationChain::from_state(&pkg("B"), &ver(&[2, 0]), &state);
    assert!(res.is_none());
}

#[test]
fn solver_root_query_yields_empty_chain() {
    let state = SolverState {
        incompatibility_store: Vec::new(),
        incompatibilities: Vec::new(),
        partial_solution: vec![(PubGrubPackage::Root, ver(&[0]))],
    };
    let res = DerivationChain::from_state(&PubGrubPackage::Root, &ver(&[0]), &state).unwrap();
    assert!(res.is_empty());
    assert_eq!(res.render(), "");
}

#[test]
fn solver_finds_chain_through_selected_requirer() {
    // Root requires A, A requires B: querying B yields the chain [A==1.0].
    let state = SolverState {
        incompatibility_store: vec![
            depends("A", "B", VersionRange::any()),
            Incompatibility::FromDependencyOf(
                PubGrubPackage::Root,
                VersionRange::any(),
                pkg("A"),
                VersionRange::any(),
            ),
        ],
        incompatibilities: vec![(pkg("B"), vec![0]), (pkg("A"), vec![1])],
        partial_solution: vec![
            (PubGrubPackage::Root, ver(&[0])),
            (pkg("A"), ver(&[1, 0])),
            (pkg("B"), ver(&[2, 0])),
        ],
    };
    let res = DerivationChain::from_state(&pkg("B"), &ver(&[2, 0]), &state).unwrap();
    assert_eq!(res.render(), "A==1.0");
    assert_eq!(res.len(), 1);
}

#[test]
fn solver_backtracks_past_dead_ends() {
    // B has three candidate requirers, tried in index order: X was never
    // selected (skipped), C is selected but its own search dead-ends
    // (undone), and A is live: A was required by Root. The search must
    // backtrack past both dead ends and still find the chain through A.
    let state = SolverState {
        incompatibility_store: vec![
            depends("X", "B", VersionRange::any()),
            depends("C", "B", VersionRange::any()),
            depends("A", "B", VersionRange::any()),
            Incompatibility::FromDependencyOf(
                PubGrubPackage::Root,
                VersionRange::any(),
                pkg("A"),
                VersionRange::any(),
            ),
            Incompatibility::NoVersions(pkg("C"), VersionRange::any()),
        ],
        incompatibilities: vec![
            (pkg("B"), vec![0, 1, 2]),
            (pkg("A"), vec![3]),
            (pkg("C"), vec![4]),
        ],
        partial_solution: vec![
            (PubGrubPackage::Root, ver(&[0])),
            (pkg("A"), ver(&[1, 0])),
            (pkg("B"), ver(&[2, 0])),
            (pkg("C"), ver(&[9, 9])),
        ],
    };
    let res = DerivationChain::from_state(&pkg("B"), &ver(&[2, 0]), &state).unwrap();
    assert_eq!(res.render(), "A==1.0");
}

#[test]
fn solver_drops_nameless_packages_from_chain() {
    // B is required by a synthetic package, which Root requires: the
    // synthetic step and the root are both absent from the rendering.
    let synth = PubGrubPackage::Synthetic(7);
    let state = SolverState {
        incompatibility_store: vec![
            Incompatibility::FromDependencyOf(
                synth.clone(),
                VersionRange::any(),
                pkg("B"),
                VersionRange::any(),
            ),
            Incompatibility::FromDependencyOf(
                pkg("A"),
                VersionRange::any(),
                synth.clone(),
                VersionRange::any(),
            ),
            Incompatibility::FromDependencyOf(
                PubGrubPackage::Root,
                VersionRange::any(),
                pkg("A"),
                VersionRange::any(),
            ),
        ],
        incompatibilities: vec![
            (pkg("B"), vec![0]),
            (synth.clone(), vec![1]),
            (pkg("A"), vec![2]),
        ],
        partial_solution: vec![
            (PubGrubPackage::Root, ver(&[0])),
            (pkg("A"), ver(&[1, 0])),
            (synth, ver(&[5])),
            (pkg("B"), ver(&[2, 0])),
        ],
    };
    let res = DerivationChain::from_state(&pkg("B"), &ver(&[2, 0]), &state).unwrap();
    assert_eq!(res.render(), "A==1.0");
    assert_eq!(res.len(), 1);
}

#[test]
fn solver_unselected_requirer_alone_is_none() {
    // The only record's requirer was never selected: no candidate.
    let state = SolverState {
        incompatibility_store: vec![depends("X", "B", VersionRange::any())],
        incompatibilities: vec![(pkg("B"), vec![0])],
        partial_solution: vec![
            (PubGrubPackage::Root, ver(&[0])),
            (pkg("B"), ver(&[2, 0])),
        ],
    };
    let res = DerivationChain::from_state(&pkg("B"), &ver(&[2, 0]), &state);
    assert!(res.is_none());
}

#[test]
fn version_order_and_ranges() {
    let v10 = ver(&[1, 0]);
    let v2 = ver(&[2]);
    let v100 = ver(&[1, 0, 0]);
    assert!(v10.lt(&v2));
    assert!(!v2.lt(&v10));
    assert!(v10.lt(&v100));
    assert!(v10.le(&ver(&[1, 0])));
    let r = VersionRange::new(Bound::Inclusive(ver(&[1, 0])), Bound::Exclusive(ver(&[2, 0])));
    assert!(r.contains(&ver(&[1, 0])));
    assert!(r.contains(&ver(&[1, 5])));
    assert!(!r.contains(&ver(&[2, 0])));
    assert!(!r.contains(&ver(&[0, 9])));
    assert!(VersionRange::any().contains(&ver(&[999])));
}
