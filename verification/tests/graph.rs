use crev_repo::builder::{BuildStep, Dependency, GraphBuilder, Resolution, ResolvedPackage};
use crev_repo::graph::{DepKind, Graph};
use crev_repo::platform::{Cfg, CfgExpr, Platform};
use crev_repo::version::{Identifier, Version};

fn version(major: u64, minor: u64, patch: u64) -> Version {
    Version { major, minor, patch, pre: vec![], build: vec![] }
}

fn package(name: &str, dependencies: Vec<usize>) -> ResolvedPackage {
    ResolvedPackage {
        name: name.to_string(),
        version: version(1, 0, 0),
        is_registry: true,
        dependencies,
        replacement: None,
    }
}

fn need(name: &str) -> Dependency {
    Dependency {
        name: name.to_string(),
        requirement: None,
        platform: None,
        kind: DepKind::Normal,
    }
}

fn run(
    resolution: Resolution,
    declared: Vec<Vec<Dependency>>,
    roots: Vec<usize>,
    target: Option<&str>,
    cfgs: Vec<Cfg>,
) -> (Graph, Vec<usize>) {
    let mut declared: Vec<Option<Vec<Dependency>>> = declared.into_iter().map(Some).collect();
    let mut fetched = vec![];
    let mut builder =
        GraphBuilder::new(resolution, &roots, target.map(|target| target.to_string()), cfgs);
    loop {
        match builder.step() {
            BuildStep::Fetch(id) => {
                fetched.push(id);
                builder.supply(declared[id].take().unwrap_or_default());
            }
            BuildStep::Expand => {
                assert!(builder.expand());
            }
            BuildStep::Done => return (builder.finish(), fetched),
        }
    }
}

fn graph(
    packages: Vec<ResolvedPackage>,
    declared: Vec<Vec<Dependency>>,
    roots: Vec<usize>,
) -> Graph {
    run(Resolution { packages }, declared, roots, None, vec![]).0
}

fn sorted(ids: impl IntoIterator<Item = usize>) -> Vec<usize> {
    let mut ids: Vec<usize> = ids.into_iter().collect();
    ids.sort();
    ids
}

/// a needs b and c, b needs d, c needs d, d needs nothing; e stands alone.
fn diamond() -> Graph {
    graph(
        vec![
            package("a", vec![1, 2]),
            package("b", vec![3]),
            package("c", vec![3]),
            package("d", vec![]),
            package("e", vec![]),
        ],
        vec![
            vec![need("b"), need("c")],
            vec![need("d")],
            vec![need("d")],
            vec![],
            vec![],
        ],
        vec![0],
    )
}

#[test]
fn the_graph_holds_the_roots_and_what_they_lead_to() {
    assert_eq!(sorted(diamond().get_all_pkg_ids()), vec![0, 1, 2, 3]);
    assert!(diamond().contains(3));
    assert!(!diamond().contains(4));
}

#[test]
fn dependencies_come_with_the_latest_link_first() {
    let graph = diamond();
    assert_eq!(graph.get_dependencies_of(0), vec![2, 1]);
    assert_eq!(graph.get_dependencies_of(1), vec![3]);
    assert_eq!(graph.get_dependencies_of(3), Vec::<usize>::new());
    assert_eq!(graph.get_dependencies_of(9), Vec::<usize>::new());
}

#[test]
fn reverse_dependencies_are_dependencies_turned_round() {
    let graph = diamond();
    assert_eq!(sorted(graph.get_reverse_dependencies_of(3)), vec![1, 2]);
    assert_eq!(graph.get_reverse_dependencies_of(1), vec![0]);
    assert_eq!(graph.get_reverse_dependencies_of(0), Vec::<usize>::new());
    assert_eq!(graph.get_reverse_dependencies_of(4), Vec::<usize>::new());
}

#[test]
fn recursive_dependencies_leave_out_the_root() {
    let graph = diamond();
    assert_eq!(sorted(graph.get_recursive_dependencies_of(0)), vec![1, 2, 3]);
    assert_eq!(sorted(graph.get_recursive_dependencies_of(2)), vec![3]);
    assert_eq!(sorted(graph.get_recursive_dependencies_of(3)), Vec::<usize>::new());
    assert_eq!(sorted(graph.get_recursive_dependencies_of(7)), Vec::<usize>::new());
}

#[test]
fn recursive_dependencies_of_a_circle_leave_out_the_root_too() {
    let graph = graph(
        vec![package("a", vec![1]), package("b", vec![2]), package("c", vec![0])],
        vec![vec![need("b")], vec![need("c")], vec![need("a")]],
        vec![0],
    );
    assert_eq!(sorted(graph.get_recursive_dependencies_of(0)), vec![1, 2]);
    assert_eq!(sorted(graph.get_recursive_dependencies_of(1)), vec![0, 2]);
}

#[test]
fn a_dependency_that_is_declared_twice_counts_twice() {
    let mut build = need("b");
    build.kind = DepKind::Build;
    let graph = graph(
        vec![package("a", vec![1]), package("b", vec![])],
        vec![vec![need("b"), build], vec![]],
        vec![0],
    );
    assert_eq!(graph.get_dependencies_of(0), vec![1, 1]);
    assert_eq!(graph.get_reverse_dependencies_of(1), vec![0, 0]);
}

#[test]
fn what_is_resolved_but_not_declared_is_left_out() {
    let graph = graph(
        vec![package("a", vec![1, 2]), package("b", vec![]), package("c", vec![])],
        vec![vec![need("c")], vec![], vec![]],
        vec![0],
    );
    assert_eq!(sorted(graph.get_all_pkg_ids()), vec![0, 2]);
}

#[test]
fn a_replacement_stands_in() {
    let mut replaced = package("b", vec![]);
    replaced.replacement = Some(2);
    let graph = graph(
        vec![package("a", vec![1]), replaced, package("b", vec![])],
        vec![vec![need("b")], vec![], vec![]],
        vec![0],
    );
    assert_eq!(sorted(graph.get_all_pkg_ids()), vec![0, 2]);
    assert_eq!(graph.get_dependencies_of(0), vec![2]);
}

#[test]
fn a_root_that_is_given_twice_is_followed_twice() {
    let packages = vec![package("a", vec![1]), package("b", vec![])];
    let mut builder =
        GraphBuilder::new(Resolution { packages }, &vec![0, 0], None, vec![]);
    loop {
        match builder.step() {
            BuildStep::Fetch(0) => builder.supply(vec![need("b")]),
            BuildStep::Fetch(_) => builder.supply(vec![]),
            BuildStep::Expand => assert!(builder.expand()),
            BuildStep::Done => break,
        }
    }
    let graph = builder.finish();
    assert_eq!(sorted(graph.get_all_pkg_ids()), vec![0, 1]);
    assert_eq!(graph.get_dependencies_of(0), vec![1, 1]);
    assert_eq!(graph.get_reverse_dependencies_of(1), vec![0, 0]);
}

#[test]
fn packages_are_fetched_before_they_are_followed() {
    let (_, fetched) = run(
        Resolution {
            packages: vec![package("a", vec![1, 2]), package("b", vec![]), package("c", vec![1])],
        },
        vec![vec![need("b"), need("c")], vec![], vec![need("b")]],
        vec![0],
        None,
        vec![],
    );
    assert_eq!(fetched, vec![0, 1, 2]);
}

fn requirement_is_met(requirement: Option<&str>, version: Version) -> bool {
    let mut wanted = need("b");
    wanted.requirement = requirement.map(|requirement| requirement.to_string());
    let mut offered = package("b", vec![]);
    offered.version = version;
    let graph =
        graph(vec![package("a", vec![1]), offered], vec![vec![wanted], vec![]], vec![0]);
    graph.contains(1)
}

fn pre_release(major: u64) -> Version {
    let mut version = version(major, 0, 0);
    version.pre = vec![Identifier::AlphaNumeric("beta".to_string()), Identifier::Numeric(2)];
    version
}

#[test]
fn a_version_has_to_meet_the_requirement() {
    assert!(requirement_is_met(Some("^1.2"), version(1, 3, 0)));
    assert!(!requirement_is_met(Some("^1.2"), version(2, 0, 0)));
    assert!(requirement_is_met(Some(">=1.0.0, <3.0.0"), version(2, 9, 9)));
    assert!(!requirement_is_met(Some("=1.0.0"), version(1, 0, 1)));
    assert!(requirement_is_met(Some("=1.0.0-beta.2"), pre_release(1)));
    assert!(!requirement_is_met(Some("not a requirement"), version(1, 0, 0)));
}

#[test]
fn without_a_requirement_every_version_is_good() {
    assert!(requirement_is_met(None, version(0, 0, 1)));
    assert!(requirement_is_met(None, pre_release(3)));
    assert!(!requirement_is_met(Some("*"), pre_release(3)));
}

fn platform_is_met(platform: Platform, target: Option<&str>, cfgs: Vec<Cfg>) -> bool {
    let mut wanted = need("b");
    wanted.platform = Some(platform);
    let (graph, _) = run(
        Resolution { packages: vec![package("a", vec![1]), package("b", vec![])] },
        vec![vec![wanted], vec![]],
        vec![0],
        target,
        cfgs,
    );
    graph.contains(1)
}

fn unix() -> Cfg {
    Cfg::Name("unix".to_string())
}

fn linux() -> Cfg {
    Cfg::KeyPair("target_os".to_string(), "linux".to_string())
}

#[test]
fn a_platform_counts_only_for_a_target() {
    let windows = || Platform::Name("x86_64-pc-windows-msvc".to_string());
    assert!(platform_is_met(windows(), None, vec![]));
    assert!(!platform_is_met(windows(), Some("x86_64-unknown-linux-gnu"), vec![unix()]));
    assert!(platform_is_met(windows(), Some("x86_64-pc-windows-msvc"), vec![]));
}

#[test]
fn a_condition_is_checked_against_the_configuration() {
    let target = Some("x86_64-unknown-linux-gnu");
    let cfgs = || vec![unix(), linux()];
    let value = |cfg: Cfg| CfgExpr::Value(cfg);
    let windows = || Cfg::Name("windows".to_string());
    let met = |expression: CfgExpr| platform_is_met(Platform::Cfg(expression), target, cfgs());
    assert!(met(value(unix())));
    assert!(met(value(linux())));
    assert!(!met(value(windows())));
    assert!(met(CfgExpr::Not(Box::new(value(windows())))));
    assert!(met(CfgExpr::All(vec![value(unix()), value(linux())])));
    assert!(!met(CfgExpr::All(vec![value(unix()), value(windows())])));
    assert!(met(CfgExpr::Any(vec![value(windows()), value(linux())])));
    assert!(met(CfgExpr::All(vec![])));
    assert!(!met(CfgExpr::Any(vec![])));
}

#[test]
fn the_requirements_can_be_answered_by_hand() {
    let packages = || vec![package("a", vec![1]), package("b", vec![])];
    for (answer, found) in [(true, vec![0, 1]), (false, vec![0])] {
        let mut builder = GraphBuilder::new(
            Resolution { packages: packages() },
            &vec![0],
            None,
            vec![],
        );
        builder.supply(vec![need("b")]);
        assert_eq!(builder.requirements_met(), vec![vec![true]]);
        assert!(builder.has_room(&vec![vec![answer]]));
        builder.expand_with(&vec![vec![answer]]);
        loop {
            match builder.step() {
                BuildStep::Fetch(_) => builder.supply(vec![]),
                BuildStep::Expand => assert!(builder.expand()),
                BuildStep::Done => break,
            }
        }
        assert_eq!(sorted(builder.finish().get_all_pkg_ids()), found);
    }
}

/// a needs b on unix and c everywhere, b needs d; c needs b on windows.
fn for_target(target: Option<&str>) -> Graph {
    let on = |name: &str, platform: &str| Dependency {
        platform: Some(Platform::Cfg(CfgExpr::Value(Cfg::Name(platform.to_string())))),
        ..need(name)
    };
    run(
        Resolution {
            packages: vec![
                package("a", vec![1, 2]),
                package("b", vec![3]),
                package("c", vec![1]),
                package("d", vec![]),
            ],
        },
        vec![
            vec![on("b", "unix"), need("c")],
            vec![need("d")],
            vec![on("b", "windows")],
            vec![],
        ],
        vec![0],
        target,
        if target == Some("linux") { vec![unix()] } else { vec![] },
    )
    .0
}

#[test]
fn without_a_target_the_graph_holds_that_of_every_target() {
    let all = for_target(None);
    assert_eq!(sorted(all.get_all_pkg_ids()), vec![0, 1, 2, 3]);
    assert_eq!(sorted(all.get_reverse_dependencies_of(1)), vec![0, 2]);
    let linux = for_target(Some("linux"));
    assert_eq!(sorted(linux.get_all_pkg_ids()), vec![0, 1, 2, 3]);
    assert_eq!(linux.get_reverse_dependencies_of(1), vec![0]);
    let other = for_target(Some("none"));
    assert_eq!(sorted(other.get_all_pkg_ids()), vec![0, 2]);
    for some in [linux, other] {
        for id in some.get_all_pkg_ids() {
            assert!(all.contains(id));
            for dependency in some.get_dependencies_of(id) {
                assert!(all.get_dependencies_of(id).contains(&dependency));
            }
        }
    }
}

#[test]
fn a_package_that_several_roots_lead_to_is_one_package() {
    let graph = graph(
        vec![package("a", vec![2]), package("b", vec![2, 0]), package("c", vec![0])],
        vec![vec![need("c")], vec![need("c"), need("a")], vec![need("a")]],
        vec![0, 1],
    );
    assert_eq!(sorted(graph.get_all_pkg_ids()), vec![0, 1, 2]);
    assert_eq!(sorted(graph.get_reverse_dependencies_of(2)), vec![0, 1]);
    assert_eq!(sorted(graph.get_reverse_dependencies_of(0)), vec![1, 2]);
}
