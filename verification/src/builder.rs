//! Building the dependency graph of a resolved set of packages.
//!
//! What a package declares has to be fetched, so the builder says what it needs next and takes the
//! answer: `step` tells what to do, `supply` takes what a package declares, `expand` follows the
//! dependencies of a package, and `finish` hands out the graph.
use std::collections::HashMap;
use std::collections::HashSet;
use vstd::prelude::*;

use crate::graph::{
    is_dependency_path, law_links_lead_by_path, DepKind, Graph, GraphView, Link, PackageId,
};
use crate::platform::{cfg_views, Cfg, CfgView, Platform};
use crate::reach::{lemma_closed_set, lemma_reaches_itself, lemma_reaches_more, lemma_reaches_step, reaches};
use crate::store::{has_edge, neighbors, Direction};
use crate::version::{meets_requirement, requirement_met, Version, VersionView};

verus! {

/// A dependency as a package declares it.
#[derive(Debug, PartialEq, Eq)]
pub struct Dependency {
    /// The name of the package that is needed.
    pub name: String,
    /// The requirement on its version, where there is one.
    pub requirement: Option<String>,
    /// The targets that need it, where not all do.
    pub platform: Option<Platform>,
    pub kind: DepKind,
}

/// A package of a resolution. Its number is its position there.
#[derive(Debug, PartialEq, Eq)]
pub struct ResolvedPackage {
    pub name: String,
    pub version: Version,
    /// Whether the package comes from a registry.
    pub is_registry: bool,
    /// The packages that its dependencies were resolved to, before replacement.
    pub dependencies: Vec<PackageId>,
    /// The package that stands in for this one.
    pub replacement: Option<PackageId>,
}

/// The outcome of resolving the dependencies of a workspace.
#[derive(Debug, PartialEq, Eq)]
pub struct Resolution {
    pub packages: Vec<ResolvedPackage>,
}

impl Resolution {
    /// Every number in the resolution is that of a package.
    pub open spec fn wf(&self) -> bool {
        let count = self.packages@.len();
        forall|id: int|
            0 <= id < count ==> {
                let package = #[trigger] self.packages@[id];
                &&& forall|i: int|
                    0 <= i < package.dependencies@.len() ==> #[trigger] package.dependencies@[i]
                        < count
                &&& package.replacement matches Some(other) ==> other < count
            }
    }

    /// The package that takes the place of `id`.
    pub open spec fn standing_in(&self, id: PackageId) -> PackageId {
        match self.packages@[id as int].replacement {
            Some(other) => other,
            None => id,
        }
    }
}

/// A version is good enough for a dependency. A requirement that cannot be read accepts none.
pub open spec fn accepts(dependency: Dependency, version: VersionView) -> bool {
    match dependency.requirement {
        None => true,
        Some(requirement) => requirement_met(requirement@, version) == Some(true),
    }
}

/// A dependency is declared for a target. Without a target all are.
pub open spec fn targeted(
    dependency: Dependency,
    target: Option<Seq<char>>,
    cfgs: Seq<CfgView>,
) -> bool {
    match (dependency.platform, target) {
        (Some(platform), Some(target)) => platform.covers(target, cfgs),
        _ => true,
    }
}

/// The text in an optional string.
pub open spec fn optional_text(text: Option<String>) -> Option<Seq<char>> {
    match text {
        Some(text) => Some(text@),
        None => None,
    }
}

/// A package to depend on, and what for.
pub type Need = (PackageId, DepKind);

/// The needs that the declared dependencies give which a resolved package meets: those that name
/// it, accept its version (`met` says which do) and are declared for the target.
pub open spec fn needs_of_one(
    standing_in: PackageId,
    name: Seq<char>,
    declared: Seq<Dependency>,
    met: Seq<bool>,
    target: Option<Seq<char>>,
    cfgs: Seq<CfgView>,
) -> Seq<Need>
    decreases declared.len(),
{
    if declared.len() == 0 {
        Seq::empty()
    } else {
        let before = needs_of_one(
            standing_in,
            name,
            declared.drop_last(),
            met,
            target,
            cfgs,
        );
        let last = declared.last();
        if last.name@ == name && met[declared.len() - 1] && targeted(last, target, cfgs) {
            before.push((standing_in, last.kind))
        } else {
            before
        }
    }
}

/// The needs of a package: those that each of `resolved` meets, in turn. `met[i][j]` says whether
/// the version of the package `resolved[i]` is good enough for `declared[j]`.
pub open spec fn needs(
    resolution: Resolution,
    resolved: Seq<PackageId>,
    declared: Seq<Dependency>,
    met: Seq<Seq<bool>>,
    target: Option<Seq<char>>,
    cfgs: Seq<CfgView>,
) -> Seq<Need>
    decreases resolved.len(),
{
    if resolved.len() == 0 {
        Seq::empty()
    } else {
        needs(resolution, resolved.drop_last(), declared, met, target, cfgs) + needs_of_one(
            resolution.standing_in(resolved.last()),
            resolution.packages@[resolved.last() as int].name@,
            declared,
            met[resolved.len() - 1],
            target,
            cfgs,
        )
    }
}

/// The packages of some needs that are not `known`, each once, in the order in which they come.
pub open spec fn fresh(known: Set<PackageId>, needs: Seq<Need>) -> Seq<PackageId>
    decreases needs.len(),
{
    if needs.len() == 0 {
        Seq::empty()
    } else {
        let before = fresh(known, needs.drop_last());
        if known.contains(needs.last().0) || before.contains(needs.last().0) {
            before
        } else {
            before.push(needs.last().0)
        }
    }
}

/// The links from a package to what it needs.
pub open spec fn links_from(package: PackageId, needs: Seq<Need>) -> Seq<Link> {
    needs.map_values(|need: Need| (package, need.0, need.1))
}

/// A package whose dependencies were followed, and its needs.
pub struct Expansion {
    pub package: PackageId,
    pub needs: Seq<Need>,
}

/// The links of some expansions, in order.
pub open spec fn links_of(expanded: Seq<Expansion>) -> Seq<Link>
    decreases expanded.len(),
{
    if expanded.len() == 0 {
        Seq::empty()
    } else {
        links_of(expanded.drop_last()) + links_from(expanded.last().package, expanded.last().needs)
    }
}

/// How often an item occurs.
pub open spec fn occurrences<A>(items: Seq<A>, item: A) -> nat
    decreases items.len(),
{
    if items.len() == 0 {
        0
    } else {
        occurrences(items.drop_last(), item) + if items.last() == item {
            1nat
        } else {
            0nat
        }
    }
}

/// The packages of some expansions, in order.
pub open spec fn packages_of(expanded: Seq<Expansion>) -> Seq<PackageId> {
    expanded.map_values(|expansion: Expansion| expansion.package)
}

/// What a builder holds.
#[verifier::ext_equal]
pub struct BuilderView {
    /// The resolution that is followed.
    pub resolution: Resolution,
    /// The target for which the graph is built, where it is for one only.
    pub target: Option<Seq<char>>,
    /// The configuration of the target.
    pub cfgs: Seq<CfgView>,
    /// The packages that the graph starts from.
    pub roots: Seq<PackageId>,
    /// The graph so far.
    pub graph: GraphView,
    /// The packages whose dependencies are still to be followed, the next one last.
    pub pending: Seq<PackageId>,
    /// The packages whose declarations are still to be supplied, the next one first.
    pub wanted: Seq<PackageId>,
    /// What the supplied packages declare.
    pub declared: Map<PackageId, Seq<Dependency>>,
    /// The packages whose dependencies were followed, in order.
    pub expanded: Seq<Expansion>,
}

impl BuilderView {
    /// The builder that starts from `roots`.
    pub open spec fn start(
        resolution: Resolution,
        roots: Seq<PackageId>,
        target: Option<Seq<char>>,
        cfgs: Seq<CfgView>,
    ) -> BuilderView {
        BuilderView {
            resolution,
            target,
            cfgs,
            roots,
            graph: GraphView { ids: roots.to_set(), links: Seq::empty() },
            pending: roots,
            wanted: roots,
            declared: Map::empty(),
            expanded: Seq::empty(),
        }
    }

    /// The builder after the package that it wants next was supplied.
    pub open spec fn supplied(self, declared: Seq<Dependency>) -> BuilderView {
        BuilderView {
            wanted: self.wanted.drop_first(),
            declared: self.declared.insert(self.wanted[0], declared),
            ..self
        }
    }

    /// The packages that the dependencies of the next package were resolved to.
    pub open spec fn next_resolved(self) -> Seq<PackageId> {
        self.resolution.packages@[self.pending.last() as int].dependencies@
    }

    /// What the next package declares.
    pub open spec fn next_declared(self) -> Seq<Dependency> {
        self.declared[self.pending.last()]
    }

    /// The needs of the next package, where `met` says which versions are good enough for which
    /// declared dependencies.
    pub open spec fn next_needs(self, met: Seq<Seq<bool>>) -> Seq<Need> {
        needs(
            self.resolution,
            self.next_resolved(),
            self.next_declared(),
            met,
            self.target,
            self.cfgs,
        )
    }

    /// Which of the versions that the dependencies of a package were resolved to are good enough
    /// for which of the dependencies that it declares.
    pub open spec fn met_of(self, package: PackageId) -> Seq<Seq<bool>> {
        let resolved = self.resolution.packages@[package as int].dependencies@;
        let declared = self.declared[package];
        Seq::new(
            resolved.len(),
            |i: int|
                Seq::new(
                    declared.len(),
                    |j: int|
                        accepts(
                            declared[j],
                            self.resolution.packages@[resolved[i] as int].version@,
                        ),
                ),
        )
    }

    /// The needs of a package, as the resolution and what was supplied give them.
    pub open spec fn needs_of(self, package: PackageId) -> Seq<Need> {
        needs(
            self.resolution,
            self.resolution.packages@[package as int].dependencies@,
            self.declared[package],
            self.met_of(package),
            self.target,
            self.cfgs,
        )
    }

    /// The packages were followed by the needs that the resolution and what was supplied give.
    pub open spec fn is_exact(self) -> bool {
        forall|i: int|
            0 <= i < self.expanded.len() ==> (#[trigger] self.expanded[i]).needs == self.needs_of(
                self.expanded[i].package,
            )
    }

    /// Which of the resolved versions are good enough for which of the dependencies that the next
    /// package declares.
    pub open spec fn next_met(self) -> Seq<Seq<bool>> {
        self.met_of(self.pending.last())
    }

    /// `met` has an answer for each version that the next package's dependencies were resolved to
    /// and each dependency that it declares.
    pub open spec fn answers(self, met: Seq<Seq<bool>>) -> bool {
        &&& met.len() == self.next_resolved().len()
        &&& forall|i: int|
            0 <= i < met.len() ==> (#[trigger] met[i]).len() == self.next_declared().len()
    }

    /// How many nodes stand behind the graph: one for each package, and one more for each time that
    /// a root is given again.
    pub open spec fn node_count(self) -> int {
        self.graph.ids.len() + self.roots.len() - self.roots.to_set().len()
    }

    /// The graph can take the needs of the next package: it holds at most `u32::MAX` nodes and as
    /// many links.
    pub open spec fn fits(self, needs: Seq<Need>) -> bool {
        &&& self.node_count() + fresh(self.graph.ids, needs).len() <= u32::MAX
        &&& self.graph.links.len() + needs.len() <= u32::MAX
    }

    /// The builder after the dependencies of its next package were followed.
    pub open spec fn expanded_by(self, needs: Seq<Need>) -> BuilderView {
        let package = self.pending.last();
        let found = fresh(self.graph.ids, needs);
        BuilderView {
            graph: GraphView {
                ids: self.graph.ids.union(found.to_set()),
                links: self.graph.links + links_from(package, needs),
            },
            pending: self.pending.drop_last() + found,
            wanted: found,
            expanded: self.expanded.push(Expansion { package, needs }),
            ..self
        }
    }
}

/// What to do next for a graph.
#[derive(Clone, Copy, Debug, PartialEq, Eq, Structural)]
pub enum BuildStep {
    /// Fetch a package and supply what it declares.
    Fetch(PackageId),
    /// Follow the dependencies of the next package.
    Expand,
    /// Take the graph.
    Done,
}

/// A dependency graph in the making.
pub struct GraphBuilder {
    resolution: Resolution,
    target: Option<String>,
    cfgs: Vec<Cfg>,
    graph: Graph,
    pending: Vec<PackageId>,
    wanted: Vec<PackageId>,
    declared: HashMap<PackageId, Vec<Dependency>>,
    node_count: usize,
    link_count: usize,
    roots: Ghost<Seq<PackageId>>,
    expanded: Ghost<Seq<Expansion>>,
}

impl View for GraphBuilder {
    type V = BuilderView;

    closed spec fn view(&self) -> BuilderView {
        BuilderView {
            resolution: self.resolution,
            target: optional_text(self.target),
            cfgs: cfg_views(self.cfgs@),
            roots: self.roots@,
            graph: self.graph@,
            pending: self.pending@,
            wanted: self.wanted@,
            declared: self.declared@.map_values(|declared: Vec<Dependency>| declared@),
            expanded: self.expanded@,
        }
    }
}

/// How often a builder follows the dependencies of a package of its graph: once, or once for each
/// time that it is a root.
pub open spec fn visits(roots: Seq<PackageId>, id: PackageId) -> nat {
    if occurrences(roots, id) > 1 {
        occurrences(roots, id)
    } else {
        1
    }
}

impl BuilderView {
    /// The package is one of the roots, or links lead to it from one.
    #[verifier::opaque]
    pub open spec fn is_reached(self, id: PackageId) -> bool {
        exists|root: PackageId| #[trigger]
            self.roots.contains(root) && reaches(self.graph.step(), root, id)
    }

    /// The links are those of the packages whose dependencies were followed, and lie within the
    /// graph.
    pub open spec fn links_consistent(self) -> bool {
        &&& self.graph.links == links_of(self.expanded)
        &&& forall|i: int|
            0 <= i < self.graph.links.len() ==> self.graph.ids.contains(
                (#[trigger] self.graph.links[i]).0,
            ) && self.graph.ids.contains(self.graph.links[i].1)
    }

    /// The packages are those that the roots lead to.
    pub open spec fn packages_consistent(self) -> bool {
        &&& forall|id: PackageId| #[trigger] self.roots.contains(id) ==> self.graph.ids.contains(id)
        &&& forall|id: PackageId| #[trigger] self.graph.ids.contains(id) ==> self.is_reached(id)
    }

    /// Each package was followed as often as it is to be, or waits to be.
    pub open spec fn visits_consistent(self) -> bool {
        forall|id: PackageId| #[trigger]
            occurrences(self.pending, id) + occurrences(packages_of(self.expanded), id)
                == if self.graph.ids.contains(id) {
                visits(self.roots, id)
            } else {
                0
            }
    }

    /// There is no more to follow than the roots and the packages of the graph.
    pub open spec fn work_consistent(self) -> bool {
        &&& self.graph.ids.finite()
        &&& self.pending.len() + self.expanded.len() <= self.roots.len() + self.graph.ids.len()
    }

    /// What waits was supplied or is wanted, and what is wanted was not followed.
    pub open spec fn waiting_consistent(self) -> bool {
        &&& forall|id: PackageId| #[trigger]
            self.pending.contains(id) ==> self.declared.contains_key(id) || self.wanted.contains(id)
        &&& forall|id: PackageId| #[trigger]
            self.wanted.contains(id) ==> !packages_of(self.expanded).contains(id)
    }

    /// The packages of the graph are those that were supplied or are wanted.
    pub open spec fn supply_consistent(self) -> bool {
        forall|id: PackageId| #[trigger]
            self.graph.ids.contains(id) <==> self.declared.contains_key(id) || self.wanted.contains(
                id,
            )
    }

    /// What holds at every step.
    pub open spec fn consistent(self) -> bool {
        &&& self.links_consistent()
        &&& self.packages_consistent()
        &&& self.visits_consistent()
        &&& self.work_consistent()
        &&& self.waiting_consistent()
        &&& self.supply_consistent()
    }
}

proof fn lemma_occurrences<A>(items: Seq<A>, item: A)
    ensures
        occurrences(items, item) > 0 <==> items.contains(item),
        items.no_duplicates() ==> occurrences(items, item) <= 1,
    decreases items.len(),
{
    if items.len() > 0 {
        let fewer = items.drop_last();
        lemma_occurrences(fewer, item);
        if fewer.contains(item) {
            let i = fewer.index_of(item);
            assert(items[i] == item);
        }
        if items.contains(item) && items.last() != item {
            let i = items.index_of(item);
            assert(fewer[i] == item);
        }
        assert(items[items.len() - 1] == items.last());
    }
}

proof fn lemma_occurrences_concat<A>(a: Seq<A>, b: Seq<A>, item: A)
    ensures
        occurrences(a + b, item) == occurrences(a, item) + occurrences(b, item),
    decreases b.len(),
{
    if b.len() == 0 {
        assert(a + b =~= a);
    } else {
        assert((a + b).drop_last() =~= a + b.drop_last());
        lemma_occurrences_concat(a, b.drop_last(), item);
    }
}

proof fn lemma_fresh(known: Set<PackageId>, needs: Seq<Need>)
    ensures
        fresh(known, needs).no_duplicates(),
        forall|id: PackageId| #[trigger]
            fresh(known, needs).contains(id) <==> !known.contains(id) && exists|i: int|
                0 <= i < needs.len() && (#[trigger] needs[i]).0 == id,
        fresh(known, needs).len() <= needs.len(),
    decreases needs.len(),
{
    let found = fresh(known, needs);
    if needs.len() > 0 {
        let fewer = needs.drop_last();
        let before = fresh(known, fewer);
        let last = needs.last().0;
        lemma_fresh(known, fewer);
        assert(needs[needs.len() - 1] == needs.last());
        assert(forall|i: int| 0 <= i < fewer.len() ==> #[trigger] fewer[i] == needs[i]);
        assert forall|id: PackageId| #[trigger] found.contains(id) <==> before.contains(id) || (id
            == last && !known.contains(id)) by {
            if before.contains(id) {
                let k = before.index_of(id);
                assert(found[k] == id);
            }
            if id == last && !known.contains(id) && !before.contains(id) {
                assert(found[found.len() - 1] == id);
            }
        }
        assert forall|id: PackageId| #[trigger] found.contains(id) implies !known.contains(id)
            && exists|i: int| 0 <= i < needs.len() && (#[trigger] needs[i]).0 == id by {
            if before.contains(id) {
                let i = choose|i: int| 0 <= i < fewer.len() && (#[trigger] fewer[i]).0 == id;
                assert(needs[i].0 == id);
            }
        }
        assert forall|id: PackageId|
            !known.contains(id) && (exists|i: int|
                0 <= i < needs.len() && (#[trigger] needs[i]).0 == id) implies found.contains(
            id,
        ) by {
            let i = choose|i: int| 0 <= i < needs.len() && (#[trigger] needs[i]).0 == id;
            if i < fewer.len() {
                assert(fewer[i].0 == id);
            }
        }
    }
}

/// Fewer needs give no more packages.
proof fn lemma_fresh_take(known: Set<PackageId>, needs: Seq<Need>, count: int)
    requires
        0 <= count <= needs.len(),
    ensures
        fresh(known, needs.take(count)).len() <= fresh(known, needs).len(),
    decreases needs.len(),
{
    if count == needs.len() {
        assert(needs.take(count) =~= needs);
    } else {
        lemma_fresh_take(known, needs.drop_last(), count);
        assert(needs.drop_last().take(count) =~= needs.take(count));
    }
}

impl BuilderView {
    /// The start is consistent.
    proof fn lemma_start(
        resolution: Resolution,
        roots: Seq<PackageId>,
        target: Option<Seq<char>>,
        cfgs: Seq<CfgView>,
    )
        ensures
            BuilderView::start(resolution, roots, target, cfgs).consistent(),
    {
        let view = BuilderView::start(resolution, roots, target, cfgs);
        assert(packages_of(view.expanded) =~= Seq::empty());
        assert forall|id: PackageId| #[trigger] view.graph.ids.contains(id) implies view.is_reached(
            id,
        ) by {
            reveal(BuilderView::is_reached);
            assert(view.roots.contains(id));
            lemma_reaches_itself(view.graph.step(), id);
        }
        assert forall|id: PackageId| #[trigger] occurrences(view.pending, id) > 0
            <==> view.graph.ids.contains(id) by {
            lemma_occurrences(roots, id);
        }
    }

    /// Supplying a package keeps a builder consistent.
    proof fn lemma_supplied(self, declared: Seq<Dependency>)
        requires
            self.consistent(),
            self.wanted.len() > 0,
        ensures
            self.supplied(declared).consistent(),
            self.is_exact() ==> self.supplied(declared).is_exact(),
    {
        let after = self.supplied(declared);
        assert forall|id: PackageId| #[trigger] after.wanted.contains(id) implies !packages_of(
            after.expanded,
        ).contains(id) by {
            let i = after.wanted.index_of(id);
            assert(self.wanted[i + 1] == id);
            assert(self.wanted.contains(id));
        }
        assert(self.wanted.contains(self.wanted[0]));
        assert forall|id: PackageId| #[trigger]
            after.graph.ids.contains(id) <==> after.declared.contains_key(id)
                || after.wanted.contains(id) by {
            if self.wanted.contains(id) && id != self.wanted[0] {
                let i = self.wanted.index_of(id);
                assert(after.wanted[i - 1] == id);
            }
            if after.wanted.contains(id) {
                let i = after.wanted.index_of(id);
                assert(self.wanted[i + 1] == id);
            }
        }
        if self.is_exact() {
            assert forall|i: int| 0 <= i < after.expanded.len() implies (
            #[trigger] after.expanded[i]).needs == after.needs_of(after.expanded[i].package) by {
                let package = after.expanded[i].package;
                assert(self.expanded[i].needs == self.needs_of(package));
                assert(packages_of(self.expanded)[i] == package);
                assert(after.declared[package] == self.declared[package]);
                assert(after.met_of(package) =~= self.met_of(package));
            }
        }
        assert forall|id: PackageId| #[trigger]
            after.pending.contains(id) implies after.declared.contains_key(id)
            || after.wanted.contains(id) by {
            if self.wanted.contains(id) && id != self.wanted[0] {
                let i = self.wanted.index_of(id);
                assert(after.wanted[i - 1] == id);
            }
        }
        assert forall|id: PackageId| #[trigger]
            after.graph.ids.contains(id) implies after.is_reached(id) by {
            assert(self.is_reached(id));
            reveal(BuilderView::is_reached);
            let root = choose|root: PackageId| #[trigger]
                self.roots.contains(root) && reaches(self.graph.step(), root, id);
            assert(after.roots.contains(root));
        }
    }

    proof fn lemma_expanded_links(self, needs: Seq<Need>)
        requires
            self.links_consistent(),
            self.pending.len() > 0,
            self.graph.ids.contains(self.pending.last()),
        ensures
            self.expanded_by(needs).links_consistent(),
    {
        let after = self.expanded_by(needs);
        let package = self.pending.last();
        let found = fresh(self.graph.ids, needs);
        lemma_fresh(self.graph.ids, needs);
        assert(after.expanded.drop_last() =~= self.expanded);
        assert forall|i: int| 0 <= i < after.graph.links.len() implies after.graph.ids.contains(
            (#[trigger] after.graph.links[i]).0,
        ) && after.graph.ids.contains(after.graph.links[i].1) by {
            if i < self.graph.links.len() {
                assert(after.graph.links[i] == self.graph.links[i]);
            } else {
                let need = needs[i - self.graph.links.len()];
                assert(after.graph.links[i] == (package, need.0, need.1));
                if !self.graph.ids.contains(need.0) {
                    assert(found.contains(need.0));
                }
            }
        }
    }

    /// More links reach at least as much.
    proof fn lemma_reached_still(self, after: BuilderView, id: PackageId)
        requires
            self.is_reached(id),
            after.roots == self.roots,
            after.graph.links.len() >= self.graph.links.len(),
            after.graph.links.take(self.graph.links.len() as int) == self.graph.links,
        ensures
            after.is_reached(id),
    {
        reveal(BuilderView::is_reached);
        let step = self.graph.step();
        let more = after.graph.step();
        assert forall|a: PackageId, b: PackageId| #[trigger] step(a, b) implies more(a, b) by {
            let i = choose|i: int|
                0 <= i < self.graph.links.len() && (#[trigger] self.graph.links[i]).0 == a
                    && self.graph.links[i].1 == b;
            assert(after.graph.links.take(self.graph.links.len() as int)[i]
                == after.graph.links[i]);
        }
        let root = choose|root: PackageId| #[trigger]
            self.roots.contains(root) && reaches(step, root, id);
        lemma_reaches_more(step, more, root, id);
        assert(after.roots.contains(root));
    }

    /// A root that leads to a package.
    proof fn root_of(self, id: PackageId) -> (root: PackageId)
        requires
            self.packages_consistent(),
            self.graph.ids.contains(id),
        ensures
            self.roots.contains(root),
            reaches(self.graph.step(), root, id),
    {
        assert(self.is_reached(id));
        reveal(BuilderView::is_reached);
        choose|root: PackageId| #[trigger]
            self.roots.contains(root) && reaches(self.graph.step(), root, id)
    }

    /// What a reached package depends on is reached.
    proof fn lemma_reached_next(self, a: PackageId, b: PackageId)
        requires
            self.is_reached(a),
            self.graph.depends(a, b),
        ensures
            self.is_reached(b),
    {
        reveal(BuilderView::is_reached);
        let step = self.graph.step();
        let root = choose|root: PackageId| #[trigger]
            self.roots.contains(root) && reaches(step, root, a);
        assert(step(a, b));
        lemma_reaches_step(step, root, a, b);
        assert(self.roots.contains(root));
    }

    proof fn lemma_expanded_packages(self, needs: Seq<Need>)
        requires
            self.packages_consistent(),
            self.pending.len() > 0,
            self.graph.ids.contains(self.pending.last()),
        ensures
            self.expanded_by(needs).packages_consistent(),
    {
        let after = self.expanded_by(needs);
        let package = self.pending.last();
        let found = fresh(self.graph.ids, needs);
        lemma_fresh(self.graph.ids, needs);
        assert(after.graph.links.take(self.graph.links.len() as int) =~= self.graph.links);
        assert forall|id: PackageId| #[trigger]
            after.graph.ids.contains(id) implies after.is_reached(id) by {
            if self.graph.ids.contains(id) {
                self.lemma_reached_still(after, id);
            } else {
                assert(found.contains(id));
                let i = choose|i: int| 0 <= i < needs.len() && (#[trigger] needs[i]).0 == id;
                assert(after.graph.links[self.graph.links.len() + i] == (
                    package,
                    needs[i].0,
                    needs[i].1,
                ));
                self.lemma_reached_still(after, package);
                after.lemma_reached_next(package, id);
            }
        }
    }

    proof fn lemma_expanded_visits(self, needs: Seq<Need>)
        requires
            self.packages_consistent(),
            self.visits_consistent(),
            self.pending.len() > 0,
        ensures
            self.expanded_by(needs).visits_consistent(),
    {
        let after = self.expanded_by(needs);
        let found = fresh(self.graph.ids, needs);
        lemma_fresh(self.graph.ids, needs);
        assert(packages_of(after.expanded).drop_last() =~= packages_of(self.expanded));
        assert(packages_of(after.expanded).last() == self.pending.last());
        assert forall|id: PackageId| #[trigger]
            occurrences(after.pending, id) + occurrences(packages_of(after.expanded), id)
                == if after.graph.ids.contains(id) {
                visits(after.roots, id)
            } else {
                0
            } by {
            lemma_occurrences_concat(self.pending.drop_last(), found, id);
            lemma_occurrences(found, id);
            lemma_occurrences(self.roots, id);
            lemma_occurrences(self.pending, id);
            assert(self.pending.contains(self.pending.last()));
            assert(occurrences(self.pending, id) + occurrences(packages_of(self.expanded), id)
                == if self.graph.ids.contains(id) {
                visits(self.roots, id)
            } else {
                0
            });
            assert(after.graph.ids.contains(id) <==> self.graph.ids.contains(id)
                || found.contains(id));
        }
    }

    /// Following the dependencies of a package keeps a builder consistent.
    proof fn lemma_expanded(self, needs: Seq<Need>)
        requires
            self.consistent(),
            self.pending.len() > 0,
            self.wanted.len() == 0,
        ensures
            self.expanded_by(needs).consistent(),
            self.is_exact() && needs == self.needs_of(self.pending.last()) ==> self.expanded_by(
                needs,
            ).is_exact(),
            self.expanded_by(needs).node_count() == self.node_count() + fresh(
                self.graph.ids,
                needs,
            ).len(),
    {
        let after = self.expanded_by(needs);
        let package = self.pending.last();
        let found = fresh(self.graph.ids, needs);
        lemma_occurrences(self.pending, package);
        assert(self.pending[self.pending.len() - 1] == package);
        assert(occurrences(self.pending, package) + occurrences(
            packages_of(self.expanded),
            package,
        ) > 0);
        assert(self.graph.ids.contains(package));
        self.lemma_expanded_links(needs);
        self.lemma_expanded_packages(needs);
        self.lemma_expanded_visits(needs);
        lemma_fresh(self.graph.ids, needs);
        found.unique_seq_to_set();
        assert(self.graph.ids.disjoint(found.to_set()));
        vstd::set_lib::lemma_set_disjoint_lens(self.graph.ids, found.to_set());
        assert forall|id: PackageId| #[trigger]
            after.pending.contains(id) implies after.declared.contains_key(id)
            || after.wanted.contains(id) by {
            let i = after.pending.index_of(id);
            if i < self.pending.len() - 1 {
                assert(self.pending[i] == id);
                assert(self.pending.contains(id));
            } else {
                assert(found[i - (self.pending.len() - 1)] == id);
            }
        }
        assert forall|id: PackageId| #[trigger] after.wanted.contains(id) implies !packages_of(
            after.expanded,
        ).contains(id) by {
            let followed = packages_of(self.expanded);
            assert(packages_of(after.expanded) =~= followed.push(package));
            assert(occurrences(self.pending, id) + occurrences(followed, id) == 0);
            lemma_occurrences(followed, id);
            assert(id != package);
            if packages_of(after.expanded).contains(id) {
                let i = packages_of(after.expanded).index_of(id);
                assert(followed[i] == id);
            }
        }
        assert forall|id: PackageId| #[trigger] after.met_of(id) == self.met_of(id) by {
            assert(after.met_of(id) =~= self.met_of(id));
        }
        if self.is_exact() && needs == self.needs_of(package) {
            assert forall|i: int| 0 <= i < after.expanded.len() implies (
            #[trigger] after.expanded[i]).needs == after.needs_of(after.expanded[i].package) by {
                if i < self.expanded.len() {
                    assert(after.expanded[i] == self.expanded[i]);
                }
                assert(after.met_of(after.expanded[i].package) == self.met_of(
                    after.expanded[i].package,
                ));
            }
        }
    }
}

/// The models of some rows of answers.
pub open spec fn rows(met: Seq<Vec<bool>>) -> Seq<Seq<bool>> {
    met.map_values(|row: Vec<bool>| row@)
}

proof fn lemma_needs_of_one(
    standing_in: PackageId,
    name: Seq<char>,
    declared: Seq<Dependency>,
    met: Seq<bool>,
    target: Option<Seq<char>>,
    cfgs: Seq<CfgView>,
)
    ensures
        forall|i: int|
            0 <= i < needs_of_one(standing_in, name, declared, met, target, cfgs).len() ==> (
            #[trigger] needs_of_one(standing_in, name, declared, met, target, cfgs)[i]).0
                == standing_in,
    decreases declared.len(),
{
    if declared.len() > 0 {
        let all = needs_of_one(standing_in, name, declared, met, target, cfgs);
        let before = needs_of_one(standing_in, name, declared.drop_last(), met, target, cfgs);
        lemma_needs_of_one(standing_in, name, declared.drop_last(), met, target, cfgs);
        assert forall|i: int| 0 <= i < all.len() implies (#[trigger] all[i]).0 == standing_in by {
            if i < before.len() {
                assert(all[i] == before[i]);
            }
        }
    }
}

/// A package needs packages of the resolution only.
proof fn lemma_needs(
    resolution: Resolution,
    resolved: Seq<PackageId>,
    declared: Seq<Dependency>,
    met: Seq<Seq<bool>>,
    target: Option<Seq<char>>,
    cfgs: Seq<CfgView>,
)
    requires
        resolution.wf(),
        forall|i: int| 0 <= i < resolved.len() ==> #[trigger] resolved[i]
            < resolution.packages@.len(),
    ensures
        forall|i: int|
            0 <= i < needs(resolution, resolved, declared, met, target, cfgs).len() ==> (
            #[trigger] needs(resolution, resolved, declared, met, target, cfgs)[i]).0
                < resolution.packages@.len(),
    decreases resolved.len(),
{
    let all = needs(resolution, resolved, declared, met, target, cfgs);
    if resolved.len() > 0 {
        let fewer = resolved.drop_last();
        let last = resolved.last();
        assert(resolved[resolved.len() - 1] == last);
        assert forall|i: int| 0 <= i < fewer.len() implies #[trigger] fewer[i]
            < resolution.packages@.len() by {
            assert(fewer[i] == resolved[i]);
        }
        lemma_needs(resolution, fewer, declared, met, target, cfgs);
        lemma_needs_of_one(
            resolution.standing_in(last),
            resolution.packages@[last as int].name@,
            declared,
            met[resolved.len() - 1],
            target,
            cfgs,
        );
        assert(resolution.packages@[last as int].replacement matches Some(other) ==> other
            < resolution.packages@.len());
        let before = needs(resolution, fewer, declared, met, target, cfgs);
        assert forall|i: int| 0 <= i < all.len() implies (#[trigger] all[i]).0
            < resolution.packages@.len() by {
            if i < before.len() {
                assert(all[i] == before[i]);
            }
        }
    }
}

impl Dependency {
    /// Whether a version is good enough for the dependency.
    fn accepts_version(&self, version: &Version) -> (accepted: bool)
        ensures
            accepted == accepts(*self, version@),
    {
        match &self.requirement {
            None => true,
            Some(requirement) => match meets_requirement(requirement.as_str(), version) {
                Some(met) => met,
                None => false,
            },
        }
    }

    /// Whether the dependency is declared for a target.
    fn is_targeted(&self, target: &Option<String>, cfgs: &Vec<Cfg>) -> (found: bool)
        ensures
            found == targeted(*self, optional_text(*target), cfg_views(cfgs@)),
    {
        match (&self.platform, target) {
            (Some(platform), Some(target)) => platform.matches(target, cfgs),
            _ => true,
        }
    }
}

/// The needs of a package: those that each of `resolved` meets, in turn.
fn collect_needs(
    resolution: &Resolution,
    resolved: &Vec<PackageId>,
    declared: &Vec<Dependency>,
    met: &Vec<Vec<bool>>,
    target: &Option<String>,
    cfgs: &Vec<Cfg>,
) -> (found: Vec<Need>)
    requires
        forall|i: int| 0 <= i < resolved@.len() ==> #[trigger] resolved@[i]
            < resolution.packages@.len(),
        met@.len() == resolved@.len(),
        forall|i: int| 0 <= i < met@.len() ==> (#[trigger] met@[i])@.len() == declared@.len(),
    ensures
        found@ == needs(
            *resolution,
            resolved@,
            declared@,
            rows(met@),
            optional_text(*target),
            cfg_views(cfgs@),
        ),
{
    let ghost wanted_target = optional_text(*target);
    let ghost configuration = cfg_views(cfgs@);
    let mut found: Vec<Need> = Vec::new();
    let mut i: usize = 0;
    while i < resolved.len()
        invariant
            forall|i: int| 0 <= i < resolved@.len() ==> #[trigger] resolved@[i]
                < resolution.packages@.len(),
            met@.len() == resolved@.len(),
            forall|i: int| 0 <= i < met@.len() ==> (#[trigger] met@[i])@.len() == declared@.len(),
            wanted_target == optional_text(*target),
            configuration == cfg_views(cfgs@),
            i <= resolved.len(),
            found@ == needs(
                *resolution,
                resolved@.take(i as int),
                declared@,
                rows(met@),
                wanted_target,
                configuration,
            ),
        decreases resolved.len() - i,
    {
        let package = &resolution.packages[resolved[i]];
        let standing_in = match package.replacement {
            Some(other) => other,
            None => resolved[i],
        };
        let ghost before = found@;
        assert(standing_in == resolution.standing_in(resolved@[i as int]));
        assert(rows(met@)[i as int] == met@[i as int]@);
        let mut j: usize = 0;
        while j < declared.len()
            invariant
                i < resolved.len(),
                met@.len() == resolved@.len(),
                met@[i as int]@.len() == declared@.len(),
                wanted_target == optional_text(*target),
                configuration == cfg_views(cfgs@),
                j <= declared.len(),
                found@ == before + needs_of_one(
                    standing_in,
                    package.name@,
                    declared@.take(j as int),
                    met@[i as int]@,
                    wanted_target,
                    configuration,
                ),
            decreases declared.len() - j,
        {
            let dependency = &declared[j];
            let ghost so_far = found@;
            proof {
                assert(declared@.take(j + 1).drop_last() =~= declared@.take(j as int));
                assert(declared@.take(j + 1).last() == *dependency);
            }
            if dependency.name == package.name && met[i][j] && dependency.is_targeted(
                target,
                cfgs,
            ) {
                found.push((standing_in, dependency.kind));
            }
            assert(found@ =~= before + needs_of_one(
                standing_in,
                package.name@,
                declared@.take(j + 1),
                met@[i as int]@,
                wanted_target,
                configuration,
            ));
            j += 1;
        }
        proof {
            assert(declared@.take(declared@.len() as int) =~= declared@);
            assert(resolved@.take(i + 1).drop_last() =~= resolved@.take(i as int));
            assert(resolved@.take(i + 1).last() == resolved@[i as int]);
        }
        i += 1;
    }
    assert(resolved@.take(resolved@.len() as int) =~= resolved@);
    found
}

proof fn lemma_set_of_push(ids: Seq<PackageId>, id: PackageId)
    ensures
        ids.push(id).to_set() == ids.to_set().insert(id),
{
    let more = ids.push(id);
    assert forall|x: PackageId| #[trigger] more.to_set().contains(x) <==> ids.to_set().insert(
        id,
    ).contains(x) by {
        if ids.contains(x) {
            assert(more[ids.index_of(x)] == x);
        }
        assert(more[ids.len() as int] == id);
    }
    assert(more.to_set() =~= ids.to_set().insert(id));
}

/// The packages of some needs that a graph does not hold, each once.
fn find_fresh(graph: &Graph, needs: &Vec<Need>) -> (found: Vec<PackageId>)
    ensures
        found@ == fresh(graph@.ids, needs@),
{
    let mut found: Vec<PackageId> = Vec::new();
    let mut seen: HashSet<PackageId> = HashSet::new();
    let mut i: usize = 0;
    assert(seen@ =~= found@.to_set());
    while i < needs.len()
        invariant
            i <= needs.len(),
            seen@ == found@.to_set(),
            found@ == fresh(graph@.ids, needs@.take(i as int)),
        decreases needs.len() - i,
    {
        let id = needs[i].0;
        let ghost before = found@;
        proof {
            assert(needs@.take(i + 1).drop_last() =~= needs@.take(i as int));
            assert(needs@.take(i + 1).last() == needs@[i as int]);
            assert(before.to_set().contains(id) <==> before.contains(id));
        }
        if !graph.contains(id) && !seen.contains(&id) {
            seen.insert(id);
            found.push(id);
            proof {
                lemma_set_of_push(before, id);
            }
        }
        i += 1;
    }
    assert(needs@.take(needs@.len() as int) =~= needs@);
    found
}

/// Links a package of a graph to what it needs, and returns the packages that this adds.
fn follow(graph: &mut Graph, package: PackageId, needs: &Vec<Need>) -> (added: Vec<PackageId>)
    requires
        old(graph).wf(),
        old(graph)@.ids.contains(package),
        old(graph).node_count() + fresh(old(graph)@.ids, needs@).len() <= u32::MAX,
        old(graph)@.links.len() + needs@.len() <= u32::MAX,
        forall|i: int|
            0 <= i < old(graph)@.links.len() ==> old(graph)@.ids.contains(
                (#[trigger] old(graph)@.links[i]).0,
            ) && old(graph)@.ids.contains(old(graph)@.links[i].1),
    ensures
        final(graph).wf(),
        final(graph).node_count() == old(graph).node_count() + added@.len(),
        old(graph).has_one_node_each() ==> final(graph).has_one_node_each(),
        added@ == fresh(old(graph)@.ids, needs@),
        final(graph)@.ids == old(graph)@.ids.union(added@.to_set()),
        final(graph)@.links == old(graph)@.links + links_from(package, needs@),
{
    let ghost known = graph@.ids;
    let ghost links = graph@.links;
    let ghost count = graph.node_count();
    let mut added: Vec<PackageId> = Vec::new();
    let mut i: usize = 0;
    assert(known.union(Seq::<PackageId>::empty().to_set()) =~= known);
    assert(links + links_from(package, Seq::<Need>::empty()) =~= links);
    assert(needs@.take(0) =~= Seq::empty());
    while i < needs.len()
        invariant
            graph.wf(),
            known.contains(package),
            count + fresh(known, needs@).len() <= u32::MAX,
            links.len() + needs@.len() <= u32::MAX,
            i <= needs.len(),
            graph.node_count() == count + added@.len(),
            old(graph).has_one_node_each() ==> graph.has_one_node_each(),
            added@ == fresh(known, needs@.take(i as int)),
            graph@.ids == known.union(added@.to_set()),
            graph@.links == links + links_from(package, needs@.take(i as int)),
            forall|k: int|
                0 <= k < graph@.links.len() ==> graph@.ids.contains((#[trigger] graph@.links[k]).0)
                    && graph@.ids.contains(graph@.links[k].1),
        decreases needs.len() - i,
    {
        let (id, kind) = needs[i];
        let ghost before = added@;
        let ghost old_view = graph@;
        proof {
            assert(needs@.take(i + 1).drop_last() =~= needs@.take(i as int));
            assert(needs@.take(i + 1).last() == needs@[i as int]);
            lemma_fresh_take(known, needs@, i + 1);
            assert(before.to_set().contains(id) <==> before.contains(id));
            assert(links_from(package, needs@.take(i + 1)) =~= links_from(
                package,
                needs@.take(i as int),
            ).push((package, id, kind)));
        }
        if !graph.contains(id) {
            assert forall|k: int| 0 <= k < graph@.links.len() implies (
            #[trigger] graph@.links[k]).0 != id && graph@.links[k].1 != id by {
                assert(graph@.ids.contains(graph@.links[k].0));
            }
            graph.insert(id);
            added.push(id);
            proof {
                lemma_set_of_push(before, id);
                assert(known.union(added@.to_set()) =~= known.union(before.to_set()).insert(id));
            }
        }
        proof {
            assert(before.to_set().contains(id) <==> before.contains(id));
        }
        graph.link(package, id, kind);
        proof {
            assert(graph@.links =~= links + links_from(package, needs@.take(i + 1)));
            assert forall|k: int| 0 <= k < graph@.links.len() implies graph@.ids.contains(
                (#[trigger] graph@.links[k]).0,
            ) && graph@.ids.contains(graph@.links[k].1) by {
                if k < old_view.links.len() {
                    assert(graph@.links[k] == old_view.links[k]);
                    assert(old_view.ids.contains(old_view.links[k].0));
                }
            }
        }
        i += 1;
    }
    assert(needs@.take(needs@.len() as int) =~= needs@);
    added
}

impl GraphBuilder {
    /// The builder is in a state that its operations lead to.
    pub closed spec fn wf(&self) -> bool {
        let view = self@;
        &&& self.resolution.wf()
        &&& self.graph.wf()
        &&& view.consistent()
        &&& forall|id: PackageId| #[trigger]
            view.graph.ids.contains(id) ==> id < self.resolution.packages@.len()
        &&& self.node_count == self.graph.node_count()
        &&& self.link_count == view.graph.links.len()
        &&& self.graph.node_count() == view.node_count()
        &&& view.roots.no_duplicates() ==> self.graph.has_one_node_each()
        &&& self.node_count <= u32::MAX
        &&& self.link_count <= u32::MAX
    }

    /// Starts a graph from some packages of a resolution, for a target and its configuration, or
    /// for all targets.
    pub fn new(
        resolution: Resolution,
        roots: &Vec<PackageId>,
        target: Option<String>,
        cfgs: Vec<Cfg>,
    ) -> (builder: GraphBuilder)
        requires
            resolution.wf(),
            roots@.len() <= u32::MAX,
            forall|i: int| 0 <= i < roots@.len() ==> #[trigger] roots@[i]
                < resolution.packages@.len(),
        ensures
            builder.wf(),
            builder@ == BuilderView::start(
                resolution,
                roots@,
                optional_text(target),
                cfg_views(cfgs@),
            ),
            builder@.is_exact(),
    {
        let mut graph = Graph::new();
        let mut pending: Vec<PackageId> = Vec::new();
        let mut wanted: Vec<PackageId> = Vec::new();
        let mut i: usize = 0;
        while i < roots.len()
            invariant
                roots@.len() <= u32::MAX,
                i <= roots.len(),
                graph.wf(),
                graph.node_count() == i,
                roots@.no_duplicates() ==> graph.has_one_node_each(),
                graph@.ids == roots@.take(i as int).to_set(),
                graph@.links == Seq::<Link>::empty(),
                pending@ == roots@.take(i as int),
                wanted@ == roots@.take(i as int),
            decreases roots.len() - i,
        {
            let root = roots[i];
            proof {
                let fewer = roots@.take(i as int);
                if roots@.no_duplicates() && fewer.contains(root) {
                    assert(roots@[fewer.index_of(root)] == roots@[i as int]);
                }
            }
            graph.insert(root);
            pending.push(root);
            wanted.push(root);
            proof {
                let fewer = roots@.take(i as int);
                assert(roots@.take(i + 1) =~= fewer.push(root));
                lemma_set_of_push(fewer, root);
            }
            i += 1;
        }
        assert(roots@.take(roots@.len() as int) =~= roots@);
        let builder = GraphBuilder {
            resolution,
            target,
            cfgs,
            graph,
            pending,
            wanted,
            declared: HashMap::new(),
            node_count: roots.len(),
            link_count: 0,
            roots: Ghost(roots@),
            expanded: Ghost(Seq::empty()),
        };
        proof {
            BuilderView::lemma_start(
                resolution,
                roots@,
                optional_text(target),
                cfg_views(cfgs@),
            );
            assert(builder@ =~= BuilderView::start(
                resolution,
                roots@,
                optional_text(target),
                cfg_views(cfgs@),
            ));
        }
        builder
    }

    /// What to do next.
    pub fn step(&self) -> (step: BuildStep)
        ensures
            step == if self@.wanted.len() > 0 {
                BuildStep::Fetch(self@.wanted[0])
            } else if self@.pending.len() > 0 {
                BuildStep::Expand
            } else {
                BuildStep::Done
            },
    {
        if self.wanted.len() > 0 {
            BuildStep::Fetch(self.wanted[0])
        } else if self.pending.len() > 0 {
            BuildStep::Expand
        } else {
            BuildStep::Done
        }
    }

    /// Takes what the package declares that is wanted next.
    pub fn supply(&mut self, declared: Vec<Dependency>)
        requires
            old(self).wf(),
            old(self)@.wanted.len() > 0,
        ensures
            final(self).wf(),
            final(self)@ == old(self)@.supplied(declared@),
            old(self)@.is_exact() ==> final(self)@.is_exact(),
    {
        proof {
            self@.lemma_supplied(declared@);
        }
        let id = self.wanted.remove(0);
        self.declared.insert(id, declared);
        proof {
            assert(self@ =~= old(self)@.supplied(declared@));
        }
    }

    /// The next package is in the resolution, and what it declares was supplied.
    proof fn lemma_next(&self)
        requires
            self.wf(),
            self@.wanted.len() == 0,
            self@.pending.len() > 0,
        ensures
            self@.pending.last() < self.resolution.packages@.len(),
            self@.graph.ids.contains(self@.pending.last()),
            self.declared@.contains_key(self@.pending.last()),
            self@.next_declared() == self.declared@[self@.pending.last()]@,
    {
        let package = self@.pending.last();
        assert(self@.pending[self@.pending.len() - 1] == package);
        assert(self@.pending.contains(package));
        lemma_occurrences(self@.pending, package);
        assert(occurrences(self@.pending, package) + occurrences(
            packages_of(self@.expanded),
            package,
        ) > 0);
        assert(self@.declared.contains_key(package));
    }

    /// Which of the resolved versions are good enough for which of the dependencies that the next
    /// package declares.
    pub fn requirements_met(&self) -> (met: Vec<Vec<bool>>)
        requires
            self.wf(),
            self@.wanted.len() == 0,
            self@.pending.len() > 0,
        ensures
            rows(met@) == self@.next_met(),
    {
        proof {
            self.lemma_next();
        }
        let package = self.pending[self.pending.len() - 1];
        let resolved = &self.resolution.packages[package].dependencies;
        let declared = self.declared.get(&package).unwrap();
        let ghost expected = self@.next_met();
        let mut met: Vec<Vec<bool>> = Vec::new();
        let mut i: usize = 0;
        while i < resolved.len()
            invariant
                self.resolution.wf(),
                package < self.resolution.packages@.len(),
                resolved@ == self.resolution.packages@[package as int].dependencies@,
                expected == self@.next_met(),
                self@.next_resolved() == resolved@,
                self@.next_declared() == declared@,
                i <= resolved.len(),
                met@.len() == i,
                forall|k: int| 0 <= k < i ==> (#[trigger] met@[k])@ == expected[k],
            decreases resolved.len() - i,
        {
            assert(resolved@[i as int] < self.resolution.packages@.len());
            let version = &self.resolution.packages[resolved[i]].version;
            let mut row: Vec<bool> = Vec::new();
            let mut j: usize = 0;
            while j < declared.len()
                invariant
                    i < resolved.len(),
                    resolved@[i as int] < self.resolution.packages@.len(),
                    version@ == self.resolution.packages@[resolved@[i as int] as int].version@,
                    expected == self@.next_met(),
                    self@.next_resolved() == resolved@,
                    self@.next_declared() == declared@,
                    j <= declared.len(),
                    row@.len() == j,
                    forall|k: int| 0 <= k < j ==> #[trigger] row@[k] == expected[i as int][k],
                decreases declared.len() - j,
            {
                row.push(declared[j].accepts_version(version));
                j += 1;
            }
            assert(row@ =~= expected[i as int]);
            met.push(row);
            i += 1;
        }
        assert(rows(met@) =~= expected);
        met
    }

    /// The needs of the next package, where `met` says which of the resolved versions are good
    /// enough for which of the dependencies that it declares.
    fn collect_next(&self, met: &Vec<Vec<bool>>) -> (found: Vec<Need>)
        requires
            self.wf(),
            self@.wanted.len() == 0,
            self@.pending.len() > 0,
            self@.answers(rows(met@)),
        ensures
            found@ == self@.next_needs(rows(met@)),
            forall|i: int|
                0 <= i < found@.len() ==> (#[trigger] found@[i]).0 < self.resolution.packages@.len(),
    {
        proof {
            self.lemma_next();
        }
        let package = self.pending[self.pending.len() - 1];
        assert forall|i: int| 0 <= i < self@.next_resolved().len() implies #[trigger]
            self@.next_resolved()[i] < self.resolution.packages@.len() by {}
        assert forall|i: int| 0 <= i < met@.len() implies (#[trigger] met@[i])@.len()
            == self@.next_declared().len() by {
            assert(rows(met@)[i] == met@[i]@);
        }
        assert(met@.len() == rows(met@).len());
        let found = collect_needs(
            &self.resolution,
            &self.resolution.packages[package].dependencies,
            self.declared.get(&package).unwrap(),
            met,
            &self.target,
            &self.cfgs,
        );
        proof {
            lemma_needs(
                self.resolution,
                self@.next_resolved(),
                self@.next_declared(),
                rows(met@),
                self@.target,
                self@.cfgs,
            );
        }
        found
    }

    /// Whether the graph can take some needs of the next package.
    fn can_take(&self, needs: &Vec<Need>) -> (room: bool)
        requires
            self.wf(),
        ensures
            room == self@.fits(needs@),
    {
        let most = u32::MAX as usize;
        find_fresh(&self.graph, needs).len() <= most - self.node_count && needs.len() <= most
            - self.link_count
    }

    /// Links the next package to what it needs.
    fn take_next(&mut self, found: &Vec<Need>)
        requires
            old(self).wf(),
            old(self)@.wanted.len() == 0,
            old(self)@.pending.len() > 0,
            old(self)@.fits(found@),
            forall|i: int|
                0 <= i < found@.len() ==> (#[trigger] found@[i]).0 < old(
                    self,
                )@.resolution.packages@.len(),
        ensures
            final(self).wf(),
            final(self)@ == old(self)@.expanded_by(found@),
            old(self)@.is_exact() && found@ == old(self)@.needs_of(old(self)@.pending.last())
                ==> final(self)@.is_exact(),
    {
        proof {
            self.lemma_next();
            self@.lemma_expanded(found@);
            lemma_fresh(self@.graph.ids, found@);
        }
        let package = self.pending[self.pending.len() - 1];
        let ghost after = self@.expanded_by(found@);
        self.pending.pop();
        let added = follow(&mut self.graph, package, found);
        let mut i: usize = 0;
        let ghost waiting = self.pending@;
        let ghost grown = self.graph;
        while i < added.len()
            invariant
                self.graph == grown,
                i <= added.len(),
                self.pending@ == waiting + added@.take(i as int),
                self.resolution == old(self).resolution,
                self.target == old(self).target,
                self.cfgs == old(self).cfgs,
                self.declared == old(self).declared,
                self.node_count == old(self).node_count,
                self.link_count == old(self).link_count,
                self.roots == old(self).roots,
                self.expanded == old(self).expanded,
            decreases added.len() - i,
        {
            self.pending.push(added[i]);
            assert(added@.take(i + 1) =~= added@.take(i as int).push(added@[i as int]));
            i += 1;
        }
        assert(added@.take(added@.len() as int) =~= added@);
        self.node_count = self.node_count + added.len();
        self.link_count = self.link_count + found.len();
        self.wanted = added;
        proof {
            self.expanded@ = self.expanded@.push(Expansion { package, needs: found@ });
            assert(self@.graph =~= after.graph);
            assert(self@ =~= after);
            assert forall|id: PackageId| #[trigger] self@.graph.ids.contains(id) implies id
                < self.resolution.packages@.len() by {
                if !old(self)@.graph.ids.contains(id) {
                    assert(added@.contains(id));
                    let k = choose|k: int| 0 <= k < found@.len() && (#[trigger] found@[k]).0 == id;
                    assert(found@[k].0 < self.resolution.packages@.len());
                }
            }
        }
    }

    /// Whether the graph can take the needs of the next package, where `met` says which of the
    /// resolved versions are good enough for which of the dependencies that it declares.
    pub fn has_room(&self, met: &Vec<Vec<bool>>) -> (room: bool)
        requires
            self.wf(),
            self@.wanted.len() == 0,
            self@.pending.len() > 0,
            self@.answers(rows(met@)),
        ensures
            room == self@.fits(self@.next_needs(rows(met@))),
    {
        self.can_take(&self.collect_next(met))
    }

    /// Follows the dependencies of the next package, where `met` says which of the resolved
    /// versions are good enough for which of the dependencies that it declares.
    pub fn expand_with(&mut self, met: &Vec<Vec<bool>>)
        requires
            old(self).wf(),
            old(self)@.wanted.len() == 0,
            old(self)@.pending.len() > 0,
            old(self)@.answers(rows(met@)),
            old(self)@.fits(old(self)@.next_needs(rows(met@))),
        ensures
            final(self).wf(),
            final(self)@ == old(self)@.expanded_by(old(self)@.next_needs(rows(met@))),
            old(self)@.is_exact() && rows(met@) == old(self)@.next_met()
                ==> final(self)@.is_exact(),
    {
        let found = self.collect_next(met);
        self.take_next(&found);
    }

    /// Follows the dependencies of the next package, unless the graph cannot take its needs. In that
    /// case the builder stays as it is.
    pub fn expand(&mut self) -> (followed: bool)
        requires
            old(self).wf(),
            old(self)@.wanted.len() == 0,
            old(self)@.pending.len() > 0,
        ensures
            final(self).wf(),
            followed == old(self)@.fits(old(self)@.next_needs(old(self)@.next_met())),
            final(self)@ == if followed {
                old(self)@.expanded_by(old(self)@.next_needs(old(self)@.next_met()))
            } else {
                old(self)@
            },
            old(self)@.is_exact() ==> final(self)@.is_exact(),
    {
        let met = self.requirements_met();
        let found = self.collect_next(&met);
        if self.can_take(&found) {
            self.take_next(&found);
            true
        } else {
            false
        }
    }

    /// The graph, once nothing is left to do. It holds the roots and what they lead to, and the
    /// needs of each of these packages as links, in the order in which the packages were followed.
    /// Where each package was followed by `expand`, these needs are those that the resolution and
    /// the declarations give.
    pub fn finish(self) -> (graph: Graph)
        requires
            self.wf(),
            self@.wanted.len() == 0,
            self@.pending.len() == 0,
        ensures
            graph.wf(),
            graph@ == self@.graph,
            graph@.links == links_of(self@.expanded),
            self@.declared.dom() == graph@.ids,
            graph.node_count() == self@.node_count(),
            self@.roots.no_duplicates() ==> graph.has_one_node_each() && graph.node_count()
                == graph@.ids.len(),
            forall|id: PackageId| #[trigger]
                graph@.ids.contains(id) <==> exists|root: PackageId| #[trigger]
                    self@.roots.contains(root) && reaches(graph@.step(), root, id),
            forall|id: PackageId| #[trigger]
                occurrences(packages_of(self@.expanded), id) == if graph@.ids.contains(id) {
                    visits(self@.roots, id)
                } else {
                    0
                },
            self@.is_exact() ==> forall|a: PackageId, b: PackageId| #[trigger]
                graph@.depends(a, b) <==> graph@.ids.contains(a) && needed(
                    self@.needs_of(a),
                ).contains(b),
            self@.is_exact() ==> forall|id: PackageId|
                graph@.ids.contains(id) && occurrences(self@.roots, id) <= 1 ==> #[trigger]
                neighbors(graph@.links, id, Direction::Outgoing) == needed(
                    self@.needs_of(id),
                ).reverse(),
    {
        proof {
            let view = self@;
            assert forall|id: PackageId| #[trigger]
                view.graph.ids.contains(id) <==> view.declared.contains_key(id) by {}
            assert(view.declared.dom() =~= view.graph.ids);
            if view.roots.no_duplicates() {
                view.roots.unique_seq_to_set();
            }
            if view.is_exact() {
                assert forall|a: PackageId, b: PackageId| #[trigger]
                    view.graph.depends(a, b) <==> view.graph.ids.contains(a) && needed(
                        view.needs_of(a),
                    ).contains(b) by {
                    view.lemma_exact_depends(a, b);
                }
                assert forall|id: PackageId|
                    view.graph.ids.contains(id) && occurrences(view.roots, id) <= 1 implies
                    #[trigger] neighbors(view.graph.links, id, Direction::Outgoing) == needed(
                    view.needs_of(id),
                ).reverse() by {
                    view.lemma_exact_dependencies(id);
                }
            }
            assert forall|id: PackageId| #[trigger] view.graph.ids.contains(id) implies exists|
                root: PackageId,
            | #[trigger] view.roots.contains(root) && reaches(view.graph.step(), root, id) by {
                assert(view.is_reached(id));
                reveal(BuilderView::is_reached);
            }
            assert forall|root: PackageId, id: PackageId| #[trigger]
                view.roots.contains(root) && #[trigger] reaches(
                    view.graph.step(),
                    root,
                    id,
                ) implies view.graph.ids.contains(id) by {
                let step = view.graph.step();
                assert forall|a: PackageId, b: PackageId|
                    view.graph.ids.contains(a) && #[trigger] step(
                        a,
                        b,
                    ) implies view.graph.ids.contains(b) by {
                    let i = choose|i: int|
                        0 <= i < view.graph.links.len() && (#[trigger] view.graph.links[i]).0 == a
                            && view.graph.links[i].1 == b;
                    assert(view.graph.ids.contains(view.graph.links[i].1));
                }
                lemma_closed_set(step, view.graph.ids, root, id);
            }
            assert forall|id: PackageId| #[trigger]
                occurrences(packages_of(view.expanded), id) == if view.graph.ids.contains(id) {
                    visits(view.roots, id)
                } else {
                    0
                } by {
                assert(occurrences(view.pending, id) == 0);
                assert(occurrences(view.pending, id) + occurrences(packages_of(view.expanded), id)
                    == if view.graph.ids.contains(id) {
                    visits(view.roots, id)
                } else {
                    0
                });
            }
        }
        self.graph
    }

    /// A builder follows no more packages than there are roots and packages in the resolution.
    pub proof fn law_work_is_bounded(&self)
        requires
            self.wf(),
        ensures
            self@.expanded.len() + self@.pending.len() <= self@.roots.len()
                + self@.resolution.packages@.len(),
    {
        let count = self@.resolution.packages@.len();
        let numbers = Seq::new(count, |i: int| i as usize);
        assert(numbers.to_set().finite());
        numbers.lemma_cardinality_of_set();
        assert(self@.graph.ids.subset_of(numbers.to_set())) by {
            assert forall|id: PackageId| self@.graph.ids.contains(id) implies #[trigger]
                numbers.to_set().contains(id) by {
                assert(numbers[id as int] == id);
            }
        }
        vstd::set_lib::lemma_len_subset(self@.graph.ids, numbers.to_set());
    }
}

/// The packages of some needs.
pub open spec fn needed(needs: Seq<Need>) -> Seq<PackageId> {
    needs.map_values(|need: Need| need.0)
}

proof fn lemma_neighbors_concat(
    a: Seq<Link>,
    b: Seq<Link>,
    id: PackageId,
    direction: Direction,
)
    ensures
        neighbors(a + b, id, direction) == neighbors(b, id, direction) + neighbors(
            a,
            id,
            direction,
        ),
    decreases b.len(),
{
    if b.len() == 0 {
        assert(a + b =~= a);
        assert(neighbors(b, id, direction) + neighbors(a, id, direction) =~= neighbors(
            a,
            id,
            direction,
        ));
    } else {
        assert((a + b).drop_last() =~= a + b.drop_last());
        lemma_neighbors_concat(a, b.drop_last(), id, direction);
        assert(neighbors(a + b, id, direction) =~= neighbors(b, id, direction) + neighbors(
            a,
            id,
            direction,
        ));
    }
}

proof fn lemma_neighbors_of_needs(package: PackageId, needs: Seq<Need>, id: PackageId)
    ensures
        neighbors(links_from(package, needs), id, Direction::Outgoing) == if id == package {
            needed(needs).reverse()
        } else {
            Seq::empty()
        },
    decreases needs.len(),
{
    let links = links_from(package, needs);
    if needs.len() == 0 {
        assert(needed(needs).reverse() =~= Seq::empty());
    } else {
        assert(links.drop_last() =~= links_from(package, needs.drop_last()));
        lemma_neighbors_of_needs(package, needs.drop_last(), id);
        assert(links.last() == (package, needs.last().0, needs.last().1));
        assert(needed(needs).reverse() =~= seq![needs.last().0] + needed(
            needs.drop_last(),
        ).reverse());
    }
}

/// A package whose dependencies were followed once depends on what it needs, in the reverse of the
/// order of its needs.
pub proof fn law_dependencies_are_needs(expanded: Seq<Expansion>, k: int)
    requires
        0 <= k < expanded.len(),
        occurrences(packages_of(expanded), expanded[k].package) == 1,
    ensures
        neighbors(links_of(expanded), expanded[k].package, Direction::Outgoing) == needed(
            expanded[k].needs,
        ).reverse(),
    decreases expanded.len(),
{
    let id = expanded[k].package;
    let fewer = expanded.drop_last();
    let last = expanded.last();
    assert(packages_of(expanded).drop_last() =~= packages_of(fewer));
    assert(packages_of(expanded).last() == last.package);
    lemma_neighbors_concat(
        links_of(fewer),
        links_from(last.package, last.needs),
        id,
        Direction::Outgoing,
    );
    lemma_neighbors_of_needs(last.package, last.needs, id);
    if k == expanded.len() - 1 {
        lemma_not_followed(fewer, id);
        assert(needed(last.needs).reverse() + Seq::<PackageId>::empty() =~= needed(
            last.needs,
        ).reverse());
    } else {
        assert(fewer[k] == expanded[k]);
        lemma_occurrences(packages_of(fewer), id);
        assert(packages_of(fewer)[k] == id);
        law_dependencies_are_needs(fewer, k);
        assert(Seq::<PackageId>::empty() + needed(expanded[k].needs).reverse() =~= needed(
            expanded[k].needs,
        ).reverse());
    }
}

/// A package whose dependencies were not followed has none.
proof fn lemma_not_followed(expanded: Seq<Expansion>, id: PackageId)
    requires
        occurrences(packages_of(expanded), id) == 0,
    ensures
        neighbors(links_of(expanded), id, Direction::Outgoing) == Seq::<PackageId>::empty(),
    decreases expanded.len(),
{
    if expanded.len() > 0 {
        let fewer = expanded.drop_last();
        let last = expanded.last();
        assert(packages_of(expanded).drop_last() =~= packages_of(fewer));
        assert(packages_of(expanded).last() == last.package);
        lemma_neighbors_concat(
            links_of(fewer),
            links_from(last.package, last.needs),
            id,
            Direction::Outgoing,
        );
        lemma_neighbors_of_needs(last.package, last.needs, id);
        lemma_not_followed(fewer, id);
    }
}

/// The links of some expansions are those from their packages to what these need.
proof fn lemma_has_link(expanded: Seq<Expansion>, a: PackageId, b: PackageId)
    ensures
        has_edge(links_of(expanded), a, b) <==> exists|k: int|
            0 <= k < expanded.len() && (#[trigger] expanded[k]).package == a && needed(
                expanded[k].needs,
            ).contains(b),
    decreases expanded.len(),
{
    if expanded.len() > 0 {
        let fewer = expanded.drop_last();
        let last = expanded.last();
        let before = links_of(fewer);
        let added = links_from(last.package, last.needs);
        let all = links_of(expanded);
        lemma_has_link(fewer, a, b);
        assert(expanded[expanded.len() - 1] == last);
        if has_edge(all, a, b) {
            let i = choose|i: int|
                0 <= i < all.len() && (#[trigger] all[i]).0 == a && all[i].1 == b;
            if i < before.len() {
                assert(before[i] == all[i]);
                let k = choose|k: int|
                    0 <= k < fewer.len() && (#[trigger] fewer[k]).package == a && needed(
                        fewer[k].needs,
                    ).contains(b);
                assert(expanded[k] == fewer[k]);
            } else {
                let need = last.needs[i - before.len()];
                assert(all[i] == (last.package, need.0, need.1));
                assert(needed(last.needs)[i - before.len()] == b);
            }
        }
        if exists|k: int|
            0 <= k < expanded.len() && (#[trigger] expanded[k]).package == a && needed(
                expanded[k].needs,
            ).contains(b) {
            let k = choose|k: int|
                0 <= k < expanded.len() && (#[trigger] expanded[k]).package == a && needed(
                    expanded[k].needs,
                ).contains(b);
            if k < fewer.len() {
                assert(fewer[k] == expanded[k]);
                let i = choose|i: int|
                    0 <= i < before.len() && (#[trigger] before[i]).0 == a && before[i].1 == b;
                assert(all[i] == before[i]);
            } else {
                let j = needed(last.needs).index_of(b);
                assert(all[before.len() + j] == added[j]);
                assert(added[j] == (last.package, last.needs[j].0, last.needs[j].1));
            }
        }
    }
}

impl BuilderView {
    /// A package was followed if and only if it is in the graph, once nothing is left to do.
    proof fn lemma_followed(self, id: PackageId)
        requires
            self.consistent(),
            self.pending.len() == 0,
        ensures
            self.graph.ids.contains(id) <==> exists|k: int|
                0 <= k < self.expanded.len() && (#[trigger] self.expanded[k]).package == id,
    {
        let followed = packages_of(self.expanded);
        assert(occurrences(self.pending, id) + occurrences(followed, id)
            == if self.graph.ids.contains(id) {
            visits(self.roots, id)
        } else {
            0
        });
        lemma_occurrences(followed, id);
        if followed.contains(id) {
            let k = followed.index_of(id);
            assert(self.expanded[k].package == id);
        }
        if exists|k: int|
            0 <= k < self.expanded.len() && (#[trigger] self.expanded[k]).package == id {
            let k = choose|k: int|
                0 <= k < self.expanded.len() && (#[trigger] self.expanded[k]).package == id;
            assert(followed[k] == id);
        }
    }

    /// The packages depend on what they need.
    proof fn lemma_exact_depends(self, a: PackageId, b: PackageId)
        requires
            self.consistent(),
            self.is_exact(),
            self.pending.len() == 0,
        ensures
            self.graph.depends(a, b) <==> self.graph.ids.contains(a) && needed(
                self.needs_of(a),
            ).contains(b),
    {
        lemma_has_link(self.expanded, a, b);
        self.lemma_followed(a);
        if self.graph.ids.contains(a) {
            let k = choose|k: int|
                0 <= k < self.expanded.len() && (#[trigger] self.expanded[k]).package == a;
            assert(self.expanded[k].needs == self.needs_of(a));
        }
        if self.graph.depends(a, b) {
            let k = choose|k: int|
                0 <= k < self.expanded.len() && (#[trigger] self.expanded[k]).package == a
                    && needed(self.expanded[k].needs).contains(b);
            assert(self.expanded[k].needs == self.needs_of(a));
        }
    }

    /// A package that is not several times a root depends on what it needs, in reverse order.
    proof fn lemma_exact_dependencies(self, id: PackageId)
        requires
            self.consistent(),
            self.is_exact(),
            self.pending.len() == 0,
            self.graph.ids.contains(id),
            occurrences(self.roots, id) <= 1,
        ensures
            neighbors(self.graph.links, id, Direction::Outgoing) == needed(
                self.needs_of(id),
            ).reverse(),
    {
        self.lemma_followed(id);
        let k = choose|k: int|
            0 <= k < self.expanded.len() && (#[trigger] self.expanded[k]).package == id;
        assert(occurrences(self.pending, id) + occurrences(packages_of(self.expanded), id)
            == visits(self.roots, id));
        law_dependencies_are_needs(self.expanded, k);
        assert(self.expanded[k].needs == self.needs_of(id));
    }
}

/// A declared dependency that the resolved package `id` meets gives a need: it names the package,
/// accepts its version (`met` says so) and is declared for the target.
pub open spec fn gives_need(
    resolution: Resolution,
    id: PackageId,
    dependency: Dependency,
    met: bool,
    target: Option<Seq<char>>,
    cfgs: Seq<CfgView>,
    need: Need,
) -> bool {
    &&& dependency.name@ == resolution.packages@[id as int].name@
    &&& met
    &&& targeted(dependency, target, cfgs)
    &&& need == (resolution.standing_in(id), dependency.kind)
}

proof fn lemma_needs_of_one_contains(
    resolution: Resolution,
    id: PackageId,
    declared: Seq<Dependency>,
    met: Seq<bool>,
    target: Option<Seq<char>>,
    cfgs: Seq<CfgView>,
    need: Need,
)
    ensures
        needs_of_one(
            resolution.standing_in(id),
            resolution.packages@[id as int].name@,
            declared,
            met,
            target,
            cfgs,
        ).contains(need) <==> exists|j: int|
            0 <= j < declared.len() && gives_need(
                resolution,
                id,
                #[trigger] declared[j],
                met[j],
                target,
                cfgs,
                need,
            ),
    decreases declared.len(),
{
    let standing_in = resolution.standing_in(id);
    let name = resolution.packages@[id as int].name@;
    let all = needs_of_one(standing_in, name, declared, met, target, cfgs);
    if declared.len() > 0 {
        let fewer = declared.drop_last();
        let last = declared.last();
        let before = needs_of_one(standing_in, name, fewer, met, target, cfgs);
        lemma_needs_of_one_contains(resolution, id, fewer, met, target, cfgs, need);
        assert(declared[declared.len() - 1] == last);
        let added = (standing_in, last.kind);
        if before.contains(need) {
            assert(all[before.index_of(need)] == need);
            let j = choose|j: int|
                0 <= j < fewer.len() && gives_need(
                    resolution,
                    id,
                    #[trigger] fewer[j],
                    met[j],
                    target,
                    cfgs,
                    need,
                );
            assert(declared[j] == fewer[j]);
        }
        if all.contains(need) && !before.contains(need) {
            let k = all.index_of(need);
            assert(all == before.push(added));
            assert(k < before.len() ==> before[k] == need);
            assert(gives_need(
                resolution,
                id,
                declared[declared.len() - 1],
                met[declared.len() - 1],
                target,
                cfgs,
                need,
            ));
        }
        if exists|j: int|
            0 <= j < declared.len() && gives_need(
                resolution,
                id,
                #[trigger] declared[j],
                met[j],
                target,
                cfgs,
                need,
            ) {
            let j = choose|j: int|
                0 <= j < declared.len() && gives_need(
                    resolution,
                    id,
                    #[trigger] declared[j],
                    met[j],
                    target,
                    cfgs,
                    need,
                );
            if j < fewer.len() {
                assert(fewer[j] == declared[j]);
            } else {
                assert(all[before.len() as int] == need);
            }
        }
    }
}

/// A need comes from a declared dependency and a resolved package that meets it.
proof fn lemma_needs_contains(
    resolution: Resolution,
    resolved: Seq<PackageId>,
    declared: Seq<Dependency>,
    met: Seq<Seq<bool>>,
    target: Option<Seq<char>>,
    cfgs: Seq<CfgView>,
    need: Need,
)
    ensures
        needs(resolution, resolved, declared, met, target, cfgs).contains(need) <==> exists|
            i: int,
            j: int,
        |
            0 <= i < resolved.len() && 0 <= j < declared.len() && gives_need(
                resolution,
                #[trigger] resolved[i],
                #[trigger] declared[j],
                met[i][j],
                target,
                cfgs,
                need,
            ),
    decreases resolved.len(),
{
    if resolved.len() > 0 {
        let fewer = resolved.drop_last();
        let last = resolved.last();
        let row = met[resolved.len() - 1];
        let before = needs(resolution, fewer, declared, met, target, cfgs);
        let added = needs_of_one(
            resolution.standing_in(last),
            resolution.packages@[last as int].name@,
            declared,
            row,
            target,
            cfgs,
        );
        let all = needs(resolution, resolved, declared, met, target, cfgs);
        lemma_needs_contains(resolution, fewer, declared, met, target, cfgs, need);
        lemma_needs_of_one_contains(resolution, last, declared, row, target, cfgs, need);
        assert(all == before + added);
        assert(resolved[resolved.len() - 1] == last);
        if before.contains(need) {
            assert(all[before.index_of(need)] == need);
            let (i, j) = choose|i: int, j: int|
                0 <= i < fewer.len() && 0 <= j < declared.len() && gives_need(
                    resolution,
                    #[trigger] fewer[i],
                    #[trigger] declared[j],
                    met[i][j],
                    target,
                    cfgs,
                    need,
                );
            assert(resolved[i] == fewer[i]);
        }
        if added.contains(need) {
            assert(all[before.len() + added.index_of(need)] == need);
        }
        if all.contains(need) {
            let k = all.index_of(need);
            if k < before.len() {
                assert(before[k] == need);
            } else {
                assert(added[k - before.len()] == need);
            }
        }
        if exists|i: int, j: int|
            0 <= i < resolved.len() && 0 <= j < declared.len() && gives_need(
                resolution,
                #[trigger] resolved[i],
                #[trigger] declared[j],
                met[i][j],
                target,
                cfgs,
                need,
            ) {
            let (i, j) = choose|i: int, j: int|
                0 <= i < resolved.len() && 0 <= j < declared.len() && gives_need(
                    resolution,
                    #[trigger] resolved[i],
                    #[trigger] declared[j],
                    met[i][j],
                    target,
                    cfgs,
                    need,
                );
            if i < fewer.len() {
                assert(fewer[i] == resolved[i]);
            }
        }
    }
}

/// A declared dependency gives the need, but is not declared for the target.
spec fn is_dropped(
    resolution: Resolution,
    id: PackageId,
    dependency: Dependency,
    met: bool,
    target: Option<Seq<char>>,
    cfgs: Seq<CfgView>,
    need: Need,
) -> bool {
    &&& gives_need(resolution, id, dependency, met, None, cfgs, need)
    &&& !targeted(dependency, target, cfgs)
}

/// With a target a package has no need more often than without, and less often only where a
/// dependency that gives it is not declared for the target.
proof fn lemma_target_of_one(
    resolution: Resolution,
    id: PackageId,
    declared: Seq<Dependency>,
    met: Seq<bool>,
    other_cfgs: Seq<CfgView>,
    target: Option<Seq<char>>,
    cfgs: Seq<CfgView>,
    need: Need,
)
    ensures
        ({
            let standing_in = resolution.standing_in(id);
            let name = resolution.packages@[id as int].name@;
            let all = needs_of_one(standing_in, name, declared, met, None, other_cfgs);
            let some = needs_of_one(standing_in, name, declared, met, target, cfgs);
            &&& occurrences(some, need) <= occurrences(all, need)
            &&& occurrences(some, need) < occurrences(all, need) ==> exists|j: int|
                0 <= j < declared.len() && is_dropped(
                    resolution,
                    id,
                    #[trigger] declared[j],
                    met[j],
                    target,
                    cfgs,
                    need,
                )
        }),
    decreases declared.len(),
{
    if declared.len() > 0 {
        let standing_in = resolution.standing_in(id);
        let name = resolution.packages@[id as int].name@;
        let fewer = declared.drop_last();
        let last = declared.last();
        lemma_target_of_one(resolution, id, fewer, met, other_cfgs, target, cfgs, need);
        let all = needs_of_one(standing_in, name, fewer, met, None, other_cfgs);
        let some = needs_of_one(standing_in, name, fewer, met, target, cfgs);
        let added = (standing_in, last.kind);
        assert(all.push(added).drop_last() =~= all);
        assert(some.push(added).drop_last() =~= some);
        assert(declared[declared.len() - 1] == last);
        if occurrences(some, need) < occurrences(all, need) {
            let j = choose|j: int|
                0 <= j < fewer.len() && is_dropped(
                    resolution,
                    id,
                    #[trigger] fewer[j],
                    met[j],
                    target,
                    cfgs,
                    need,
                );
            assert(declared[j] == fewer[j]);
        } else if last.name@ == name && met[declared.len() - 1] && added == need && !targeted(
            last,
            target,
            cfgs,
        ) {
            assert(is_dropped(
                resolution,
                id,
                declared[declared.len() - 1],
                met[declared.len() - 1],
                target,
                cfgs,
                need,
            ));
        }
    }
}

proof fn lemma_target(
    resolution: Resolution,
    resolved: Seq<PackageId>,
    declared: Seq<Dependency>,
    met: Seq<Seq<bool>>,
    other_cfgs: Seq<CfgView>,
    target: Option<Seq<char>>,
    cfgs: Seq<CfgView>,
    need: Need,
)
    ensures
        ({
            let all = needs(resolution, resolved, declared, met, None, other_cfgs);
            let some = needs(resolution, resolved, declared, met, target, cfgs);
            &&& occurrences(some, need) <= occurrences(all, need)
            &&& occurrences(some, need) < occurrences(all, need) ==> exists|i: int, j: int|
                0 <= i < resolved.len() && 0 <= j < declared.len() && is_dropped(
                    resolution,
                    #[trigger] resolved[i],
                    #[trigger] declared[j],
                    met[i][j],
                    target,
                    cfgs,
                    need,
                )
        }),
    decreases resolved.len(),
{
    if resolved.len() > 0 {
        let fewer = resolved.drop_last();
        let last = resolved.last();
        let standing_in = resolution.standing_in(last);
        let name = resolution.packages@[last as int].name@;
        let row = met[resolved.len() - 1];
        lemma_target(resolution, fewer, declared, met, other_cfgs, target, cfgs, need);
        lemma_target_of_one(resolution, last, declared, row, other_cfgs, target, cfgs, need);
        let all = needs(resolution, fewer, declared, met, None, other_cfgs);
        let some = needs(resolution, fewer, declared, met, target, cfgs);
        lemma_occurrences_concat(
            all,
            needs_of_one(standing_in, name, declared, row, None, other_cfgs),
            need,
        );
        lemma_occurrences_concat(
            some,
            needs_of_one(standing_in, name, declared, row, target, cfgs),
            need,
        );
        assert(resolved[resolved.len() - 1] == last);
        if occurrences(some, need) < occurrences(all, need) {
            let (i, j) = choose|i: int, j: int|
                0 <= i < fewer.len() && 0 <= j < declared.len() && is_dropped(
                    resolution,
                    #[trigger] fewer[i],
                    #[trigger] declared[j],
                    met[i][j],
                    target,
                    cfgs,
                    need,
                );
            assert(resolved[i] == fewer[i]);
        }
    }
}

/// The pairs of a resolved package and a declared dependency that give a need, by position.
pub open spec fn giving(
    resolution: Resolution,
    resolved: Seq<PackageId>,
    declared: Seq<Dependency>,
    met: Seq<Seq<bool>>,
    target: Option<Seq<char>>,
    cfgs: Seq<CfgView>,
    need: Need,
) -> Set<(int, int)> {
    Set::new(
        |pair: (int, int)|
            0 <= pair.0 < resolved.len() && 0 <= pair.1 < declared.len() && gives_need(
                resolution,
                resolved[pair.0],
                declared[pair.1],
                met[pair.0][pair.1],
                target,
                cfgs,
                need,
            ),
    )
}

/// The pairs with one resolved package, at `position`.
spec fn giving_one(
    resolution: Resolution,
    id: PackageId,
    position: int,
    declared: Seq<Dependency>,
    met: Seq<bool>,
    target: Option<Seq<char>>,
    cfgs: Seq<CfgView>,
    need: Need,
) -> Set<(int, int)> {
    Set::new(
        |pair: (int, int)|
            pair.0 == position && 0 <= pair.1 < declared.len() && gives_need(
                resolution,
                id,
                declared[pair.1],
                met[pair.1],
                target,
                cfgs,
                need,
            ),
    )
}

proof fn lemma_giving_one(
    resolution: Resolution,
    id: PackageId,
    position: int,
    declared: Seq<Dependency>,
    met: Seq<bool>,
    target: Option<Seq<char>>,
    cfgs: Seq<CfgView>,
    need: Need,
)
    ensures
        ({
            let pairs = giving_one(resolution, id, position, declared, met, target, cfgs, need);
            &&& pairs.finite()
            &&& pairs.len() == occurrences(
                needs_of_one(
                    resolution.standing_in(id),
                    resolution.packages@[id as int].name@,
                    declared,
                    met,
                    target,
                    cfgs,
                ),
                need,
            )
        }),
    decreases declared.len(),
{
    let standing_in = resolution.standing_in(id);
    let name = resolution.packages@[id as int].name@;
    let pairs = giving_one(resolution, id, position, declared, met, target, cfgs, need);
    if declared.len() == 0 {
        assert(pairs =~= Set::empty());
    } else {
        let fewer = declared.drop_last();
        let last = declared.last();
        let end = (position, declared.len() - 1);
        let before = giving_one(resolution, id, position, fewer, met, target, cfgs, need);
        let needs_before = needs_of_one(standing_in, name, fewer, met, target, cfgs);
        lemma_giving_one(resolution, id, position, fewer, met, target, cfgs, need);
        assert(forall|j: int| 0 <= j < fewer.len() ==> #[trigger] fewer[j] == declared[j]);
        assert(needs_before.push((standing_in, last.kind)).drop_last() =~= needs_before);
        if gives_need(resolution, id, last, met[declared.len() - 1], target, cfgs, need) {
            assert(pairs =~= before.insert(end));
            assert(!before.contains(end));
        } else {
            assert(pairs =~= before);
        }
    }
}

/// A package has a need once for each pair that gives it.
proof fn lemma_giving(
    resolution: Resolution,
    resolved: Seq<PackageId>,
    declared: Seq<Dependency>,
    met: Seq<Seq<bool>>,
    target: Option<Seq<char>>,
    cfgs: Seq<CfgView>,
    need: Need,
)
    ensures
        giving(resolution, resolved, declared, met, target, cfgs, need).finite(),
        giving(resolution, resolved, declared, met, target, cfgs, need).len() == occurrences(
            needs(resolution, resolved, declared, met, target, cfgs),
            need,
        ),
    decreases resolved.len(),
{
    let pairs = giving(resolution, resolved, declared, met, target, cfgs, need);
    if resolved.len() == 0 {
        assert(pairs =~= Set::empty());
    } else {
        let fewer = resolved.drop_last();
        let last = resolved.last();
        let position = resolved.len() - 1;
        let row = met[position];
        let before = giving(resolution, fewer, declared, met, target, cfgs, need);
        let added = giving_one(resolution, last, position, declared, row, target, cfgs, need);
        lemma_giving(resolution, fewer, declared, met, target, cfgs, need);
        lemma_giving_one(resolution, last, position, declared, row, target, cfgs, need);
        lemma_occurrences_concat(
            needs(resolution, fewer, declared, met, target, cfgs),
            needs_of_one(
                resolution.standing_in(last),
                resolution.packages@[last as int].name@,
                declared,
                row,
                target,
                cfgs,
            ),
            need,
        );
        assert(forall|i: int| 0 <= i < fewer.len() ==> #[trigger] fewer[i] == resolved[i]);
        assert(pairs =~= before.union(added));
        assert(before.disjoint(added));
        vstd::set_lib::lemma_set_disjoint_lens(before, added);
    }
}

proof fn lemma_links_from_occurrences(
    package: PackageId,
    needs: Seq<Need>,
    a: PackageId,
    need: Need,
)
    ensures
        occurrences(links_from(package, needs), (a, need.0, need.1)) == if package == a {
            occurrences(needs, need)
        } else {
            0
        },
    decreases needs.len(),
{
    if needs.len() > 0 {
        let links = links_from(package, needs);
        lemma_links_from_occurrences(package, needs.drop_last(), a, need);
        assert(links.drop_last() =~= links_from(package, needs.drop_last()));
        assert(links.last() == (package, needs.last().0, needs.last().1));
    }
}

/// A package that is always followed by the same needs has a link once for each time that it is
/// followed and each time that it has the need.
proof fn lemma_link_occurrences(
    expanded: Seq<Expansion>,
    a: PackageId,
    needs: Seq<Need>,
    need: Need,
)
    requires
        forall|i: int|
            0 <= i < expanded.len() && (#[trigger] expanded[i]).package == a ==> expanded[i].needs
                == needs,
    ensures
        occurrences(links_of(expanded), (a, need.0, need.1)) == occurrences(
            packages_of(expanded),
            a,
        ) * occurrences(needs, need),
    decreases expanded.len(),
{
    let each = occurrences(needs, need);
    if expanded.len() == 0 {
        assert(0 * each == 0) by (nonlinear_arith);
    } else {
        let fewer = expanded.drop_last();
        let last = expanded.last();
        assert(expanded[expanded.len() - 1] == last);
        assert forall|i: int|
            0 <= i < fewer.len() && (#[trigger] fewer[i]).package == a implies fewer[i].needs
            == needs by {
            assert(expanded[i] == fewer[i]);
        }
        lemma_link_occurrences(fewer, a, needs, need);
        lemma_occurrences_concat(
            links_of(fewer),
            links_from(last.package, last.needs),
            (a, need.0, need.1),
        );
        lemma_links_from_occurrences(last.package, last.needs, a, need);
        assert(packages_of(expanded).drop_last() =~= packages_of(fewer));
        assert(packages_of(expanded).last() == last.package);
        let times = occurrences(packages_of(fewer), a);
        assert((times + 1) * each == times * each + each) by (nonlinear_arith);
    }
}

impl BuilderView {
    /// How often a finished graph has a link.
    proof fn lemma_exact_links(self, a: PackageId, need: Need)
        requires
            self.consistent(),
            self.is_exact(),
            self.pending.len() == 0,
        ensures
            occurrences(self.graph.links, (a, need.0, need.1)) == if self.graph.ids.contains(a) {
                visits(self.roots, a) * occurrences(self.needs_of(a), need)
            } else {
                0
            },
    {
        lemma_link_occurrences(self.expanded, a, self.needs_of(a), need);
        assert(occurrences(self.pending, a) + occurrences(packages_of(self.expanded), a)
            == if self.graph.ids.contains(a) {
            visits(self.roots, a)
        } else {
            0
        });
        assert(0 * occurrences(self.needs_of(a), need) == 0) by (nonlinear_arith);
    }
}

/// Two finished builders followed the same packages of the same resolution, the first without a
/// target: they started from the same roots, and what they were both supplied with is the same.
pub open spec fn differ_in_target(all: BuilderView, some: BuilderView) -> bool {
    &&& all.pending.len() == 0 && some.pending.len() == 0
    &&& all.wanted.len() == 0 && some.wanted.len() == 0
    &&& all.is_exact() && some.is_exact()
    &&& all.target is None
    &&& all.resolution == some.resolution
    &&& all.roots == some.roots
    &&& forall|id: PackageId| #[trigger]
        all.graph.ids.contains(id) && some.graph.ids.contains(id) ==> all.declared[id]
            == some.declared[id]
}

impl BuilderView {
    /// The dependency that a package declares at `j`, and the package that it is resolved to at
    /// `i`, give the package a need, but the dependency is declared for a platform that does not
    /// cover the target.
    pub open spec fn drops(self, package: PackageId, need: Need, i: int, j: int) -> bool {
        let resolved = self.resolution.packages@[package as int].dependencies@;
        let declared = self.declared[package];
        &&& 0 <= i < resolved.len()
        &&& 0 <= j < declared.len()
        &&& gives_need(
            self.resolution,
            resolved[i],
            declared[j],
            accepts(declared[j], self.resolution.packages@[resolved[i] as int].version@),
            None,
            self.cfgs,
            need,
        )
        &&& declared[j].platform matches Some(platform)
        &&& self.target matches Some(target)
        &&& !platform.covers(target, self.cfgs)
    }

    /// The pairs of a resolved package and a declared dependency that give a package a need.
    pub open spec fn giving_of(self, package: PackageId, need: Need) -> Set<(int, int)> {
        giving(
            self.resolution,
            self.resolution.packages@[package as int].dependencies@,
            self.declared[package],
            self.met_of(package),
            self.target,
            self.cfgs,
            need,
        )
    }
}

/// How often a link is in a finished graph: once for each pair of a resolved package and a
/// dependency that its first package declares, where these give the link, for each time that the
/// package is followed. That is once, or as often as the package is a root.
pub proof fn law_link_occurrences(builder: GraphBuilder, link: Link)
    requires
        builder.wf(),
        builder@.wanted.len() == 0,
        builder@.pending.len() == 0,
        builder@.is_exact(),
    ensures
        builder@.giving_of(link.0, (link.1, link.2)).finite(),
        occurrences(builder@.graph.links, link) == if builder@.graph.ids.contains(link.0) {
            visits(builder@.roots, link.0) * builder@.giving_of(link.0, (link.1, link.2)).len()
        } else {
            0
        },
{
    let view = builder@;
    view.lemma_exact_links(link.0, (link.1, link.2));
    lemma_giving(
        view.resolution,
        view.resolution.packages@[link.0 as int].dependencies@,
        view.declared[link.0],
        view.met_of(link.0),
        view.target,
        view.cfgs,
        (link.1, link.2),
    );
}

/// A link is in a finished graph if and only if its first package is, and some resolved package
/// meets a dependency that this declares for the target, of the link's kind. Without a target every
/// dependency counts.
pub proof fn law_links_are_declared(builder: GraphBuilder, a: PackageId, need: Need)
    requires
        builder.wf(),
        builder@.wanted.len() == 0,
        builder@.pending.len() == 0,
        builder@.is_exact(),
    ensures
        builder@.graph.ids.contains(a) <==> builder@.declared.contains_key(a),
        builder@.graph.links.contains((a, need.0, need.1)) <==> {
            let resolution = builder@.resolution;
            let resolved = resolution.packages@[a as int].dependencies@;
            let declared = builder@.declared[a];
            &&& builder@.graph.ids.contains(a)
            &&& exists|i: int, j: int|
                0 <= i < resolved.len() && 0 <= j < declared.len() && gives_need(
                    resolution,
                    #[trigger] resolved[i],
                    #[trigger] declared[j],
                    accepts(declared[j], resolution.packages@[resolved[i] as int].version@),
                    builder@.target,
                    builder@.cfgs,
                    need,
                )
        },
{
    let view = builder@;
    let resolution = view.resolution;
    let resolved = resolution.packages@[a as int].dependencies@;
    let declared = view.declared[a];
    let met = view.met_of(a);
    view.lemma_exact_links(a, need);
    lemma_occurrences(view.graph.links, (a, need.0, need.1));
    lemma_occurrences(view.needs_of(a), need);
    let times = visits(view.roots, a);
    let each = occurrences(view.needs_of(a), need);
    assert(times > 0 ==> (times * each > 0 <==> each > 0)) by (nonlinear_arith)
        requires
            times >= 0,
            each >= 0,
    ;
    lemma_needs_contains(resolution, resolved, declared, met, view.target, view.cfgs, need);
    assert forall|i: int, j: int|
        0 <= i < resolved.len() && 0 <= j < declared.len() implies #[trigger] met[i][j] == accepts(
        declared[j],
        resolution.packages@[resolved[i] as int].version@,
    ) by {}
    if view.needs_of(a).contains(need) {
        let (i, j) = choose|i: int, j: int|
            0 <= i < resolved.len() && 0 <= j < declared.len() && gives_need(
                resolution,
                #[trigger] resolved[i],
                #[trigger] declared[j],
                met[i][j],
                view.target,
                view.cfgs,
                need,
            );
        assert(met[i][j]);
        assert(gives_need(
            resolution,
            resolved[i],
            declared[j],
            accepts(declared[j], resolution.packages@[resolved[i] as int].version@),
            view.target,
            view.cfgs,
            need,
        ));
    }
    if exists|i: int, j: int|
        0 <= i < resolved.len() && 0 <= j < declared.len() && gives_need(
            resolution,
            #[trigger] resolved[i],
            #[trigger] declared[j],
            accepts(declared[j], resolution.packages@[resolved[i] as int].version@),
            view.target,
            view.cfgs,
            need,
        ) {
        let (i, j) = choose|i: int, j: int|
            0 <= i < resolved.len() && 0 <= j < declared.len() && gives_need(
                resolution,
                #[trigger] resolved[i],
                #[trigger] declared[j],
                accepts(declared[j], resolution.packages@[resolved[i] as int].version@),
                view.target,
                view.cfgs,
                need,
            );
        assert(met[i][j]);
        assert(gives_need(
            resolution,
            resolved[i],
            declared[j],
            met[i][j],
            view.target,
            view.cfgs,
            need,
        ));
    }
}

proof fn lemma_same_needs(all: BuilderView, some: BuilderView, a: PackageId, need: Need)
    requires
        differ_in_target(all, some),
        all.graph.ids.contains(a),
        some.graph.ids.contains(a),
    ensures
        occurrences(some.needs_of(a), need) <= occurrences(all.needs_of(a), need),
        occurrences(some.needs_of(a), need) < occurrences(all.needs_of(a), need) ==> exists|
            i: int,
            j: int,
        | #[trigger] some.drops(a, need, i, j),
{
    assert(all.declared[a] == some.declared[a]);
    assert(all.met_of(a) =~= some.met_of(a));
    lemma_target(
        some.resolution,
        some.resolution.packages@[a as int].dependencies@,
        some.declared[a],
        some.met_of(a),
        all.cfgs,
        some.target,
        some.cfgs,
        need,
    );
    if occurrences(some.needs_of(a), need) < occurrences(all.needs_of(a), need) {
        let resolved = some.resolution.packages@[a as int].dependencies@;
        let declared = some.declared[a];
        let met = some.met_of(a);
        let (i, j) = choose|i: int, j: int|
            0 <= i < resolved.len() && 0 <= j < declared.len() && is_dropped(
                some.resolution,
                #[trigger] resolved[i],
                #[trigger] declared[j],
                met[i][j],
                some.target,
                some.cfgs,
                need,
            );
        assert(met[i][j] == accepts(
            declared[j],
            some.resolution.packages@[resolved[i] as int].version@,
        ));
        assert(some.drops(a, need, i, j));
    }
}

/// What a package of both graphs depends on for a target is in the graph without one.
proof fn lemma_narrow_step(all: BuilderView, some: BuilderView, a: PackageId, b: PackageId)
    requires
        all.consistent(),
        some.consistent(),
        differ_in_target(all, some),
        all.graph.ids.contains(a),
        some.graph.depends(a, b),
    ensures
        all.graph.ids.contains(b),
{
    some.lemma_exact_depends(a, b);
    all.lemma_exact_depends(a, b);
    let few = some.needs_of(a);
    let many = all.needs_of(a);
    let need = few[needed(few).index_of(b)];
    assert(few.contains(need));
    lemma_same_needs(all, some, a, need);
    lemma_occurrences(few, need);
    lemma_occurrences(many, need);
    assert(needed(many)[many.index_of(need)] == b);
    let i = choose|i: int|
        0 <= i < all.graph.links.len() && (#[trigger] all.graph.links[i]).0 == a
            && all.graph.links[i].1 == b;
    assert(all.graph.ids.contains(all.graph.links[i].1));
}

proof fn lemma_narrow_reach(all: BuilderView, some: BuilderView, id: PackageId)
    requires
        all.consistent(),
        some.consistent(),
        differ_in_target(all, some),
        some.graph.ids.contains(id),
    ensures
        all.graph.ids.contains(id),
{
    let step = some.graph.step();
    let ids = all.graph.ids;
    assert forall|a: PackageId, b: PackageId|
        ids.contains(a) && #[trigger] step(a, b) implies ids.contains(b) by {
        lemma_narrow_step(all, some, a, b);
    }
    let root = some.root_of(id);
    assert(all.roots.contains(root));
    lemma_closed_set(step, ids, root, id);
}

/// The graph without a target holds every package of the graph for a target.
pub proof fn law_target_narrows_packages(all: GraphBuilder, some: GraphBuilder)
    requires
        all.wf(),
        some.wf(),
        differ_in_target(all@, some@),
    ensures
        some@.graph.ids.subset_of(all@.graph.ids),
{
    assert forall|id: PackageId| #[trigger] some@.graph.ids.contains(
        id,
    ) implies all@.graph.ids.contains(id) by {
        lemma_narrow_reach(all@, some@, id);
    }
}

/// The graph without a target holds every link of the graph for a target, with its kind, at least
/// as often.
pub proof fn law_target_narrows_links(all: GraphBuilder, some: GraphBuilder, link: Link)
    requires
        all.wf(),
        some.wf(),
        differ_in_target(all@, some@),
    ensures
        occurrences(some@.graph.links, link) <= occurrences(all@.graph.links, link),
        some@.graph.links.contains(link) ==> all@.graph.links.contains(link),
{
    let a = link.0;
    let need = (link.1, link.2);
    law_target_narrows_packages(all, some);
    all@.lemma_exact_links(a, need);
    some@.lemma_exact_links(a, need);
    lemma_occurrences(some@.graph.links, link);
    lemma_occurrences(all@.graph.links, link);
    if some@.graph.ids.contains(a) {
        lemma_same_needs(all@, some@, a, need);
        let times = visits(all@.roots, a);
        let few = occurrences(some@.needs_of(a), need);
        let many = occurrences(all@.needs_of(a), need);
        assert(times * few <= times * many) by (nonlinear_arith)
            requires
                times >= 0,
                few <= many,
        ;
    }
}

/// Where the graph for a target has a link less often than the graph without one, it does not hold
/// the link's first package, or that package declares a dependency that gives the link, for a
/// platform that does not cover the target.
pub proof fn law_target_drops_by_platform(all: GraphBuilder, some: GraphBuilder, link: Link)
    requires
        all.wf(),
        some.wf(),
        differ_in_target(all@, some@),
        occurrences(some@.graph.links, link) < occurrences(all@.graph.links, link),
    ensures
        some@.graph.ids.contains(link.0) ==> exists|i: int, j: int| #[trigger]
            some@.drops(link.0, (link.1, link.2), i, j),
{
    let a = link.0;
    let need = (link.1, link.2);
    law_target_narrows_packages(all, some);
    all@.lemma_exact_links(a, need);
    some@.lemma_exact_links(a, need);
    if some@.graph.ids.contains(a) {
        lemma_same_needs(all@, some@, a, need);
        assert(occurrences(some@.needs_of(a), need) < occurrences(all@.needs_of(a), need));
    }
}

/// A declared dependency counts for a package: it names the package, its requirement on the version
/// is met if it has one, and its platform covers the target if it has one and there is a target.
/// The kind makes no difference.
pub open spec fn counts_for(
    dependency: Dependency,
    package: ResolvedPackage,
    target: Option<Seq<char>>,
    cfgs: Seq<CfgView>,
) -> bool {
    &&& dependency.name@ == package.name@
    &&& match dependency.requirement {
        Some(requirement) => requirement_met(requirement@, package.version@) == Some(true),
        None => true,
    }
    &&& match dependency.platform {
        Some(platform) => match target {
            Some(target) => platform.covers(target, cfgs),
            None => true,
        },
        None => true,
    }
}

/// In a finished builder, the dependency that the package `a` declares at `j` counts for the package
/// that it was resolved to at `i`, and gives a link to `b` of the given kind, where `b` is that
/// package or its replacement.
pub open spec fn gives_link(
    view: BuilderView,
    a: PackageId,
    i: int,
    j: int,
    b: PackageId,
    kind: DepKind,
) -> bool {
    let resolved = view.resolution.packages@[a as int].dependencies@;
    let package = view.resolution.packages@[resolved[i] as int];
    let declared = view.declared[a];
    &&& 0 <= i < resolved.len()
    &&& 0 <= j < declared.len()
    &&& counts_for(declared[j], package, view.target, view.cfgs)
    &&& declared[j].kind == kind
    &&& b == match package.replacement {
        Some(other) => other,
        None => resolved[i],
    }
}

/// A finished graph links a package of it to another if and only if a dependency that the package
/// declares counts for one that its dependencies were resolved to, whatever the kind of dependency,
/// and the link is of that kind.
pub proof fn law_graph_holds_every_dependency(
    builder: GraphBuilder,
    a: PackageId,
    b: PackageId,
    kind: DepKind,
)
    requires
        builder.wf(),
        builder@.wanted.len() == 0,
        builder@.pending.len() == 0,
        builder@.is_exact(),
    ensures
        builder@.graph.links.contains((a, b, kind)) <==> builder@.graph.ids.contains(a) && exists|
            i: int,
            j: int,
        | #[trigger] gives_link(builder@, a, i, j, b, kind),
{
    let view = builder@;
    let resolution = view.resolution;
    let resolved = resolution.packages@[a as int].dependencies@;
    let declared = view.declared[a];
    law_links_are_declared(builder, a, (b, kind));
    if view.graph.links.contains((a, b, kind)) {
        let (i, j) = choose|i: int, j: int|
            0 <= i < resolved.len() && 0 <= j < declared.len() && gives_need(
                resolution,
                #[trigger] resolved[i],
                #[trigger] declared[j],
                accepts(declared[j], resolution.packages@[resolved[i] as int].version@),
                view.target,
                view.cfgs,
                (b, kind),
            );
        assert(gives_link(view, a, i, j, b, kind));
    }
    if view.graph.ids.contains(a) && exists|i: int, j: int| #[trigger]
        gives_link(view, a, i, j, b, kind) {
        let (i, j) = choose|i: int, j: int| #[trigger] gives_link(view, a, i, j, b, kind);
        assert(gives_need(
            resolution,
            resolved[i],
            declared[j],
            accepts(declared[j], resolution.packages@[resolved[i] as int].version@),
            view.target,
            view.cfgs,
            (b, kind),
        ));
    }
}

/// A finished graph holds the roots and exactly the packages that a path of links leads to from
/// one of them.
pub proof fn law_graph_holds_what_roots_lead_to(builder: GraphBuilder, id: PackageId)
    requires
        builder.wf(),
        builder@.wanted.len() == 0,
        builder@.pending.len() == 0,
    ensures
        builder@.graph.ids.contains(id) <==> exists|path: Seq<PackageId>| #[trigger]
            is_dependency_path(builder@.graph.links, path) && builder@.roots.contains(path[0])
                && path[path.len() - 1] == id,
{
    let view = builder@;
    let step = view.graph.step();
    if view.graph.ids.contains(id) {
        let root = view.root_of(id);
        law_links_lead_by_path(view.graph, root, id);
        let path = choose|path: Seq<PackageId>| #[trigger]
            is_dependency_path(view.graph.links, path) && path[0] == root && path[path.len() - 1]
                == id;
        assert(view.roots.contains(path[0]));
    }
    if exists|path: Seq<PackageId>| #[trigger]
        is_dependency_path(view.graph.links, path) && view.roots.contains(path[0])
            && path[path.len() - 1] == id {
        let path = choose|path: Seq<PackageId>| #[trigger]
            is_dependency_path(view.graph.links, path) && view.roots.contains(path[0])
                && path[path.len() - 1] == id;
        law_links_lead_by_path(view.graph, path[0], id);
        assert forall|a: PackageId, b: PackageId|
            view.graph.ids.contains(a) && #[trigger] step(a, b) implies view.graph.ids.contains(
            b,
        ) by {
            let i = choose|i: int|
                0 <= i < view.graph.links.len() && (#[trigger] view.graph.links[i]).0 == a
                    && view.graph.links[i].1 == b;
            assert(view.graph.ids.contains(view.graph.links[i].1));
        }
        lemma_closed_set(step, view.graph.ids, path[0], id);
    }
}

/// These pairs of a resolved package and a declared dependency come in order: by the resolved
/// package, then by the dependency.
pub open spec fn in_order(pairs: Seq<(int, int)>) -> bool {
    forall|k: int, m: int|
        0 <= k < m < pairs.len() ==> (#[trigger] pairs[k]).0 < (#[trigger] pairs[m]).0 || (
        pairs[k].0 == pairs[m].0 && pairs[k].1 < pairs[m].1)
}

proof fn lemma_pairs_of_one(
    resolution: Resolution,
    id: PackageId,
    position: int,
    declared: Seq<Dependency>,
    met: Seq<bool>,
    target: Option<Seq<char>>,
    cfgs: Seq<CfgView>,
) -> (pairs: Seq<(int, int)>)
    ensures
        ({
            let needs = needs_of_one(
                resolution.standing_in(id),
                resolution.packages@[id as int].name@,
                declared,
                met,
                target,
                cfgs,
            );
            &&& pairs.len() == needs.len()
            &&& in_order(pairs)
            &&& forall|k: int|
                0 <= k < pairs.len() ==> (#[trigger] pairs[k]).0 == position && 0 <= pairs[k].1
                    < declared.len() && gives_need(
                    resolution,
                    id,
                    declared[pairs[k].1],
                    met[pairs[k].1],
                    target,
                    cfgs,
                    needs[k],
                )
            &&& forall|j: int, need: Need|
                0 <= j < declared.len() && #[trigger] gives_need(
                    resolution,
                    id,
                    declared[j],
                    met[j],
                    target,
                    cfgs,
                    need,
                ) ==> pairs.contains((position, j))
        }),
    decreases declared.len(),
{
    if declared.len() == 0 {
        Seq::empty()
    } else {
        let standing_in = resolution.standing_in(id);
        let name = resolution.packages@[id as int].name@;
        let fewer = declared.drop_last();
        let last = declared.last();
        let end = declared.len() - 1;
        let before = needs_of_one(standing_in, name, fewer, met, target, cfgs);
        let all = needs_of_one(standing_in, name, declared, met, target, cfgs);
        let head = lemma_pairs_of_one(resolution, id, position, fewer, met, target, cfgs);
        let counts = last.name@ == name && met[end] && targeted(last, target, cfgs);
        let pairs = if counts {
            head.push((position, end))
        } else {
            head
        };
        assert forall|k: int| 0 <= k < pairs.len() implies (#[trigger] pairs[k]).0 == position
            && 0 <= pairs[k].1 < declared.len() && gives_need(
            resolution,
            id,
            declared[pairs[k].1],
            met[pairs[k].1],
            target,
            cfgs,
            all[k],
        ) by {
            if k < head.len() {
                assert(pairs[k] == head[k]);
                assert(fewer[head[k].1] == declared[head[k].1]);
                assert(all[k] == before[k]);
            }
        }
        assert forall|k: int, m: int| 0 <= k < m < pairs.len() implies (#[trigger] pairs[k]).0 < (
        #[trigger] pairs[m]).0 || (pairs[k].0 == pairs[m].0 && pairs[k].1 < pairs[m].1) by {
            assert(pairs[k] == head[k]);
            if m < head.len() {
                assert(pairs[m] == head[m]);
            }
        }
        assert forall|j: int, need: Need|
            0 <= j < declared.len() && #[trigger] gives_need(
                resolution,
                id,
                declared[j],
                met[j],
                target,
                cfgs,
                need,
            ) implies pairs.contains((position, j)) by {
            if j < fewer.len() {
                assert(fewer[j] == declared[j]);
                assert(gives_need(resolution, id, fewer[j], met[j], target, cfgs, need));
                let k = head.index_of((position, j));
                assert(pairs[k] == (position, j));
            } else {
                assert(pairs[head.len() as int] == (position, j));
            }
        }
        pairs
    }
}

proof fn lemma_pairs(
    resolution: Resolution,
    resolved: Seq<PackageId>,
    declared: Seq<Dependency>,
    met: Seq<Seq<bool>>,
    target: Option<Seq<char>>,
    cfgs: Seq<CfgView>,
) -> (pairs: Seq<(int, int)>)
    ensures
        ({
            let needs = needs(resolution, resolved, declared, met, target, cfgs);
            &&& pairs.len() == needs.len()
            &&& in_order(pairs)
            &&& forall|k: int|
                0 <= k < pairs.len() ==> 0 <= (#[trigger] pairs[k]).0 < resolved.len() && 0
                    <= pairs[k].1 < declared.len() && gives_need(
                    resolution,
                    resolved[pairs[k].0],
                    declared[pairs[k].1],
                    met[pairs[k].0][pairs[k].1],
                    target,
                    cfgs,
                    needs[k],
                )
            &&& forall|i: int, j: int, need: Need|
                0 <= i < resolved.len() && 0 <= j < declared.len() && #[trigger] gives_need(
                    resolution,
                    resolved[i],
                    declared[j],
                    met[i][j],
                    target,
                    cfgs,
                    need,
                ) ==> pairs.contains((i, j))
        }),
    decreases resolved.len(),
{
    if resolved.len() == 0 {
        Seq::empty()
    } else {
        let fewer = resolved.drop_last();
        let last = resolved.last();
        let end = resolved.len() - 1;
        let head = lemma_pairs(resolution, fewer, declared, met, target, cfgs);
        let tail = lemma_pairs_of_one(resolution, last, end, declared, met[end], target, cfgs);
        let before = needs(resolution, fewer, declared, met, target, cfgs);
        let added = needs_of_one(
            resolution.standing_in(last),
            resolution.packages@[last as int].name@,
            declared,
            met[end],
            target,
            cfgs,
        );
        let all = needs(resolution, resolved, declared, met, target, cfgs);
        assert(all == before + added);
        let pairs = head + tail;
        assert forall|k: int| 0 <= k < pairs.len() implies 0 <= (#[trigger] pairs[k]).0
            < resolved.len() && 0 <= pairs[k].1 < declared.len() && gives_need(
            resolution,
            resolved[pairs[k].0],
            declared[pairs[k].1],
            met[pairs[k].0][pairs[k].1],
            target,
            cfgs,
            all[k],
        ) by {
            if k < head.len() {
                assert(pairs[k] == head[k]);
                assert(fewer[head[k].0] == resolved[head[k].0]);
                assert(all[k] == before[k]);
            } else {
                assert(pairs[k] == tail[k - head.len()]);
                assert(all[k] == added[k - head.len()]);
            }
        }
        assert forall|k: int, m: int| 0 <= k < m < pairs.len() implies (#[trigger] pairs[k]).0 < (
        #[trigger] pairs[m]).0 || (pairs[k].0 == pairs[m].0 && pairs[k].1 < pairs[m].1) by {
            if k < head.len() {
                assert(pairs[k] == head[k]);
                if m < head.len() {
                    assert(pairs[m] == head[m]);
                } else {
                    assert(pairs[m] == tail[m - head.len()]);
                }
            } else {
                assert(pairs[k] == tail[k - head.len()]);
                assert(pairs[m] == tail[m - head.len()]);
            }
        }
        assert forall|i: int, j: int, need: Need|
            0 <= i < resolved.len() && 0 <= j < declared.len() && #[trigger] gives_need(
                resolution,
                resolved[i],
                declared[j],
                met[i][j],
                target,
                cfgs,
                need,
            ) implies pairs.contains((i, j)) by {
            if i < end {
                assert(fewer[i] == resolved[i]);
                assert(gives_need(
                    resolution,
                    fewer[i],
                    declared[j],
                    met[i][j],
                    target,
                    cfgs,
                    need,
                ));
                let k = head.index_of((i, j));
                assert(pairs[k] == (i, j));
            } else {
                assert(gives_need(
                    resolution,
                    last,
                    declared[j],
                    met[end][j],
                    target,
                    cfgs,
                    need,
                ));
                let k = tail.index_of((i, j));
                assert(pairs[head.len() + k] == (i, j));
            }
        }
        pairs
    }
}

/// A package of a finished graph that is not several times a root depends on what its declared
/// dependencies give, once for each pair of a dependency and a resolved package that it counts for,
/// and the last of these pairs comes first.
pub proof fn law_dependencies_in_order(builder: GraphBuilder, a: PackageId) -> (pairs: Seq<
    (int, int),
>)
    requires
        builder.wf(),
        builder@.wanted.len() == 0,
        builder@.pending.len() == 0,
        builder@.is_exact(),
        builder@.graph.ids.contains(a),
        builder@.roots.to_multiset().count(a) <= 1,
    ensures
        in_order(pairs),
        forall|i: int, j: int, b: PackageId, kind: DepKind| #[trigger]
            gives_link(builder@, a, i, j, b, kind) ==> pairs.contains((i, j)),
        ({
            let found = neighbors(builder@.graph.links, a, Direction::Outgoing);
            &&& found.len() == pairs.len()
            &&& forall|k: int|
                0 <= k < pairs.len() ==> gives_link(
                    builder@,
                    a,
                    (#[trigger] pairs[k]).0,
                    pairs[k].1,
                    found[pairs.len() - 1 - k],
                    builder@.declared[a][pairs[k].1].kind,
                )
        }),
{
    let view = builder@;
    let resolution = view.resolution;
    let resolved = resolution.packages@[a as int].dependencies@;
    let declared = view.declared[a];
    let met = view.met_of(a);
    let all = view.needs_of(a);
    law_occurrences(view.roots, a);
    view.lemma_exact_dependencies(a);
    let pairs = lemma_pairs(resolution, resolved, declared, met, view.target, view.cfgs);
    let found = neighbors(view.graph.links, a, Direction::Outgoing);
    assert(found == needed(all).reverse());
    assert forall|k: int| 0 <= k < pairs.len() implies gives_link(
        view,
        a,
        (#[trigger] pairs[k]).0,
        pairs[k].1,
        found[pairs.len() - 1 - k],
        view.declared[a][pairs[k].1].kind,
    ) by {
        let (i, j) = pairs[k];
        assert(found[pairs.len() - 1 - k] == all[k].0);
        assert(met[i][j] == accepts(
            declared[j],
            resolution.packages@[resolved[i] as int].version@,
        ));
        assert(gives_link(view, a, i, j, found[pairs.len() - 1 - k], declared[j].kind));
    }
    assert forall|i: int, j: int, b: PackageId, kind: DepKind| #[trigger]
        gives_link(view, a, i, j, b, kind) implies pairs.contains((i, j)) by {
        assert(met[i][j] == accepts(
            declared[j],
            resolution.packages@[resolved[i] as int].version@,
        ));
        assert(gives_need(
            resolution,
            resolved[i],
            declared[j],
            met[i][j],
            view.target,
            view.cfgs,
            (b, kind),
        ));
    }
    pairs
}

/// How often an item occurs is what the multiset of the items says.
pub proof fn law_occurrences<A>(items: Seq<A>, item: A)
    ensures
        occurrences(items, item) == items.to_multiset().count(item),
    decreases items.len(),
{
    broadcast use vstd::seq_lib::group_to_multiset_ensures;

    if items.len() > 0 {
        law_occurrences(items.drop_last(), item);
        assert(items.drop_last().push(items.last()) =~= items);
    }
}

/// The packages that some needs bring: a need brings its package unless it is known or an earlier
/// need brought it.
pub proof fn law_fresh(known: Set<PackageId>, needs: Seq<Need>, need: Need)
    ensures
        fresh(known, Seq::empty()) == Seq::<PackageId>::empty(),
        fresh(known, needs.push(need)) == if known.contains(need.0) || exists|i: int|
            0 <= i < needs.len() && (#[trigger] needs[i]).0 == need.0 {
            fresh(known, needs)
        } else {
            fresh(known, needs).push(need.0)
        },
{
    assert(needs.push(need).drop_last() =~= needs);
    lemma_fresh(known, needs);
}

/// After a package was followed, the package that comes next is the last of those that it brought,
/// or the one that was waiting before it where it brought none; what it brought is wanted first, in
/// order.
pub proof fn law_last_found_comes_next(view: BuilderView, needs: Seq<Need>)
    requires
        view.pending.len() > 0,
    ensures
        ({
            let after = view.expanded_by(needs);
            let brought = fresh(view.graph.ids, needs);
            &&& after.wanted == brought
            &&& after.pending.len() == view.pending.len() - 1 + brought.len()
            &&& brought.len() > 0 ==> after.pending[after.pending.len() - 1] == brought[brought.len()
                - 1]
            &&& brought.len() == 0 && view.pending.len() > 1 ==> after.pending[after.pending.len()
                - 1] == view.pending[view.pending.len() - 2]
            &&& after.graph.links.len() == view.graph.links.len() + needs.len()
            &&& forall|k: int|
                0 <= k < view.graph.links.len() ==> #[trigger] after.graph.links[k]
                    == view.graph.links[k]
            &&& forall|k: int|
                0 <= k < needs.len() ==> after.graph.links[view.graph.links.len() + k] == (
                    view.pending[view.pending.len() - 1],
                    (#[trigger] needs[k]).0,
                    needs[k].1,
                )
            &&& forall|id: PackageId|
                after.graph.ids.contains(id) <==> view.graph.ids.contains(id)
                    || #[trigger] brought.contains(id)
        }),
{
    let after = view.expanded_by(needs);
    let brought = fresh(view.graph.ids, needs);
    assert forall|id: PackageId|
        after.graph.ids.contains(id) <==> view.graph.ids.contains(id)
            || #[trigger] brought.contains(id) by {
        assert(brought.to_set().contains(id) <==> brought.contains(id));
    }
}

/// A builder starts with the roots alone: all are in the graph, wanted in order, and followed from
/// the last.
pub proof fn law_builder_starts(
    resolution: Resolution,
    roots: Seq<PackageId>,
    target: Option<Seq<char>>,
    cfgs: Seq<CfgView>,
)
    ensures
        ({
            let view = BuilderView::start(resolution, roots, target, cfgs);
            &&& view.resolution == resolution
            &&& view.target == target
            &&& view.cfgs == cfgs
            &&& view.roots == roots
            &&& view.wanted == roots
            &&& view.pending == roots
            &&& view.graph.links.len() == 0
            &&& view.expanded.len() == 0
            &&& forall|id: PackageId|
                view.graph.ids.contains(id) <==> #[trigger] roots.contains(id)
        }),
{
    assert forall|id: PackageId|
        BuilderView::start(resolution, roots, target, cfgs).graph.ids.contains(id)
            <==> #[trigger] roots.contains(id) by {
        assert(roots.to_set().contains(id) <==> roots.contains(id));
    }
}

/// What is supplied is what the package that was wanted first declares, and nothing else changes.
pub proof fn law_supply_declares(view: BuilderView, declared: Seq<Dependency>, id: PackageId)
    requires
        view.wanted.len() > 0,
    ensures
        ({
            let after = view.supplied(declared);
            &&& after.declared[view.wanted[0]] == declared
            &&& id != view.wanted[0] ==> after.declared[id] == view.declared[id]
            &&& seq![view.wanted[0]] + after.wanted == view.wanted
            &&& after.graph == view.graph
            &&& after.pending == view.pending
            &&& after.expanded == view.expanded
            &&& after.roots == view.roots
            &&& after.resolution == view.resolution
            &&& after.target == view.target
            &&& after.cfgs == view.cfgs
        }),
{
    assert(seq![view.wanted[0]] + view.supplied(declared).wanted =~= view.wanted);
}

/// A graph can take some needs as long as neither its links nor its nodes become more than
/// `u32::MAX`, where a root that is given again has a node of its own each time.
pub proof fn law_room(view: BuilderView, needs: Seq<Need>)
    ensures
        view.fits(needs) <==> {
            &&& view.graph.links.len() + needs.len() <= u32::MAX
            &&& view.graph.ids.len() + fresh(view.graph.ids, needs).len() + (view.roots.len()
                - view.roots.to_set().len()) <= u32::MAX
        },
{
}

/// A package of a graph is followed once, or as often as it is a root where it is one several times.
pub proof fn law_visits(roots: Seq<PackageId>, id: PackageId)
    ensures
        roots.to_multiset().count(id) <= 1 ==> visits(roots, id) == 1,
        roots.to_multiset().count(id) > 1 ==> visits(roots, id) == roots.to_multiset().count(id),
{
    law_occurrences(roots, id);
}

/// A resolution is valid if the numbers in it are below the number of its packages.
pub proof fn law_valid_resolution(resolution: Resolution)
    ensures
        resolution.wf() <==> {
            &&& forall|id: int, i: int|
                0 <= id < resolution.packages@.len() && 0 <= i
                    < resolution.packages@[id].dependencies@.len()
                    ==> #[trigger] resolution.packages@[id].dependencies@[i]
                    < resolution.packages@.len()
            &&& forall|id: int|
                0 <= id < resolution.packages@.len() ==> match (
                #[trigger] resolution.packages@[id]).replacement {
                    Some(other) => other < resolution.packages@.len(),
                    None => true,
                }
        },
{
}

/// The answers for a package are as many as its resolved dependencies, and each has one for every
/// dependency that it declares.
pub proof fn law_answers(view: BuilderView, met: Seq<Seq<bool>>)
    requires
        view.pending.len() > 0,
    ensures
        ({
            let package = view.pending[view.pending.len() - 1];
            view.answers(met) <==> {
                &&& met.len() == view.resolution.packages@[package as int].dependencies@.len()
                &&& forall|i: int|
                    0 <= i < met.len() ==> (#[trigger] met[i]).len()
                        == view.declared[package].len()
            }
        }),
{
}

} // verus!
