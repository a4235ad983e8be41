//! The dependency graph of a set of packages and the questions asked of it.
use std::collections::BTreeSet;
use std::collections::HashMap;
use std::collections::HashSet;
use vstd::prelude::*;
use vstd::std_specs::iter::IteratorSpec;

use crate::reach::{
    is_path, law_reaches_by_path, lemma_closed_set, lemma_reaches_first_step, lemma_reaches_itself, lemma_reaches_step,
    lemma_reaches_transitive, reaches,
};
use crate::store::{
    add_edge, add_node, edge_step, far_end, has_edge, near_end, neighbors, neighbors_directed,
    new_store, node_weight, store_edges, store_nodes, Direction, Store,
};

verus! {

/// The number under which a package is known.
pub type PackageId = usize;

/// What a package needs another one for.
#[derive(Clone, Copy, Debug, PartialEq, Eq, Structural)]
pub enum DepKind {
    Normal,
    Development,
    Build,
}

/// The kind that an edge weight stands for.
spec fn kind_of(weight: u8) -> DepKind {
    if weight == 0 {
        DepKind::Normal
    } else if weight == 1 {
        DepKind::Development
    } else {
        DepKind::Build
    }
}

impl DepKind {
    /// The edge weight that stands for this kind.
    fn weight(self) -> (weight: u8)
        ensures
            kind_of(weight) == self,
    {
        match self {
            DepKind::Normal => 0,
            DepKind::Development => 1,
            DepKind::Build => 2,
        }
    }
}

/// A link says that its first package depends on its second.
pub type Link = (PackageId, PackageId, DepKind);

/// What a graph holds.
#[verifier::ext_equal]
pub struct GraphView {
    /// The packages of the graph.
    pub ids: Set<PackageId>,
    /// The dependencies between them, in the order in which they were added.
    pub links: Seq<Link>,
}

/// The dependencies between packages. A package may depend on another in several ways, and each
/// of them counts.
#[verifier::ext_equal]
pub struct Graph {
    store: Store,
    nodes: HashMap<PackageId, usize>,
}

impl View for Graph {
    type V = GraphView;

    closed spec fn view(&self) -> GraphView {
        GraphView {
            ids: self.nodes@.dom(),
            links: links_between(store_nodes(self.store), store_edges(self.store)),
        }
    }
}

/// The edges with the weights of their nodes in place of the nodes.
spec fn links_between(nodes: Seq<usize>, edges: Seq<(usize, usize, u8)>) -> Seq<Link> {
    edges.map_values(
        |edge: (usize, usize, u8)|
            (nodes[edge.0 as int], nodes[edge.1 as int], kind_of(edge.2)),
    )
}

/// `node` is the node under which `map` knows the package whose number `nodes` gives it.
spec fn is_current(nodes: Seq<usize>, map: Map<PackageId, usize>, node: usize) -> bool {
    &&& node < nodes.len()
    &&& map.contains_key(nodes[node as int])
    &&& map[nodes[node as int]] == node
}

impl GraphView {
    /// `a` depends directly on `b`.
    pub open spec fn depends(self, a: PackageId, b: PackageId) -> bool {
        has_edge(self.links, a, b)
    }

    /// `depends` as a relation.
    pub open spec fn step(self) -> spec_fn(PackageId, PackageId) -> bool {
        edge_step(self.links)
    }

    /// The packages other than `root` that `root` depends on, directly or through others.
    pub open spec fn recursive_dependencies(self, root: PackageId) -> Set<PackageId> {
        Set::new(|id: PackageId| id != root && reaches(self.step(), root, id))
    }
}

impl Graph {
    /// Every package of a link is in the graph.
    pub closed spec fn wf(&self) -> bool {
        let nodes = store_nodes(self.store);
        let edges = store_edges(self.store);
        let map = self.nodes@;
        &&& forall|id: PackageId| #[trigger]
            map.contains_key(id) ==> map[id] < nodes.len() && nodes[map[id] as int] == id
        &&& forall|i: int| 0 <= i < edges.len() ==> is_current(nodes, map, (#[trigger] edges[i]).0)
            && is_current(nodes, map, edges[i].1)
    }

    /// Both packages of a link are in the graph.
    pub proof fn lemma_links_inside(&self)
        requires
            self.wf(),
        ensures
            forall|a: PackageId, b: PackageId| #[trigger]
                self@.depends(a, b) ==> self@.ids.contains(a) && self@.ids.contains(b),
            self@.ids.finite(),
    {
        let nodes = store_nodes(self.store);
        let edges = store_edges(self.store);
        assert forall|a: PackageId, b: PackageId| #[trigger]
            self@.depends(a, b) implies self@.ids.contains(a) && self@.ids.contains(b) by {
            let i = choose|i: int|
                0 <= i < self@.links.len() && (#[trigger] self@.links[i]).0 == a
                    && self@.links[i].1 == b;
            assert(is_current(nodes, self.nodes@, edges[i].0));
            assert(is_current(nodes, self.nodes@, edges[i].1));
        }
    }

    /// The packages that the nodes behind the graph stand for, in node order.
    pub closed spec fn node_packages(&self) -> Seq<PackageId> {
        store_nodes(self.store)
    }

    /// The nodes under which the packages are found.
    pub closed spec fn package_nodes(&self) -> Map<PackageId, usize> {
        self.nodes@
    }

    /// How many nodes stand behind the graph.
    pub open spec fn node_count(&self) -> nat {
        self.node_packages().len()
    }

    /// Each package has exactly one node: it is found under a node that stands for it, and every
    /// node is the one under which its package is found.
    pub open spec fn has_one_node_each(&self) -> bool {
        let nodes = self.node_packages();
        let map = self.package_nodes();
        &&& map.dom() == self@.ids
        &&& forall|id: PackageId| #[trigger]
            self@.ids.contains(id) ==> map[id] < nodes.len() && nodes[map[id] as int] == id
        &&& forall|node: int|
            0 <= node < nodes.len() ==> self@.ids.contains(#[trigger] nodes[node])
                && map[nodes[node]] == node
    }

    /// The graph without packages.
    pub(crate) fn new() -> (graph: Graph)
        ensures
            graph.wf(),
            graph.node_count() == 0,
            graph.has_one_node_each(),
            graph@.ids == Set::<PackageId>::empty(),
            graph@.links == Seq::<Link>::empty(),
    {
        let graph = Graph { store: new_store(), nodes: HashMap::new() };
        assert(graph@.links =~= Seq::<Link>::empty());
        graph
    }

    /// Adds a package that no link mentions yet.
    pub(crate) fn insert(&mut self, id: PackageId)
        requires
            old(self).wf(),
            old(self).node_count() < u32::MAX,
            forall|i: int|
                0 <= i < old(self)@.links.len() ==> (#[trigger] old(self)@.links[i]).0 != id
                    && old(self)@.links[i].1 != id,
        ensures
            final(self).wf(),
            final(self).node_count() == old(self).node_count() + 1,
            final(self)@.ids == old(self)@.ids.insert(id),
            final(self)@.links == old(self)@.links,
            old(self).has_one_node_each() && !old(self)@.ids.contains(id)
                ==> final(self).has_one_node_each(),
    {
        let node = add_node(&mut self.store, id);
        self.nodes.insert(id, node);
        proof {
            let nodes = store_nodes(old(self).store);
            let edges = store_edges(old(self).store);
            assert(store_edges(self.store) == edges);
            assert forall|i: int| 0 <= i < edges.len() implies is_current(
                store_nodes(self.store),
                self.nodes@,
                (#[trigger] edges[i]).0,
            ) && is_current(store_nodes(self.store), self.nodes@, edges[i].1) by {
                assert(is_current(nodes, old(self).nodes@, edges[i].0));
                assert(is_current(nodes, old(self).nodes@, edges[i].1));
                assert(old(self)@.links[i] == (
                    nodes[edges[i].0 as int],
                    nodes[edges[i].1 as int],
                    kind_of(edges[i].2),
                ));
            }
            assert(self@.links =~= old(self)@.links);
        }
    }

    /// Whether the graph holds a package.
    pub fn contains(&self, id: PackageId) -> (found: bool)
        ensures
            found == self@.ids.contains(id),
    {
        self.nodes.contains_key(&id)
    }

    /// Adds a link between two packages of the graph.
    pub(crate) fn link(&mut self, from: PackageId, to: PackageId, kind: DepKind)
        requires
            old(self).wf(),
            old(self)@.ids.contains(from),
            old(self)@.ids.contains(to),
            old(self)@.links.len() < u32::MAX,
        ensures
            final(self).wf(),
            final(self).node_count() == old(self).node_count(),
            final(self)@.ids == old(self)@.ids,
            final(self)@.links == old(self)@.links.push((from, to, kind)),
            old(self).has_one_node_each() ==> final(self).has_one_node_each(),
    {
        let from_node = *self.nodes.get(&from).unwrap();
        let to_node = *self.nodes.get(&to).unwrap();
        add_edge(&mut self.store, from_node, to_node, kind.weight());
        proof {
            let nodes = store_nodes(self.store);
            let edges = store_edges(old(self).store);
            let weight = store_edges(self.store).last().2;
            assert forall|i: int| 0 <= i < edges.len() + 1 implies is_current(
                nodes,
                self.nodes@,
                (#[trigger] store_edges(self.store)[i]).0,
            ) && is_current(nodes, self.nodes@, store_edges(self.store)[i].1) by {
                if i < edges.len() {
                    assert(store_edges(self.store)[i] == edges[i]);
                }
            }
            assert(self@.links =~= old(self)@.links.push((from, to, kind)));
        }
    }

    /// All packages of the graph, each once, in no particular order.
    pub fn get_all_pkg_ids(&self) -> (ids: Vec<PackageId>)
        ensures
            ids@.no_duplicates(),
            ids@.to_set() == self@.ids,
    {
        let mut ids: Vec<PackageId> = Vec::new();
        let all = self.nodes.keys();
        let ghost order = all.remaining().unref();
        for id in keys: all
            invariant
                keys.seq().unref() == order,
                ids@ == order.take(keys.index() as int),
        {
            ids.push(*id);
        }
        assert(order.take(order.len() as int) =~= order);
        ids
    }

    /// The packages that `pkg_id` depends on directly, once for each link, the link that was
    /// added last coming first. A package that the graph does not hold has none.
    pub fn get_dependencies_of(&self, pkg_id: PackageId) -> (ids: Vec<PackageId>)
        requires
            self.wf(),
        ensures
            ids@ == neighbors(self@.links, pkg_id, Direction::Outgoing),
    {
        self.linked(pkg_id, Direction::Outgoing)
    }

    /// The packages that depend on `pkg_id` directly, once for each link, the link that was
    /// added last coming first. On a package that the graph does not hold none depends.
    pub fn get_reverse_dependencies_of(&self, pkg_id: PackageId) -> (ids: Vec<PackageId>)
        requires
            self.wf(),
        ensures
            ids@ == neighbors(self@.links, pkg_id, Direction::Incoming),
    {
        self.linked(pkg_id, Direction::Incoming)
    }

    /// The packages at the other end of the links at `pkg_id`.
    fn linked(&self, pkg_id: PackageId, direction: Direction) -> (ids: Vec<PackageId>)
        requires
            self.wf(),
        ensures
            ids@ == neighbors(self@.links, pkg_id, direction),
    {
        let mut ids: Vec<PackageId> = Vec::new();
        let ghost weights = store_nodes(self.store);
        let ghost edges = store_edges(self.store);
        match self.nodes.get(&pkg_id) {
            Some(node) => {
                let found = neighbors_directed(&self.store, *node, direction);
                proof {
                    lemma_linked(weights, edges, self.nodes@, pkg_id, direction);
                }
                let mut i: usize = 0;
                while i < found.len()
                    invariant
                        weights == store_nodes(self.store),
                        i <= found.len(),
                        ids@.len() == i,
                        forall|k: int| 0 <= k < found.len() ==> (#[trigger] found[k])
                            < weights.len(),
                        forall|k: int| 0 <= k < i ==> #[trigger] ids[k] == weights[found[k] as int],
                    decreases found.len() - i,
                {
                    ids.push(node_weight(&self.store, found[i]).unwrap());
                    i += 1;
                }
                assert(ids@ =~= found@.map_values(|n: usize| weights[n as int]));
            },
            None => {
                proof {
                    lemma_linked_unknown(weights, edges, self.nodes@, pkg_id, direction);
                }
            },
        }
        ids
    }

    /// The packages other than `root_pkg_id` that it depends on, directly or through others.
    pub fn get_recursive_dependencies_of(&self, root_pkg_id: PackageId) -> (ids: HashSet<PackageId>)
        requires
            self.wf(),
        ensures
            ids@ == self@.recursive_dependencies(root_pkg_id),
    {
        let mut pending: BTreeSet<PackageId> = BTreeSet::new();
        let mut processed: HashSet<PackageId> = HashSet::new();
        let ghost step = self@.step();
        let ghost universe = self@.ids.insert(root_pkg_id);

        pending.insert(root_pkg_id);
        proof {
            lemma_reaches_itself(step, root_pkg_id);
        }

        loop
            invariant
                self.wf(),
                step == self@.step(),
                universe == self@.ids.insert(root_pkg_id),
                universe.finite(),
                processed@.finite(),
                pending@.finite(),
                processed@.subset_of(universe),
                pending@.subset_of(universe),
                processed@.contains(root_pkg_id) || pending@.contains(root_pkg_id),
                forall|id: PackageId| #[trigger]
                    processed@.contains(id) ==> reaches(step, root_pkg_id, id),
                forall|id: PackageId| #[trigger]
                    pending@.contains(id) ==> reaches(step, root_pkg_id, id),
                forall|a: PackageId, b: PackageId| #[trigger]
                    step(a, b) && processed@.contains(a) ==> processed@.contains(b)
                        || pending@.contains(b),
            ensures
                processed@.contains(root_pkg_id),
                forall|id: PackageId| #[trigger]
                    processed@.contains(id) ==> reaches(step, root_pkg_id, id),
                forall|a: PackageId, b: PackageId| #[trigger]
                    step(a, b) && processed@.contains(a) ==> processed@.contains(b),
            decreases universe.len() - processed@.len(), pending@.len(),
        {
            let pkg_id = match first(&pending) {
                Some(pkg_id) => pkg_id,
                None => {
                    break;
                },
            };
            pending.remove(&pkg_id);

            if processed.contains(&pkg_id) {
                continue;
            }
            processed.insert(pkg_id);
            proof {
                vstd::set_lib::lemma_len_subset(processed@, universe);
            }

            let ghost waiting = pending@;
            let dependencies = self.get_dependencies_of(pkg_id);
            let mut i: usize = 0;
            while i < dependencies.len()
                invariant
                    i <= dependencies.len(),
                    pending@.finite(),
                    forall|id: PackageId| #[trigger]
                        pending@.contains(id) <==> waiting.contains(id) || dependencies@.take(
                            i as int,
                        ).contains(id),
                decreases dependencies.len() - i,
            {
                proof {
                    let fewer = dependencies@.take(i as int);
                    let more = dependencies@.take(i + 1);
                    assert(more =~= fewer.push(dependencies@[i as int]));
                    assert forall|id: PackageId| #[trigger] more.contains(id) <==> fewer.contains(
                        id,
                    ) || id == dependencies@[i as int] by {
                        if fewer.contains(id) {
                            let k = fewer.index_of(id);
                            assert(more[k] == id);
                        }
                        assert(more[i as int] == dependencies@[i as int]);
                    }
                }
                pending.insert(dependencies[i]);
                i += 1;
            }
            proof {
                assert(dependencies@.take(dependencies@.len() as int) =~= dependencies@);
                self.lemma_links_inside();
                assert forall|id: PackageId| dependencies@.contains(id) <==> #[trigger] step(
                    pkg_id,
                    id,
                ) by {
                    lemma_neighbors(self@.links, pkg_id, Direction::Outgoing, id);
                }
                assert forall|id: PackageId| #[trigger] pending@.contains(id) implies reaches(
                    step,
                    root_pkg_id,
                    id,
                ) && universe.contains(id) by {
                    if !waiting.contains(id) {
                        assert(step(pkg_id, id));
                        lemma_reaches_step(step, root_pkg_id, pkg_id, id);
                    }
                }
            }
        }
        proof {
            assert forall|id: PackageId| #[trigger] processed@.contains(id) <==> reaches(
                step,
                root_pkg_id,
                id,
            ) by {
                if reaches(step, root_pkg_id, id) {
                    lemma_closed_set(step, processed@, root_pkg_id, id);
                }
            }
            assert(processed@.remove(root_pkg_id) =~= self@.recursive_dependencies(root_pkg_id));
        }
        processed.remove(&root_pkg_id);
        processed
    }
}

/// `neighbors` gives the far ends of the edges at a node and nothing else.
pub proof fn lemma_neighbors<A, W>(
    edges: Seq<(A, A, W)>,
    node: A,
    direction: Direction,
    other: A,
)
    ensures
        neighbors(edges, node, direction).contains(other) <==> match direction {
            Direction::Outgoing => has_edge(edges, node, other),
            Direction::Incoming => has_edge(edges, other, node),
        },
    decreases edges.len(),
{
    let found = neighbors(edges, node, direction);
    if edges.len() > 0 {
        let fewer = edges.drop_last();
        let rest = neighbors(fewer, node, direction);
        lemma_neighbors(fewer, node, direction, other);
        assert(forall|i: int| 0 <= i < fewer.len() ==> #[trigger] fewer[i] == edges[i]);
        assert(edges[edges.len() - 1] == edges.last());
        if near_end(edges.last(), direction) == node {
            assert(found =~= seq![far_end(edges.last(), direction)] + rest);
            assert(found[0] == far_end(edges.last(), direction));
            assert(forall|k: int| 0 <= k < rest.len() ==> #[trigger] rest[k] == found[k + 1]);
        }
        if has_edge(edges, node, other) && direction == Direction::Outgoing {
            let i = choose|i: int|
                0 <= i < edges.len() && (#[trigger] edges[i]).0 == node && edges[i].1 == other;
            if i < fewer.len() {
                assert(fewer[i] == edges[i]);
            }
        }
        if has_edge(edges, other, node) && direction == Direction::Incoming {
            let i = choose|i: int|
                0 <= i < edges.len() && (#[trigger] edges[i]).0 == other && edges[i].1 == node;
            if i < fewer.len() {
                assert(fewer[i] == edges[i]);
            }
        }
    }
}

/// The first element of a set.
fn first(set: &BTreeSet<PackageId>) -> (id: Option<PackageId>)
    ensures
        match id {
            Some(id) => set@.contains(id),
            None => set@ == Set::<PackageId>::empty(),
        },
{
    for id in ids: set.iter()
        invariant
            ids.seq().unref().to_set() == set@,
            ids.index() == 0,
    {
        assert(ids.seq().unref()[0] == *id);
        assert(ids.seq().unref().to_set().contains(*id));
        return Some(*id);
    }
    None
}

/// The packages behind the neighbors of a package's node are what the links at the package give.
proof fn lemma_linked(
    nodes: Seq<usize>,
    edges: Seq<(usize, usize, u8)>,
    map: Map<PackageId, usize>,
    id: PackageId,
    direction: Direction,
)
    requires
        map.contains_key(id),
        map[id] < nodes.len(),
        nodes[map[id] as int] == id,
        forall|i: int| 0 <= i < edges.len() ==> is_current(nodes, map, (#[trigger] edges[i]).0)
            && is_current(nodes, map, edges[i].1),
    ensures
        neighbors(links_between(nodes, edges), id, direction) == neighbors(
            edges,
            map[id],
            direction,
        ).map_values(|n: usize| nodes[n as int]),
        forall|k: int|
            0 <= k < neighbors(edges, map[id], direction).len() ==> (#[trigger] neighbors(
                edges,
                map[id],
                direction,
            )[k]) < nodes.len(),
    decreases edges.len(),
{
    let links = links_between(nodes, edges);
    let found = neighbors(edges, map[id], direction);
    if edges.len() > 0 {
        let fewer = edges.drop_last();
        assert forall|i: int| 0 <= i < fewer.len() implies is_current(
            nodes,
            map,
            (#[trigger] fewer[i]).0,
        ) && is_current(nodes, map, fewer[i].1) by {
            assert(fewer[i] == edges[i]);
        }
        lemma_linked(nodes, fewer, map, id, direction);
        assert(links.drop_last() =~= links_between(nodes, fewer));
        let edge = edges.last();
        assert(edge == edges[edges.len() - 1]);
        assert(is_current(nodes, map, edge.0) && is_current(nodes, map, edge.1));
        assert(links.last() == (nodes[edge.0 as int], nodes[edge.1 as int], kind_of(edge.2)));
    }
    assert(neighbors(links, id, direction) =~= found.map_values(|n: usize| nodes[n as int]));
}

/// No link mentions a package that the graph does not hold.
proof fn lemma_linked_unknown(
    nodes: Seq<usize>,
    edges: Seq<(usize, usize, u8)>,
    map: Map<PackageId, usize>,
    id: PackageId,
    direction: Direction,
)
    requires
        !map.contains_key(id),
        forall|i: int| 0 <= i < edges.len() ==> is_current(nodes, map, (#[trigger] edges[i]).0)
            && is_current(nodes, map, edges[i].1),
    ensures
        neighbors(links_between(nodes, edges), id, direction) == Seq::<PackageId>::empty(),
    decreases edges.len(),
{
    let links = links_between(nodes, edges);
    if edges.len() > 0 {
        let fewer = edges.drop_last();
        assert forall|i: int| 0 <= i < fewer.len() implies is_current(
            nodes,
            map,
            (#[trigger] fewer[i]).0,
        ) && is_current(nodes, map, fewer[i].1) by {
            assert(fewer[i] == edges[i]);
        }
        lemma_linked_unknown(nodes, fewer, map, id, direction);
        assert(links.drop_last() =~= links_between(nodes, fewer));
        let edge = edges.last();
        assert(edge == edges[edges.len() - 1]);
        assert(links.last() == (nodes[edge.0 as int], nodes[edge.1 as int], kind_of(edge.2)));
    }
}

/// How many links lead from `a` to `b`.
pub open spec fn link_count(links: Seq<Link>, a: PackageId, b: PackageId) -> nat
    decreases links.len(),
{
    if links.len() == 0 {
        0
    } else {
        link_count(links.drop_last(), a, b) + if links.last().0 == a && links.last().1 == b {
            1nat
        } else {
            0nat
        }
    }
}

/// Dependencies and reverse dependencies are two sides of the same links: `b` is among the
/// dependencies of `a` as often as `a` is among the reverse dependencies of `b`, which is once for
/// each link from `a` to `b`.
pub proof fn law_reverse_dependencies(links: Seq<Link>, a: PackageId, b: PackageId)
    ensures
        neighbors(links, a, Direction::Outgoing).to_multiset().count(b) == link_count(links, a, b),
        neighbors(links, b, Direction::Incoming).to_multiset().count(a) == link_count(links, a, b),
    decreases links.len(),
{
    broadcast use vstd::seq_lib::group_to_multiset_ensures;

    if links.len() > 0 {
        let fewer = links.drop_last();
        law_reverse_dependencies(fewer, a, b);
        let down = neighbors(fewer, a, Direction::Outgoing);
        let up = neighbors(fewer, b, Direction::Incoming);
        vstd::seq_lib::lemma_multiset_commutative(seq![links.last().1], down);
        vstd::seq_lib::lemma_multiset_commutative(seq![links.last().0], up);
        lemma_single(links.last().1, b);
        lemma_single(links.last().0, a);
    }
}

proof fn lemma_single(x: PackageId, y: PackageId)
    ensures
        seq![x].to_multiset().count(y) == if x == y {
            1nat
        } else {
            0nat
        },
{
    broadcast use vstd::seq_lib::group_to_multiset_ensures;

    assert(seq![x] =~= Seq::<PackageId>::empty().push(x));
    assert(Seq::<PackageId>::empty().to_multiset().count(y) == 0);
}

/// A package is not among its own recursive dependencies, also where packages depend on each other
/// in a circle.
pub proof fn law_recursive_without_root(view: GraphView, root: PackageId)
    ensures
        !view.recursive_dependencies(root).contains(root),
{
}

/// Direct dependencies are recursive dependencies.
pub proof fn law_recursive_holds_direct(view: GraphView, root: PackageId, id: PackageId)
    requires
        neighbors(view.links, root, Direction::Outgoing).contains(id),
        id != root,
    ensures
        view.recursive_dependencies(root).contains(id),
{
    lemma_neighbors(view.links, root, Direction::Outgoing, id);
    lemma_reaches_itself(view.step(), root);
    assert((view.step())(root, id));
    lemma_reaches_step(view.step(), root, root, id);
}

/// The dependencies of a recursive dependency, but for the root itself, are recursive dependencies.
pub proof fn law_recursive_is_closed(
    view: GraphView,
    root: PackageId,
    between: PackageId,
    id: PackageId,
)
    requires
        view.recursive_dependencies(root).contains(between),
        neighbors(view.links, between, Direction::Outgoing).contains(id),
        id != root,
    ensures
        view.recursive_dependencies(root).contains(id),
{
    lemma_neighbors(view.links, between, Direction::Outgoing, id);
    assert((view.step())(between, id));
    lemma_reaches_step(view.step(), root, between, id);
}

/// The recursive dependencies of a recursive dependency, but for the root itself, are recursive
/// dependencies.
pub proof fn law_recursive_is_transitive(
    view: GraphView,
    root: PackageId,
    between: PackageId,
    id: PackageId,
)
    requires
        view.recursive_dependencies(root).contains(between),
        view.recursive_dependencies(between).contains(id),
        id != root,
    ensures
        view.recursive_dependencies(root).contains(id),
{
    lemma_reaches_transitive(view.step(), root, between, id);
}

/// Every recursive dependency comes through a direct one: it is a direct dependency or a recursive
/// dependency of one.
pub proof fn law_recursive_starts_direct(view: GraphView, root: PackageId, id: PackageId) -> (first:
    PackageId)
    requires
        view.recursive_dependencies(root).contains(id),
    ensures
        neighbors(view.links, root, Direction::Outgoing).contains(first),
        first == id || view.recursive_dependencies(first).contains(id),
{
    let first = lemma_reaches_first_step(view.step(), root, id);
    assert(has_edge(view.links, root, first));
    lemma_neighbors(view.links, root, Direction::Outgoing, first);
    first
}

/// Recursive dependencies are packages of the graph, and a package that the graph does not hold has
/// none.
pub proof fn law_recursive_in_graph(graph: Graph, root: PackageId, id: PackageId)
    requires
        graph.wf(),
        graph@.recursive_dependencies(root).contains(id),
    ensures
        graph@.ids.contains(root),
        graph@.ids.contains(id),
{
    graph.lemma_links_inside();
    let step = graph@.step();
    let first = lemma_reaches_first_step(step, root, id);
    assert(graph@.depends(root, first));
    assert forall|a: PackageId, b: PackageId| graph@.ids.contains(a) && #[trigger] step(
        a,
        b,
    ) implies graph@.ids.contains(b) by {
        assert(graph@.depends(a, b));
    }
    lemma_closed_set(step, graph@.ids, root, id);
}

/// The link that was added last gives the first of the packages that a package depends on, or that
/// depend on it. Without links there are none.
pub proof fn law_last_link_first(links: Seq<Link>, link: Link, id: PackageId)
    ensures
        neighbors(Seq::<Link>::empty(), id, Direction::Outgoing) == Seq::<PackageId>::empty(),
        neighbors(Seq::<Link>::empty(), id, Direction::Incoming) == Seq::<PackageId>::empty(),
        neighbors(links.push(link), id, Direction::Outgoing) == if link.0 == id {
            seq![link.1] + neighbors(links, id, Direction::Outgoing)
        } else {
            neighbors(links, id, Direction::Outgoing)
        },
        neighbors(links.push(link), id, Direction::Incoming) == if link.1 == id {
            seq![link.0] + neighbors(links, id, Direction::Incoming)
        } else {
            neighbors(links, id, Direction::Incoming)
        },
{
    assert(links.push(link).drop_last() =~= links);
}

/// Some link leads from `a` to `b`.
pub open spec fn is_linked(links: Seq<Link>, a: PackageId, b: PackageId) -> bool {
    exists|k: int| 0 <= k < links.len() && (#[trigger] links[k]).0 == a && links[k].1 == b
}

/// A path through links: each package depends on the next by one of them.
pub open spec fn is_dependency_path(links: Seq<Link>, path: Seq<PackageId>) -> bool {
    &&& path.len() > 0
    &&& forall|i: int, j: int|
        0 <= i && j == i + 1 && j < path.len() ==> is_linked(
            links,
            #[trigger] path[i],
            #[trigger] path[j],
        )
}

/// One package leads to another through links if and only if a path does.
pub proof fn law_links_lead_by_path(view: GraphView, a: PackageId, b: PackageId)
    ensures
        reaches(view.step(), a, b) <==> exists|path: Seq<PackageId>| #[trigger]
            is_dependency_path(view.links, path) && path[0] == a && path[path.len() - 1] == b,
{
    let step = view.step();
    law_reaches_by_path(step, a, b);
    if reaches(step, a, b) {
        let path = choose|path: Seq<PackageId>| #[trigger] is_path(step, path, a, b);
        assert forall|i: int, j: int| 0 <= i && j == i + 1 && j < path.len() implies is_linked(
            view.links,
            #[trigger] path[i],
            #[trigger] path[j],
        ) by {
            assert(step(path[i], path[j]));
            assert(has_edge(view.links, path[i], path[j]));
        }
        assert(is_dependency_path(view.links, path));
    }
    if exists|path: Seq<PackageId>| #[trigger]
        is_dependency_path(view.links, path) && path[0] == a && path[path.len() - 1] == b {
        let path = choose|path: Seq<PackageId>| #[trigger]
            is_dependency_path(view.links, path) && path[0] == a && path[path.len() - 1] == b;
        assert forall|i: int, j: int| 0 <= i && j == i + 1 && j < path.len() implies step(
            #[trigger] path[i],
            #[trigger] path[j],
        ) by {
            assert(is_linked(view.links, path[i], path[j]));
            assert(has_edge(view.links, path[i], path[j]));
        }
        assert(is_path(step, path, a, b));
    }
}

/// A recursive dependency of a package is another package that a path of dependencies leads to.
pub proof fn law_recursive_by_path(view: GraphView, root: PackageId, id: PackageId)
    ensures
        view.recursive_dependencies(root).contains(id) <==> id != root && exists|
            path: Seq<PackageId>,
        | #[trigger]
            is_dependency_path(view.links, path) && path[0] == root && path[path.len() - 1] == id,
{
    law_links_lead_by_path(view, root, id);
}

/// A package depends on another if and only if a link leads from it to the other.
pub proof fn law_depends(view: GraphView, a: PackageId, b: PackageId)
    ensures
        view.depends(a, b) <==> exists|k: int|
            0 <= k < view.links.len() && (#[trigger] view.links[k]).0 == a && view.links[k].1 == b,
{
}

} // verus!
