//! Configuration values, and the removal of directory sources from them.
use vstd::prelude::*;
use vstd::std_specs::cmp::PartialEqSpecImpl;

use crate::reach::{reaches, reaches_in};
use crate::repo::RepoError;
use crate::store::{
    add_edge, add_node, breadth_first, edge_step, has_edge, new_store, reverse, store_edges,
    store_nodes,
};

verus! {

/// Where a configuration value was set. Two definitions are equal that name the same kind of place.
#[derive(Debug)]
pub enum Definition {
    /// In the configuration file at a path.
    Path(String),
    /// In an environment variable.
    Environment(String),
    /// On the command line.
    Cli,
}

/// A configuration value.
#[derive(Debug)]
pub enum ConfigValue {
    Integer(i64, Definition),
    String(String, Definition),
    List(Vec<(String, Definition)>, Definition),
    Table(ConfigTable, Definition),
    Boolean(bool, Definition),
}

/// Configuration values under distinct keys. Two tables are equal that have equal values under the
/// same keys, in whatever order.
#[derive(Debug)]
pub struct ConfigTable {
    entries: Vec<(String, ConfigValue)>,
}

/// A key and its value.
pub type Entry = (Seq<char>, ConfigValue);

/// No key occurs twice.
pub open spec fn distinct(entries: Seq<Entry>) -> bool {
    forall|i: int, j: int|
        0 <= i < j < entries.len() ==> (#[trigger] entries[i]).0 != (#[trigger] entries[j]).0
}

/// The value under a key.
pub open spec fn lookup(entries: Seq<Entry>, key: Seq<char>) -> Option<ConfigValue>
    decreases entries.len(),
{
    if entries.len() == 0 {
        None
    } else if entries[0].0 == key {
        Some(entries[0].1)
    } else {
        lookup(entries.drop_first(), key)
    }
}

impl View for ConfigTable {
    type V = Seq<Entry>;

    closed spec fn view(&self) -> Seq<Entry> {
        entries_view(self.entries@)
    }
}

/// The entries with the texts of their keys.
spec fn entries_view(entries: Seq<(String, ConfigValue)>) -> Seq<Entry> {
    entries.map_values(|entry: (String, ConfigValue)| (entry.0@, entry.1))
}

proof fn lemma_lookup(entries: Seq<Entry>, key: Seq<char>)
    ensures
        lookup(entries, key) is None <==> forall|i: int|
            0 <= i < entries.len() ==> (#[trigger] entries[i]).0 != key,
    decreases entries.len(),
{
    if entries.len() > 0 {
        lemma_lookup(entries.drop_first(), key);
        assert forall|i: int| 1 <= i < entries.len() implies #[trigger] entries[i]
            == entries.drop_first()[i - 1] by {}
        if lookup(entries, key) is None {
            assert forall|i: int| 0 <= i < entries.len() implies (#[trigger] entries[i]).0
                != key by {
                if i > 0 {
                    assert(entries.drop_first()[i - 1].0 != key);
                }
            }
        } else if entries[0].0 != key {
            let i = choose|i: int|
                0 <= i < entries.drop_first().len() && (#[trigger] entries.drop_first()[i]).0
                    == key;
            assert(entries[i + 1].0 == key);
        }
    }
}

/// The value under a key is that of the first entry with this key.
proof fn lemma_lookup_first(entries: Seq<Entry>, i: int)
    requires
        0 <= i < entries.len(),
        forall|j: int| 0 <= j < i ==> (#[trigger] entries[j]).0 != entries[i].0,
    ensures
        lookup(entries, entries[i].0) == Some(entries[i].1),
    decreases entries.len(),
{
    if i > 0 {
        let rest = entries.drop_first();
        assert(rest[i - 1] == entries[i]);
        assert forall|j: int| 0 <= j < i - 1 implies (#[trigger] rest[j]).0 != rest[i - 1].0 by {
            assert(rest[j] == entries[j + 1]);
        }
        assert(entries[0].0 != entries[i].0);
        lemma_lookup_first(rest, i - 1);
    }
}

impl ConfigTable {
    /// No key occurs twice.
    pub open spec fn wf(&self) -> bool {
        distinct(self@)
    }

    #[verifier::type_invariant]
    spec fn keys_are_distinct(self) -> bool {
        self.wf()
    }

    /// The table without entries.
    pub fn new() -> (table: ConfigTable)
        ensures
            table@ == Seq::<Entry>::empty(),
            table.wf(),
    {
        let entries = Vec::new();
        assert(entries_view(entries@) =~= Seq::empty());
        ConfigTable { entries }
    }

    /// Where a key is.
    fn position(&self, key: &str) -> (position: Option<usize>)
        ensures
            match position {
                Some(i) => {
                    &&& i < self@.len()
                    &&& self@[i as int].0 == key@
                    &&& lookup(self@, key@) == Some(self@[i as int].1)
                    &&& self@[i as int].1 == self.entries@[i as int].1
                },
                None => {
                    &&& lookup(self@, key@) is None
                    &&& forall|i: int| 0 <= i < self@.len() ==> (#[trigger] self@[i]).0 != key@
                },
            },
    {
        let wanted = key.to_owned();
        let mut i: usize = 0;
        while i < self.entries.len()
            invariant
                wanted@ == key@,
                i <= self.entries.len(),
                forall|j: int| 0 <= j < i ==> (#[trigger] self@[j]).0 != key@,
            decreases self.entries.len() - i,
        {
            assert(self@[i as int].0 == self.entries@[i as int].0@);
            if self.entries[i].0 == wanted {
                proof {
                    lemma_lookup_first(self@, i as int);
                }
                return Some(i);
            }
            i += 1;
        }
        proof {
            lemma_lookup(self@, key@);
        }
        None
    }

    /// The value under a key.
    pub fn get(&self, key: &str) -> (value: Option<&ConfigValue>)
        ensures
            self.wf(),
            match value {
                Some(value) => lookup(self@, key@) == Some(*value),
                None => lookup(self@, key@) is None,
            },
    {
        proof {
            use_type_invariant(self);
        }
        match self.position(key) {
            Some(i) => Some(&self.entries[i].1),
            None => None,
        }
    }

    /// Sets the value under a key: in its place where the key is there, at the end where not.
    pub fn insert(&mut self, key: String, value: ConfigValue)
        ensures
            final(self).wf(),
            lookup(final(self)@, key@) == Some(value),
            lookup(old(self)@, key@) is None ==> final(self)@ == old(self)@.push((key@, value)),
            lookup(old(self)@, key@) is Some ==> {
                &&& final(self)@.len() == old(self)@.len()
                &&& forall|i: int|
                    0 <= i < old(self)@.len() ==> #[trigger] final(self)@[i] == if old(
                        self,
                    )@[i].0 == key@ {
                        (key@, value)
                    } else {
                        old(self)@[i]
                    }
            },
    {
        proof {
            use_type_invariant(&*self);
        }
        let position = self.position(key.as_str());
        let ghost before = self@;
        let mut entries: Vec<(String, ConfigValue)> = Vec::new();
        std::mem::swap(&mut entries, &mut self.entries);
        match position {
            Some(i) => {
                entries.set(i, (key, value));
                proof {
                    let after = entries_view(entries@);
                    assert(after =~= before.update(i as int, (key@, value)));
                    lemma_lookup_first(after, i as int);
                }
            },
            None => {
                entries.push((key, value));
                proof {
                    let after = entries_view(entries@);
                    assert(after =~= before.push((key@, value)));
                    lemma_lookup_first(after, before.len() as int);
                }
            },
        }
        self.entries = entries;
    }

    /// The entries in order.
    pub fn into_entries(self) -> (entries: Vec<(String, ConfigValue)>)
        ensures
            entries@.len() == self@.len(),
            forall|i: int|
                0 <= i < self@.len() ==> (#[trigger] self@[i]) == (entries@[i].0@, entries@[i].1),
    {
        self.entries
    }
}

/// Two definitions name the same kind of place.
pub open spec fn same_definition(a: Definition, b: Definition) -> bool {
    match (a, b) {
        (Definition::Path(_), Definition::Path(_)) => true,
        (Definition::Environment(_), Definition::Environment(_)) => true,
        (Definition::Cli, Definition::Cli) => true,
        _ => false,
    }
}

/// Two lists hold the same texts, set in the same kinds of places.
pub open spec fn same_list(a: Seq<(String, Definition)>, b: Seq<(String, Definition)>) -> bool {
    &&& a.len() == b.len()
    &&& forall|i: int|
        0 <= i < a.len() ==> (#[trigger] a[i]).0@ == b[i].0@ && same_definition(a[i].1, b[i].1)
}

/// Two values are equal and were set in the same kind of place.
pub open spec fn same_value(a: ConfigValue, b: ConfigValue) -> bool
    decreases a,
    via same_value_decreases
{
    match (a, b) {
        (ConfigValue::Integer(x, d), ConfigValue::Integer(y, e)) => x == y && same_definition(d, e),
        (ConfigValue::String(x, d), ConfigValue::String(y, e)) => x@ == y@ && same_definition(d, e),
        (ConfigValue::List(x, d), ConfigValue::List(y, e)) => same_list(x@, y@) && same_definition(
            d,
            e,
        ),
        (ConfigValue::Table(x, d), ConfigValue::Table(y, e)) => {
            &&& x@.len() == y@.len()
            &&& forall|i: int|
                0 <= i < x@.len() ==> match lookup(y@, (#[trigger] x@[i]).0) {
                    Some(value) => same_value(x@[i].1, value),
                    None => false,
                }
            &&& same_definition(d, e)
        },
        (ConfigValue::Boolean(x, d), ConfigValue::Boolean(y, e)) => x == y && same_definition(d, e),
        _ => false,
    }
}

#[via_fn]
proof fn same_value_decreases(a: ConfigValue, b: ConfigValue) {
    if let ConfigValue::Table(x, _) = a {
        assert forall|i: int| 0 <= i < x@.len() implies decreases_to!(
            a => (#[trigger] x@[i]).1
        ) by {
            let entry = x.entries@[i];
            assert(x@[i] == (entry.0@, entry.1));
            assert(decreases_to!(a => a->Table_0));
            assert(decreases_to!(x => x.entries));
            assert(decreases_to!(x.entries => x.entries@));
            assert(decreases_to!(x.entries@ => x.entries@[i]));
            assert(decreases_to!(entry => entry.1));
        }
    }
}

/// Two tables have equal values under the same keys.
pub open spec fn same_table(a: ConfigTable, b: ConfigTable) -> bool {
    &&& a@.len() == b@.len()
    &&& forall|i: int|
        0 <= i < a@.len() ==> match lookup(b@, (#[trigger] a@[i]).0) {
            Some(value) => same_value(a@[i].1, value),
            None => false,
        }
}

impl Definition {
    fn same_as(&self, other: &Definition) -> (same: bool)
        ensures
            same == same_definition(*self, *other),
    {
        match (self, other) {
            (Definition::Path(_), Definition::Path(_)) => true,
            (Definition::Environment(_), Definition::Environment(_)) => true,
            (Definition::Cli, Definition::Cli) => true,
            _ => false,
        }
    }
}

fn lists_are_same(a: &Vec<(String, Definition)>, b: &Vec<(String, Definition)>) -> (same: bool)
    ensures
        same == same_list(a@, b@),
{
    if a.len() != b.len() {
        return false;
    }
    let mut i: usize = 0;
    while i < a.len()
        invariant
            a.len() == b.len(),
            i <= a.len(),
            forall|k: int|
                0 <= k < i ==> (#[trigger] a@[k]).0@ == b@[k].0@ && same_definition(
                    a@[k].1,
                    b@[k].1,
                ),
        decreases a.len() - i,
    {
        if a[i].0 != b[i].0 || !a[i].1.same_as(&b[i].1) {
            return false;
        }
        i += 1;
    }
    true
}

impl ConfigValue {
    fn same_as(&self, other: &ConfigValue) -> (same: bool)
        ensures
            same == same_value(*self, *other),
        decreases self,
    {
        match (self, other) {
            (ConfigValue::Integer(x, d), ConfigValue::Integer(y, e)) => *x == *y && d.same_as(e),
            (ConfigValue::String(x, d), ConfigValue::String(y, e)) => *x == *y && d.same_as(e),
            (ConfigValue::List(x, d), ConfigValue::List(y, e)) => lists_are_same(x, y)
                && d.same_as(e),
            (ConfigValue::Table(x, d), ConfigValue::Table(y, e)) => {
                assert(decreases_to!(*self => self->Table_0));
                x.same_as(y) && d.same_as(e)
            },
            (ConfigValue::Boolean(x, d), ConfigValue::Boolean(y, e)) => *x == *y && d.same_as(e),
            _ => false,
        }
    }
}

impl ConfigTable {
    fn same_as(&self, other: &ConfigTable) -> (same: bool)
        ensures
            same == same_table(*self, *other),
        decreases self,
    {
        if self.entries.len() != other.entries.len() {
            return false;
        }
        let mut i: usize = 0;
        while i < self.entries.len()
            invariant
                self.entries.len() == other.entries.len(),
                i <= self.entries.len(),
                forall|k: int|
                    0 <= k < i ==> match lookup(other@, (#[trigger] self@[k]).0) {
                        Some(value) => same_value(self@[k].1, value),
                        None => false,
                    },
            decreases self.entries.len() - i,
        {
            let ghost entry = self.entries@[i as int];
            assert(self@[i as int] == (entry.0@, entry.1));
            assert(decreases_to!(*self => self.entries));
            assert(decreases_to!(self.entries => self.entries@));
            assert(decreases_to!(self.entries@ => self.entries@[i as int]));
            assert(decreases_to!(entry => entry.1));
            let same = match other.get(self.entries[i].0.as_str()) {
                Some(value) => self.entries[i].1.same_as(value),
                None => false,
            };
            if !same {
                return false;
            }
            i += 1;
        }
        true
    }
}

impl PartialEq for Definition {
    fn eq(&self, other: &Definition) -> (equal: bool) {
        self.same_as(other)
    }
}

impl PartialEqSpecImpl for Definition {
    open spec fn obeys_eq_spec() -> bool {
        true
    }

    open spec fn eq_spec(&self, other: &Definition) -> bool {
        same_definition(*self, *other)
    }
}

impl Eq for Definition {

}

impl PartialEq for ConfigValue {
    fn eq(&self, other: &ConfigValue) -> (equal: bool) {
        self.same_as(other)
    }
}

impl PartialEqSpecImpl for ConfigValue {
    open spec fn obeys_eq_spec() -> bool {
        true
    }

    open spec fn eq_spec(&self, other: &ConfigValue) -> bool {
        same_value(*self, *other)
    }
}

impl Eq for ConfigValue {

}

impl PartialEq for ConfigTable {
    fn eq(&self, other: &ConfigTable) -> (equal: bool) {
        self.same_as(other)
    }
}

impl PartialEqSpecImpl for ConfigTable {
    open spec fn obeys_eq_spec() -> bool {
        true
    }

    open spec fn eq_spec(&self, other: &ConfigTable) -> bool {
        same_table(*self, *other)
    }
}

impl Eq for ConfigTable {

}

/// The text under a key.
pub open spec fn text_under(value: ConfigValue, key: Seq<char>) -> Option<Seq<char>> {
    match value {
        ConfigValue::Table(table, _) => match lookup(table@, key) {
            Some(ConfigValue::String(text, _)) => Some(text@),
            _ => None,
        },
        _ => None,
    }
}

/// The source definitions of a configuration.
pub open spec fn sources(config: Seq<Entry>) -> Option<ConfigTable> {
    match lookup(config, "source"@) {
        Some(ConfigValue::Table(table, _)) => Some(table),
        _ => None,
    }
}

/// The source that a source is replaced with.
pub open spec fn replaced_with(sources: Seq<Entry>, name: Seq<char>) -> Option<Seq<char>> {
    match lookup(sources, name) {
        Some(value) => text_under(value, "replace-with"@),
        None => None,
    }
}

/// A source is a directory.
pub open spec fn is_directory(sources: Seq<Entry>, name: Seq<char>) -> bool {
    match lookup(sources, name) {
        Some(value) => text_under(value, "directory"@) is Some,
        None => false,
    }
}

/// Replacing a source `count` times leads to `end`.
pub open spec fn leads_to(sources: Seq<Entry>, name: Seq<char>, end: Seq<char>, count: nat) -> bool
    decreases count,
{
    if count == 0 {
        name == end
    } else {
        match replaced_with(sources, name) {
            Some(next) => leads_to(sources, next, end, (count - 1) as nat),
            None => false,
        }
    }
}

/// A source is a directory, or is replaced with one, directly or through others.
pub open spec fn leads_to_directory(sources: Seq<Entry>, name: Seq<char>) -> bool {
    exists|end: Seq<char>, count: nat| #[trigger]
        leads_to(sources, name, end, count) && is_directory(sources, end)
}

/// Every source that another is replaced with is defined.
pub open spec fn replacements_known(sources: Seq<Entry>) -> bool {
    forall|i: int|
        0 <= i < sources.len() ==> match replaced_with(sources, (#[trigger] sources[i]).0) {
            Some(other) => lookup(sources, other) is Some,
            None => true,
        }
}

/// The sources that neither are directories nor lead to one.
pub open spec fn pruned(sources: Seq<Entry>) -> Seq<Entry> {
    sources.filter(|entry: Entry| !leads_to_directory(sources, entry.0))
}

impl ConfigValue {
    /// The text under a key.
    fn get_text(&self, key: &str) -> (text: Option<&String>)
        ensures
            match text {
                Some(text) => text_under(*self, key@) == Some(text@),
                None => text_under(*self, key@) is None,
            },
    {
        match self {
            ConfigValue::Table(table, _) => match table.get(key) {
                Some(ConfigValue::String(text, _)) => Some(text),
                _ => None,
            },
            _ => None,
        }
    }
}

/// The edges that say which source is replaced with which, among the first `count` sources.
spec fn is_replacement_graph(
    sources: Seq<Entry>,
    edges: Seq<(usize, usize, u8)>,
    count: int,
) -> bool {
    forall|a: usize, b: usize| #[trigger]
        has_edge(edges, a, b) <==> a < count && b < sources.len() && replaced_with(
            sources,
            sources[a as int].0,
        ) == Some(sources[b as int].0)
}

/// The same edges turned round.
spec fn is_reversed_graph(sources: Seq<Entry>, edges: Seq<(usize, usize, u8)>) -> bool {
    forall|a: usize, b: usize| #[trigger]
        has_edge(edges, b, a) <==> a < sources.len() && b < sources.len() && replaced_with(
            sources,
            sources[a as int].0,
        ) == Some(sources[b as int].0)
}

proof fn lemma_has_edge_push(
    edges: Seq<(usize, usize, u8)>,
    edge: (usize, usize, u8),
    a: usize,
    b: usize,
)
    ensures
        has_edge(edges.push(edge), a, b) <==> has_edge(edges, a, b) || (edge.0 == a && edge.1 == b),
{
    let more = edges.push(edge);
    if has_edge(edges, a, b) {
        let i = choose|i: int|
            0 <= i < edges.len() && (#[trigger] edges[i]).0 == a && edges[i].1 == b;
        assert(more[i] == edges[i]);
    }
    if has_edge(more, a, b) && !(edge.0 == a && edge.1 == b) {
        let i = choose|i: int|
            0 <= i < more.len() && (#[trigger] more[i]).0 == a && more[i].1 == b;
        assert(edges[i] == more[i]);
    }
    assert(more[edges.len() as int] == edge);
}

proof fn lemma_reversed(sources: Seq<Entry>, edges: Seq<(usize, usize, u8)>)
    requires
        is_replacement_graph(sources, edges, sources.len() as int),
    ensures
        is_reversed_graph(
            sources,
            edges.map_values(|edge: (usize, usize, u8)| (edge.1, edge.0, edge.2)),
        ),
{
    let turned = edges.map_values(|edge: (usize, usize, u8)| (edge.1, edge.0, edge.2));
    assert forall|a: usize, b: usize| #[trigger] has_edge(turned, b, a) <==> has_edge(
        edges,
        a,
        b,
    ) by {
        if has_edge(edges, a, b) {
            let i = choose|i: int|
                0 <= i < edges.len() && (#[trigger] edges[i]).0 == a && edges[i].1 == b;
            assert(turned[i] == (edges[i].1, edges[i].0, edges[i].2));
        }
        if has_edge(turned, b, a) {
            let i = choose|i: int|
                0 <= i < turned.len() && (#[trigger] turned[i]).0 == b && turned[i].1 == a;
            assert(turned[i] == (edges[i].1, edges[i].0, edges[i].2));
        }
    }
}

/// A source that a chain of replacements leads to is a node, and the chain is a walk from it.
proof fn lemma_chain_is_walk(
    sources: Seq<Entry>,
    edges: Seq<(usize, usize, u8)>,
    start: usize,
    node: usize,
    count: nat,
)
    requires
        distinct(sources),
        sources.len() <= usize::MAX,
        replacements_known(sources),
        is_reversed_graph(sources, edges),
        start < sources.len(),
        node < sources.len(),
    ensures
        leads_to(sources, sources[node as int].0, sources[start as int].0, count) <==> reaches_in(
            edge_step(edges),
            start,
            node,
            count,
        ),
    decreases count,
{
    let step = edge_step(edges);
    let name = sources[node as int].0;
    if count > 0 {
        match replaced_with(sources, name) {
            Some(next) => {
                lemma_lookup(sources, next);
                let k = choose|k: int| 0 <= k < sources.len() && (#[trigger] sources[k]).0 == next;
                let mid = k as usize;
                lemma_chain_is_walk(sources, edges, start, mid, (count - 1) as nat);
                assert(has_edge(edges, mid, node));
                assert(step(mid, node));
                if reaches_in(step, start, node, count) {
                    let other = choose|other: usize|
                        reaches_in(step, start, other, (count - 1) as nat) && #[trigger] step(
                            other,
                            node,
                        );
                    assert(has_edge(edges, other, node));
                    assert(sources[other as int].0 == sources[mid as int].0);
                }
            },
            None => {
                if reaches_in(step, start, node, count) {
                    let other = choose|other: usize|
                        reaches_in(step, start, other, (count - 1) as nat) && #[trigger] step(
                            other,
                            node,
                        );
                    assert(has_edge(edges, other, node));
                }
            },
        }
    }
}

/// A source leads to a directory if and only if a walk leads to it from a directory source.
proof fn lemma_leads_to_directory(
    sources: Seq<Entry>,
    edges: Seq<(usize, usize, u8)>,
    node: usize,
)
    requires
        distinct(sources),
        sources.len() <= usize::MAX,
        replacements_known(sources),
        is_reversed_graph(sources, edges),
        node < sources.len(),
    ensures
        leads_to_directory(sources, sources[node as int].0) <==> exists|start: usize|
            start < sources.len() && is_directory(sources, sources[start as int].0)
                && #[trigger] reaches(edge_step(edges), start, node),
{
    let name = sources[node as int].0;
    let step = edge_step(edges);
    if leads_to_directory(sources, name) {
        let (end, count) = choose|end: Seq<char>, count: nat| #[trigger]
            leads_to(sources, name, end, count) && is_directory(sources, end);
        lemma_lookup(sources, end);
        let k = choose|k: int| 0 <= k < sources.len() && (#[trigger] sources[k]).0 == end;
        lemma_chain_is_walk(sources, edges, k as usize, node, count);
        assert(reaches(step, k as usize, node));
    }
    if exists|start: usize|
        start < sources.len() && is_directory(sources, sources[start as int].0)
            && #[trigger] reaches(step, start, node) {
        let start = choose|start: usize|
            start < sources.len() && is_directory(sources, sources[start as int].0)
                && #[trigger] reaches(step, start, node);
        let count = choose|count: nat| #[trigger] reaches_in(step, start, node, count);
        lemma_chain_is_walk(sources, edges, start, node, count);
    }
}

impl ConfigTable {
    /// Which sources are directories or lead to one.
    fn leading_to_directory(&self) -> (found: Vec<bool>)
        requires
            self.wf(),
            replacements_known(self@),
            self@.len() <= u32::MAX,
        ensures
            found@.len() == self@.len(),
            forall|i: int|
                0 <= i < self@.len() ==> #[trigger] found@[i] == leads_to_directory(
                    self@,
                    self@[i].0,
                ),
    {
        let count = self.entries.len();
        let ghost sources = self@;
        let mut graph = new_store();
        let mut found: Vec<bool> = Vec::new();
        let mut i: usize = 0;
        while i < count
            invariant
                count == sources.len(),
                count <= u32::MAX,
                i <= count,
                store_nodes(graph) == Seq::new(i as nat, |k: int| k as usize),
                store_edges(graph) == Seq::<(usize, usize, u8)>::empty(),
                found@.len() == i,
                forall|k: int| 0 <= k < i ==> !#[trigger] found@[k],
            decreases count - i,
        {
            add_node(&mut graph, i);
            found.push(false);
            assert(store_nodes(graph) =~= Seq::new((i + 1) as nat, |k: int| k as usize));
            i += 1;
        }

        let ghost numbers = store_nodes(graph);
        i = 0;
        while i < count
            invariant
                sources == self@,
                count == sources.len(),
                count == self.entries@.len(),
                count <= u32::MAX,
                distinct(sources),
                replacements_known(sources),
                i <= count,
                store_nodes(graph) == numbers,
                numbers.len() == count,
                store_edges(graph).len() <= i,
                is_replacement_graph(sources, store_edges(graph), i as int),
            decreases count - i,
        {
            let ghost edges = store_edges(graph);
            proof {
                lemma_lookup_first(sources, i as int);
            }
            if let Some(other) = self.entries[i].1.get_text("replace-with") {
                match self.position(other.as_str()) {
                    Some(j) => {
                        add_edge(&mut graph, i, j, 0);
                        assert forall|a: usize, b: usize| #[trigger]
                            has_edge(store_edges(graph), a, b) <==> a < i + 1 && b < sources.len()
                                && replaced_with(sources, sources[a as int].0) == Some(
                                sources[b as int].0,
                            ) by {
                            lemma_has_edge_push(edges, (i, j, 0), a, b);
                        }
                    },
                    None => {
                        assert(false);
                    },
                }
            }
            i += 1;
        }

        proof {
            lemma_reversed(sources, store_edges(graph));
        }
        reverse(&mut graph);
        let ghost edges = store_edges(graph);
        let ghost step = edge_step(edges);
        i = 0;
        while i < count
            invariant
                sources == self@,
                count == sources.len(),
                count == self.entries@.len(),
                distinct(sources),
                store_nodes(graph) == numbers,
                numbers.len() == count,
                store_edges(graph) == edges,
                step == edge_step(edges),
                is_reversed_graph(sources, edges),
                i <= count,
                found@.len() == count,
                forall|node: usize|
                    node < count ==> (#[trigger] found@[node as int] <==> exists|start: usize|
                        start < i && is_directory(sources, sources[start as int].0)
                            && #[trigger] reaches(step, start, node)),
            decreases count - i,
        {
            let ghost before = found@;
            let mut reached: Vec<usize> = Vec::new();
            proof {
                lemma_lookup_first(sources, i as int);
            }
            if self.entries[i].1.get_text("directory").is_some() {
                reached = breadth_first(&graph, i);
            }
            proof {
                assert forall|node: usize| #[trigger] reached@.contains(node) implies node
                    < count by {
                    lemma_reached_inside(sources, edges, i, node);
                }
            }
            let mut j: usize = 0;
            while j < reached.len()
                invariant
                    found@.len() == count,
                    before.len() == count,
                    j <= reached.len(),
                    forall|node: usize| #[trigger] reached@.contains(node) ==> node < count,
                    forall|node: usize|
                        node < count ==> (#[trigger] found@[node as int] <==> before[node as int]
                            || reached@.take(j as int).contains(node)),
                decreases reached.len() - j,
            {
                let node = reached[j];
                assert(reached@.contains(node));
                let ghost so_far = found@;
                found.set(node, true);
                proof {
                    let fewer = reached@.take(j as int);
                    let more = reached@.take(j + 1);
                    assert(more =~= fewer.push(node));
                    assert(more[j as int] == node);
                    assert forall|x: usize| x < count implies (#[trigger] found@[x as int]
                        <==> before[x as int] || more.contains(x)) by {
                        if fewer.contains(x) {
                            assert(more[fewer.index_of(x)] == x);
                        }
                        if more.contains(x) && x != node {
                            assert(fewer[more.index_of(x)] == x);
                        }
                        assert(so_far[x as int] <==> before[x as int] || fewer.contains(x));
                    }
                }
                j += 1;
            }
            proof {
                assert(reached@.take(reached@.len() as int) =~= reached@);
                assert forall|node: usize| node < count implies (#[trigger] found@[node as int]
                    <==> exists|start: usize|
                    start < i + 1 && is_directory(sources, sources[start as int].0)
                        && #[trigger] reaches(step, start, node)) by {
                    if found@[node as int] && !before[node as int] {
                        assert(reached@.contains(node));
                        assert(reaches(step, i, node));
                    }
                    if exists|start: usize|
                        start < i + 1 && is_directory(sources, sources[start as int].0)
                            && #[trigger] reaches(step, start, node) {
                        let start = choose|start: usize|
                            start < i + 1 && is_directory(sources, sources[start as int].0)
                                && #[trigger] reaches(step, start, node);
                        if start < i {
                            assert(before[node as int]);
                        } else {
                            assert(reached@.contains(node));
                        }
                    }
                    assert(before[node as int] ==> found@[node as int]);
                }
            }
            i += 1;
        }
        proof {
            assert forall|x: int| 0 <= x < sources.len() implies #[trigger] found@[x]
                == leads_to_directory(sources, sources[x].0) by {
                let node = x as usize;
                lemma_leads_to_directory(sources, edges, node);
                assert(found@[node as int] == found@[x]);
            }
        }
        found
    }
}

/// A walk stays among the sources.
proof fn lemma_reached_inside(
    sources: Seq<Entry>,
    edges: Seq<(usize, usize, u8)>,
    start: usize,
    node: usize,
)
    requires
        is_reversed_graph(sources, edges),
        start < sources.len(),
        reaches(edge_step(edges), start, node),
    ensures
        node < sources.len(),
{
    let step = edge_step(edges);
    let count = choose|count: nat| #[trigger] reaches_in(step, start, node, count);
    if count > 0 {
        let mid = choose|mid: usize|
            reaches_in(step, start, mid, (count - 1) as nat) && #[trigger] step(mid, node);
        assert(has_edge(edges, mid, node));
    }
}

proof fn lemma_filter_push(entries: Seq<Entry>, entry: Entry, kept: spec_fn(Entry) -> bool)
    ensures
        entries.push(entry).filter(kept) == if kept(entry) {
            entries.filter(kept).push(entry)
        } else {
            entries.filter(kept)
        },
{
    reveal(Seq::filter);
    assert(entries.push(entry).drop_last() =~= entries);
}

proof fn lemma_filter_distinct(entries: Seq<Entry>, kept: spec_fn(Entry) -> bool)
    requires
        distinct(entries),
    ensures
        distinct(entries.filter(kept)),
    decreases entries.len(),
{
    reveal(Seq::filter);
    if entries.len() > 0 {
        let rest = entries.drop_last();
        let head = rest.filter(kept);
        lemma_filter_distinct(rest, kept);
        lemma_filter_push(rest, entries.last(), kept);
        assert(rest.push(entries.last()) =~= entries);
        assert forall|i: int| 0 <= i < head.len() implies (#[trigger] head[i]).0
            != entries.last().0 by {
            rest.lemma_filter_contains_rev(kept, head[i]);
            let j = rest.index_of(head[i]);
            assert(entries[j] == rest[j]);
        }
    }
}

impl ConfigTable {
    /// Removes the sources that are directories or lead to one.
    fn remove_leading_to_directory(&mut self)
        requires
            replacements_known(old(self)@),
            old(self)@.len() <= u32::MAX,
        ensures
            final(self)@ == pruned(old(self)@),
    {
        proof {
            use_type_invariant(&*self);
        }
        let found = self.leading_to_directory();
        let ghost sources = self@;
        let ghost kept = |entry: Entry| !leads_to_directory(sources, entry.0);
        let mut entries: Vec<(String, ConfigValue)> = Vec::new();
        std::mem::swap(&mut entries, &mut self.entries);
        let mut i: usize = 0;
        let mut position: usize = 0;
        proof {
            reveal(Seq::filter);
            assert(sources.take(0).filter(kept) + sources.skip(0) =~= sources);
        }
        while i < found.len()
            invariant
                i <= found.len(),
                found@.len() == sources.len(),
                forall|k: int|
                    0 <= k < sources.len() ==> #[trigger] found@[k] == leads_to_directory(
                        sources,
                        sources[k].0,
                    ),
                kept == |entry: Entry| !leads_to_directory(sources, entry.0),
                entries_view(entries@) == sources.take(i as int).filter(kept) + sources.skip(
                    i as int,
                ),
                position == sources.take(i as int).filter(kept).len(),
            decreases found.len() - i,
        {
            let ghost before = entries_view(entries@);
            let ghost head = sources.take(i as int).filter(kept);
            let ghost entry = sources[i as int];
            proof {
                assert(sources.take(i + 1) =~= sources.take(i as int).push(entry));
                lemma_filter_push(sources.take(i as int), entry, kept);
                assert(sources.skip(i as int) =~= seq![entry] + sources.skip(i + 1));
                assert(before.len() == entries@.len());
            }
            if found[i] {
                let _ = entries.remove(position);
                assert(entries_view(entries@) =~= before.remove(position as int));
                assert(entries_view(entries@) =~= head + sources.skip(i + 1));
            } else {
                position += 1;
                assert(entries_view(entries@) =~= head.push(entry) + sources.skip(i + 1));
            }
            i += 1;
        }
        proof {
            assert(sources.take(sources.len() as int) =~= sources);
            assert(entries_view(entries@) =~= sources.filter(kept));
            lemma_filter_distinct(sources, kept);
        }
        self.entries = entries;
    }
}

/// The sources of a configuration can be told apart and followed: no source is replaced with one
/// that is not defined, and there are no more of them than a graph can hold.
pub open spec fn prunable(config: Seq<Entry>) -> bool {
    match sources(config) {
        Some(table) => {
            &&& table.wf()
            &&& replacements_known(table@)
            &&& table@.len() <= u32::MAX
        },
        None => true,
    }
}

/// `after` is `before` without the sources that are directories or lead to one.
pub open spec fn is_pruned(before: Seq<Entry>, after: Seq<Entry>) -> bool {
    match lookup(before, "source"@) {
        Some(ConfigValue::Table(table, definition)) => {
            &&& after.len() == before.len()
            &&& forall|i: int|
                0 <= i < before.len() ==> {
                    &&& (#[trigger] after[i]).0 == before[i].0
                    &&& before[i].0 != "source"@ ==> after[i] == before[i]
                }
            &&& lookup(after, "source"@) matches Some(ConfigValue::Table(kept, same))
            &&& kept@ == pruned(table@)
            &&& same == definition
        },
        _ => after == before,
    }
}

/// Whether the directory sources can be removed from a configuration.
pub fn is_prunable(config: &ConfigTable) -> (found: bool)
    ensures
        found == prunable(config@),
{
    match config.get("source") {
        Some(ConfigValue::Table(table, _)) => table.is_complete(),
        _ => true,
    }
}

/// Removes the directory sources from a configuration, and the sources that are replaced with
/// them. The rest of the configuration stays as it is.
pub fn prune_directory_source_replacements(config: &mut ConfigTable) -> (result: Result<
    (),
    RepoError,
>)
    requires
        prunable(old(config)@),
    ensures
        result is Ok,
        final(config).wf(),
        is_pruned(old(config)@, final(config)@),
{
    config.prune_sources();
    Ok(())
}

impl ConfigTable {
    /// Every source that another is replaced with is defined, and there are no more sources than
    /// a graph can hold.
    fn is_complete(&self) -> (complete: bool)
        ensures
            complete == (self.wf() && replacements_known(self@) && self@.len() <= u32::MAX),
    {
        proof {
            use_type_invariant(self);
        }
        if self.entries.len() > u32::MAX as usize {
            return false;
        }
        let mut i: usize = 0;
        while i < self.entries.len()
            invariant
                self.wf(),
                i <= self.entries.len(),
                forall|k: int|
                    0 <= k < i ==> match replaced_with(self@, (#[trigger] self@[k]).0) {
                        Some(other) => lookup(self@, other) is Some,
                        None => true,
                    },
            decreases self.entries.len() - i,
        {
            proof {
                lemma_lookup_first(self@, i as int);
            }
            if let Some(other) = self.entries[i].1.get_text("replace-with") {
                if self.position(other.as_str()).is_none() {
                    assert(!replacements_known(self@)) by {
                        assert(replaced_with(self@, self@[i as int].0) == Some(other@));
                    }
                    return false;
                }
            }
            i += 1;
        }
        true
    }

    /// Removes the sources that are directories or lead to one.
    fn prune_sources(&mut self)
        requires
            prunable(old(self)@),
        ensures
            final(self).wf(),
            is_pruned(old(self)@, final(self)@),
    {
        proof {
            use_type_invariant(&*self);
        }
        let ghost before = self@;
        if let Some(i) = self.position("source") {
            let mut entries: Vec<(String, ConfigValue)> = Vec::new();
            std::mem::swap(&mut entries, &mut self.entries);
            let (key, value) = entries.remove(i);
            let value = match value {
                ConfigValue::Table(table, definition) => {
                    let mut table = table;
                    table.remove_leading_to_directory();
                    ConfigValue::Table(table, definition)
                },
                other => other,
            };
            entries.insert(i, (key, value));
            proof {
                let after = entries_view(entries@);
                assert(after =~= before.update(i as int, (key@, value)));
                lemma_lookup_first(after, i as int);
                if sources(before) is None {
                    assert(after =~= before);
                }
            }
            self.entries = entries;
        }
    }
}

/// What a source is once the directory sources are gone: what it was, unless it was one or led to
/// one.
pub proof fn law_pruned_lookup(sources: Seq<Entry>, name: Seq<char>)
    requires
        distinct(sources),
    ensures
        lookup(pruned(sources), name) == if leads_to_directory(sources, name) {
            None
        } else {
            lookup(sources, name)
        },
{
    let kept = |entry: Entry| !leads_to_directory(sources, entry.0);
    let rest = pruned(sources);
    lemma_filter_distinct(sources, kept);
    lemma_lookup(rest, name);
    lemma_lookup(sources, name);
    if lookup(rest, name) is Some {
        let i = choose|i: int| 0 <= i < rest.len() && (#[trigger] rest[i]).0 == name;
        sources.lemma_filter_pred(kept, i);
        sources.lemma_filter_contains_rev(kept, rest[i]);
        lemma_lookup_first(rest, i);
        let j = sources.index_of(rest[i]);
        lemma_lookup_first(sources, j);
    } else if lookup(sources, name) is Some && !leads_to_directory(sources, name) {
        let j = choose|j: int| 0 <= j < sources.len() && (#[trigger] sources[j]).0 == name;
        sources.lemma_filter_contains(kept, j);
        let i = rest.index_of(sources[j]);
        assert(rest[i].0 == name);
    }
}

/// A source that is replaced leads to a directory if and only if it is one or the source that it is
/// replaced with leads to one.
proof fn lemma_next_leads_to_directory(sources: Seq<Entry>, name: Seq<char>, next: Seq<char>)
    requires
        replaced_with(sources, name) == Some(next),
    ensures
        leads_to_directory(sources, name) <==> is_directory(sources, name) || leads_to_directory(
            sources,
            next,
        ),
{
    if is_directory(sources, name) {
        assert(leads_to(sources, name, name, 0));
    }
    if leads_to_directory(sources, next) {
        let (end, count) = choose|end: Seq<char>, count: nat| #[trigger]
            leads_to(sources, next, end, count) && is_directory(sources, end);
        assert(leads_to(sources, name, end, count + 1));
    }
    if leads_to_directory(sources, name) && !is_directory(sources, name) {
        let (end, count) = choose|end: Seq<char>, count: nat| #[trigger]
            leads_to(sources, name, end, count) && is_directory(sources, end);
        assert(count > 0);
        assert(leads_to(sources, next, end, (count - 1) as nat));
    }
}

/// Once the directory sources are gone, no source is a directory, and none leads to one.
pub proof fn law_pruned_has_no_directories(sources: Seq<Entry>, name: Seq<char>)
    requires
        distinct(sources),
    ensures
        !is_directory(pruned(sources), name),
        !leads_to_directory(pruned(sources), name),
{
    let rest = pruned(sources);
    assert forall|end: Seq<char>| !#[trigger] is_directory(rest, end) by {
        law_pruned_lookup(sources, end);
        assert(leads_to(sources, end, end, 0));
    }
}

/// Every directory source is gone, and so is every source that is replaced with one that is gone.
pub proof fn law_pruned_references(sources: Seq<Entry>, name: Seq<char>)
    requires
        distinct(sources),
    ensures
        is_directory(sources, name) ==> lookup(pruned(sources), name) is None,
        replaced_with(sources, name) matches Some(other) && lookup(sources, other) is Some
            && lookup(pruned(sources), other) is None ==> lookup(pruned(sources), name) is None,
{
    law_pruned_lookup(sources, name);
    if is_directory(sources, name) {
        assert(leads_to(sources, name, name, 0));
    }
    if let Some(other) = replaced_with(sources, name) {
        law_pruned_lookup(sources, other);
        lemma_next_leads_to_directory(sources, name, other);
    }
}

/// Once the directory sources are gone, every source that another is replaced with is still
/// defined.
pub proof fn law_pruned_replacements_known(sources: Seq<Entry>)
    requires
        distinct(sources),
        replacements_known(sources),
    ensures
        distinct(pruned(sources)),
        replacements_known(pruned(sources)),
{
    let kept = |entry: Entry| !leads_to_directory(sources, entry.0);
    let rest = pruned(sources);
    lemma_filter_distinct(sources, kept);
    assert forall|i: int| 0 <= i < rest.len() implies match replaced_with(
        rest,
        (#[trigger] rest[i]).0,
    ) {
        Some(other) => lookup(rest, other) is Some,
        None => true,
    } by {
        let name = rest[i].0;
        sources.lemma_filter_pred(kept, i);
        sources.lemma_filter_contains_rev(kept, rest[i]);
        let j = sources.index_of(rest[i]);
        assert(sources[j].0 == name);
        law_pruned_lookup(sources, name);
        if let Some(other) = replaced_with(sources, name) {
            lemma_next_leads_to_directory(sources, name, other);
            law_pruned_lookup(sources, other);
        }
    }
}

proof fn lemma_filter_all(entries: Seq<Entry>, kept: spec_fn(Entry) -> bool)
    requires
        forall|i: int| 0 <= i < entries.len() ==> kept(#[trigger] entries[i]),
    ensures
        entries.filter(kept) == entries,
    decreases entries.len(),
{
    reveal(Seq::filter);
    if entries.len() > 0 {
        lemma_filter_all(entries.drop_last(), kept);
        assert(entries.drop_last().push(entries.last()) =~= entries);
    }
}

/// Removing the directory sources a second time changes nothing.
pub proof fn law_pruned_twice(sources: Seq<Entry>)
    requires
        distinct(sources),
    ensures
        pruned(pruned(sources)) == pruned(sources),
{
    let rest = pruned(sources);
    let kept = |entry: Entry| !leads_to_directory(rest, entry.0);
    assert forall|i: int| 0 <= i < rest.len() implies kept(#[trigger] rest[i]) by {
        law_pruned_has_no_directories(sources, rest[i].0);
    }
    lemma_filter_all(rest, kept);
}

/// The value under a key is that of the entry with this key.
pub proof fn law_lookup(entries: Seq<Entry>, key: Seq<char>)
    requires
        distinct(entries),
    ensures
        forall|value: ConfigValue|
            lookup(entries, key) == Some(value) <==> #[trigger] entries.contains((key, value)),
        lookup(entries, key) is None <==> forall|i: int|
            0 <= i < entries.len() ==> (#[trigger] entries[i]).0 != key,
{
    lemma_lookup(entries, key);
    assert forall|value: ConfigValue| #[trigger] entries.contains((key, value)) implies lookup(
        entries,
        key,
    ) == Some(value) by {
        let i = entries.index_of((key, value));
        lemma_lookup_first(entries, i);
    }
    if lookup(entries, key) is Some {
        let i = choose|i: int| 0 <= i < entries.len() && (#[trigger] entries[i]).0 == key;
        lemma_lookup_first(entries, i);
        assert(entries[i] == (key, entries[i].1));
        assert(entries.contains((key, entries[i].1)));
    }
}

/// A value is a table with a text under a key, wherever the table and the text were set.
pub open spec fn says(value: ConfigValue, key: Seq<char>, text: Seq<char>) -> bool {
    &&& value matches ConfigValue::Table(table, _)
    &&& exists|string: String, definition: Definition|
        string@ == text && #[trigger] table@.contains(
            (key, ConfigValue::String(string, definition)),
        )
}

/// The tables among some values have distinct keys.
pub open spec fn tables_are_distinct(entries: Seq<Entry>) -> bool {
    forall|i: int|
        0 <= i < entries.len() ==> match (#[trigger] entries[i]).1 {
            ConfigValue::Table(table, _) => distinct(table@),
            _ => true,
        }
}

/// A chain of sources, by position: each says that it is replaced with the next, and the last says
/// that it is a directory.
pub open spec fn is_directory_chain(sources: Seq<Entry>, chain: Seq<int>) -> bool {
    &&& chain.len() > 0
    &&& forall|k: int| 0 <= k < chain.len() ==> 0 <= #[trigger] chain[k] < sources.len()
    &&& forall|k: int, next: int|
        0 <= k && next == k + 1 && next < chain.len() ==> says(
            sources[#[trigger] chain[k]].1,
            "replace-with"@,
            sources[#[trigger] chain[next]].0,
        )
    &&& exists|path: Seq<char>| #[trigger]
        says(sources[chain[chain.len() - 1]].1, "directory"@, path)
}

proof fn lemma_says(value: ConfigValue, key: Seq<char>, text: Seq<char>)
    requires
        value matches ConfigValue::Table(table, _) ==> distinct(table@),
    ensures
        text_under(value, key) == Some(text) <==> says(value, key, text),
{
    if let ConfigValue::Table(table, _) = value {
        law_lookup(table@, key);
        if says(value, key, text) {
            let (string, definition) = choose|string: String, definition: Definition|
                string@ == text && #[trigger] table@.contains(
                    (key, ConfigValue::String(string, definition)),
                );
            assert(lookup(table@, key) == Some(ConfigValue::String(string, definition)));
        }
        if text_under(value, key) == Some(text) {
            if let Some(ConfigValue::String(string, definition)) = lookup(table@, key) {
                assert(table@.contains((key, ConfigValue::String(string, definition))));
            }
        }
    }
}

proof fn lemma_chain_of(
    sources: Seq<Entry>,
    i: int,
    end: Seq<char>,
    count: nat,
) -> (chain: Seq<int>)
    requires
        distinct(sources),
        tables_are_distinct(sources),
        0 <= i < sources.len(),
        leads_to(sources, sources[i].0, end, count),
        is_directory(sources, end),
    ensures
        is_directory_chain(sources, chain),
        chain[0] == i,
    decreases count,
{
    let name = sources[i].0;
    lemma_lookup_first(sources, i);
    if count == 0 {
        let chain = seq![i];
        let path = text_under(sources[i].1, "directory"@).unwrap();
        lemma_says(sources[i].1, "directory"@, path);
        assert(says(sources[chain[chain.len() - 1]].1, "directory"@, path));
        chain
    } else {
        let next = replaced_with(sources, name).unwrap();
        lemma_says(sources[i].1, "replace-with"@, next);
        lemma_lookup(sources, next);
        assert(leads_to(sources, next, end, (count - 1) as nat));
        assert(count > 1 ==> replaced_with(sources, next) is Some);
        assert(lookup(sources, next) is Some);
        let j = choose|j: int| 0 <= j < sources.len() && (#[trigger] sources[j]).0 == next;
        let rest = lemma_chain_of(sources, j, end, (count - 1) as nat);
        let chain = seq![i] + rest;
        assert(chain[chain.len() - 1] == rest[rest.len() - 1]);
        assert forall|k: int| 0 <= k < chain.len() implies 0 <= #[trigger] chain[k]
            < sources.len() by {
            if k > 0 {
                assert(chain[k] == rest[k - 1]);
            }
        }
        assert forall|k: int, later: int|
            0 <= k && later == k + 1 && later < chain.len() implies says(
            sources[#[trigger] chain[k]].1,
            "replace-with"@,
            sources[#[trigger] chain[later]].0,
        ) by {
            assert(chain[later] == rest[later - 1]);
            if k > 0 {
                assert(chain[k] == rest[k - 1]);
            }
        }
        chain
    }
}

proof fn lemma_chain_leads(sources: Seq<Entry>, chain: Seq<int>)
    requires
        distinct(sources),
        tables_are_distinct(sources),
        is_directory_chain(sources, chain),
    ensures
        leads_to_directory(sources, sources[chain[0]].0),
    decreases chain.len(),
{
    let i = chain[0];
    let name = sources[i].0;
    lemma_lookup_first(sources, i);
    if chain.len() == 1 {
        let path = choose|path: Seq<char>| #[trigger]
            says(sources[chain[chain.len() - 1]].1, "directory"@, path);
        lemma_says(sources[i].1, "directory"@, path);
        assert(leads_to(sources, name, name, 0));
    } else {
        let rest = chain.drop_first();
        let next = sources[chain[1]].0;
        assert(rest[rest.len() - 1] == chain[chain.len() - 1]);
        assert forall|k: int| 0 <= k < rest.len() implies 0 <= #[trigger] rest[k]
            < sources.len() by {
            assert(rest[k] == chain[k + 1]);
        }
        assert forall|k: int, after: int|
            0 <= k && after == k + 1 && after < rest.len() implies says(
            sources[#[trigger] rest[k]].1,
            "replace-with"@,
            sources[#[trigger] rest[after]].0,
        ) by {
            assert(rest[k] == chain[k + 1]);
            assert(rest[after] == chain[after + 1]);
        }
        lemma_chain_leads(sources, rest);
        assert(says(sources[chain[0]].1, "replace-with"@, sources[chain[1]].0));
        lemma_says(sources[i].1, "replace-with"@, next);
        lemma_next_leads_to_directory(sources, name, next);
    }
}

/// Exactly those sources are removed from which a chain of replacements leads to a directory
/// source, which may be the source itself. Where a text was set makes no difference. What stays
/// keeps its order, and so does the rest of the configuration.
pub proof fn law_prune_removes_chains(
    before: Seq<Entry>,
    after: Seq<Entry>,
    at: int,
    table: ConfigTable,
    definition: Definition,
)
    requires
        distinct(before),
        is_pruned(before, after),
        0 <= at < before.len(),
        before[at] == ("source"@, ConfigValue::Table(table, definition)),
        distinct(table@),
        tables_are_distinct(table@),
    ensures
        after.len() == before.len(),
        forall|i: int|
            0 <= i < before.len() && i != at ==> #[trigger] after[i] == before[i],
        after[at].0 == "source"@,
        after[at].1 matches ConfigValue::Table(kept, same) && same == definition && {
            &&& forall|i: int|
                0 <= i < table@.len() ==> (kept@.contains(#[trigger] table@[i]) <==> !exists|
                    chain: Seq<int>,
                | #[trigger] is_directory_chain(table@, chain) && chain[0] == i)
            &&& forall|k: int| 0 <= k < kept@.len() ==> table@.contains(#[trigger] kept@[k])
            &&& forall|k: int, m: int|
                0 <= k < m < kept@.len() ==> table@.index_of(#[trigger] kept@[k])
                    < table@.index_of(#[trigger] kept@[m])
        },
{
    lemma_lookup_first(before, at);
    lemma_lookup(after, "source"@);
    assert forall|i: int| 0 <= i < before.len() && i != at implies #[trigger] after[i]
        == before[i] by {
        assert(before[i].0 != before[at].0);
    }
    assert(after[at].0 == before[at].0);
    assert forall|i: int, j: int| 0 <= i < j < after.len() implies (#[trigger] after[i]).0
        != (#[trigger] after[j]).0 by {
        assert(after[i].0 == before[i].0 && after[j].0 == before[j].0);
        assert(before[i].0 != before[j].0);
    }
    lemma_lookup_first(after, at);
    let sources = table@;
    let rest = pruned(sources);
    let kept = |entry: Entry| !leads_to_directory(sources, entry.0);
    assert forall|i: int| 0 <= i < sources.len() implies (rest.contains(#[trigger] sources[i])
        <==> !exists|chain: Seq<int>| #[trigger]
        is_directory_chain(sources, chain) && chain[0] == i) by {
        let name = sources[i].0;
        if leads_to_directory(sources, name) {
            let (end, count) = choose|end: Seq<char>, count: nat| #[trigger]
                leads_to(sources, name, end, count) && is_directory(sources, end);
            let chain = lemma_chain_of(sources, i, end, count);
            if rest.contains(sources[i]) {
                sources.lemma_filter_pred(kept, rest.index_of(sources[i]));
            }
        } else {
            sources.lemma_filter_contains(kept, i);
            if exists|chain: Seq<int>| #[trigger]
                is_directory_chain(sources, chain) && chain[0] == i {
                let chain = choose|chain: Seq<int>| #[trigger]
                    is_directory_chain(sources, chain) && chain[0] == i;
                lemma_chain_leads(sources, chain);
            }
        }
    }
    assert forall|k: int| 0 <= k < rest.len() implies sources.contains(#[trigger] rest[k]) by {
        sources.lemma_filter_contains_rev(kept, rest[k]);
    }
    lemma_filter_in_order(sources, kept);
}

/// Filtering keeps the order.
proof fn lemma_filter_in_order(entries: Seq<Entry>, kept: spec_fn(Entry) -> bool)
    requires
        distinct(entries),
    ensures
        forall|k: int, m: int|
            0 <= k < m < entries.filter(kept).len() ==> entries.index_of(
                #[trigger] entries.filter(kept)[k],
            ) < entries.index_of(#[trigger] entries.filter(kept)[m]),
    decreases entries.len(),
{
    reveal(Seq::filter);
    if entries.len() > 0 {
        let rest = entries.drop_last();
        let head = rest.filter(kept);
        let all = entries.filter(kept);
        lemma_filter_in_order(rest, kept);
        lemma_filter_push(rest, entries.last(), kept);
        assert(rest.push(entries.last()) =~= entries);
        assert forall|k: int| 0 <= k < head.len() implies entries.index_of(#[trigger] head[k])
            == rest.index_of(head[k]) && rest.index_of(head[k]) < rest.len() by {
            rest.lemma_filter_contains_rev(kept, head[k]);
            let i = rest.index_of(head[k]);
            assert(entries[i] == head[k]);
            let j = entries.index_of(head[k]);
            assert(entries[j].0 == entries[i].0);
        }
        assert(entries[entries.len() - 1] == entries.last());
        assert forall|k: int, m: int| 0 <= k < m < all.len() implies entries.index_of(
            #[trigger] all[k],
        ) < entries.index_of(#[trigger] all[m]) by {
            assert(all[k] == head[k]);
            if m < head.len() {
                assert(all[m] == head[m]);
                assert(rest.index_of(head[k]) < rest.index_of(head[m]));
            } else {
                let j = entries.index_of(all[m]);
                assert(all[m] == entries.last());
                assert(entries[j].0 == entries[entries.len() - 1].0);
            }
        }
    }
}

/// A configuration whose `source` is no table, or that has none, stays as it is.
pub proof fn law_prune_needs_sources(before: Seq<Entry>, after: Seq<Entry>)
    requires
        distinct(before),
        is_pruned(before, after),
        forall|i: int|
            0 <= i < before.len() && (#[trigger] before[i]).0 == "source"@ ==> !(
            before[i].1 is Table),
    ensures
        after == before,
{
    law_lookup(before, "source"@);
    if let Some(value) = lookup(before, "source"@) {
        assert(before.contains(("source"@, value)));
        let i = before.index_of(("source"@, value));
        assert(before[i].0 == "source"@);
    }
}

/// Directory sources can be removed unless some source says that it is replaced with one that is
/// not there, or there are more than `u32::MAX` sources.
pub proof fn law_prunable(
    config: Seq<Entry>,
    at: int,
    table: ConfigTable,
    definition: Definition,
)
    requires
        distinct(config),
        0 <= at < config.len(),
        config[at] == ("source"@, ConfigValue::Table(table, definition)),
        distinct(table@),
        tables_are_distinct(table@),
    ensures
        prunable(config) <==> {
            &&& table@.len() <= u32::MAX
            &&& forall|i: int, name: Seq<char>|
                0 <= i < table@.len() && #[trigger] says(
                    table@[i].1,
                    "replace-with"@,
                    name,
                ) ==> exists|j: int| 0 <= j < table@.len() && (#[trigger] table@[j]).0 == name
        },
{
    let sources = table@;
    lemma_lookup_first(config, at);
    assert forall|i: int, name: Seq<char>| 0 <= i < sources.len() implies (#[trigger] says(
        sources[i].1,
        "replace-with"@,
        name,
    ) <==> replaced_with(sources, sources[i].0) == Some(name)) by {
        lemma_lookup_first(sources, i);
        lemma_says(sources[i].1, "replace-with"@, name);
    }
    if replacements_known(sources) {
        assert forall|i: int, name: Seq<char>|
            0 <= i < sources.len() && #[trigger] says(
                sources[i].1,
                "replace-with"@,
                name,
            ) implies exists|j: int| 0 <= j < sources.len() && (#[trigger] sources[j]).0
            == name by {
            lemma_lookup(sources, name);
            assert(replaced_with(sources, sources[i].0) == Some(name));
        }
    }
    if forall|i: int, name: Seq<char>|
        0 <= i < sources.len() && #[trigger] says(
            sources[i].1,
            "replace-with"@,
            name,
        ) ==> exists|j: int| 0 <= j < sources.len() && (#[trigger] sources[j]).0 == name {
        assert forall|i: int| 0 <= i < sources.len() implies match replaced_with(
            sources,
            (#[trigger] sources[i]).0,
        ) {
            Some(other) => lookup(sources, other) is Some,
            None => true,
        } by {
            if let Some(other) = replaced_with(sources, sources[i].0) {
                assert(says(sources[i].1, "replace-with"@, other));
                lemma_lookup(sources, other);
            }
        }
    }
}

/// Two definitions are equal if they are of the same variant, whatever they hold.
pub proof fn law_equal_definitions(a: Definition, b: Definition)
    ensures
        same_definition(a, b) <==> ((a is Path && b is Path) || (a is Environment
            && b is Environment) || (a is Cli && b is Cli)),
{
}

/// Two values are equal if they hold the same and were set in the same kind of place; values of
/// different variants are not.
pub proof fn law_equal_values(a: ConfigValue, b: ConfigValue)
    ensures
        same_value(a, b) <==> match (a, b) {
            (ConfigValue::Integer(x, d), ConfigValue::Integer(y, e)) => x == y && same_definition(
                d,
                e,
            ),
            (ConfigValue::String(x, d), ConfigValue::String(y, e)) => x@ == y@ && same_definition(
                d,
                e,
            ),
            (ConfigValue::List(x, d), ConfigValue::List(y, e)) => {
                &&& same_definition(d, e)
                &&& x@.len() == y@.len()
                &&& forall|i: int|
                    0 <= i < x@.len() ==> (#[trigger] x@[i]).0@ == y@[i].0@ && same_definition(
                        x@[i].1,
                        y@[i].1,
                    )
            },
            (ConfigValue::Table(x, d), ConfigValue::Table(y, e)) => same_table(x, y)
                && same_definition(d, e),
            (ConfigValue::Boolean(x, d), ConfigValue::Boolean(y, e)) => x == y && same_definition(
                d,
                e,
            ),
            _ => false,
        },
{
}

/// Two tables are equal if they are as long, and each entry of the first has one with the same key
/// and an equal value in the second, in whatever place.
pub proof fn law_equal_tables(a: ConfigTable, b: ConfigTable)
    requires
        distinct(a@),
        distinct(b@),
    ensures
        same_table(a, b) <==> a@.len() == b@.len() && forall|i: int|
            0 <= i < a@.len() ==> exists|j: int|
                0 <= j < b@.len() && (#[trigger] b@[j]).0 == (#[trigger] a@[i]).0 && same_value(
                    a@[i].1,
                    b@[j].1,
                ),
{
    if same_table(a, b) {
        assert forall|i: int| 0 <= i < a@.len() implies exists|j: int|
            0 <= j < b@.len() && (#[trigger] b@[j]).0 == (#[trigger] a@[i]).0 && same_value(
                a@[i].1,
                b@[j].1,
            ) by {
            lemma_lookup(b@, a@[i].0);
            let j = choose|j: int| 0 <= j < b@.len() && (#[trigger] b@[j]).0 == a@[i].0;
            lemma_lookup_first(b@, j);
        }
    }
    if a@.len() == b@.len() && forall|i: int|
        0 <= i < a@.len() ==> exists|j: int|
            0 <= j < b@.len() && (#[trigger] b@[j]).0 == (#[trigger] a@[i]).0 && same_value(
                a@[i].1,
                b@[j].1,
            ) {
        assert forall|i: int| 0 <= i < a@.len() implies match lookup(b@, (#[trigger] a@[i]).0) {
            Some(value) => same_value(a@[i].1, value),
            None => false,
        } by {
            let j = choose|j: int|
                0 <= j < b@.len() && (#[trigger] b@[j]).0 == a@[i].0 && same_value(
                    a@[i].1,
                    b@[j].1,
                );
            lemma_lookup_first(b@, j);
        }
    }
}

} // verus!
