//! The packages of a workspace, and the selection of one of them.
//!
//! A `Repo` knows the options under which a workspace is looked at. Whatever has to be read from
//! disk or from a registry is handed to it: the resolution of the workspace, the packages that a
//! registry offers, the output of the compiler.
use vstd::prelude::*;
use vstd::string::StringExecFns;
use vstd::utf8::{decode_utf8, valid_utf8};

use crate::builder::{optional_text, BuilderView, GraphBuilder, Resolution, ResolvedPackage};
use crate::config::{is_pruned, prunable, prune_directory_source_replacements, ConfigTable};
use crate::graph::PackageId;
use crate::platform::{cfg_views, parse_cfgs, parsed_cfg, CfgError, CfgView};
use crate::text::{join, joined, lines, pieces, split, texts, Separator};
use crate::version::{
    decimal, decimal_text, law_precedence_total, law_precedence_transitive, precedence,
    same_version, version_order, version_text, version_to_string, Order, Version, VersionView,
};
use crate::walk::{CrateWalk, WalkView};

verus! {

/// Why a package could not be selected.
#[derive(Debug, PartialEq, Eq)]
pub enum RepoError {
    /// The selector names no package.
    NameNotGiven,
    /// The registry does not offer the package.
    NotOffered,
    /// The workspace does not depend on the package.
    NoDependency,
    /// Several packages were found, of these versions.
    Ambiguous(Vec<String>),
}

impl RepoError {
    /// The text of the error.
    pub open spec fn text(self) -> Seq<char> {
        match self {
            RepoError::NameNotGiven => "Crate name argument required"@,
            RepoError::NotOffered =>
                "Could not find requested crate. Try updating cargo's registry index cache?"@,
            RepoError::NoDependency =>
                "Could not find requested crate. Try `-u` if the crate is not a dependency."@,
            RepoError::Ambiguous(versions) => "Ambiguous selection: "@ + decimal(versions@.len())
                + " matches found: "@ + joined(texts(versions@), ", "@),
        }
    }

    /// The text of the error.
    pub fn message(&self) -> (message: String)
        ensures
            message@ == self.text(),
    {
        match self {
            RepoError::NameNotGiven => "Crate name argument required".to_string(),
            RepoError::NotOffered =>
                "Could not find requested crate. Try updating cargo's registry index cache?".to_string(),
            RepoError::NoDependency =>
                "Could not find requested crate. Try `-u` if the crate is not a dependency.".to_string(),
            RepoError::Ambiguous(versions) => {
                let mut message = "Ambiguous selection: ".to_string();
                message.append(decimal_text(versions.len()).as_str());
                message.append(" matches found: ");
                message.append(join(versions, ", ").as_str());
                message
            },
        }
    }
}

/// The options of a repository that bear on its dependencies.
#[derive(Debug, PartialEq, Eq)]
pub struct CargoOpts {
    /// The features to activate, with commas between them.
    pub features: Option<String>,
    pub all_features: bool,
    pub no_default_features: bool,
    pub no_dev_dependencies: bool,
    /// The target to look at: none for all targets, `Some(None)` for the host.
    pub target: Option<Option<String>>,
}

impl Default for CargoOpts {
    fn default() -> (opts: CargoOpts)
        ensures
            opts == (CargoOpts {
                features: None,
                all_features: false,
                no_default_features: false,
                no_dev_dependencies: false,
                target: None,
            }),
    {
        CargoOpts {
            features: None,
            all_features: false,
            no_default_features: false,
            no_dev_dependencies: false,
            target: None,
        }
    }
}

/// How the dependencies of a workspace are resolved.
#[derive(Debug, PartialEq, Eq)]
pub struct ResolveOptions {
    pub dev_deps: bool,
    pub features: Vec<String>,
    pub all_features: bool,
    pub uses_default_features: bool,
}

/// What a `Repo` holds.
#[verifier::ext_equal]
pub struct RepoView {
    pub features: Seq<Seq<char>>,
    pub all_features: bool,
    pub no_default_features: bool,
    pub no_dev_dependencies: bool,
    pub target: Option<Option<Seq<char>>>,
}

/// The text of the features of some options.
pub open spec fn features_text(opts: CargoOpts) -> Seq<char> {
    match opts.features {
        Some(features) => features@,
        None => Seq::empty(),
    }
}

impl RepoView {
    /// The repository that is opened with some options.
    pub open spec fn opened(opts: CargoOpts) -> RepoView {
        RepoView {
            features: pieces(features_text(opts), Separator::Comma),
            all_features: opts.all_features,
            no_default_features: opts.no_default_features,
            no_dev_dependencies: opts.no_dev_dependencies,
            target: match opts.target {
                Some(target) => Some(optional_text(target)),
                None => None,
            },
        }
    }

    /// The target to look at on a host, where it is not all of them.
    pub open spec fn target_on(self, host: Seq<char>) -> Option<Seq<char>> {
        match self.target {
            Some(Some(target)) => Some(target),
            Some(None) => Some(host),
            None => None,
        }
    }
}

/// A workspace, and how to look at it.
#[derive(Debug)]
pub struct Repo {
    cargo_opts: CargoOpts,
    features_list: Vec<String>,
}

impl View for Repo {
    type V = RepoView;

    closed spec fn view(&self) -> RepoView {
        RepoView {
            features: texts(self.features_list@),
            ..RepoView::opened(self.cargo_opts)
        }
    }
}

impl Repo {
    /// Opens a repository with the default options, and removes the directory sources from its
    /// configuration.
    pub fn auto_open_cwd_default(config: &mut ConfigTable) -> (repo: Result<Repo, RepoError>)
        requires
            prunable(old(config)@),
        ensures
            is_pruned(old(config)@, final(config)@),
            repo matches Ok(repo) && repo@ == (RepoView {
                features: Seq::empty(),
                all_features: false,
                no_default_features: false,
                no_dev_dependencies: false,
                target: None,
            }),
    {
        let repo = Repo::auto_open_cwd(Default::default(), config);
        assert(pieces(Seq::empty(), Separator::Comma) =~= Seq::empty());
        repo
    }

    /// Opens a repository, and removes the directory sources from its configuration. The features
    /// are those that are not empty.
    pub fn auto_open_cwd(cargo_opts: CargoOpts, config: &mut ConfigTable) -> (repo: Result<
        Repo,
        RepoError,
    >)
        requires
            prunable(old(config)@),
        ensures
            is_pruned(old(config)@, final(config)@),
            repo matches Ok(repo) && repo@ == RepoView::opened(cargo_opts),
    {
        match prune_directory_source_replacements(config) {
            Ok(_) => {},
            Err(error) => {
                return Err(error);
            },
        }
        let features_list = match &cargo_opts.features {
            Some(features) => split(features.as_str(), Separator::Comma),
            None => {
                assert(pieces(Seq::empty(), Separator::Comma) =~= Seq::empty());
                let none: Vec<String> = Vec::new();
                assert(texts(none@) =~= Seq::empty());
                none
            },
        };
        Ok(Repo { cargo_opts, features_list })
    }

    /// How to resolve the dependencies of the workspace.
    pub fn resolve_options(&self) -> (options: ResolveOptions)
        ensures
            options.dev_deps == !self@.no_dev_dependencies,
            texts(options.features@) == self@.features,
            options.all_features == self@.all_features,
            options.uses_default_features == !self@.no_default_features,
    {
        let mut features: Vec<String> = Vec::new();
        let mut i: usize = 0;
        while i < self.features_list.len()
            invariant
                i <= self.features_list.len(),
                texts(features@) == texts(self.features_list@).take(i as int),
            decreases self.features_list.len() - i,
        {
            let ghost before = texts(features@);
            features.push(self.features_list[i].clone());
            assert(texts(features@) =~= before.push(self.features_list@[i as int]@));
            assert(texts(self.features_list@).take(i + 1) =~= texts(self.features_list@).take(
                i as int,
            ).push(self.features_list@[i as int]@));
            i += 1;
        }
        assert(texts(self.features_list@).take(i as int) =~= texts(self.features_list@));
        ResolveOptions {
            dev_deps: !self.cargo_opts.no_dev_dependencies,
            features,
            all_features: self.cargo_opts.all_features,
            uses_default_features: !self.cargo_opts.no_default_features,
        }
    }

    /// The target to look at on a host, where it is not all of them.
    pub fn target(&self, host: &String) -> (target: Option<String>)
        ensures
            optional_text(target) == self@.target_on(host@),
    {
        match &self.cargo_opts.target {
            Some(Some(target)) => Some(target.clone()),
            Some(None) => Some(host.clone()),
            None => None,
        }
    }

    /// Starts the graph of what some packages of a resolution depend on. The compiler's output
    /// gives the configuration of the target.
    pub fn get_dependency_graph(
        &self,
        resolution: Resolution,
        roots: &Vec<PackageId>,
        host: &String,
        output: &Vec<u8>,
    ) -> (builder: Result<GraphBuilder, CfgError>)
        requires
            resolution.wf(),
            roots@.len() <= u32::MAX,
            forall|i: int| 0 <= i < roots@.len() ==> #[trigger] roots@[i]
                < resolution.packages@.len(),
            valid_utf8(output@),
        ensures
            ({
                let lines = lines(decode_utf8(output@));
                match builder {
                    Ok(builder) => {
                        &&& builder.wf()
                        &&& builder@ == BuilderView::start(
                            resolution,
                            roots@,
                            self@.target_on(host@),
                            builder@.cfgs,
                        )
                        &&& builder@.cfgs.len() == lines.len()
                        &&& forall|i: int|
                            0 <= i < lines.len() ==> parsed_cfg(#[trigger] lines[i]) == Ok::<
                                CfgView,
                                cargo_platform::ParseError,
                            >(builder@.cfgs[i])
                        &&& builder@.is_exact()
                    },
                    Err(error) => {
                        &&& error.line < lines.len()
                        &&& parsed_cfg(lines[error.line as int]) == Err::<
                            CfgView,
                            cargo_platform::ParseError,
                        >(error.error)
                        &&& forall|i: int|
                            0 <= i < error.line ==> parsed_cfg(#[trigger] lines[i]) is Ok
                    },
                }
            }),
    {
        match parse_cfgs(output) {
            Ok(cfgs) => {
                assert forall|i: int| 0 <= i < cfgs@.len() implies cfg_views(cfgs@)[i]
                    == #[trigger] cfgs@[i]@ by {}
                Ok(GraphBuilder::new(resolution, roots, self.target(host), cfgs))
            },
            Err(error) => Err(error),
        }
    }
}

/// The model of an optional version.
pub open spec fn optional_version(version: Option<&Version>) -> Option<VersionView> {
    match version {
        Some(version) => Some(version@),
        None => None,
    }
}

/// The first `count` packages that come from a registry, in order.
pub open spec fn non_local(packages: Seq<ResolvedPackage>, count: nat) -> Seq<PackageId>
    decreases count,
{
    if count == 0 {
        Seq::empty()
    } else {
        let before = non_local(packages, (count - 1) as nat);
        if packages[count - 1].is_registry {
            before.push((count - 1) as usize)
        } else {
            before
        }
    }
}

/// A package has that name, and that version if one is given.
pub open spec fn is_selected(
    package: ResolvedPackage,
    name: Seq<char>,
    version: Option<VersionView>,
) -> bool {
    &&& package.name@ == name
    &&& version matches Some(version) ==> same_version(version, package.version@)
}

/// The packages from a registry that have that name, and that version if one is given, in order.
pub open spec fn selected(
    packages: Seq<ResolvedPackage>,
    name: Seq<char>,
    version: Option<VersionView>,
) -> Seq<PackageId> {
    non_local(packages, packages.len()).filter(
        |id: PackageId| is_selected(packages[id as int], name, version),
    )
}

/// The texts of the versions of some packages.
pub open spec fn version_texts(packages: Seq<ResolvedPackage>, ids: Seq<PackageId>) -> Seq<
    Seq<char>,
> {
    ids.map_values(|id: PackageId| version_text(packages[id as int].version@))
}

/// `found` is the one package that is selected, or none, or the error that there are several.
pub open spec fn finds_dependency(
    packages: Seq<ResolvedPackage>,
    name: Seq<char>,
    version: Option<VersionView>,
    found: Result<Option<PackageId>, RepoError>,
) -> bool {
    let ids = selected(packages, name, version);
    match found {
        Ok(None) => ids.len() == 0,
        Ok(Some(id)) => ids == seq![id],
        Err(RepoError::Ambiguous(versions)) => {
            &&& ids.len() > 1
            &&& texts(versions@) == version_texts(packages, ids)
        },
        Err(_) => false,
    }
}

proof fn lemma_non_local(packages: Seq<ResolvedPackage>, count: nat)
    requires
        count <= packages.len(),
        count <= usize::MAX,
    ensures
        forall|i: int|
            0 <= i < non_local(packages, count).len() ==> #[trigger] non_local(packages, count)[i]
                < count,
        forall|id: PackageId| #[trigger]
            non_local(packages, count).contains(id) <==> id < count
                && packages[id as int].is_registry,
    decreases count,
{
    if count > 0 {
        lemma_non_local(packages, (count - 1) as nat);
        let before = non_local(packages, (count - 1) as nat);
        let all = non_local(packages, count);
        assert forall|id: PackageId| #[trigger] all.contains(id) <==> id < count
            && packages[id as int].is_registry by {
            if before.contains(id) {
                assert(all[before.index_of(id)] == id);
            }
            if packages[count - 1].is_registry {
                assert(all == before.push((count - 1) as usize));
                assert(all[before.len() as int] == (count - 1) as usize);
                if all.contains(id) && id != (count - 1) as usize {
                    assert(before[all.index_of(id)] == id);
                }
            }
        }
    }
}

impl Repo {
    /// Starts a walk over the packages of a resolution that come from a registry, in order. They
    /// have to lie on disk, and the walk ends at the first error.
    pub fn for_every_non_local_dep_crate<E>(&self, resolution: &Resolution) -> (walk: CrateWalk<E>)
        ensures
            walk@ == WalkView::<E>::start(
                non_local(resolution.packages@, resolution.packages@.len()),
                true,
            ),
    {
        CrateWalk::new(self.for_every_non_local_dep_crate_id(resolution), true)
    }

    /// The packages of a resolution that come from a registry, in order.
    pub fn for_every_non_local_dep_crate_id(&self, resolution: &Resolution) -> (ids: Vec<PackageId>)
        ensures
            ids@ == non_local(resolution.packages@, resolution.packages@.len()),
    {
        let mut ids: Vec<PackageId> = Vec::new();
        let mut i: usize = 0;
        while i < resolution.packages.len()
            invariant
                i <= resolution.packages.len(),
                ids@ == non_local(resolution.packages@, i as nat),
            decreases resolution.packages.len() - i,
        {
            if resolution.packages[i].is_registry {
                ids.push(i);
            }
            i += 1;
        }
        ids
    }

    /// The package from a registry that the workspace depends on and that has that name, and that
    /// version if one is given.
    pub fn find_dependency_pkg_id_by_selector(
        &self,
        resolution: &Resolution,
        name: &String,
        version: Option<&Version>,
    ) -> (found: Result<Option<PackageId>, RepoError>)
        ensures
            finds_dependency(resolution.packages@, name@, optional_version(version), found),
    {
        let ids = self.for_every_non_local_dep_crate_id(resolution);
        let ghost packages = resolution.packages@;
        let ghost wanted = optional_version(version);
        let ghost kept = |id: PackageId| is_selected(packages[id as int], name@, wanted);
        let mut found: Vec<PackageId> = Vec::new();
        let mut i: usize = 0;
        proof {
            assert(packages.len() == resolution.packages.len());
            lemma_non_local(packages, packages.len());
            reveal(Seq::filter);
        }
        while i < ids.len()
            invariant
                i <= ids.len(),
                packages == resolution.packages@,
                wanted == optional_version(version),
                kept == (|id: PackageId| is_selected(packages[id as int], name@, wanted)),
                forall|k: int| 0 <= k < ids@.len() ==> #[trigger] ids@[k] < packages.len(),
                found@ == ids@.take(i as int).filter(kept),
                forall|k: int| 0 <= k < found@.len() ==> #[trigger] found@[k] < packages.len(),
            decreases ids.len() - i,
        {
            let id = ids[i];
            let package = &resolution.packages[id];
            let matches_version = match version {
                Some(version) => version.same_as(&package.version),
                None => true,
            };
            proof {
                reveal(Seq::filter);
                assert(ids@.take(i + 1).drop_last() =~= ids@.take(i as int));
                assert(ids@.take(i + 1).last() == id);
            }
            if package.name == *name && matches_version {
                found.push(id);
            }
            i += 1;
        }
        assert(ids@.take(ids@.len() as int) =~= ids@);
        let ghost chosen = selected(packages, name@, wanted);
        assert(found@ == chosen);
        if found.len() == 0 {
            return Ok(None);
        }
        if found.len() == 1 {
            assert(chosen =~= seq![found@[0]]);
            return Ok(Some(found[0]));
        }
        let mut versions: Vec<String> = Vec::new();
        i = 0;
        while i < found.len()
            invariant
                i <= found.len(),
                packages == resolution.packages@,
                forall|k: int| 0 <= k < found@.len() ==> #[trigger] found@[k] < packages.len(),
                texts(versions@) == version_texts(packages, found@).take(i as int),
            decreases found.len() - i,
        {
            let ghost before = texts(versions@);
            versions.push(version_to_string(&resolution.packages[found[i]].version));
            assert(texts(versions@) =~= before.push(versions@.last()@));
            assert(version_texts(packages, found@).take(i + 1) =~= before.push(
                version_text(packages[found@[i as int] as int].version@),
            ));
            i += 1;
        }
        assert(version_texts(packages, found@).take(found@.len() as int) =~= version_texts(
            packages,
            found@,
        ));
        Err(RepoError::Ambiguous(versions))
    }
}

/// A package that a registry offers.
#[derive(Debug, PartialEq, Eq)]
pub struct Candidate {
    pub id: PackageId,
    pub version: Version,
}

/// The models of the versions of some candidates.
pub open spec fn candidate_versions(candidates: Seq<Candidate>) -> Seq<VersionView> {
    candidates.map_values(|candidate: Candidate| candidate.version@)
}

/// The version at `position` is the first that is the same as `version`.
pub open spec fn is_first_of(
    versions: Seq<VersionView>,
    version: VersionView,
    position: int,
) -> bool {
    &&& 0 <= position < versions.len()
    &&& same_version(versions[position], version)
    &&& forall|i: int| 0 <= i < position ==> !same_version(#[trigger] versions[i], version)
}

/// No version precedes over the one at `position`, and it is the last such.
pub open spec fn is_latest(versions: Seq<VersionView>, position: int) -> bool {
    &&& 0 <= position < versions.len()
    &&& forall|i: int|
        0 <= i < versions.len() ==> precedence(#[trigger] versions[i], versions[position])
            != Order::Greater
    &&& forall|i: int|
        position < i < versions.len() ==> precedence(#[trigger] versions[i], versions[position])
            == Order::Less
}

/// The version at `position` is the one to take: the first that is the same as `version`, or the
/// latest where none is given.
pub open spec fn is_choice(
    versions: Seq<VersionView>,
    version: Option<VersionView>,
    position: int,
) -> bool {
    match version {
        Some(version) => is_first_of(versions, version, position),
        None => is_latest(versions, position),
    }
}

/// `found` is the candidate to take, or there is none.
pub open spec fn finds_candidate(
    candidates: Seq<Candidate>,
    version: Option<VersionView>,
    found: Option<PackageId>,
) -> bool {
    let versions = candidate_versions(candidates);
    match found {
        Some(id) => exists|position: int| #[trigger]
            is_choice(versions, version, position) && candidates[position].id == id,
        None => forall|position: int| !#[trigger] is_choice(versions, version, position),
    }
}

/// There is at most one version to take.
pub proof fn law_choice_is_unique(
    versions: Seq<VersionView>,
    version: Option<VersionView>,
    a: int,
    b: int,
)
    requires
        is_choice(versions, version, a),
        is_choice(versions, version, b),
    ensures
        a == b,
{
    if version is None {
        law_precedence_total(versions[a], versions[b]);
    }
}

/// Where no version is given there is one to take, unless nothing is offered.
pub proof fn law_choice_exists(versions: Seq<VersionView>) -> (position: int)
    requires
        versions.len() > 0,
    ensures
        is_choice(versions, None, position),
    decreases versions.len(),
{
    let last = versions.last();
    law_precedence_total(last, last);
    if versions.len() == 1 {
        0
    } else {
        let rest = versions.drop_last();
        let best = law_choice_exists(rest);
        if precedence(last, rest[best]) == Order::Less {
            assert forall|i: int| 0 <= i < versions.len() implies precedence(
                #[trigger] versions[i],
                versions[best],
            ) != Order::Greater by {
                if i < rest.len() {
                    assert(rest[i] == versions[i]);
                }
            }
            assert forall|i: int| best < i < versions.len() implies precedence(
                #[trigger] versions[i],
                versions[best],
            ) == Order::Less by {
                if i < rest.len() {
                    assert(rest[i] == versions[i]);
                }
            }
            best
        } else {
            let position = versions.len() - 1;
            assert forall|i: int| 0 <= i < versions.len() implies precedence(
                #[trigger] versions[i],
                versions[position],
            ) != Order::Greater by {
                if i < rest.len() {
                    assert(rest[i] == versions[i]);
                    law_precedence_total(last, rest[best]);
                    law_precedence_total(rest[best], last);
                    law_precedence_transitive(rest[i], rest[best], last);
                }
            }
            position
        }
    }
}

/// How a registry is asked for a package.
#[derive(Debug, PartialEq, Eq)]
pub struct RegistryRequest {
    /// The requirement on the version.
    pub requirement: Option<String>,
    /// Whether the package is to be found though it was yanked.
    pub allow_yanked: bool,
}

impl Repo {
    /// How to ask a registry for a package, of that version if one is given.
    pub fn registry_request(&self, version: Option<&Version>) -> (request: RegistryRequest)
        ensures
            optional_text(request.requirement) == match version {
                Some(version) => Some(version_text(version@)),
                None => None,
            },
            request.allow_yanked == version is Some,
    {
        match version {
            Some(version) => RegistryRequest {
                requirement: Some(version_to_string(version)),
                allow_yanked: true,
            },
            None => RegistryRequest { requirement: None, allow_yanked: false },
        }
    }

    /// The candidate of that version, or the latest where none is given.
    pub fn find_independent_pkg_id_by_selector(
        &self,
        candidates: &Vec<Candidate>,
        version: Option<&Version>,
    ) -> (found: Option<PackageId>)
        ensures
            finds_candidate(candidates@, optional_version(version), found),
    {
        let ghost versions = candidate_versions(candidates@);
        match version {
            Some(exact) => {
                let mut i: usize = 0;
                while i < candidates.len()
                    invariant
                        versions == candidate_versions(candidates@),
                        version == Some(exact),
                        i <= candidates.len(),
                        forall|k: int|
                            0 <= k < i ==> !same_version(#[trigger] versions[k], exact@),
                    decreases candidates.len() - i,
                {
                    assert(versions[i as int] == candidates@[i as int].version@);
                    if candidates[i].version.same_as(exact) {
                        assert(is_choice(versions, Some(exact@), i as int));
                        return Some(candidates[i].id);
                    }
                    i += 1;
                }
                None
            },
            None => {
                if candidates.len() == 0 {
                    return None;
                }
                let mut best: usize = 0;
                let mut i: usize = 1;
                proof {
                    law_precedence_total(versions[0], versions[0]);
                }
                while i < candidates.len()
                    invariant
                        versions == candidate_versions(candidates@),
                        best < i <= candidates.len(),
                        is_latest(versions.take(i as int), best as int),
                    decreases candidates.len() - i,
                {
                    let ghost before = versions.take(i as int);
                    let ghost after = versions.take(i + 1);
                    let ghost old_best = best as int;
                    assert(versions[i as int] == candidates@[i as int].version@);
                    assert(versions[best as int] == candidates@[best as int].version@);
                    let order = version_order(&candidates[i].version, &candidates[best].version);
                    if order != Order::Less {
                        best = i;
                    }
                    proof {
                        law_precedence_total(versions[i as int], versions[i as int]);
                        assert forall|k: int| 0 <= k < after.len() implies precedence(
                            #[trigger] after[k],
                            after[best as int],
                        ) != Order::Greater by {
                            if k < i {
                                assert(before[k] == after[k]);
                                law_precedence_total(versions[i as int], versions[old_best]);
                                law_precedence_total(versions[old_best], versions[i as int]);
                                if order != Order::Less {
                                    law_precedence_transitive(
                                        before[k],
                                        versions[old_best],
                                        versions[i as int],
                                    );
                                }
                            }
                        }
                        assert forall|k: int| best < k < after.len() implies precedence(
                            #[trigger] after[k],
                            after[best as int],
                        ) == Order::Less by {
                            if k < i {
                                assert(before[k] == after[k]);
                            }
                        }
                    }
                    i += 1;
                }
                assert(versions.take(i as int) =~= versions);
                assert(is_choice(versions, None, best as int));
                Some(candidates[best].id)
            },
        }
    }
}

/// Which package is meant.
#[derive(Debug, PartialEq, Eq)]
pub struct CrateSelector {
    pub name: Option<String>,
    pub version: Option<Version>,
    /// Whether the package is looked for in the registry, not among the dependencies.
    pub unrelated: bool,
}

/// What has to be looked up before a package can be selected.
#[derive(Clone, Copy, Debug, PartialEq, Eq, Structural)]
pub enum Inquiry {
    /// The members of the workspace.
    Members,
    /// The resolution of the workspace.
    Dependencies,
    /// What a registry offers under a name.
    Candidates,
}

/// What was looked up.
#[derive(Debug, PartialEq, Eq)]
pub enum Known {
    Members(Vec<PackageId>),
    Dependencies(Resolution),
    Candidates(Vec<Candidate>),
}

impl Known {
    /// This is what was asked for.
    pub open spec fn answers(self, inquiry: Inquiry) -> bool {
        match inquiry {
            Inquiry::Members => self is Members,
            Inquiry::Dependencies => self is Dependencies,
            Inquiry::Candidates => self is Candidates,
        }
    }

    /// `found` is the package of that name and version, or the error that there is none, or that
    /// there are several.
    pub open spec fn gives(
        self,
        name: Seq<char>,
        version: Option<VersionView>,
        found: Result<PackageId, RepoError>,
    ) -> bool {
        match self {
            Known::Members(_) => false,
            Known::Dependencies(resolution) => {
                let packages = resolution.packages@;
                let ids = selected(packages, name, version);
                match found {
                    Ok(id) => ids == seq![id],
                    Err(RepoError::NoDependency) => ids.len() == 0,
                    Err(RepoError::Ambiguous(versions)) => {
                        &&& ids.len() > 1
                        &&& texts(versions@) == version_texts(packages, ids)
                    },
                    Err(_) => false,
                }
            },
            Known::Candidates(candidates) => {
                let versions = candidate_versions(candidates@);
                match found {
                    Ok(id) => exists|position: int| #[trigger]
                        is_choice(versions, version, position) && candidates@[position].id == id,
                    Err(RepoError::NotOffered) => forall|position: int| !#[trigger] is_choice(
                        versions,
                        version,
                        position,
                    ),
                    Err(_) => false,
                }
            },
        }
    }
}

impl CrateSelector {
    /// Where the package is looked for.
    pub open spec fn inquiry(self) -> Inquiry {
        if self.unrelated {
            Inquiry::Candidates
        } else {
            Inquiry::Dependencies
        }
    }

    /// What the roots of a graph are found from: where no package is named, all members of the
    /// workspace are roots.
    pub open spec fn roots_inquiry(self) -> Inquiry {
        if self.name is Some {
            self.inquiry()
        } else {
            Inquiry::Members
        }
    }

    /// Fails where the selector names no package.
    pub fn ensure_name_given(&self) -> (given: Result<(), RepoError>)
        ensures
            match given {
                Ok(_) => self.name is Some,
                Err(error) => self.name is None && error == RepoError::NameNotGiven,
            },
    {
        match self.name {
            Some(_) => Ok(()),
            None => Err(RepoError::NameNotGiven),
        }
    }
}

/// The model of the version that a selector gives.
pub open spec fn selector_version(version: Option<Version>) -> Option<VersionView> {
    match version {
        Some(version) => Some(version@),
        None => None,
    }
}

impl Repo {
    /// What to look up for the package that a selector names.
    pub fn inquire(&self, unrelated: bool) -> (inquiry: Inquiry)
        ensures
            inquiry == if unrelated {
                Inquiry::Candidates
            } else {
                Inquiry::Dependencies
            },
    {
        if unrelated {
            Inquiry::Candidates
        } else {
            Inquiry::Dependencies
        }
    }

    /// What to look up for the roots that a selector gives.
    pub fn inquire_roots(&self, sel: &CrateSelector) -> (inquiry: Inquiry)
        ensures
            inquiry == sel.roots_inquiry(),
    {
        match sel.name {
            Some(_) => self.inquire(sel.unrelated),
            None => Inquiry::Members,
        }
    }

    /// The package of that name, and of that version if one is given: from the registry where it is
    /// unrelated to the workspace, else from the dependencies.
    pub fn find_pkgid(
        &self,
        known: &Known,
        name: &String,
        version: Option<&Version>,
        unrelated: bool,
    ) -> (found: Result<PackageId, RepoError>)
        requires
            known.answers(
                if unrelated {
                    Inquiry::Candidates
                } else {
                    Inquiry::Dependencies
                },
            ),
        ensures
            known.gives(name@, optional_version(version), found),
    {
        match known {
            Known::Members(_) => Err(RepoError::NameNotGiven),
            Known::Candidates(candidates) => {
                match self.find_independent_pkg_id_by_selector(candidates, version) {
                    Some(id) => Ok(id),
                    None => Err(RepoError::NotOffered),
                }
            },
            Known::Dependencies(resolution) => {
                match self.find_dependency_pkg_id_by_selector(resolution, name, version) {
                    Ok(Some(id)) => Ok(id),
                    Ok(None) => Err(RepoError::NoDependency),
                    Err(error) => Err(error),
                }
            },
        }
    }

    /// The package that a selector means.
    pub fn find_pkgid_by_crate_selector(&self, sel: &CrateSelector, known: &Known) -> (found: Result<
        PackageId,
        RepoError,
    >)
        requires
            sel.name is Some ==> known.answers(sel.inquiry()),
        ensures
            match sel.name {
                Some(name) => known.gives(name@, selector_version(sel.version), found),
                None => found == Err::<PackageId, RepoError>(RepoError::NameNotGiven),
            },
    {
        match &sel.name {
            Some(name) => self.find_pkgid(known, name, sel.version.as_ref(), sel.unrelated),
            None => Err(RepoError::NameNotGiven),
        }
    }

    /// The packages that a graph is to start from: the one that the selector names, or all members
    /// of the workspace.
    pub fn find_roots_by_crate_selector(&self, sel: &CrateSelector, known: Known) -> (roots: Result<
        Vec<PackageId>,
        RepoError,
    >)
        requires
            known.answers(sel.roots_inquiry()),
        ensures
            match sel.name {
                Some(name) => match roots {
                    Ok(roots) => {
                        &&& roots@.len() == 1
                        &&& known.gives(name@, selector_version(sel.version), Ok(roots@[0]))
                    },
                    Err(error) => known.gives(
                        name@,
                        selector_version(sel.version),
                        Err(error),
                    ),
                },
                None => roots matches Ok(roots) && known == Known::Members(roots),
            },
    {
        match &sel.name {
            Some(_) => match self.find_pkgid_by_crate_selector(sel, &known) {
                Ok(id) => {
                    let mut roots: Vec<PackageId> = Vec::new();
                    roots.push(id);
                    Ok(roots)
                },
                Err(error) => Err(error),
            },
            None => match known {
                Known::Members(members) => Ok(members),
                _ => Err(RepoError::NameNotGiven),
            },
        }
    }
}

/// The packages that are visited are those of a resolution that come from a registry, each once and
/// in ascending order.
pub proof fn law_non_local(packages: Seq<ResolvedPackage>)
    requires
        packages.len() <= usize::MAX,
    ensures
        ({
            let ids = non_local(packages, packages.len());
            &&& forall|i: int, j: int|
                0 <= i < j < ids.len() ==> #[trigger] ids[i] < #[trigger] ids[j]
            &&& ids.no_duplicates()
            &&& forall|id: PackageId| #[trigger]
                ids.contains(id) <==> id < packages.len() && packages[id as int].is_registry
        }),
{
    lemma_non_local(packages, packages.len());
    lemma_non_local_ascends(packages, packages.len());
}

proof fn lemma_non_local_ascends(packages: Seq<ResolvedPackage>, count: nat)
    requires
        count <= packages.len(),
        count <= usize::MAX,
    ensures
        forall|i: int, j: int|
            0 <= i < j < non_local(packages, count).len() ==> #[trigger] non_local(
                packages,
                count,
            )[i] < #[trigger] non_local(packages, count)[j],
    decreases count,
{
    if count > 0 {
        let before = non_local(packages, (count - 1) as nat);
        let all = non_local(packages, count);
        lemma_non_local_ascends(packages, (count - 1) as nat);
        lemma_non_local(packages, (count - 1) as nat);
        assert forall|i: int, j: int| 0 <= i < j < all.len() implies #[trigger] all[i]
            < #[trigger] all[j] by {
            assert(all[i] == before[i]);
            if j < before.len() {
                assert(all[j] == before[j]);
            }
        }
    }
}

/// The packages that are selected with a version are among those that are selected without.
pub proof fn law_version_narrows(
    packages: Seq<ResolvedPackage>,
    name: Seq<char>,
    version: VersionView,
    id: PackageId,
)
    requires
        selected(packages, name, Some(version)).contains(id),
    ensures
        selected(packages, name, None).contains(id),
{
    let ids = non_local(packages, packages.len());
    let with = |id: PackageId| is_selected(packages[id as int], name, Some(version));
    let without = |id: PackageId| is_selected(packages[id as int], name, None);
    ids.lemma_filter_contains_rev(with, id);
    let chosen = ids.filter(with);
    ids.lemma_filter_pred(with, chosen.index_of(id));
    ids.lemma_filter_contains(without, ids.index_of(id));
}

/// A package is selected if and only if it comes from a registry, has the name, and has the version
/// where one is given.
pub proof fn law_selected(
    packages: Seq<ResolvedPackage>,
    name: Seq<char>,
    version: Option<VersionView>,
    id: PackageId,
)
    requires
        packages.len() <= usize::MAX,
    ensures
        selected(packages, name, version).contains(id) <==> {
            &&& id < packages.len()
            &&& packages[id as int].is_registry
            &&& is_selected(packages[id as int], name, version)
        },
{
    let ids = non_local(packages, packages.len());
    let kept = |id: PackageId| is_selected(packages[id as int], name, version);
    let chosen = ids.filter(kept);
    lemma_non_local(packages, packages.len());
    if chosen.contains(id) {
        ids.lemma_filter_contains_rev(kept, id);
        ids.lemma_filter_pred(kept, chosen.index_of(id));
    }
    if ids.contains(id) && kept(id) {
        ids.lemma_filter_contains(kept, ids.index_of(id));
    }
}

/// A package that is found by its name alone is also found by its name and its version.
pub proof fn law_found_again_with_version(
    resolution: Resolution,
    name: Seq<char>,
    id: PackageId,
)
    requires
        resolution.packages@.len() <= usize::MAX,
        Known::Dependencies(resolution).gives(name, None, Ok(id)),
    ensures
        Known::Dependencies(resolution).gives(
            name,
            Some(resolution.packages@[id as int].version@),
            Ok(id),
        ),
{
    let packages = resolution.packages@;
    let version = packages[id as int].version@;
    let ids = non_local(packages, packages.len());
    let with = |id: PackageId| is_selected(packages[id as int], name, Some(version));
    let without = |id: PackageId| is_selected(packages[id as int], name, None);
    lemma_filter_of_filter(ids, without, with);
    assert(seq![id].filter(with) =~= seq![id]) by {
        assert(selected(packages, name, None)[0] == id);
        ids.lemma_filter_pred(without, 0);
        reveal_with_fuel(Seq::filter, 2);
        assert(seq![id].drop_last() =~= Seq::empty());
    }
}

/// Filtering by a condition first that a second one contains makes no difference.
proof fn lemma_filter_of_filter(
    ids: Seq<PackageId>,
    wide: spec_fn(PackageId) -> bool,
    narrow: spec_fn(PackageId) -> bool,
)
    requires
        forall|id: PackageId| #[trigger] narrow(id) ==> wide(id),
    ensures
        ids.filter(wide).filter(narrow) == ids.filter(narrow),
    decreases ids.len(),
{
    reveal(Seq::filter);
    if ids.len() > 0 {
        let rest = ids.drop_last();
        lemma_filter_of_filter(rest, wide, narrow);
        if wide(ids.last()) {
            assert(rest.filter(wide).push(ids.last()).drop_last() =~= rest.filter(wide));
        }
    }
}

/// A package comes from a registry, has the name, and has the numbers and the pre-release of the
/// version where one is given.
pub open spec fn is_wanted(
    package: ResolvedPackage,
    name: Seq<char>,
    version: Option<VersionView>,
) -> bool {
    &&& package.is_registry
    &&& package.name@ == name
    &&& match version {
        Some(version) => {
            &&& package.version.major == version.major
            &&& package.version.minor == version.minor
            &&& package.version.patch == version.patch
            &&& package.version@.pre == version.pre
        },
        None => true,
    }
}

proof fn lemma_filter_ascends(ids: Seq<PackageId>, kept: spec_fn(PackageId) -> bool)
    requires
        forall|i: int, j: int| 0 <= i < j < ids.len() ==> #[trigger] ids[i] < #[trigger] ids[j],
    ensures
        forall|i: int, j: int|
            0 <= i < j < ids.filter(kept).len() ==> #[trigger] ids.filter(kept)[i]
                < #[trigger] ids.filter(kept)[j],
    decreases ids.len(),
{
    reveal(Seq::filter);
    if ids.len() > 0 {
        let rest = ids.drop_last();
        let head = rest.filter(kept);
        let all = ids.filter(kept);
        lemma_filter_ascends(rest, kept);
        assert forall|i: int, j: int| 0 <= i < j < all.len() implies #[trigger] all[i]
            < #[trigger] all[j] by {
            assert(all[i] == head[i]);
            if j < head.len() {
                assert(all[j] == head[j]);
            } else {
                rest.lemma_filter_contains_rev(kept, head[i]);
                let k = rest.index_of(head[i]);
                assert(ids[k] < ids[ids.len() - 1]);
            }
        }
    }
}

/// A dependency is found if and only if exactly one package is wanted, and it is that package.
/// Where several are, the error tells the version of each, in order. A package of another name,
/// with another number or pre-release, or from elsewhere than a registry, is never found.
pub proof fn law_dependency_found(
    packages: Seq<ResolvedPackage>,
    name: Seq<char>,
    version: Option<VersionView>,
    found: Result<Option<PackageId>, RepoError>,
)
    requires
        packages.len() <= usize::MAX,
        finds_dependency(packages, name, version, found),
    ensures
        found matches Ok(Some(id)) ==> {
            &&& id < packages.len()
            &&& is_wanted(packages[id as int], name, version)
            &&& forall|other: int|
                0 <= other < packages.len() && is_wanted(
                    #[trigger] packages[other],
                    name,
                    version,
                ) ==> other == id
        },
        found matches Ok(None) ==> forall|other: int|
            0 <= other < packages.len() ==> !is_wanted(#[trigger] packages[other], name, version),
        found matches Err(error) ==> {
            &&& error matches RepoError::Ambiguous(versions)
            &&& exists|ids: Seq<PackageId>| #[trigger]
                are_all_wanted(packages, name, version, ids) && ids.len() == versions@.len()
                    && ids.len() > 1 && forall|k: int|
                    0 <= k < ids.len() ==> (#[trigger] versions@[k])@ == version_text(
                        packages[ids[k] as int].version@,
                    )
        },
{
    let ids = selected(packages, name, version);
    let all = non_local(packages, packages.len());
    law_non_local(packages);
    lemma_filter_ascends(all, |id: PackageId| is_selected(packages[id as int], name, version));
    assert forall|id: int| 0 <= id < packages.len() implies (ids.contains(id as usize)
        <==> is_wanted(#[trigger] packages[id], name, version)) by {
        law_selected(packages, name, version, id as usize);
    }
    assert forall|k: int| 0 <= k < ids.len() implies (#[trigger] ids[k]) < packages.len()
        && is_wanted(packages[ids[k] as int], name, version) by {
        assert(ids.contains(ids[k]));
        law_selected(packages, name, version, ids[k]);
        assert(is_wanted(packages[ids[k] as int], name, version));
    }
    if let Ok(Some(id)) = found {
        assert(ids[0] == id);
        assert forall|other: int|
            0 <= other < packages.len() && is_wanted(
                #[trigger] packages[other],
                name,
                version,
            ) implies other == id by {
            assert(ids.contains(other as usize));
            assert(ids[ids.index_of(other as usize)] == other as usize);
        }
    }
    if let Ok(None) = found {
        assert forall|other: int| 0 <= other < packages.len() implies !is_wanted(
            #[trigger] packages[other],
            name,
            version,
        ) by {
            if ids.contains(other as usize) {
                assert(ids[ids.index_of(other as usize)] == other as usize);
            }
        }
    }
    if let Err(RepoError::Ambiguous(versions)) = found {
        assert(texts(versions@).len() == versions@.len());
        assert(version_texts(packages, ids).len() == ids.len());
        assert forall|k: int| 0 <= k < ids.len() implies (#[trigger] versions@[k])@ == version_text(
            packages[ids[k] as int].version@,
        ) by {
            assert(texts(versions@)[k] == versions@[k]@);
            assert(version_texts(packages, ids)[k] == version_text(
                packages[ids[k] as int].version@,
            ));
        }
        assert(are_all_wanted(packages, name, version, ids));
    }
}

/// These are the packages that are wanted, in ascending order.
pub open spec fn are_all_wanted(
    packages: Seq<ResolvedPackage>,
    name: Seq<char>,
    version: Option<VersionView>,
    ids: Seq<PackageId>,
) -> bool {
    &&& forall|i: int, j: int| 0 <= i < j < ids.len() ==> #[trigger] ids[i] < #[trigger] ids[j]
    &&& forall|k: int| 0 <= k < ids.len() ==> (#[trigger] ids[k]) < packages.len()
    &&& forall|id: int|
        0 <= id < packages.len() ==> (ids.contains(id as usize) <==> is_wanted(
            #[trigger] packages[id],
            name,
            version,
        ))
}

/// A candidate has these numbers and this pre-release.
pub open spec fn has_version(candidate: Candidate, version: VersionView) -> bool {
    &&& candidate.version.major == version.major
    &&& candidate.version.minor == version.minor
    &&& candidate.version.patch == version.patch
    &&& candidate.version@.pre == version.pre
}

/// Where a version is given, the candidate that is found is the first with its numbers and its
/// pre-release, and nothing is found where no candidate has these.
pub proof fn law_candidate_of_version_found(
    candidates: Seq<Candidate>,
    version: VersionView,
    found: Option<PackageId>,
)
    requires
        finds_candidate(candidates, Some(version), found),
    ensures
        found matches Some(id) ==> exists|position: int|
            0 <= position < candidates.len() && (#[trigger] candidates[position]).id == id
                && has_version(candidates[position], version) && forall|i: int|
                0 <= i < position ==> !has_version(#[trigger] candidates[i], version),
        found is None ==> forall|i: int|
            0 <= i < candidates.len() ==> !has_version(#[trigger] candidates[i], version),
{
    let versions = candidate_versions(candidates);
    assert forall|i: int| 0 <= i < candidates.len() implies (has_version(
        #[trigger] candidates[i],
        version,
    ) <==> same_version(versions[i], version)) by {
        assert(versions[i] == candidates[i].version@);
    }
    if let Some(id) = found {
        let position = choose|position: int| #[trigger]
            is_choice(versions, Some(version), position) && candidates[position].id == id;
        assert(candidates[position].id == id);
        assert forall|i: int| 0 <= i < position implies !has_version(
            #[trigger] candidates[i],
            version,
        ) by {
            assert(!same_version(versions[i], version));
        }
    } else {
        if exists|i: int|
            0 <= i < candidates.len() && has_version(#[trigger] candidates[i], version) {
            let i = choose|i: int|
                0 <= i < candidates.len() && has_version(#[trigger] candidates[i], version);
            let first = lemma_first_of(versions, version, i);
            assert(is_choice(versions, Some(version), first));
        }
    }
}

proof fn lemma_first_of(versions: Seq<VersionView>, version: VersionView, i: int) -> (first: int)
    requires
        0 <= i < versions.len(),
        same_version(versions[i], version),
    ensures
        is_first_of(versions, version, first),
    decreases i,
{
    if exists|k: int| 0 <= k < i && same_version(#[trigger] versions[k], version) {
        let k = choose|k: int| 0 <= k < i && same_version(#[trigger] versions[k], version);
        lemma_first_of(versions, version, k)
    } else {
        i
    }
}

/// Where no version is given, the candidate that is found is one that none precedes over, and all
/// that come after it are lower. Nothing is found where there are no candidates.
pub proof fn law_latest_candidate_found(candidates: Seq<Candidate>, found: Option<PackageId>)
    requires
        finds_candidate(candidates, None, found),
    ensures
        found matches Some(id) ==> exists|position: int|
            0 <= position < candidates.len() && (#[trigger] candidates[position]).id == id
                && forall|i: int|
                0 <= i < candidates.len() ==> {
                    let order = precedence(
                        (#[trigger] candidates[i]).version@,
                        candidates[position].version@,
                    );
                    order != Order::Greater && (i > position ==> order == Order::Less)
                },
        found is None ==> candidates.len() == 0,
{
    let versions = candidate_versions(candidates);
    assert forall|i: int| 0 <= i < candidates.len() implies #[trigger] candidates[i].version@
        == versions[i] by {}
    if let Some(id) = found {
        let position = choose|position: int| #[trigger]
            is_choice(versions, None, position) && candidates[position].id == id;
        assert(candidates[position].id == id);
        assert forall|i: int| 0 <= i < candidates.len() implies {
            let order = precedence(
                (#[trigger] candidates[i]).version@,
                candidates[position].version@,
            );
            order != Order::Greater && (i > position ==> order == Order::Less)
        } by {
            assert(versions[i] == candidates[i].version@);
            assert(versions[position] == candidates[position].version@);
        }
    } else if candidates.len() > 0 {
        let position = law_choice_exists(versions);
    }
}

/// Among the dependencies a package is found as by its search, and none is an error; in a registry
/// likewise, with another error.
pub proof fn law_known_gives(
    known: Known,
    name: Seq<char>,
    version: Option<VersionView>,
    found: Result<PackageId, RepoError>,
)
    requires
        known.gives(name, version, found),
    ensures
        known matches Known::Dependencies(resolution) ==> finds_dependency(
            resolution.packages@,
            name,
            version,
            match found {
                Ok(id) => Ok(Some(id)),
                Err(RepoError::NoDependency) => Ok(None),
                Err(error) => Err(error),
            },
        ),
        known matches Known::Candidates(candidates) ==> (found is Ok || found == Err::<
            PackageId,
            RepoError,
        >(RepoError::NotOffered)) && finds_candidate(
            candidates@,
            version,
            match found {
                Ok(id) => Some(id),
                Err(_) => None,
            },
        ),
        !(known is Members),
{
}

/// What is looked up: for a package that is unrelated to the workspace what the registry offers, for
/// another the dependencies, and without a name the members.
pub proof fn law_inquiries(sel: CrateSelector)
    ensures
        sel.inquiry() == (if sel.unrelated {
            Inquiry::Candidates
        } else {
            Inquiry::Dependencies
        }),
        sel.roots_inquiry() == (if sel.name is None {
            Inquiry::Members
        } else if sel.unrelated {
            Inquiry::Candidates
        } else {
            Inquiry::Dependencies
        }),
{
}

/// A repository keeps the options that it is opened with, and the features between the commas that
/// are not empty; without features it has none.
pub proof fn law_opened(opts: CargoOpts)
    ensures
        ({
            let view = RepoView::opened(opts);
            &&& view.all_features == opts.all_features
            &&& view.no_default_features == opts.no_default_features
            &&& view.no_dev_dependencies == opts.no_dev_dependencies
            &&& match opts.features {
                Some(features) => view.features == pieces(features@, Separator::Comma),
                None => view.features.len() == 0,
            }
            &&& match opts.target {
                Some(Some(target)) => view.target == Some(Some(target@)),
                Some(None) => view.target == Some(None::<Seq<char>>),
                None => view.target is None,
            }
        }),
{
}

/// The target is the one that the options name, or the host where they name none but ask for one,
/// or none where they do not ask.
pub proof fn law_target(opts: CargoOpts, host: Seq<char>)
    ensures
        RepoView::opened(opts).target_on(host) == match opts.target {
            Some(Some(target)) => Some(target@),
            Some(None) => Some(host),
            None => None,
        },
{
}

/// What the errors say.
pub proof fn law_repo_error_texts(versions: Vec<String>)
    ensures
        RepoError::NameNotGiven.text() == "Crate name argument required"@,
        RepoError::NotOffered.text()
            == "Could not find requested crate. Try updating cargo's registry index cache?"@,
        RepoError::NoDependency.text()
            == "Could not find requested crate. Try `-u` if the crate is not a dependency."@,
        RepoError::Ambiguous(versions).text() == "Ambiguous selection: "@ + decimal(
            versions@.len(),
        ) + " matches found: "@ + joined(texts(versions@), ", "@),
{
}

/// An optional version or text is that of what it holds.
pub proof fn law_optional_values(version: Version, text: String)
    ensures
        optional_version(Some(&version)) == Some(version@),
        optional_version(None) is None,
        selector_version(Some(version)) == Some(version@),
        selector_version(None) is None,
        optional_text(Some(text)) == Some(text@),
        optional_text(None) is None,
{
}

/// What was looked up is what was asked for if it is of the same kind.
pub proof fn law_answers_inquiry(known: Known)
    ensures
        known.answers(Inquiry::Members) <==> known is Members,
        known.answers(Inquiry::Dependencies) <==> known is Dependencies,
        known.answers(Inquiry::Candidates) <==> known is Candidates,
{
}

} // verus!
