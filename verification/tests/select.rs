use crev_repo::builder::{BuildStep, Resolution, ResolvedPackage};
use crev_repo::config::{ConfigTable, ConfigValue, Definition};
use crev_repo::repo::{
    Candidate, CargoOpts, CrateSelector, Inquiry, Known, Repo, RepoError,
};
use crev_repo::version::{Identifier, Version};
use crev_repo::walk::{CrateWalk, WalkStep};

fn version(text: &str) -> Version {
    let parsed = semver::Version::parse(text).unwrap();
    let identifiers = |identifiers: Vec<semver::Identifier>| {
        identifiers
            .into_iter()
            .map(|identifier| match identifier {
                semver::Identifier::Numeric(number) => Identifier::Numeric(number),
                semver::Identifier::AlphaNumeric(text) => Identifier::AlphaNumeric(text),
            })
            .collect()
    };
    Version {
        major: parsed.major,
        minor: parsed.minor,
        patch: parsed.patch,
        pre: identifiers(parsed.pre),
        build: identifiers(parsed.build),
    }
}

fn package(name: &str, number: &str, is_registry: bool) -> ResolvedPackage {
    ResolvedPackage {
        name: name.to_string(),
        version: version(number),
        is_registry,
        dependencies: vec![],
        replacement: None,
    }
}

fn resolution() -> Resolution {
    Resolution {
        packages: vec![
            package("own", "0.1.0", false),
            package("log", "0.4.8", true),
            package("rand", "0.6.5", true),
            package("rand", "0.7.3-rc.1+linux", true),
            package("rand", "0.8.0", false),
        ],
    }
}

fn open(cargo_opts: CargoOpts) -> Repo {
    Repo::auto_open_cwd(cargo_opts, &mut ConfigTable::new()).unwrap()
}

fn repo() -> Repo {
    Repo::auto_open_cwd_default(&mut ConfigTable::new()).unwrap()
}

fn find(name: &str, number: Option<&str>) -> Result<Option<usize>, RepoError> {
    let number = number.map(version);
    repo().find_dependency_pkg_id_by_selector(&resolution(), &name.to_string(), number.as_ref())
}

#[test]
fn only_packages_from_registries_are_visited() {
    assert_eq!(repo().for_every_non_local_dep_crate_id(&resolution()), vec![1, 2, 3]);
    let none = Resolution { packages: vec![package("own", "0.1.0", false)] };
    assert_eq!(repo().for_every_non_local_dep_crate_id(&none), Vec::<usize>::new());
}

/// Walks over the packages, of which `missing` do not lie on disk. Downloading or visiting `bad`
/// fails.
fn walk(missing: &[usize], bad: Option<WalkStep>) -> (Vec<WalkStep>, Result<(), String>) {
    let mut walk = repo().for_every_non_local_dep_crate(&resolution());
    let mut steps = vec![];
    loop {
        let step = walk.step();
        let outcome = if Some(step) == bad { Err("no".to_string()) } else { Ok(()) };
        match step {
            WalkStep::Check(id) => walk.checked(!missing.contains(&id)),
            WalkStep::Download(_) => walk.downloaded(outcome),
            WalkStep::Visit(_) => walk.visited(outcome),
            WalkStep::Finish => return (steps, walk.finish()),
        }
        steps.push(step);
    }
}

#[test]
fn a_walk_visits_each_package_once_and_downloads_what_is_missing() {
    let (steps, outcome) = walk(&[2], None);
    assert_eq!(outcome, Ok(()));
    assert_eq!(
        steps,
        vec![
            WalkStep::Check(1),
            WalkStep::Visit(1),
            WalkStep::Check(2),
            WalkStep::Download(2),
            WalkStep::Visit(2),
            WalkStep::Check(3),
            WalkStep::Visit(3),
        ]
    );
}

#[test]
fn a_walk_ends_at_the_first_error() {
    let (steps, outcome) = walk(&[], Some(WalkStep::Visit(2)));
    assert_eq!(outcome, Err("no".to_string()));
    assert_eq!(steps.last(), Some(&WalkStep::Visit(2)));
    let (steps, outcome) = walk(&[1, 2, 3], Some(WalkStep::Download(2)));
    assert_eq!(outcome, Err("no".to_string()));
    assert_eq!(steps.last(), Some(&WalkStep::Download(2)));
    assert!(steps.contains(&WalkStep::Visit(1)));
    assert!(!steps.contains(&WalkStep::Visit(2)));
}

#[test]
fn a_walk_without_files_only_visits() {
    let mut walk: CrateWalk<String> = CrateWalk::new(vec![4, 7], false);
    assert_eq!(walk.step(), WalkStep::Visit(4));
    walk.visited(Ok(()));
    assert_eq!(walk.step(), WalkStep::Visit(7));
    walk.visited(Ok(()));
    assert_eq!(walk.step(), WalkStep::Finish);
    assert_eq!(walk.finish(), Ok(()));
}

#[test]
fn versions_are_equal_but_for_their_build() {
    assert_eq!(version("1.2.3+a"), version("1.2.3+b"));
    assert_ne!(version("1.2.3-rc.1"), version("1.2.3"));
    assert_ne!(version("1.2.3"), version("1.2.4"));
    for a in ["1.0.0", "1.0.0+x", "1.0.0-1", "1.0.0-a", "1.0.0-a+x"] {
        for b in ["1.0.0", "1.0.0+x", "1.0.0-1", "1.0.0-a", "1.0.0-a+x"] {
            let expected = semver::Version::parse(a).unwrap() == semver::Version::parse(b).unwrap();
            assert_eq!(version(a) == version(b), expected);
        }
    }
}

#[test]
fn a_dependency_is_found_by_its_name() {
    assert_eq!(find("log", None), Ok(Some(1)));
    assert_eq!(find("own", None), Ok(None));
    assert_eq!(find("nothing", None), Ok(None));
}

#[test]
fn a_dependency_is_found_by_its_name_and_version() {
    assert_eq!(find("log", Some("0.4.8")), Ok(Some(1)));
    assert_eq!(find("log", Some("0.4.9")), Ok(None));
    assert_eq!(find("rand", Some("0.6.5")), Ok(Some(2)));
    assert_eq!(find("rand", Some("0.7.3-rc.1+other")), Ok(Some(3)));
    assert_eq!(find("rand", Some("0.7.3-rc.2")), Ok(None));
    assert_eq!(find("rand", Some("0.8.0")), Ok(None));
}

#[test]
fn several_dependencies_are_ambiguous() {
    let error = find("rand", None).unwrap_err();
    assert_eq!(
        error,
        RepoError::Ambiguous(vec!["0.6.5".to_string(), "0.7.3-rc.1+linux".to_string()])
    );
    assert_eq!(
        error.message(),
        "Ambiguous selection: 2 matches found: 0.6.5, 0.7.3-rc.1+linux"
    );
}

fn candidates(numbers: &[&str]) -> Vec<Candidate> {
    numbers
        .iter()
        .enumerate()
        .map(|(i, number)| Candidate { id: 10 + i, version: version(number) })
        .collect()
}

fn pick(numbers: &[&str], number: Option<&str>) -> Option<usize> {
    let number = number.map(version);
    repo().find_independent_pkg_id_by_selector(&candidates(numbers), number.as_ref())
}

#[test]
fn without_a_version_the_latest_candidate_is_taken() {
    assert_eq!(pick(&[], None), None);
    assert_eq!(pick(&["1.0.0", "1.10.0", "1.9.0"], None), Some(11));
    assert_eq!(pick(&["1.0.0-alpha", "1.0.0", "1.0.0-beta"], None), Some(11));
    assert_eq!(pick(&["1.0.0-alpha.1", "1.0.0-alpha.beta", "1.0.0-alpha"], None), Some(11));
    assert_eq!(pick(&["1.0.0-2", "1.0.0-10", "1.0.0-9"], None), Some(11));
}

#[test]
fn of_equal_candidates_the_last_is_taken() {
    assert_eq!(pick(&["1.0.0+a", "1.0.0+b", "0.9.0"], None), Some(11));
    assert_eq!(pick(&["2.0.0+z", "2.0.0", "2.0.0+a"], None), Some(12));
}

#[test]
fn with_a_version_the_first_candidate_of_it_is_taken() {
    assert_eq!(pick(&["1.0.0", "1.1.0+a", "1.1.0+b"], Some("1.1.0")), Some(11));
    assert_eq!(pick(&["1.0.0", "1.1.0"], Some("1.2.0")), None);
    assert_eq!(pick(&["1.0.0-rc.1"], Some("1.0.0")), None);
    assert_eq!(pick(&[], Some("1.0.0")), None);
}

#[test]
fn the_precedence_is_that_of_semver() {
    let numbers = [
        "1.0.0-alpha",
        "1.0.0-alpha.1",
        "1.0.0-alpha.beta",
        "1.0.0-beta",
        "1.0.0-beta.2",
        "1.0.0-beta.11",
        "1.0.0-rc.1",
        "1.0.0",
        "1.0.1-0",
        "1.0.1",
        "1.1.0",
        "2.0.0-a.b",
        "2.0.0",
    ];
    for i in 0..numbers.len() {
        for j in 0..numbers.len() {
            let latest = if j >= i { 11 } else { 10 };
            assert_eq!(pick(&[numbers[i], numbers[j]], None), Some(latest));
        }
    }
}

#[test]
fn a_registry_is_asked_for_a_version() {
    let request = repo().registry_request(Some(&version("1.2.3-rc.10+build.5")));
    assert_eq!(request.requirement.as_deref(), Some("1.2.3-rc.10+build.5"));
    assert!(request.allow_yanked);
    let request = repo().registry_request(None);
    assert_eq!(request.requirement, None);
    assert!(!request.allow_yanked);
}

fn selector(name: Option<&str>, number: Option<&str>, unrelated: bool) -> CrateSelector {
    CrateSelector {
        name: name.map(|name| name.to_string()),
        version: number.map(version),
        unrelated,
    }
}

#[test]
fn a_selector_says_what_to_look_up() {
    let inquire = |sel: &CrateSelector| repo().inquire_roots(sel);
    assert_eq!(inquire(&selector(None, None, false)), Inquiry::Members);
    assert_eq!(inquire(&selector(None, None, true)), Inquiry::Members);
    assert_eq!(inquire(&selector(Some("log"), None, false)), Inquiry::Dependencies);
    assert_eq!(inquire(&selector(Some("log"), None, true)), Inquiry::Candidates);
    assert_eq!(repo().inquire(true), Inquiry::Candidates);
    assert_eq!(repo().inquire(false), Inquiry::Dependencies);
}

#[test]
fn a_package_is_found_by_a_selector() {
    let dependencies = Known::Dependencies(resolution());
    let found = |sel| repo().find_pkgid_by_crate_selector(&sel, &dependencies);
    assert_eq!(found(selector(Some("log"), None, false)), Ok(1));
    assert_eq!(found(selector(Some("rand"), Some("0.6.5"), false)), Ok(2));
    let offered = Known::Candidates(candidates(&["1.0.0", "1.1.0"]));
    let found = |sel| repo().find_pkgid_by_crate_selector(&sel, &offered);
    assert_eq!(found(selector(Some("log"), None, true)), Ok(11));
    assert_eq!(found(selector(Some("log"), Some("1.0.0"), true)), Ok(10));
}

#[test]
fn each_search_fails_in_its_own_way() {
    let dependencies = Known::Dependencies(resolution());
    let error = repo()
        .find_pkgid(&dependencies, &"nothing".to_string(), None, false)
        .unwrap_err();
    assert_eq!(error, RepoError::NoDependency);
    assert_eq!(
        error.message(),
        "Could not find requested crate. Try `-u` if the crate is not a dependency."
    );
    let error = repo()
        .find_pkgid(&Known::Candidates(vec![]), &"log".to_string(), None, true)
        .unwrap_err();
    assert_eq!(error, RepoError::NotOffered);
    assert_eq!(
        error.message(),
        "Could not find requested crate. Try updating cargo's registry index cache?"
    );
    let error = repo()
        .find_pkgid_by_crate_selector(&selector(None, None, false), &dependencies)
        .unwrap_err();
    assert_eq!(error, RepoError::NameNotGiven);
    assert_eq!(error.message(), "Crate name argument required");
    assert_eq!(selector(None, None, true).ensure_name_given(), Err(RepoError::NameNotGiven));
    assert_eq!(selector(Some("log"), None, true).ensure_name_given(), Ok(()));
    assert!(matches!(
        repo().find_pkgid(&dependencies, &"rand".to_string(), None, false),
        Err(RepoError::Ambiguous(_))
    ));
}

#[test]
fn the_roots_are_the_named_package_or_all_members() {
    let roots = |sel, known| repo().find_roots_by_crate_selector(&sel, known);
    let dependencies = || Known::Dependencies(resolution());
    assert_eq!(roots(selector(None, None, false), Known::Members(vec![3, 1])), Ok(vec![3, 1]));
    assert_eq!(roots(selector(Some("log"), None, false), dependencies()), Ok(vec![1]));
    assert_eq!(
        roots(selector(Some("own"), None, false), dependencies()),
        Err(RepoError::NoDependency)
    );
    assert_eq!(
        roots(selector(Some("log"), None, true), Known::Candidates(candidates(&["1.0.0"]))),
        Ok(vec![10])
    );
}

#[test]
fn the_options_say_how_to_resolve() {
    let options = repo().resolve_options();
    assert!(options.dev_deps);
    assert!(options.uses_default_features);
    assert!(!options.all_features);
    assert_eq!(options.features, Vec::<String>::new());
    let options = open(CargoOpts {
        features: Some("std,,serde,".to_string()),
        all_features: true,
        no_default_features: true,
        no_dev_dependencies: true,
        target: None,
    })
    .resolve_options();
    assert!(!options.dev_deps);
    assert!(!options.uses_default_features);
    assert!(options.all_features);
    assert_eq!(options.features, vec!["std", "serde"]);
}

#[test]
fn the_target_may_be_the_host() {
    let host = "x86_64-unknown-linux-gnu".to_string();
    let target = |target| open(CargoOpts { target, ..CargoOpts::default() }).target(&host);
    assert_eq!(target(None), None);
    assert_eq!(target(Some(None)), Some(host.clone()));
    assert_eq!(
        target(Some(Some("wasm32-wasi".to_string()))),
        Some("wasm32-wasi".to_string())
    );
}

#[test]
fn opening_removes_the_directory_sources() {
    let text = |text: &str| ConfigValue::String(text.to_string(), Definition::Cli);
    let mut vendored = ConfigTable::new();
    vendored.insert("directory".to_string(), text("vendor"));
    let mut sources = ConfigTable::new();
    sources.insert("vendored".to_string(), ConfigValue::Table(vendored, Definition::Cli));
    let mut config = ConfigTable::new();
    config.insert("source".to_string(), ConfigValue::Table(sources, Definition::Cli));
    Repo::auto_open_cwd(CargoOpts::default(), &mut config).unwrap();
    let mut expected = ConfigTable::new();
    expected.insert(
        "source".to_string(),
        ConfigValue::Table(ConfigTable::new(), Definition::Cli),
    );
    assert_eq!(config, expected);
}

#[test]
fn a_graph_starts_from_the_compilers_output() {
    let host = "x86_64-unknown-linux-gnu".to_string();
    let output = b"unix\n".to_vec();
    let builder = repo().get_dependency_graph(resolution(), &vec![2], &host, &output).unwrap();
    assert_eq!(builder.step(), BuildStep::Fetch(2));
    let output = b"unix\n=\n".to_vec();
    match repo().get_dependency_graph(resolution(), &vec![2], &host, &output) {
        Ok(_) => panic!("the second line is no configuration"),
        Err(error) => assert_eq!(error.line, 1),
    }
}
