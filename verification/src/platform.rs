//! The platforms for which dependencies are declared, and the configuration of a target.
use std::str::FromStr;
use vstd::prelude::*;
use vstd::utf8::{decode_utf8, valid_utf8};

use crate::text::{lines, split_lines, texts};

verus! {

/// A configuration value of a target.
#[derive(Debug, PartialEq, Eq)]
pub enum Cfg {
    /// A name, such as `unix`.
    Name(String),
    /// A key and its value, such as `target_os = "linux"`.
    KeyPair(String, String),
}

/// A condition on the configuration of a target.
#[derive(Debug, PartialEq, Eq)]
pub enum CfgExpr {
    Not(Box<CfgExpr>),
    All(Vec<CfgExpr>),
    Any(Vec<CfgExpr>),
    Value(Cfg),
}

/// The targets for which a dependency is declared.
#[derive(Debug, PartialEq, Eq)]
pub enum Platform {
    /// The target of that name.
    Name(String),
    /// The targets whose configuration meets a condition.
    Cfg(CfgExpr),
}

/// The model of a `Cfg`.
pub enum CfgView {
    Name(Seq<char>),
    KeyPair(Seq<char>, Seq<char>),
}

impl View for Cfg {
    type V = CfgView;

    open spec fn view(&self) -> CfgView {
        match self {
            Cfg::Name(name) => CfgView::Name(name@),
            Cfg::KeyPair(key, value) => CfgView::KeyPair(key@, value@),
        }
    }
}

/// The models of some configuration values.
pub open spec fn cfg_views(cfgs: Seq<Cfg>) -> Seq<CfgView> {
    cfgs.map_values(|cfg: Cfg| cfg@)
}

impl Cfg {
    fn same_as(&self, other: &Cfg) -> (same: bool)
        ensures
            same == (self@ == other@),
    {
        match (self, other) {
            (Cfg::Name(a), Cfg::Name(b)) => *a == *b,
            (Cfg::KeyPair(a, x), Cfg::KeyPair(b, y)) => *a == *b && *x == *y,
            _ => false,
        }
    }

    fn is_in(&self, cfgs: &Vec<Cfg>) -> (found: bool)
        ensures
            found == cfg_views(cfgs@).contains(self@),
    {
        let mut i: usize = 0;
        while i < cfgs.len()
            invariant
                i <= cfgs.len(),
                forall|k: int| 0 <= k < i ==> (#[trigger] cfg_views(cfgs@)[k]) != self@,
            decreases cfgs.len() - i,
        {
            if cfgs[i].same_as(self) {
                assert(cfg_views(cfgs@)[i as int] == self@);
                return true;
            }
            i += 1;
        }
        false
    }
}

impl CfgExpr {
    /// A configuration meets the condition.
    pub open spec fn holds(self, cfgs: Seq<CfgView>) -> bool
        decreases self,
    {
        match self {
            CfgExpr::Not(inner) => !inner.holds(cfgs),
            CfgExpr::All(inner) => forall|i: int|
                0 <= i < inner@.len() ==> (#[trigger] inner@[i]).holds(cfgs),
            CfgExpr::Any(inner) => exists|i: int|
                0 <= i < inner@.len() && (#[trigger] inner@[i]).holds(cfgs),
            CfgExpr::Value(cfg) => cfgs.contains(cfg@),
        }
    }

    /// Whether a configuration meets the condition.
    pub fn matches(&self, cfgs: &Vec<Cfg>) -> (met: bool)
        ensures
            met == self.holds(cfg_views(cfgs@)),
        decreases self,
    {
        match self {
            CfgExpr::Not(inner) => !inner.matches(cfgs),
            CfgExpr::All(inner) => {
                let mut i: usize = 0;
                while i < inner.len()
                    invariant
                        *self == CfgExpr::All(*inner),
                        i <= inner.len(),
                        forall|k: int|
                            0 <= k < i ==> (#[trigger] inner@[k]).holds(cfg_views(cfgs@)),
                    decreases inner.len() - i,
                {
                    let ghost part = inner@[i as int];
                    assert(decreases_to!(*self => self->All_0));
                    assert(decreases_to!(*inner => inner@));
                    assert(decreases_to!(inner@ => part));
                    assert(decreases_to!(*self => part));
                    if !inner[i].matches(cfgs) {
                        return false;
                    }
                    i += 1;
                }
                true
            },
            CfgExpr::Any(inner) => {
                let mut i: usize = 0;
                while i < inner.len()
                    invariant
                        *self == CfgExpr::Any(*inner),
                        i <= inner.len(),
                        forall|k: int|
                            0 <= k < i ==> !(#[trigger] inner@[k]).holds(cfg_views(cfgs@)),
                    decreases inner.len() - i,
                {
                    let ghost part = inner@[i as int];
                    assert(decreases_to!(*self => self->Any_0));
                    assert(decreases_to!(*inner => inner@));
                    assert(decreases_to!(inner@ => part));
                    assert(decreases_to!(*self => part));
                    if inner[i].matches(cfgs) {
                        return true;
                    }
                    i += 1;
                }
                false
            },
            CfgExpr::Value(cfg) => cfg.is_in(cfgs),
        }
    }
}

impl Platform {
    /// The platform covers the target of that name and configuration.
    pub open spec fn covers(self, target: Seq<char>, cfgs: Seq<CfgView>) -> bool {
        match self {
            Platform::Name(name) => name@ == target,
            Platform::Cfg(expression) => expression.holds(cfgs),
        }
    }

    /// Whether the platform covers the target of that name and configuration.
    pub fn matches(&self, target: &String, cfgs: &Vec<Cfg>) -> (met: bool)
        ensures
            met == self.covers(target@, cfg_views(cfgs@)),
    {
        match self {
            Platform::Name(name) => *name == *target,
            Platform::Cfg(expression) => expression.matches(cfgs),
        }
    }
}

/// The error of `cargo_platform`'s parsers.
#[verifier::external_type_specification]
#[verifier::external_body]
pub struct ExParseError(cargo_platform::ParseError);

/// What `cargo_platform::Cfg::from_str` reads from a text, or the error that it gives.
pub uninterp spec fn parsed_cfg(text: Seq<char>) -> Result<CfgView, cargo_platform::ParseError>;

/// `cargo_platform::Cfg::from_str`: the configuration value that a text stands for, or an error.
/// The result is named, not described.
#[verifier::external_body]
pub(crate) fn parse_cfg(text: &str) -> (cfg: Result<Cfg, cargo_platform::ParseError>)
    ensures
        match cfg {
            Ok(cfg) => parsed_cfg(text@) == Ok::<CfgView, cargo_platform::ParseError>(cfg@),
            Err(error) => parsed_cfg(text@) == Err::<CfgView, cargo_platform::ParseError>(error),
        },
{
    cargo_platform::Cfg::from_str(text).map(|cfg| match cfg {
        cargo_platform::Cfg::Name(name) => Cfg::Name(name),
        cargo_platform::Cfg::KeyPair(key, value) => Cfg::KeyPair(key, value),
    })
}

/// A line of the compiler's output that is no configuration value.
#[derive(Debug)]
pub struct CfgError {
    /// The number of the line, counted from zero.
    pub line: usize,
    pub error: cargo_platform::ParseError,
}

/// All values, or else the first error and its position.
pub fn all_or_first_error<T, E>(results: Vec<Result<T, E>>) -> (all: Result<Vec<T>, (usize, E)>)
    ensures
        match all {
            Ok(values) => {
                &&& values@.len() == results@.len()
                &&& forall|i: int| 0 <= i < results@.len() ==> #[trigger] results@[i] == Ok::<T, E>(
                    values@[i],
                )
            },
            Err((position, error)) => {
                &&& position < results@.len()
                &&& results@[position as int] == Err::<T, E>(error)
                &&& forall|i: int| 0 <= i < position ==> (#[trigger] results@[i]) is Ok
            },
        },
{
    let ghost given = results@;
    let count = results.len();
    let mut values: Vec<T> = Vec::new();
    let mut i: usize = 0;
    for result in iterator: results
        invariant
            iterator.seq() == given,
            i == iterator.index(),
            values@.len() == i,
            given.len() == count,
            forall|k: int| 0 <= k < i ==> #[trigger] given[k] == Ok::<T, E>(values@[k]),
    {
        match result {
            Ok(value) => values.push(value),
            Err(error) => {
                return Err((i, error));
            },
        }
        i += 1;
    }
    Ok(values)
}

/// `std::str::from_utf8`: the text that some bytes encode, or nothing where they are not UTF-8.
#[verifier::external_body]
pub(crate) fn utf8_text(bytes: &[u8]) -> (text: Option<&str>)
    ensures
        match text {
            Some(text) => valid_utf8(bytes@) && text@ == decode_utf8(bytes@),
            None => !valid_utf8(bytes@),
        },
{
    std::str::from_utf8(bytes).ok()
}

/// The configuration values that the compiler prints, one in a line, or else the first line that is
/// none.
pub fn parse_cfgs(output: &Vec<u8>) -> (cfgs: Result<Vec<Cfg>, CfgError>)
    requires
        valid_utf8(output@),
    ensures
        ({
            let lines = lines(decode_utf8(output@));
            match cfgs {
                Ok(cfgs) => {
                    &&& cfgs@.len() == lines.len()
                    &&& forall|i: int|
                        0 <= i < lines.len() ==> parsed_cfg(#[trigger] lines[i]) == Ok::<
                            CfgView,
                            cargo_platform::ParseError,
                        >(cfgs@[i]@)
                },
                Err(error) => {
                    &&& error.line < lines.len()
                    &&& parsed_cfg(lines[error.line as int]) == Err::<
                        CfgView,
                        cargo_platform::ParseError,
                    >(error.error)
                    &&& forall|i: int|
                        0 <= i < error.line ==> parsed_cfg(#[trigger] lines[i]) is Ok
                },
            }
        }),
{
    let found = split_lines(utf8_text(output.as_slice()).unwrap());
    let ghost expected = lines(decode_utf8(output@));
    assert(texts(found@) == expected);
    let mut results: Vec<Result<Cfg, cargo_platform::ParseError>> = Vec::new();
    let mut i: usize = 0;
    while i < found.len()
        invariant
            texts(found@) == expected,
            i <= found.len(),
            results@.len() == i,
            forall|k: int|
                0 <= k < i ==> match #[trigger] results@[k] {
                    Ok(cfg) => parsed_cfg(expected[k]) == Ok::<CfgView, cargo_platform::ParseError>(
                        cfg@,
                    ),
                    Err(error) => parsed_cfg(expected[k]) == Err::<
                        CfgView,
                        cargo_platform::ParseError,
                    >(error),
                },
        decreases found.len() - i,
    {
        assert(expected[i as int] == found@[i as int]@);
        results.push(parse_cfg(found[i].as_str()));
        i += 1;
    }
    assert(expected.len() == found@.len());
    let ghost given = results@;
    match all_or_first_error(results) {
        Ok(cfgs) => {
            assert forall|k: int| 0 <= k < expected.len() implies parsed_cfg(#[trigger] expected[k])
                == Ok::<CfgView, cargo_platform::ParseError>(cfgs@[k]@) by {
                assert(given[k] == Ok::<Cfg, cargo_platform::ParseError>(cfgs@[k]));
            }
            Ok(cfgs)
        },
        Err((line, error)) => {
            assert forall|k: int| 0 <= k < line implies parsed_cfg(
                #[trigger] expected[k],
            ) is Ok by {
                assert(given[k] is Ok);
            }
            assert(given[line as int] is Err);
            Err(CfgError { line, error })
        },
    }
}

/// The arguments with which the compiler prints the configuration of a target, or of its own host.
pub fn cfg_arguments(target: &Option<String>) -> (arguments: Vec<String>)
    ensures
        texts(arguments@) == match target {
            None => seq!["--print=cfg"@],
            Some(target) => seq!["--print=cfg"@, "--target"@, target@],
        },
{
    let mut arguments: Vec<String> = Vec::new();
    arguments.push("--print=cfg".to_string());
    if let Some(target) = target {
        arguments.push("--target".to_string());
        arguments.push(target.clone());
        assert(texts(arguments@) =~= seq!["--print=cfg"@, "--target"@, target@]);
    } else {
        assert(texts(arguments@) =~= seq!["--print=cfg"@]);
    }
    arguments
}

/// A condition holds if a value is among those of the configuration, if a part does not hold, if all
/// parts do, or if some part does, as its form says.
pub proof fn law_condition_holds(
    value: Cfg,
    part: CfgExpr,
    parts: Vec<CfgExpr>,
    cfgs: Seq<CfgView>,
)
    ensures
        CfgExpr::Value(value).holds(cfgs) <==> exists|i: int|
            0 <= i < cfgs.len() && match (value, #[trigger] cfgs[i]) {
                (Cfg::Name(a), CfgView::Name(b)) => a@ == b,
                (Cfg::KeyPair(a, x), CfgView::KeyPair(b, y)) => a@ == b && x@ == y,
                _ => false,
            },
        CfgExpr::Not(Box::new(part)).holds(cfgs) <==> !part.holds(cfgs),
        CfgExpr::All(parts).holds(cfgs) <==> forall|i: int|
            0 <= i < parts@.len() ==> (#[trigger] parts@[i]).holds(cfgs),
        CfgExpr::Any(parts).holds(cfgs) <==> exists|i: int|
            0 <= i < parts@.len() && (#[trigger] parts@[i]).holds(cfgs),
{
    if exists|i: int|
        0 <= i < cfgs.len() && match (value, #[trigger] cfgs[i]) {
            (Cfg::Name(a), CfgView::Name(b)) => a@ == b,
            (Cfg::KeyPair(a, x), CfgView::KeyPair(b, y)) => a@ == b && x@ == y,
            _ => false,
        } {
        let i = choose|i: int|
            0 <= i < cfgs.len() && match (value, #[trigger] cfgs[i]) {
                (Cfg::Name(a), CfgView::Name(b)) => a@ == b,
                (Cfg::KeyPair(a, x), CfgView::KeyPair(b, y)) => a@ == b && x@ == y,
                _ => false,
            };
        assert(cfgs[i] == value@);
    }
    if cfgs.contains(value@) {
        assert(cfgs[cfgs.index_of(value@)] == value@);
    }
    let all = CfgExpr::All(parts);
    let any = CfgExpr::Any(parts);
    assert(all->All_0 == parts && any->Any_0 == parts);
    reveal_with_fuel(CfgExpr::holds, 2);
    if all.holds(cfgs) {
        assert forall|i: int| 0 <= i < parts@.len() implies (#[trigger] parts@[i]).holds(cfgs) by {}
    }
    if forall|i: int| 0 <= i < parts@.len() ==> (#[trigger] parts@[i]).holds(cfgs) {
        assert(all.holds(cfgs));
    }
}

/// A platform covers the target that it names, or the targets whose configuration meets its
/// condition.
pub proof fn law_platform_covers(
    name: String,
    condition: CfgExpr,
    target: Seq<char>,
    cfgs: Seq<CfgView>,
)
    ensures
        Platform::Name(name).covers(target, cfgs) <==> name@ == target,
        Platform::Cfg(condition).covers(target, cfgs) <==> condition.holds(cfgs),
{
}

/// The models of configuration values are those of each of them.
pub proof fn law_cfg_views(cfgs: Seq<Cfg>)
    ensures
        cfg_views(cfgs).len() == cfgs.len(),
        forall|i: int|
            0 <= i < cfgs.len() ==> #[trigger] cfg_views(cfgs)[i] == match cfgs[i] {
                Cfg::Name(name) => CfgView::Name(name@),
                Cfg::KeyPair(key, value) => CfgView::KeyPair(key@, value@),
            },
{
}

} // verus!
