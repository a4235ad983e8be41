//! Semantic versions: their precedence, their text and the requirements on them.
use std::cmp::Ordering;
use vstd::prelude::*;
use vstd::std_specs::cmp::PartialEqSpecImpl;

verus! {

/// How one value stands to another in an order.
#[derive(Clone, Copy, Debug, PartialEq, Eq, Structural)]
pub enum Order {
    Less,
    Equal,
    Greater,
}

/// A dot-separated part of a pre-release or of build metadata.
#[derive(Debug, PartialEq, Eq)]
pub enum Identifier {
    Numeric(u64),
    AlphaNumeric(String),
}

/// A version number. Two are equal that differ in their build metadata at most.
#[derive(Debug)]
pub struct Version {
    pub major: u64,
    pub minor: u64,
    pub patch: u64,
    /// The pre-release, empty for a release.
    pub pre: Vec<Identifier>,
    /// The build metadata, which has no part in precedence.
    pub build: Vec<Identifier>,
}

/// The model of an `Identifier`.
pub enum IdentifierView {
    Numeric(u64),
    AlphaNumeric(Seq<char>),
}

/// The model of a `Version`.
#[verifier::ext_equal]
pub struct VersionView {
    pub major: u64,
    pub minor: u64,
    pub patch: u64,
    pub pre: Seq<IdentifierView>,
    pub build: Seq<IdentifierView>,
}

impl View for Identifier {
    type V = IdentifierView;

    open spec fn view(&self) -> IdentifierView {
        match self {
            Identifier::Numeric(number) => IdentifierView::Numeric(*number),
            Identifier::AlphaNumeric(text) => IdentifierView::AlphaNumeric(text@),
        }
    }
}

impl View for Version {
    type V = VersionView;

    open spec fn view(&self) -> VersionView {
        VersionView {
            major: self.major,
            minor: self.minor,
            patch: self.patch,
            pre: self.pre@.map_values(|identifier: Identifier| identifier@),
            build: self.build@.map_values(|identifier: Identifier| identifier@),
        }
    }
}

/// The order of two numbers.
pub open spec fn number_order(a: int, b: int) -> Order {
    if a < b {
        Order::Less
    } else if a == b {
        Order::Equal
    } else {
        Order::Greater
    }
}

/// `major`, refined by `minor` where `major` does not tell two values apart.
pub open spec fn refined(major: Order, minor: Order) -> Order {
    if major == Order::Equal {
        minor
    } else {
        major
    }
}

/// The lexicographic order of two sequences: the first difference decides, and a proper prefix
/// comes first.
pub open spec fn lexicographic<A>(order: spec_fn(A, A) -> Order, a: Seq<A>, b: Seq<A>) -> Order
    decreases a.len(),
{
    if a.len() == 0 || b.len() == 0 {
        number_order(a.len() as int, b.len() as int)
    } else {
        refined(order(a[0], b[0]), lexicographic(order, a.drop_first(), b.drop_first()))
    }
}

/// The order of two texts by their characters.
pub open spec fn text_order(a: Seq<char>, b: Seq<char>) -> Order {
    lexicographic(|x: char, y: char| number_order(x as int, y as int), a, b)
}

/// The order of two identifiers: numbers come before texts.
pub open spec fn identifier_order(a: IdentifierView, b: IdentifierView) -> Order {
    match (a, b) {
        (IdentifierView::Numeric(x), IdentifierView::Numeric(y)) => number_order(
            x as int,
            y as int,
        ),
        (IdentifierView::Numeric(_), IdentifierView::AlphaNumeric(_)) => Order::Less,
        (IdentifierView::AlphaNumeric(_), IdentifierView::Numeric(_)) => Order::Greater,
        (IdentifierView::AlphaNumeric(x), IdentifierView::AlphaNumeric(y)) => text_order(x, y),
    }
}

/// The order of two pre-releases: a release comes after all of them.
pub open spec fn pre_order(a: Seq<IdentifierView>, b: Seq<IdentifierView>) -> Order {
    if a.len() == 0 || b.len() == 0 {
        number_order(b.len() as int, a.len() as int)
    } else {
        lexicographic(|x: IdentifierView, y: IdentifierView| identifier_order(x, y), a, b)
    }
}

/// The precedence of two versions. Build metadata has no part in it.
pub open spec fn precedence(a: VersionView, b: VersionView) -> Order {
    refined(
        number_order(a.major as int, b.major as int),
        refined(
            number_order(a.minor as int, b.minor as int),
            refined(number_order(a.patch as int, b.patch as int), pre_order(a.pre, b.pre)),
        ),
    )
}

/// Two versions that differ in their build metadata at most.
pub open spec fn same_version(a: VersionView, b: VersionView) -> bool {
    a.major == b.major && a.minor == b.minor && a.patch == b.patch && a.pre == b.pre
}

/// The decimal digits of a number.
pub open spec fn decimal(number: nat) -> Seq<char>
    decreases number,
{
    let digit = (48 + number % 10) as char;
    if number < 10 {
        seq![digit]
    } else {
        decimal(number / 10).push(digit)
    }
}

/// The decimal digits of a number.
pub fn decimal_text(number: usize) -> (text: String)
    ensures
        text@ == decimal(number as nat),
    decreases number,
{
    let digit = (48 + (number % 10) as u8) as char;
    let mut text = if number < 10 {
        String::new()
    } else {
        decimal_text(number / 10)
    };
    text.push(digit);
    assert(number < 10 ==> text@ =~= seq![digit]);
    text
}

/// The text of an identifier.
pub open spec fn identifier_text(identifier: IdentifierView) -> Seq<char> {
    match identifier {
        IdentifierView::Numeric(number) => decimal(number as nat),
        IdentifierView::AlphaNumeric(text) => text,
    }
}

/// The texts of some identifiers, each after its own separator: `mark` before the first and a dot
/// before the others.
pub open spec fn identifiers_text(mark: char, identifiers: Seq<IdentifierView>) -> Seq<char>
    decreases identifiers.len(),
{
    if identifiers.len() == 0 {
        Seq::empty()
    } else {
        let separator = if identifiers.len() == 1 {
            mark
        } else {
            '.'
        };
        identifiers_text(mark, identifiers.drop_last()).push(separator) + identifier_text(
            identifiers.last(),
        )
    }
}

/// The text of a version, such as `1.2.3-rc.1+5`.
pub open spec fn version_text(version: VersionView) -> Seq<char> {
    decimal(version.major as nat).push('.') + decimal(version.minor as nat).push('.') + decimal(
        version.patch as nat,
    ) + identifiers_text('-', version.pre) + identifiers_text('+', version.build)
}

/// What `semver::VersionReq::parse` and `semver::VersionReq::matches` say of a requirement's text
/// and a version: whether the version meets the requirement, or nothing where the text is none.
pub uninterp spec fn requirement_met(requirement: Seq<char>, version: VersionView) -> Option<bool>;

/// `semver::Version`'s `Ord::cmp`: the precedence of two versions.
#[verifier::external_body]
pub(crate) fn version_order(a: &Version, b: &Version) -> (order: Order)
    ensures
        order == precedence(a@, b@),
{
    let parts = |identifiers: &Vec<Identifier>| identifiers.iter().map(|i| match i {
        Identifier::Numeric(number) => semver::Identifier::Numeric(*number),
        Identifier::AlphaNumeric(text) => semver::Identifier::AlphaNumeric(text.clone()),
    }).collect();
    let outside = |v: &Version| semver::Version {
        pre: parts(&v.pre), build: parts(&v.build), ..semver::Version::new(v.major, v.minor, v.patch)
    };
    match outside(a).cmp(&outside(b)) {
        Ordering::Less => Order::Less,
        Ordering::Equal => Order::Equal,
        Ordering::Greater => Order::Greater,
    }
}

/// `semver::Version`'s `Display`: the text of a version.
#[verifier::external_body]
pub(crate) fn version_to_string(version: &Version) -> (text: String)
    ensures
        text@ == version_text(version@),
{
    let outside = |identifiers: &Vec<Identifier>| identifiers.iter().map(|i| match i {
        Identifier::Numeric(number) => semver::Identifier::Numeric(*number),
        Identifier::AlphaNumeric(text) => semver::Identifier::AlphaNumeric(text.clone()),
    }).collect();
    let mut copy = semver::Version::new(version.major, version.minor, version.patch);
    copy.pre = outside(&version.pre);
    copy.build = outside(&version.build);
    copy.to_string()
}

/// `semver::VersionReq::matches`, on the requirement that `semver::VersionReq::parse` reads from a
/// text: whether the version meets it, or nothing where the text cannot be read. The result is
/// named, not described.
#[verifier::external_body]
pub(crate) fn meets_requirement(requirement: &str, version: &Version) -> (met: Option<bool>)
    ensures
        met == requirement_met(requirement@, version@),
{
    let outside = |identifiers: &Vec<Identifier>| identifiers.iter().map(|i| match i {
        Identifier::Numeric(number) => semver::Identifier::Numeric(*number),
        Identifier::AlphaNumeric(text) => semver::Identifier::AlphaNumeric(text.clone()),
    }).collect();
    let mut copy = semver::Version::new(version.major, version.minor, version.patch);
    copy.pre = outside(&version.pre);
    copy.build = outside(&version.build);
    semver::VersionReq::parse(requirement).ok().map(|parsed| parsed.matches(&copy))
}

impl Version {
    /// Whether two versions differ in their build metadata at most.
    pub fn same_as(&self, other: &Version) -> (same: bool)
        ensures
            same == same_version(self@, other@),
    {
        assert(self@.pre.len() == self.pre.len() && other@.pre.len() == other.pre.len());
        if self.major != other.major || self.minor != other.minor || self.patch != other.patch
            || self.pre.len() != other.pre.len() {
            return false;
        }
        let mut i: usize = 0;
        while i < self.pre.len()
            invariant
                self.pre.len() == other.pre.len(),
                i <= self.pre.len(),
                forall|k: int| 0 <= k < i ==> #[trigger] self@.pre[k] == other@.pre[k],
            decreases self.pre.len() - i,
        {
            let same = match (&self.pre[i], &other.pre[i]) {
                (Identifier::Numeric(a), Identifier::Numeric(b)) => *a == *b,
                (Identifier::AlphaNumeric(a), Identifier::AlphaNumeric(b)) => *a == *b,
                _ => false,
            };
            assert(same == (self@.pre[i as int] == other@.pre[i as int]));
            if !same {
                return false;
            }
            i += 1;
        }
        assert(self@.pre =~= other@.pre);
        true
    }
}

impl PartialEq for Version {
    fn eq(&self, other: &Version) -> (equal: bool) {
        self.same_as(other)
    }
}

impl PartialEqSpecImpl for Version {
    open spec fn obeys_eq_spec() -> bool {
        true
    }

    open spec fn eq_spec(&self, other: &Version) -> bool {
        same_version(self@, other@)
    }
}

impl Eq for Version {

}

/// `order` is a total order on values of `A`.
pub open spec fn is_order<A>(order: spec_fn(A, A) -> Order) -> bool {
    &&& forall|a: A, b: A| #[trigger] order(a, b) == Order::Equal <==> a == b
    &&& forall|a: A, b: A| #[trigger] order(a, b) == Order::Less <==> order(b, a) == Order::Greater
    &&& forall|a: A, b: A, c: A| #[trigger]
        order(a, b) == Order::Less && #[trigger] order(b, c) == Order::Less ==> order(a, c)
            == Order::Less
}

proof fn lemma_lexicographic_equal<A>(order: spec_fn(A, A) -> Order, a: Seq<A>, b: Seq<A>)
    requires
        is_order(order),
    ensures
        lexicographic(order, a, b) == Order::Equal <==> a == b,
        lexicographic(order, a, b) == Order::Less <==> lexicographic(order, b, a)
            == Order::Greater,
    decreases a.len(),
{
    if a.len() > 0 && b.len() > 0 {
        lemma_lexicographic_equal(order, a.drop_first(), b.drop_first());
        assert(a =~= seq![a[0]] + a.drop_first());
        assert(b =~= seq![b[0]] + b.drop_first());
    } else if a.len() == b.len() {
        assert(a =~= b);
    }
}

proof fn lemma_lexicographic_transitive<A>(
    order: spec_fn(A, A) -> Order,
    a: Seq<A>,
    b: Seq<A>,
    c: Seq<A>,
)
    requires
        is_order(order),
        lexicographic(order, a, b) == Order::Less,
        lexicographic(order, b, c) == Order::Less,
    ensures
        lexicographic(order, a, c) == Order::Less,
    decreases a.len(),
{
    if a.len() > 0 && b.len() > 0 && c.len() > 0 {
        if order(a[0], b[0]) == Order::Equal && order(b[0], c[0]) == Order::Equal {
            lemma_lexicographic_transitive(
                order,
                a.drop_first(),
                b.drop_first(),
                c.drop_first(),
            );
        }
    }
}

/// The lexicographic order that a total order gives is total.
pub proof fn lemma_lexicographic<A>(order: spec_fn(A, A) -> Order)
    requires
        is_order(order),
    ensures
        is_order(|a: Seq<A>, b: Seq<A>| lexicographic(order, a, b)),
{
    let whole = |a: Seq<A>, b: Seq<A>| lexicographic(order, a, b);
    assert forall|a: Seq<A>, b: Seq<A>| #[trigger] whole(a, b) == Order::Equal <==> a == b by {
        lemma_lexicographic_equal(order, a, b);
    }
    assert forall|a: Seq<A>, b: Seq<A>| #[trigger]
        whole(a, b) == Order::Less <==> whole(b, a) == Order::Greater by {
        lemma_lexicographic_equal(order, a, b);
    }
    assert forall|a: Seq<A>, b: Seq<A>, c: Seq<A>| #[trigger]
        whole(a, b) == Order::Less && #[trigger] whole(b, c) == Order::Less implies whole(a, c)
        == Order::Less by {
        lemma_lexicographic_transitive(order, a, b, c);
    }
}

proof fn lemma_identifier_order()
    ensures
        is_order(|x: IdentifierView, y: IdentifierView| identifier_order(x, y)),
{
    let chars = |x: char, y: char| number_order(x as int, y as int);
    assert(is_order(chars));
    lemma_lexicographic(chars);
    let texts = |a: Seq<char>, b: Seq<char>| lexicographic(chars, a, b);
    assert(forall|a: Seq<char>, b: Seq<char>| #[trigger] text_order(a, b) == texts(a, b));
}

/// Precedence is a total order on versions up to their build metadata: of two versions either one
/// precedes the other or they are the same, and never more than one of these.
pub proof fn law_precedence_total(a: VersionView, b: VersionView)
    ensures
        precedence(a, b) == Order::Equal <==> same_version(a, b),
        precedence(a, b) == Order::Less <==> precedence(b, a) == Order::Greater,
{
    lemma_identifier_order();
    let order = |x: IdentifierView, y: IdentifierView| identifier_order(x, y);
    lemma_lexicographic_equal(order, a.pre, b.pre);
    if a.pre.len() == b.pre.len() && a.pre.len() == 0 {
        assert(a.pre =~= b.pre);
    }
}

/// Precedence is transitive.
pub proof fn law_precedence_transitive(a: VersionView, b: VersionView, c: VersionView)
    requires
        precedence(a, b) != Order::Greater,
        precedence(b, c) != Order::Greater,
    ensures
        precedence(a, c) != Order::Greater,
        precedence(a, c) == Order::Equal ==> precedence(a, b) == Order::Equal && precedence(b, c)
            == Order::Equal,
{
    lemma_identifier_order();
    let order = |x: IdentifierView, y: IdentifierView| identifier_order(x, y);
    lemma_lexicographic(order);
    lemma_lexicographic_equal(order, a.pre, b.pre);
    lemma_lexicographic_equal(order, b.pre, c.pre);
    lemma_lexicographic_equal(order, a.pre, c.pre);
    if lexicographic(order, a.pre, b.pre) == Order::Less && lexicographic(order, b.pre, c.pre)
        == Order::Less {
        lemma_lexicographic_transitive(order, a.pre, b.pre, c.pre);
    }
}

/// Two versions are the same if and only if their numbers and their pre-releases are.
pub proof fn law_same_version(a: Version, b: Version)
    ensures
        same_version(a@, b@) <==> {
            &&& a.major == b.major
            &&& a.minor == b.minor
            &&& a.patch == b.patch
            &&& a.pre@.len() == b.pre@.len()
            &&& forall|i: int|
                0 <= i < a.pre@.len() ==> match (#[trigger] a.pre@[i], b.pre@[i]) {
                    (Identifier::Numeric(x), Identifier::Numeric(y)) => x == y,
                    (Identifier::AlphaNumeric(x), Identifier::AlphaNumeric(y)) => x@ == y@,
                    _ => false,
                }
        },
{
    if same_version(a@, b@) {
        assert(a@.pre.len() == b@.pre.len());
        assert forall|i: int| 0 <= i < a.pre@.len() implies match (
            #[trigger] a.pre@[i],
            b.pre@[i],
        ) {
            (Identifier::Numeric(x), Identifier::Numeric(y)) => x == y,
            (Identifier::AlphaNumeric(x), Identifier::AlphaNumeric(y)) => x@ == y@,
            _ => false,
        } by {
            assert(a@.pre[i] == a.pre@[i]@);
            assert(b@.pre[i] == b.pre@[i]@);
        }
    }
    if a.pre@.len() == b.pre@.len() && forall|i: int|
        0 <= i < a.pre@.len() ==> match (#[trigger] a.pre@[i], b.pre@[i]) {
            (Identifier::Numeric(x), Identifier::Numeric(y)) => x == y,
            (Identifier::AlphaNumeric(x), Identifier::AlphaNumeric(y)) => x@ == y@,
            _ => false,
        } {
        assert forall|i: int| 0 <= i < a.pre@.len() implies #[trigger] a@.pre[i] == b@.pre[i] by {
            assert(a@.pre[i] == a.pre@[i]@);
            assert(b@.pre[i] == b.pre@[i]@);
        }
        assert(a@.pre =~= b@.pre);
    }
}

/// The higher number precedes over the lower, the major one before the minor one before the patch;
/// among equal numbers a release precedes over its pre-releases, and of two pre-releases the first
/// identifier that differs decides.
pub proof fn law_precedence_parts(a: VersionView, b: VersionView)
    ensures
        a.major < b.major ==> precedence(a, b) == Order::Less,
        a.major == b.major && a.minor < b.minor ==> precedence(a, b) == Order::Less,
        a.major == b.major && a.minor == b.minor && a.patch < b.patch ==> precedence(a, b)
            == Order::Less,
        a.major == b.major && a.minor == b.minor && a.patch == b.patch && a.pre.len() > 0
            && b.pre.len() == 0 ==> precedence(a, b) == Order::Less,
        a.major == b.major && a.minor == b.minor && a.patch == b.patch && a.pre == b.pre
            ==> precedence(a, b) == Order::Equal,
        a.major == b.major && a.minor == b.minor && a.patch == b.patch && a.pre.len() > 0
            && b.pre.len() > 0 ==> match (a.pre[0], b.pre[0]) {
            (IdentifierView::Numeric(x), IdentifierView::Numeric(y)) => x < y ==> precedence(a, b)
                == Order::Less,
            (IdentifierView::Numeric(_), IdentifierView::AlphaNumeric(_)) => precedence(a, b)
                == Order::Less,
            _ => true,
        },
{
    law_precedence_total(a, b);
}

/// The number that some decimal digits stand for.
pub open spec fn decimal_value(digits: Seq<char>) -> int
    decreases digits.len(),
{
    if digits.len() == 0 {
        0
    } else {
        10 * decimal_value(digits.drop_last()) + (digits.last() as int - '0' as int)
    }
}

/// The decimal digits of a number stand for it. They are digits, and the first is zero for the
/// number zero alone.
pub proof fn law_decimal(number: nat)
    ensures
        decimal_value(decimal(number)) == number,
        decimal(number).len() > 0,
        forall|i: int|
            0 <= i < decimal(number).len() ==> '0' <= (#[trigger] decimal(number)[i]) <= '9',
        decimal(number)[0] == '0' ==> number == 0 && decimal(number).len() == 1,
    decreases number,
{
    let digits = decimal(number);
    let digit = (48 + number % 10) as char;
    if number < 10 {
        assert(digits.drop_last() =~= Seq::empty());
        assert(decimal_value(Seq::<char>::empty()) == 0);
    } else {
        law_decimal(number / 10);
        assert(digits.drop_last() =~= decimal(number / 10));
        assert forall|i: int| 0 <= i < digits.len() implies '0' <= (#[trigger] digits[i]) <= '9' by {
            if i < digits.len() - 1 {
                assert(digits[i] == decimal(number / 10)[i]);
            }
        }
    }
}

/// The model of a version has its numbers and the models of its identifiers.
pub proof fn law_version_view(version: Version)
    ensures
        version@.major == version.major,
        version@.minor == version.minor,
        version@.patch == version.patch,
        version@.pre.len() == version.pre@.len(),
        version@.build.len() == version.build@.len(),
        forall|i: int|
            0 <= i < version.pre@.len() ==> #[trigger] version@.pre[i] == match version.pre@[i] {
                Identifier::Numeric(number) => IdentifierView::Numeric(number),
                Identifier::AlphaNumeric(text) => IdentifierView::AlphaNumeric(text@),
            },
        forall|i: int|
            0 <= i < version.build@.len() ==> #[trigger] version@.build[i]
                == match version.build@[i] {
                Identifier::Numeric(number) => IdentifierView::Numeric(number),
                Identifier::AlphaNumeric(text) => IdentifierView::AlphaNumeric(text@),
            },
{
}

/// Identifiers that two pre-releases share at their start make no difference, the pre-release that
/// ends first comes first, and of two texts the first character that differs decides.
pub proof fn law_precedence_of_pre_releases(
    a: VersionView,
    b: VersionView,
    shared: IdentifierView,
)
    requires
        a.major == b.major && a.minor == b.minor && a.patch == b.patch,
    ensures
        a.pre.len() > 0 && b.pre.len() > 0 ==> precedence(
            (VersionView { pre: seq![shared] + a.pre, ..a }),
            (VersionView { pre: seq![shared] + b.pre, ..b }),
        ) == precedence(a, b),
        b.pre.len() > 0 ==> precedence(
            (VersionView { pre: seq![shared], ..a }),
            (VersionView { pre: seq![shared] + b.pre, ..b }),
        ) == Order::Less,
        a.pre.len() > 0 && b.pre.len() > 0 ==> match (a.pre[0], b.pre[0]) {
            (IdentifierView::AlphaNumeric(x), IdentifierView::AlphaNumeric(y)) => {
                &&& x.len() > 0 && y.len() > 0 && (x[0] as int) < (y[0] as int) ==> precedence(a, b)
                    == Order::Less
                &&& x.len() == 0 && y.len() > 0 ==> precedence(a, b) == Order::Less
            },
            _ => true,
        },
{
    lemma_identifier_order();
    let order = |x: IdentifierView, y: IdentifierView| identifier_order(x, y);
    assert(order(shared, shared) == Order::Equal);
    let c = seq![shared] + a.pre;
    let d = seq![shared] + b.pre;
    assert(c.drop_first() =~= a.pre);
    assert(d.drop_first() =~= b.pre);
    assert(seq![shared].drop_first() =~= Seq::<IdentifierView>::empty());
    assert(lexicographic(order, c, d) == lexicographic(order, a.pre, b.pre));
    if b.pre.len() > 0 {
        assert(lexicographic(order, Seq::<IdentifierView>::empty(), b.pre) == Order::Less);
        assert(lexicographic(order, seq![shared], d) == Order::Less);
    }
}

} // verus!
