//! Package versions: the numbers, pre-release and build identifiers of a semantic version,
//! with parsing, printing and precedence taken from the `semver` crate.

use vstd::prelude::*;

verus! {

/// The parts of a semantic version.
#[verifier::ext_equal]
pub struct VersionView {
    pub major: u64,
    pub minor: u64,
    pub patch: u64,
    pub pre: Seq<char>,
    pub build: Seq<char>,
}

impl VersionView {
    /// Both identifier lists follow the grammar of semantic versions.
    pub open spec fn valid(self) -> bool {
        valid_prerelease(self.pre) && valid_identifiers(self.build)
    }
}

pub open spec fn is_digit(c: char) -> bool {
    '0' <= c <= '9'
}

pub open spec fn is_identifier_char(c: char) -> bool {
    is_digit(c) || 'A' <= c <= 'Z' || 'a' <= c <= 'z' || c == '-'
}

/// `s[i..j]` is one of the pieces between the dots of `s`.
pub open spec fn is_segment(s: Seq<char>, i: int, j: int) -> bool {
    &&& 0 <= i <= j <= s.len()
    &&& i == 0 || s[i - 1] == '.'
    &&& j == s.len() || s[j] == '.'
    &&& forall|k: int| i <= k < j ==> s[k] != '.'
}

/// Empty, or identifiers of letters, digits and hyphens, none of them empty, with dots between.
pub open spec fn valid_identifiers(s: Seq<char>) -> bool {
    s.len() == 0 || {
        &&& forall|k: int| 0 <= k < s.len() ==> s[k] == '.' || is_identifier_char(#[trigger] s[k])
        &&& forall|i: int, j: int| #[trigger] is_segment(s, i, j) ==> i < j
    }
}

/// Identifiers among which no number is written with a leading zero.
pub open spec fn valid_prerelease(s: Seq<char>) -> bool {
    &&& valid_identifiers(s)
    &&& forall|i: int, j: int| #[trigger]
        is_segment(s, i, j) && i + 1 < j && s[i] == '0' ==> exists|k: int|
            i <= k < j && !is_digit(#[trigger] s[k])
}

/// `n` in decimal digits.
pub open spec fn decimal(n: nat) -> Seq<char>
    decreases n,
{
    if n < 10 {
        seq![digit(n)]
    } else {
        decimal(n / 10).push(digit(n % 10))
    }
}

pub open spec fn digit(n: nat) -> char {
    (48 + n) as char
}

/// The way a version is written: `major.minor.patch-pre+build`, without the hyphen or the plus
/// where nothing follows it.
pub open spec fn version_text(v: VersionView) -> Seq<char> {
    decimal(v.major as nat) + (seq!['.'] + (decimal(v.minor as nat) + (seq!['.'] + (decimal(
        v.patch as nat,
    ) + version_tail(v)))))
}

pub open spec fn version_tail(v: VersionView) -> Seq<char> {
    marked('-', v.pre) + marked('+', v.build)
}

pub open spec fn marked(mark: char, s: Seq<char>) -> Seq<char> {
    if s.len() == 0 {
        Seq::empty()
    } else {
        seq![mark] + s
    }
}

proof fn lemma_decimal_digits(n: nat)
    ensures
        decimal(n).len() > 0,
        forall|i: int| 0 <= i < decimal(n).len() ==> is_digit(#[trigger] decimal(n)[i]),
    decreases n,
{
    if n >= 10 {
        lemma_decimal_digits(n / 10);
    }
}

proof fn lemma_decimal_injective(a: nat, b: nat)
    requires
        decimal(a) == decimal(b),
    ensures
        a == b,
    decreases a,
{
    lemma_decimal_digits(a / 10);
    lemma_decimal_digits(b / 10);
    assert(decimal(a).last() == digit(a % 10));
    assert(decimal(b).last() == digit(b % 10));
    assert(a % 10 == b % 10);
    if a >= 10 && b >= 10 {
        assert(decimal(a).drop_last() == decimal(a / 10));
        assert(decimal(b).drop_last() == decimal(b / 10));
        lemma_decimal_injective(a / 10, b / 10);
    }
}

/// Two texts that each consist of characters of one kind, followed by nothing or by a character
/// of another kind, are equal only piece by piece.
proof fn lemma_split_unique(
    kind: spec_fn(char) -> bool,
    a: Seq<char>,
    x: Seq<char>,
    b: Seq<char>,
    y: Seq<char>,
)
    requires
        forall|i: int| 0 <= i < a.len() ==> kind(#[trigger] a[i]),
        forall|i: int| 0 <= i < b.len() ==> kind(#[trigger] b[i]),
        x.len() > 0 ==> !kind(x[0]),
        y.len() > 0 ==> !kind(y[0]),
        a + x == b + y,
    ensures
        a == b,
        x == y,
{
    let s = a + x;
    let t = b + y;
    if a.len() < b.len() {
        assert(t[a.len() as int] == b[a.len() as int]);
        assert(s[a.len() as int] == x[0]);
    }
    if b.len() < a.len() {
        assert(s[b.len() as int] == a[b.len() as int]);
        assert(t[b.len() as int] == y[0]);
    }
    assert(a == s.take(a.len() as int));
    assert(b == t.take(a.len() as int));
    assert(x == s.skip(a.len() as int));
    assert(y == t.skip(a.len() as int));
}

/// A version is determined by the way it is written.
pub proof fn law_version_text_injective(a: VersionView, b: VersionView)
    requires
        a.valid(),
        b.valid(),
        version_text(a) == version_text(b),
    ensures
        a == b,
{
    let digits = |c: char| is_digit(c);
    lemma_decimal_digits(a.major as nat);
    lemma_decimal_digits(b.major as nat);
    lemma_decimal_digits(a.minor as nat);
    lemma_decimal_digits(b.minor as nat);
    lemma_decimal_digits(a.patch as nat);
    lemma_decimal_digits(b.patch as nat);
    let a3 = decimal(a.patch as nat) + version_tail(a);
    let b3 = decimal(b.patch as nat) + version_tail(b);
    let a2 = decimal(a.minor as nat) + (seq!['.'] + a3);
    let b2 = decimal(b.minor as nat) + (seq!['.'] + b3);
    lemma_split_unique(
        digits,
        decimal(a.major as nat),
        seq!['.'] + a2,
        decimal(b.major as nat),
        seq!['.'] + b2,
    );
    assert(a2 == (seq!['.'] + a2).skip(1));
    assert(b2 == (seq!['.'] + b2).skip(1));
    lemma_split_unique(
        digits,
        decimal(a.minor as nat),
        seq!['.'] + a3,
        decimal(b.minor as nat),
        seq!['.'] + b3,
    );
    assert(a3 == (seq!['.'] + a3).skip(1));
    assert(b3 == (seq!['.'] + b3).skip(1));
    lemma_split_unique(
        digits,
        decimal(a.patch as nat),
        version_tail(a),
        decimal(b.patch as nat),
        version_tail(b),
    );
    lemma_decimal_injective(a.major as nat, b.major as nat);
    lemma_decimal_injective(a.minor as nat, b.minor as nat);
    lemma_decimal_injective(a.patch as nat, b.patch as nat);
    let not_plus = |c: char| c != '+';
    lemma_split_unique(
        not_plus,
        marked('-', a.pre),
        marked('+', a.build),
        marked('-', b.pre),
        marked('+', b.build),
    );
    lemma_marked_injective('-', a.pre, b.pre);
    lemma_marked_injective('+', a.build, b.build);
}

proof fn lemma_marked_injective(mark: char, a: Seq<char>, b: Seq<char>)
    requires
        marked(mark, a) == marked(mark, b),
    ensures
        a == b,
{
    if a.len() > 0 {
        assert(marked(mark, a).skip(1) == a);
    }
    if b.len() > 0 {
        assert(marked(mark, b).skip(1) == b);
    }
    assert(marked(mark, a).len() == if a.len() == 0 { 0 } else { 1 + a.len() });
    assert(marked(mark, b).len() == if b.len() == 0 { 0 } else { 1 + b.len() });
}

/// The version that a text is the writing of, where it is one.
pub open spec fn parsed_version(text: Seq<char>) -> Option<VersionView> {
    if exists|v: VersionView| v.valid() && #[trigger] version_text(v) == text {
        Some(choose|v: VersionView| v.valid() && #[trigger] version_text(v) == text)
    } else {
        None
    }
}

/// Writing a version and reading the text gives the version back.
pub proof fn law_written_version_reads_back(v: VersionView)
    requires
        v.valid(),
    ensures
        parsed_version(version_text(v)) == Some(v),
{
    let w = choose|w: VersionView| w.valid() && #[trigger] version_text(w) == version_text(v);
    law_version_text_injective(v, w);
}

/// The error of the `semver` crate for a text that is no version.
#[verifier::external_type_specification]
#[verifier::external_body]
pub struct ExSemverError(semver::Error);

/// Whether, of two versions with the same three numbers, the first one's pre-release and build
/// identifiers do not rank above the second one's in the order of `semver::Version`.
pub uninterp spec fn identifiers_le(
    pre: Seq<char>,
    build: Seq<char>,
    other_pre: Seq<char>,
    other_build: Seq<char>,
) -> bool;

pub open spec fn same_numbers(a: VersionView, b: VersionView) -> bool {
    a.major == b.major && a.minor == b.minor && a.patch == b.patch
}

/// `a` ranks no higher than `b`: the numbers decide from the left, and the identifiers last.
pub open spec fn version_le(a: VersionView, b: VersionView) -> bool {
    if a.major != b.major {
        a.major < b.major
    } else if a.minor != b.minor {
        a.minor < b.minor
    } else if a.patch != b.patch {
        a.patch < b.patch
    } else {
        identifiers_le(a.pre, a.build, b.pre, b.build)
    }
}

/// How one version ranks against another.
#[derive(Debug, Clone, Copy, PartialEq, Eq, Structural)]
pub enum Rank {
    Lower,
    Same,
    Higher,
}

/// A semantic version.
#[derive(Debug)]
pub struct Version {
    major: u64,
    minor: u64,
    patch: u64,
    pre: String,
    build: String,
}

impl View for Version {
    type V = VersionView;

    closed spec fn view(&self) -> VersionView {
        VersionView {
            major: self.major,
            minor: self.minor,
            patch: self.patch,
            pre: self.pre@,
            build: self.build@,
        }
    }
}

/// `semver::Version::parse` accepts a text exactly when it is the writing of a version whose
/// identifiers follow the grammar, and returns the parts of that version. What the error says
/// of a text that it rejects is not stated. It would panic on identifiers of 64 petabytes, which
/// no text in memory has.
#[verifier::external_body]
fn parse_parts(text: &str) -> (r: Result<(u64, u64, u64, String, String), semver::Error>)
    ensures
        match r {
            Ok(p) => {
                let v = VersionView { major: p.0, minor: p.1, patch: p.2, pre: p.3@, build: p.4@ };
                v.valid() && version_text(v) == text@
            },
            Err(_) => forall|v: VersionView| v.valid() ==> #[trigger] version_text(v) != text@,
        },
{
    match semver::Version::parse(text) {
        Ok(v) => {
            let pre = v.pre.as_str().to_string();
            let build = v.build.as_str().to_string();
            Ok((v.major, v.minor, v.patch, pre, build))
        },
        Err(error) => Err(error),
    }
}

/// `semver::Version`'s `Display` writes the three numbers with dots between them, then the
/// pre-release identifiers after a hyphen and the build identifiers after a plus, each only
/// where there are any.
#[verifier::external_body]
fn write_version(version: &Version) -> (r: String)
    requires
        version@.valid(),
    ensures
        r@ == version_text(version@),
{
    let semver_version = semver::Version {
        major: version.major,
        minor: version.minor,
        patch: version.patch,
        pre: semver::Prerelease::new(&version.pre).unwrap(),
        build: semver::BuildMetadata::new(&version.build).unwrap(),
    };
    semver_version.to_string()
}

/// `Ord` of `semver::Version` is a total order in which only equal versions rank the same. It
/// goes by the three numbers first; among versions with the same numbers one without pre-release
/// identifiers ranks above one with them.
#[verifier::external_body]
fn rank_versions(a: &Version, b: &Version) -> (r: Rank)
    requires
        a@.valid(),
        b@.valid(),
    ensures
        r == Rank::Higher <==> !version_le(a@, b@),
        same_numbers(a@, b@) ==> (r == Rank::Higher) == !identifiers_le(
            a@.pre,
            a@.build,
            b@.pre,
            b@.build,
        ),
        r == Rank::Lower <==> !version_le(b@, a@),
        r == Rank::Same <==> a@ == b@,
        r != Rank::Higher ==> forall|c: VersionView|
            c.valid() && #[trigger] version_le(c, a@) ==> version_le(c, b@),
        same_numbers(a@, b@) && a@.pre.len() == 0 && b@.pre.len() > 0 ==> r == Rank::Higher,
{
    let pre = semver::Prerelease::new(&a.pre).unwrap();
    let build = semver::BuildMetadata::new(&a.build).unwrap();
    let left = semver::Version { major: a.major, minor: a.minor, patch: a.patch, pre, build };
    let pre = semver::Prerelease::new(&b.pre).unwrap();
    let build = semver::BuildMetadata::new(&b.build).unwrap();
    let right = semver::Version { major: b.major, minor: b.minor, patch: b.patch, pre, build };
    match left.cmp(&right) {
        std::cmp::Ordering::Less => Rank::Lower,
        std::cmp::Ordering::Equal => Rank::Same,
        std::cmp::Ordering::Greater => Rank::Higher,
    }
}

impl Version {
    /// Every version has identifiers that follow the grammar.
    #[verifier::type_invariant]
    pub open spec fn well_formed(self) -> bool {
        self@.valid()
    }

    /// Reads a version. It succeeds exactly on the texts that are the writing of a version.
    pub fn parse(text: &str) -> (r: Result<Version, semver::Error>)
        ensures
            match r {
                Ok(version) => parsed_version(text@) == Some(version@) && version@.valid()
                    && version_text(version@) == text@,
                Err(_) => parsed_version(text@) is None,
            },
    {
        match parse_parts(text) {
            Ok((major, minor, patch, pre, build)) => {
                let ghost view = VersionView { major, minor, patch, pre: pre@, build: build@ };
                let version = Version { major, minor, patch, pre, build };
                proof {
                    assert(version@ == view);
                    law_written_version_reads_back(view);
                }
                Ok(version)
            },
            Err(error) => Err(error),
        }
    }

    /// The way the version is written.
    pub fn to_text(&self) -> (r: String)
        ensures
            r@ == version_text(self@),
    {
        proof {
            use_type_invariant(self);
        }
        write_version(self)
    }

    /// How this version ranks against another.
    pub fn rank(&self, other: &Version) -> (r: Rank)
        ensures
            self@.valid(),
            other@.valid(),
            r == Rank::Higher <==> !version_le(self@, other@),
            r == Rank::Lower <==> !version_le(other@, self@),
            r == Rank::Same <==> self@ == other@,
            r != Rank::Higher ==> forall|c: VersionView|
                c.valid() && #[trigger] version_le(c, self@) ==> version_le(c, other@),
            same_numbers(self@, other@) && self@.pre.len() == 0 && other@.pre.len() > 0 ==> r
                == Rank::Higher,
    {
        proof {
            use_type_invariant(self);
            use_type_invariant(other);
        }
        rank_versions(self, other)
    }

    /// Whether two versions have the same parts.
    pub fn same(&self, other: &Version) -> (r: bool)
        ensures
            r == (self@ == other@),
    {
        self.major == other.major && self.minor == other.minor && self.patch == other.patch
            && self.pre == other.pre && self.build == other.build
    }
}

impl PartialEq for Version {
    fn eq(&self, other: &Version) -> (r: bool) {
        self.same(other)
    }
}

impl vstd::std_specs::cmp::PartialEqSpecImpl for Version {
    open spec fn obeys_eq_spec() -> bool {
        true
    }

    open spec fn eq_spec(&self, other: &Version) -> bool {
        self@ == other@
    }
}

impl Eq for Version {
}

impl Clone for Version {
    fn clone(&self) -> (r: Version)
        ensures
            r@ == self@,
    {
        proof {
            use_type_invariant(self);
        }
        let pre = self.pre.clone();
        let build = self.build.clone();
        assert(VersionView {
            major: self.major,
            minor: self.minor,
            patch: self.patch,
            pre: pre@,
            build: build@,
        } == self@);
        Version { major: self.major, minor: self.minor, patch: self.patch, pre, build }
    }
}

/// Two versions stand on one compatibility line when they agree on every number up to the first
/// one of `current` that is not zero, or on all three.
pub open spec fn same_line(old_version: VersionView, current: VersionView) -> bool {
    &&& old_version.major == current.major
    &&& current.major > 0 || {
        &&& old_version.minor == current.minor
        &&& current.minor > 0 || old_version.patch == current.patch
    }
}

/// Whether two versions stand on one compatibility line.
pub fn same_semver_compatibility_line(old_version: &Version, current_version: &Version) -> (r: bool)
    ensures
        r == same_line(old_version@, current_version@),
{
    if old_version.major != current_version.major {
        return false;
    }
    if current_version.major > 0 {
        return true;
    }
    if old_version.minor != current_version.minor {
        return false;
    }
    if current_version.minor > 0 {
        return true;
    }
    old_version.patch == current_version.patch
}

/// Standing on one compatibility line is an equivalence: the lines part the versions into
/// classes.
pub proof fn law_same_line_is_equivalence(a: VersionView, b: VersionView, c: VersionView)
    ensures
        same_line(a, a),
        same_line(a, b) ==> same_line(b, a),
        same_line(a, b) && same_line(b, c) ==> same_line(a, c),
{
}

/// A `0.y.z` version shares its line only with versions of the same `0.y`.
pub proof fn law_zero_major_line_keeps_minor(old_version: VersionView, current: VersionView)
    requires
        current.major == 0,
        same_line(old_version, current),
    ensures
        old_version.major == 0,
        old_version.minor == current.minor,
{
}

/// The number that decimal digits stand for.
pub open spec fn number_of(digits: Seq<char>) -> int
    decreases digits.len(),
{
    if digits.len() == 0 {
        0
    } else {
        10 * number_of(digits.drop_last()) + (digits.last() as int - '0' as int)
    }
}

/// A number is written in decimal digits that stand for it, without a leading zero.
pub proof fn law_decimal_reads_back(n: nat)
    ensures
        number_of(decimal(n)) == n,
        decimal(n).len() > 0,
        forall|i: int| 0 <= i < decimal(n).len() ==> '0' <= #[trigger] decimal(n)[i] <= '9',
        decimal(n).len() > 1 ==> decimal(n)[0] != '0',
    decreases n,
{
    lemma_decimal_digits(n);
    if n < 10 {
        assert(decimal(n).drop_last() == Seq::<char>::empty());
        assert(number_of(decimal(n).drop_last()) == 0);
    } else {
        law_decimal_reads_back(n / 10);
        assert(decimal(n).drop_last() == decimal(n / 10));
        assert(decimal(n)[0] == decimal(n / 10)[0]);
        if n / 10 < 10 {
            assert(decimal(n / 10) == seq![digit(n / 10)]);
            assert(digit(n / 10) != '0');
        } else {
            lemma_decimal_digits(n / 10 / 10);
        }
    }
}

/// A version is written as its three numbers with dots between them, then a hyphen and the
/// pre-release identifiers, and a plus and the build identifiers, each where there are any.
pub proof fn law_version_text_shows_all_parts(v: VersionView)
    ensures
        ({
            let numbers = decimal(v.major as nat) + seq!['.'] + decimal(v.minor as nat) + seq!['.']
                + decimal(v.patch as nat);
            &&& v.pre.len() == 0 && v.build.len() == 0 ==> version_text(v) == numbers
            &&& v.pre.len() > 0 && v.build.len() == 0 ==> version_text(v) == numbers + seq!['-']
                + v.pre
            &&& v.pre.len() == 0 && v.build.len() > 0 ==> version_text(v) == numbers + seq!['+']
                + v.build
            &&& v.pre.len() > 0 && v.build.len() > 0 ==> version_text(v) == numbers + seq!['-']
                + v.pre + seq!['+'] + v.build
        }),
{
    let numbers = decimal(v.major as nat) + seq!['.'] + decimal(v.minor as nat) + seq!['.']
        + decimal(v.patch as nat);
    assert(version_text(v) == numbers + version_tail(v));
    assert(version_tail(v) == marked('-', v.pre) + marked('+', v.build));
    assert(numbers + (marked('-', v.pre) + marked('+', v.build)) == numbers + marked('-', v.pre)
        + marked('+', v.build));
}

/// Reading a text as a version loses nothing: the version that is read is written as that text.
pub proof fn law_read_version_writes_back(text: Seq<char>)
    ensures
        parsed_version(text) matches Some(v) ==> v.valid() && version_text(v) == text,
{
}

/// The numbers decide which version ranks higher, from the left; the identifiers only where all
/// three are the same.
pub proof fn law_numbers_rank_first(a: VersionView, b: VersionView)
    ensures
        a.major < b.major ==> version_le(a, b) && !version_le(b, a),
        a.major == b.major && a.minor < b.minor ==> version_le(a, b) && !version_le(b, a),
        a.major == b.major && a.minor == b.minor && a.patch < b.patch ==> version_le(a, b)
            && !version_le(b, a),
        a.major == b.major && a.minor == b.minor && a.patch == b.patch ==> version_le(a, b)
            == identifiers_le(a.pre, a.build, b.pre, b.build),
{
}

/// From `1.0.0` on all versions with the same major number stand on one compatibility line, and
/// no others.
pub proof fn law_released_line_is_the_major_number(
    old_version: VersionView,
    current: VersionView,
)
    requires
        current.major > 0,
    ensures
        same_line(old_version, current) <==> old_version.major == current.major,
{
}

/// Below `1.0.0` the line goes by the minor number where that is not zero, and else by the patch
/// number. Identifiers play no part.
pub proof fn law_unreleased_line_is_the_next_number(
    old_version: VersionView,
    current: VersionView,
)
    requires
        current.major == 0,
    ensures
        current.minor > 0 ==> (same_line(old_version, current) <==> old_version.major == 0
            && old_version.minor == current.minor),
        current.minor == 0 ==> (same_line(old_version, current) <==> old_version.major == 0
            && old_version.minor == 0 && old_version.patch == current.patch),
{
}

/// A single identifier is any text of letters, digits and hyphens. As a pre-release identifier it
/// is no number with a leading zero.
pub proof fn law_single_identifier(s: Seq<char>)
    requires
        s.len() > 0,
        forall|k: int|
            0 <= k < s.len() ==> '0' <= #[trigger] s[k] <= '9' || 'A' <= s[k] <= 'Z' || 'a' <= s[k]
                <= 'z' || s[k] == '-',
    ensures
        valid_identifiers(s),
        s[0] != '0' || s.len() == 1 ==> valid_prerelease(s),
        (exists|k: int| 0 <= k < s.len() && !('0' <= #[trigger] s[k] <= '9')) ==> valid_prerelease(
            s,
        ),
{
    assert forall|k: int| 0 <= k < s.len() implies #[trigger] s[k] != '.' by {}
    assert forall|i: int, j: int| #[trigger] is_segment(s, i, j) implies i == 0 && j == s.len() by {
        if i > 0 {
            assert(s[i - 1] == '.');
        }
        if j < s.len() {
            assert(s[j] == '.');
        }
    }
    if exists|k: int| 0 <= k < s.len() && !('0' <= #[trigger] s[k] <= '9') {
        let k = choose|k: int| 0 <= k < s.len() && !('0' <= #[trigger] s[k] <= '9');
        assert(!is_digit(s[k]));
    }
}

/// Identifiers are put together with dots between them.
pub proof fn law_identifiers_joined(a: Seq<char>, b: Seq<char>)
    requires
        a.len() > 0,
        b.len() > 0,
    ensures
        valid_identifiers(a) && valid_identifiers(b) ==> valid_identifiers(a + seq!['.'] + b),
        valid_prerelease(a) && valid_prerelease(b) ==> valid_prerelease(a + seq!['.'] + b),
{
    let s = a + seq!['.'] + b;
    let n = a.len() as int;
    assert(s[n] == '.');
    assert forall|k: int| 0 <= k < b.len() implies s[n + 1 + k] == #[trigger] b[k] by {}
    assert forall|i: int, j: int| #[trigger] is_segment(s, i, j) implies (j <= n && is_segment(
        a,
        i,
        j,
    )) || (i > n && is_segment(b, i - n - 1, j - n - 1)) by {
        if j <= n {
            assert forall|k: int| i <= k < j implies a[k] != '.' by {
                assert(s[k] == a[k]);
            }
            assert(i > 0 ==> s[i - 1] == a[i - 1]);
            assert(j < n ==> s[j] == a[j]);
        } else {
            if i <= n {
                assert(s[n] != '.');
            }
            assert forall|k: int| i - n - 1 <= k < j - n - 1 implies b[k] != '.' by {
                assert(s[n + 1 + k] == b[k]);
            }
            assert(i > n + 1 ==> s[i - 1] == b[i - n - 2]);
            assert(j < s.len() ==> s[j] == b[j - n - 1]);
        }
    }
    if valid_identifiers(a) && valid_identifiers(b) {
        assert forall|k: int| 0 <= k < s.len() implies s[k] == '.' || is_identifier_char(
            #[trigger] s[k],
        ) by {
            if k < n {
                assert(s[k] == a[k]);
            } else if k > n {
                assert(s[k] == b[k - n - 1]);
            }
        }
        assert forall|i: int, j: int| #[trigger] is_segment(s, i, j) implies i < j by {
            if j <= n && is_segment(a, i, j) {
            } else {
                assert(is_segment(b, i - n - 1, j - n - 1));
            }
        }
    }
    if valid_prerelease(a) && valid_prerelease(b) {
        assert forall|i: int, j: int| #[trigger]
            is_segment(s, i, j) && i + 1 < j && s[i] == '0' implies exists|k: int|
            i <= k < j && !is_digit(#[trigger] s[k]) by {
            if j <= n && is_segment(a, i, j) {
                assert(a[i] == s[i]);
                let k = choose|k: int| i <= k < j && !is_digit(#[trigger] a[k]);
                assert(s[k] == a[k]);
            } else {
                let x = i - n - 1;
                let y = j - n - 1;
                assert(is_segment(b, x, y));
                assert(b[x] == s[i]);
                let k = choose|k: int| x <= k < y && !is_digit(#[trigger] b[k]);
                assert(s[n + 1 + k] == b[k]);
            }
        }
    }
}

/// Every three numbers are a version, and pre-release and build identifiers go with any of them.
pub proof fn law_valid_versions(v: VersionView)
    ensures
        v.valid() <==> valid_prerelease(v.pre) && valid_identifiers(v.build),
        v.pre.len() == 0 && v.build.len() == 0 ==> v.valid(),
{
}

} // verus!
