//! Release identifiers: what a release is, how it is written, and how two
//! releases rank against each other.

use std::cmp::Ordering;
use vstd::prelude::*;
use vstd::std_specs::cmp::PartialEqSpecImpl;
use vstd::std_specs::cmp::PartialOrdSpecImpl;

pub use crate::catalog::Db;
use crate::text::int_digits;
use crate::text::push_i32;
use crate::text::push_str;
use crate::text::string_of;

verus! {

/// Marks a release as a pre-release. A release without such a tag is stable.
#[derive(Debug, Clone, Copy, PartialEq, Eq, Structural)]
pub enum UnstableVersion {
    /// Release candidate number `n`.
    RC(i32),
    /// Beta number `n`.
    Beta(i32),
}

/// One published archive of the SDK.
#[derive(Debug)]
pub struct Version {
    /// File name of the archive.
    pub name: String,
    /// Target architecture.
    pub arch: String,
    /// Target operating system.
    pub os: String,
    /// Major component.
    pub v1: i32,
    /// Minor component.
    pub v2: Option<i32>,
    /// Patch component.
    pub v3: Option<i32>,
    /// Pre-release tag; `None` for a stable release.
    pub unstable_v4: Option<UnstableVersion>,
    /// Size of the archive in bytes.
    pub size: i32,
    /// Name of the resource that holds the archive's checksum.
    pub sha256: String,
}

/// The mathematical value of a [`Version`]: its texts as sequences of
/// characters, its numbers as they are.
pub struct VersionView {
    pub name: Seq<char>,
    pub arch: Seq<char>,
    pub os: Seq<char>,
    pub v1: i32,
    pub v2: Option<i32>,
    pub v3: Option<i32>,
    pub unstable_v4: Option<UnstableVersion>,
    pub size: i32,
    pub sha256: Seq<char>,
}

impl View for Version {
    type V = VersionView;

    open spec fn view(&self) -> VersionView {
        VersionView {
            name: self.name@,
            arch: self.arch@,
            os: self.os@,
            v1: self.v1,
            v2: self.v2,
            v3: self.v3,
            unstable_v4: self.unstable_v4,
            size: self.size,
            sha256: self.sha256@,
        }
    }
}

/// The views of a sequence of releases, element by element.
pub open spec fn views(s: Seq<Version>) -> Seq<VersionView> {
    s.map_values(|v: Version| v@)
}

// ---------------------------------------------------------------------------
// Ranking
// ---------------------------------------------------------------------------

/// An optional component ranks below another when it is absent and the other
/// present, or both are present and its number is smaller.
pub open spec fn component_below(a: Option<i32>, b: Option<i32>) -> bool {
    match (a, b) {
        (None, Some(_)) => true,
        (Some(x), Some(y)) => x < y,
        _ => false,
    }
}

/// Among pre-release tags every beta ranks below every release candidate;
/// within one kind the smaller number ranks below.
pub open spec fn unstable_below(x: UnstableVersion, y: UnstableVersion) -> bool {
    match (x, y) {
        (UnstableVersion::Beta(_), UnstableVersion::RC(_)) => true,
        (UnstableVersion::RC(_), UnstableVersion::Beta(_)) => false,
        (UnstableVersion::RC(m), UnstableVersion::RC(n)) => m < n,
        (UnstableVersion::Beta(m), UnstableVersion::Beta(n)) => m < n,
    }
}

/// A pre-release ranks below a stable release; two pre-releases rank by
/// their tags.
pub open spec fn tag_below(a: Option<UnstableVersion>, b: Option<UnstableVersion>) -> bool {
    match (a, b) {
        (Some(_), None) => true,
        (Some(x), Some(y)) => unstable_below(x, y),
        _ => false,
    }
}

/// `a` ranks strictly below `b`: the first of major, minor, patch and tag in
/// which they differ decides. File name, size, operating system, architecture
/// and checksum name play no part.
pub open spec fn precedes(a: VersionView, b: VersionView) -> bool {
    a.v1 < b.v1 || (a.v1 == b.v1 && (component_below(a.v2, b.v2) || (a.v2 == b.v2 && (
    component_below(a.v3, b.v3) || (a.v3 == b.v3 && tag_below(a.unstable_v4, b.unstable_v4))))))
}

/// `a` and `b` hold the same place in the ranking: major, minor, patch and
/// tag agree.
pub open spec fn same_rank(a: VersionView, b: VersionView) -> bool {
    a.v1 == b.v1 && a.v2 == b.v2 && a.v3 == b.v3 && a.unstable_v4 == b.unstable_v4
}

/// How the tag `x` stands to the tag `y`.
pub open spec fn unstable_ordering(x: UnstableVersion, y: UnstableVersion) -> Ordering {
    if unstable_below(x, y) {
        Ordering::Less
    } else if unstable_below(y, x) {
        Ordering::Greater
    } else {
        Ordering::Equal
    }
}

/// How the release `a` stands to the release `b`.
pub open spec fn ordering_between(a: VersionView, b: VersionView) -> Ordering {
    if precedes(a, b) {
        Ordering::Less
    } else if precedes(b, a) {
        Ordering::Greater
    } else {
        Ordering::Equal
    }
}

/// Of two releases exactly one holds: the first ranks below the second, they
/// hold the same place, or the second ranks below the first. The ordering
/// reports `Equal` exactly when they hold the same place, and turning the
/// arguments round turns `Less` into `Greater`.
pub proof fn lemma_order_total(a: VersionView, b: VersionView)
    ensures
        precedes(a, b) || same_rank(a, b) || precedes(b, a),
        !(precedes(a, b) && same_rank(a, b)),
        !(precedes(a, b) && precedes(b, a)),
        !(same_rank(a, b) && precedes(b, a)),
        ordering_between(a, b) == Ordering::Equal <==> same_rank(a, b),
        ordering_between(a, b) == Ordering::Less <==> ordering_between(b, a) == Ordering::Greater,
{
}

/// Ranking below is transitive, and holding the same place carries it along
/// on either side.
pub proof fn lemma_order_transitive(a: VersionView, b: VersionView, c: VersionView)
    ensures
        precedes(a, b) && precedes(b, c) ==> precedes(a, c),
        same_rank(a, b) && precedes(b, c) ==> precedes(a, c),
        precedes(a, b) && same_rank(b, c) ==> precedes(a, c),
        same_rank(a, b) && same_rank(b, c) ==> same_rank(a, c),
{
}

/// A stable release outranks every pre-release with the same major, minor
/// and patch components.
pub proof fn lemma_stable_outranks_prerelease(stable: VersionView, pre: VersionView)
    requires
        stable.v1 == pre.v1,
        stable.v2 == pre.v2,
        stable.v3 == pre.v3,
        stable.unstable_v4 is None,
        pre.unstable_v4 is Some,
    ensures
        precedes(pre, stable),
        ordering_between(stable, pre) == Ordering::Greater,
{
}

/// Every release candidate outranks every beta, whatever their numbers, and
/// within one kind the higher number outranks the lower.
pub proof fn lemma_tag_ranking(m: i32, n: i32)
    ensures
        unstable_below(UnstableVersion::Beta(m), UnstableVersion::RC(n)),
        !unstable_below(UnstableVersion::RC(n), UnstableVersion::Beta(m)),
        unstable_below(UnstableVersion::RC(m), UnstableVersion::RC(n)) <==> m < n,
        unstable_below(UnstableVersion::Beta(m), UnstableVersion::Beta(n)) <==> m < n,
{
}

fn component_is_below(a: Option<i32>, b: Option<i32>) -> (r: bool)
    ensures
        r == component_below(a, b),
{
    match (a, b) {
        (None, Some(_)) => true,
        (Some(x), Some(y)) => x < y,
        _ => false,
    }
}

fn component_is_same(a: Option<i32>, b: Option<i32>) -> (r: bool)
    ensures
        r == (a == b),
{
    match (a, b) {
        (None, None) => true,
        (Some(x), Some(y)) => x == y,
        _ => false,
    }
}

fn tag_is_below(a: Option<UnstableVersion>, b: Option<UnstableVersion>) -> (r: bool)
    ensures
        r == tag_below(a, b),
{
    match (a, b) {
        (Some(_), None) => true,
        (Some(x), Some(y)) => x.ranks_below(&y),
        _ => false,
    }
}

fn tag_is_same(a: Option<UnstableVersion>, b: Option<UnstableVersion>) -> (r: bool)
    ensures
        r == (a == b),
{
    match (a, b) {
        (None, None) => true,
        (Some(x), Some(y)) => x == y,
        _ => false,
    }
}

impl UnstableVersion {
    /// Whether this tag ranks strictly below `other`.
    pub fn ranks_below(&self, other: &UnstableVersion) -> (r: bool)
        ensures
            r == unstable_below(*self, *other),
    {
        match (*self, *other) {
            (UnstableVersion::Beta(_), UnstableVersion::RC(_)) => true,
            (UnstableVersion::RC(_), UnstableVersion::Beta(_)) => false,
            (UnstableVersion::RC(m), UnstableVersion::RC(n)) => m < n,
            (UnstableVersion::Beta(m), UnstableVersion::Beta(n)) => m < n,
        }
    }

    /// How this tag stands to `other`.
    pub fn cmp(&self, other: &UnstableVersion) -> (r: Ordering)
        ensures
            r == unstable_ordering(*self, *other),
    {
        if self.ranks_below(other) {
            Ordering::Less
        } else if other.ranks_below(self) {
            Ordering::Greater
        } else {
            Ordering::Equal
        }
    }
}

impl PartialOrd for UnstableVersion {
    fn partial_cmp(&self, other: &UnstableVersion) -> (r: Option<Ordering>) {
        Some(self.cmp(other))
    }
}

impl PartialOrdSpecImpl for UnstableVersion {
    open spec fn obeys_partial_cmp_spec() -> bool {
        true
    }

    open spec fn partial_cmp_spec(&self, other: &UnstableVersion) -> Option<Ordering> {
        Some(unstable_ordering(*self, *other))
    }
}

impl Version {
    /// Whether this release ranks strictly below `other`.
    pub fn ranks_below(&self, other: &Version) -> (r: bool)
        ensures
            r == precedes(self@, other@),
    {
        if self.v1 != other.v1 {
            return self.v1 < other.v1;
        }
        if !component_is_same(self.v2, other.v2) {
            return component_is_below(self.v2, other.v2);
        }
        if !component_is_same(self.v3, other.v3) {
            return component_is_below(self.v3, other.v3);
        }
        tag_is_below(self.unstable_v4, other.unstable_v4)
    }

    /// Whether this release holds the same place in the ranking as `other`.
    pub fn ranks_with(&self, other: &Version) -> (r: bool)
        ensures
            r == same_rank(self@, other@),
    {
        self.v1 == other.v1 && component_is_same(self.v2, other.v2) && component_is_same(
            self.v3,
            other.v3,
        ) && tag_is_same(self.unstable_v4, other.unstable_v4)
    }

    /// How this release stands to `other` in the total ordering of releases.
    pub fn cmp(&self, other: &Version) -> (r: Ordering)
        ensures
            r == ordering_between(self@, other@),
    {
        if self.ranks_below(other) {
            Ordering::Less
        } else if other.ranks_below(self) {
            Ordering::Greater
        } else {
            Ordering::Equal
        }
    }
}

impl PartialEq for Version {
    fn eq(&self, other: &Version) -> (r: bool) {
        self.ranks_with(other)
    }
}

impl PartialEqSpecImpl for Version {
    open spec fn obeys_eq_spec() -> bool {
        true
    }

    open spec fn eq_spec(&self, other: &Version) -> bool {
        same_rank(self@, other@)
    }
}

impl Eq for Version {

}

impl PartialOrd for Version {
    fn partial_cmp(&self, other: &Version) -> (r: Option<Ordering>) {
        Some(self.cmp(other))
    }
}

impl PartialOrdSpecImpl for Version {
    open spec fn obeys_partial_cmp_spec() -> bool {
        true
    }

    open spec fn partial_cmp_spec(&self, other: &Version) -> Option<Ordering> {
        Some(ordering_between(self@, other@))
    }
}


// ---------------------------------------------------------------------------
// Written forms
// ---------------------------------------------------------------------------

/// A tag is written as its kind, `rc` or `beta`, directly followed by its
/// number.
pub open spec fn tag_text(t: UnstableVersion) -> Seq<char> {
    match t {
        UnstableVersion::RC(n) => seq!['r', 'c'] + int_digits(n as int),
        UnstableVersion::Beta(n) => seq!['b', 'e', 't', 'a'] + int_digits(n as int),
    }
}

/// An optional component is written as a dot and its number, or not at all.
pub open spec fn component_text(c: Option<i32>) -> Seq<char> {
    match c {
        Some(x) => seq!['.'] + int_digits(x as int),
        None => Seq::empty(),
    }
}

/// An optional tag is written as the tag, or not at all.
pub open spec fn optional_tag_text(t: Option<UnstableVersion>) -> Seq<char> {
    match t {
        Some(x) => tag_text(x),
        None => Seq::empty(),
    }
}

/// The short form of a release: `<v1>[.<v2>][.<v3>][<tag>]`.
pub open spec fn short_text(v: VersionView) -> Seq<char> {
    int_digits(v.v1 as int) + component_text(v.v2) + component_text(v.v3) + optional_tag_text(
        v.unstable_v4,
    )
}

/// The display form of a release: `go<v1>[.<v2>][.<v3>][<tag>].<os>-<arch>`.
/// The catalog keys its records by this text.
pub open spec fn display_text(v: VersionView) -> Seq<char> {
    seq!['g', 'o'] + short_text(v) + seq!['.'] + v.os + seq!['-'] + v.arch
}

fn push_component(out: &mut Vec<char>, c: Option<i32>)
    ensures
        final(out)@ == old(out)@ + component_text(c),
{
    match c {
        Some(x) => {
            out.push('.');
            push_i32(out, x);
            assert(out@ =~= old(out)@ + component_text(c));
        },
        None => {
            assert(out@ =~= old(out)@ + component_text(c));
        },
    }
}

impl UnstableVersion {
    fn push_text(&self, out: &mut Vec<char>)
        ensures
            final(out)@ == old(out)@ + tag_text(*self),
    {
        match *self {
            UnstableVersion::RC(n) => {
                out.push('r');
                out.push('c');
                push_i32(out, n);
            },
            UnstableVersion::Beta(n) => {
                out.push('b');
                out.push('e');
                out.push('t');
                out.push('a');
                push_i32(out, n);
            },
        }
        assert(out@ =~= old(out)@ + tag_text(*self));
    }

    /// The written form of the tag, `rc<n>` or `beta<n>`.
    pub fn to_string(&self) -> (r: String)
        ensures
            r@ == tag_text(*self),
    {
        let mut out: Vec<char> = Vec::new();
        self.push_text(&mut out);
        assert(out@ =~= tag_text(*self));
        string_of(&out)
    }
}

impl Version {
    fn push_short(&self, out: &mut Vec<char>)
        ensures
            final(out)@ == old(out)@ + short_text(self@),
    {
        push_i32(out, self.v1);
        push_component(out, self.v2);
        push_component(out, self.v3);
        match self.unstable_v4 {
            Some(t) => {
                t.push_text(out);
            },
            None => {},
        }
        assert(out@ =~= old(out)@ + short_text(self@));
    }

    /// The short form of the release, `<v1>[.<v2>][.<v3>][<tag>]`: the
    /// numbers and the tag without operating system and architecture.
    pub fn short_version(&self) -> (r: String)
        ensures
            r@ == short_text(self@),
    {
        let mut out: Vec<char> = Vec::new();
        self.push_short(&mut out);
        assert(out@ =~= short_text(self@));
        string_of(&out)
    }

    /// The characters of the display form.
    pub fn display_chars(&self) -> (r: Vec<char>)
        ensures
            r@ == display_text(self@),
    {
        let mut out: Vec<char> = Vec::new();
        out.push('g');
        out.push('o');
        self.push_short(&mut out);
        out.push('.');
        push_str(&mut out, self.os.as_str());
        out.push('-');
        push_str(&mut out, self.arch.as_str());
        assert(out@ =~= display_text(self@));
        out
    }

    /// The display form of the release,
    /// `go<v1>[.<v2>][.<v3>][<tag>].<os>-<arch>`.
    pub fn to_string(&self) -> (r: String)
        ensures
            r@ == display_text(self@),
    {
        let out = self.display_chars();
        string_of(&out)
    }

    /// A second release with the same contents.
    pub fn duplicate(&self) -> (r: Version)
        ensures
            r@ == self@,
    {
        Version {
            name: self.name.clone(),
            arch: self.arch.clone(),
            os: self.os.clone(),
            v1: self.v1,
            v2: self.v2,
            v3: self.v3,
            unstable_v4: self.unstable_v4,
            size: self.size,
            sha256: self.sha256.clone(),
        }
    }
}

} // verus!
