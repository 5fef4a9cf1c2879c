//! The catalog: the snapshot of known releases, keyed by display text, with
//! the indexes derived from it and the flag that tells whether it was ever
//! filled.

use vstd::prelude::*;

use crate::data::Version;
use crate::data::VersionView;
use crate::data::display_text;
use crate::data::precedes;
use crate::data::short_text;
use crate::data::views;
use crate::text::chars_of;
use crate::text::contains;
use crate::text::is_substring;
use crate::text::lex_below;
use crate::text::lex_lt;
use crate::text::same_chars;

verus! {

// ---------------------------------------------------------------------------
// Ordering a list of releases
// ---------------------------------------------------------------------------

/// Where `x` goes into a descending list: behind the leading elements that
/// outrank it, and so ahead of those that hold its place.
pub open spec fn insert_point(s: Seq<VersionView>, x: VersionView) -> int
    decreases s.len(),
{
    if s.len() > 0 && precedes(x, s[0]) {
        1 + insert_point(s.drop_first(), x)
    } else {
        0
    }
}

/// The releases of `s` from the highest rank to the lowest. Releases that
/// hold the same place come in the reverse of the order they had in `s`.
pub open spec fn sort_desc(s: Seq<VersionView>) -> Seq<VersionView>
    decreases s.len(),
{
    if s.len() == 0 {
        Seq::empty()
    } else {
        let sorted = sort_desc(s.drop_last());
        sorted.insert(insert_point(sorted, s.last()), s.last())
    }
}

/// No element of `s` ranks below a later one.
pub open spec fn is_descending(s: Seq<VersionView>) -> bool {
    forall|i: int, j: int| 0 <= i < j < s.len() ==> !precedes(#[trigger] s[i], #[trigger] s[j])
}

fn find_insert_point(sorted: &Vec<Version>, x: &Version) -> (at: usize)
    ensures
        at == insert_point(views(sorted@), x@),
        at <= sorted.len(),
{
    let ghost t = views(sorted@);
    let mut i: usize = 0;
    proof {
        assert(t.skip(0) =~= t);
    }
    while i < sorted.len() && x.ranks_below(&sorted[i])
        invariant
            i <= sorted.len(),
            t == views(sorted@),
            insert_point(t, x@) == i + insert_point(t.skip(i as int), x@),
        decreases sorted.len() - i,
    {
        proof {
            assert(t.skip(i as int)[0] == t[i as int]);
            assert(t.skip(i as int).drop_first() =~= t.skip(i + 1));
        }
        i += 1;
    }
    proof {
        if i < sorted.len() {
            assert(t.skip(i as int)[0] == t[i as int]);
        }
    }
    i
}

/// Orders releases from the highest rank to the lowest. Releases that hold
/// the same place come out in the reverse of the order they came in.
pub fn sort_descending(vers: &Vec<Version>) -> (r: Vec<Version>)
    ensures
        views(r@) == sort_desc(views(vers@)),
{
    let ghost all = views(vers@);
    let mut out: Vec<Version> = Vec::new();
    let mut i: usize = 0;
    assert(views(out@) =~= sort_desc(all.take(0)));
    while i < vers.len()
        invariant
            i <= vers.len(),
            all == views(vers@),
            views(out@) == sort_desc(all.take(i as int)),
        decreases vers.len() - i,
    {
        let v = vers[i].duplicate();
        let at = find_insert_point(&out, &v);
        let ghost before = views(out@);
        out.insert(at, v);
        proof {
            assert(all.take(i + 1).drop_last() =~= all.take(i as int));
            assert(all.take(i + 1).last() == v@);
            assert(views(out@) =~= before.insert(at as int, v@));
        }
        i += 1;
    }
    assert(all.take(vers.len() as int) =~= all);
    out
}

// ---------------------------------------------------------------------------
// The table of records
// ---------------------------------------------------------------------------

/// The records stand in ascending dictionary order of their keys, no key
/// twice.
pub open spec fn keys_ascending(t: Seq<VersionView>) -> bool {
    forall|i: int, j: int|
        0 <= i < j < t.len() ==> lex_lt(
            display_text(#[trigger] t[i]),
            display_text(#[trigger] t[j]),
        )
}

/// How many leading records of `t` have a key before `key`.
pub open spec fn lower_bound(t: Seq<VersionView>, key: Seq<char>) -> int
    decreases t.len(),
{
    if t.len() > 0 && lex_lt(display_text(t[0]), key) {
        1 + lower_bound(t.drop_first(), key)
    } else {
        0
    }
}

/// Writes the record `v` under its key: it takes the place of the record
/// with that key, or goes in where the order of the keys puts it.
pub open spec fn upsert(t: Seq<VersionView>, v: VersionView) -> Seq<VersionView> {
    let at = lower_bound(t, display_text(v));
    if at < t.len() && display_text(t[at]) == display_text(v) {
        t.update(at, v)
    } else {
        t.insert(at, v)
    }
}

/// The table that holds the releases of `s` after each has been written
/// under its key, first to last: of several releases with one key the last
/// written stays.
pub open spec fn table_of(s: Seq<VersionView>) -> Seq<VersionView>
    decreases s.len(),
{
    if s.len() == 0 {
        Seq::empty()
    } else {
        upsert(table_of(s.drop_last()), s.last())
    }
}

/// The record of `t` with the given key, if there is one.
pub open spec fn lookup(t: Seq<VersionView>, key: Seq<char>) -> Option<VersionView> {
    let at = lower_bound(t, key);
    if at < t.len() && display_text(t[at]) == key {
        Some(t[at])
    } else {
        None
    }
}

/// The lower bound of a key lies within the table, every record before it
/// has a smaller key, and the record at it, if any, has none.
pub proof fn lemma_lower_bound(t: Seq<VersionView>, key: Seq<char>)
    ensures
        0 <= lower_bound(t, key) <= t.len(),
        forall|j: int|
            0 <= j < lower_bound(t, key) ==> lex_lt(display_text(#[trigger] t[j]), key),
        lower_bound(t, key) < t.len() ==> !lex_lt(display_text(t[lower_bound(t, key)]), key),
    decreases t.len(),
{
    if t.len() > 0 && lex_lt(display_text(t[0]), key) {
        let rest = t.drop_first();
        lemma_lower_bound(rest, key);
        assert forall|j: int| 0 <= j < lower_bound(t, key) implies lex_lt(
            display_text(#[trigger] t[j]),
            key,
        ) by {
            if j > 0 {
                assert(t[j] == rest[j - 1]);
            }
        }
        if lower_bound(t, key) < t.len() {
            assert(t[lower_bound(t, key)] == rest[lower_bound(rest, key)]);
        }
    }
}

/// Finds the lower bound of a key in a table whose keys ascend, by halving.
fn find_lower_bound(records: &Vec<Version>, key: &Vec<char>) -> (at: usize)
    requires
        keys_ascending(views(records@)),
    ensures
        at == lower_bound(views(records@), key@),
        at <= records.len(),
{
    let ghost t = views(records@);
    let mut lo: usize = 0;
    let mut hi: usize = records.len();
    while lo < hi
        invariant
            lo <= hi <= records.len(),
            t == views(records@),
            keys_ascending(t),
            forall|j: int| 0 <= j < lo ==> lex_lt(display_text(#[trigger] t[j]), key@),
            forall|j: int| hi <= j < t.len() ==> !lex_lt(display_text(#[trigger] t[j]), key@),
        decreases hi - lo,
    {
        let mid: usize = lo + (hi - lo) / 2;
        let k = records[mid].display_chars();
        if lex_below(&k, key) {
            proof {
                assert forall|j: int| 0 <= j < mid + 1 implies lex_lt(
                    display_text(#[trigger] t[j]),
                    key@,
                ) by {
                    if j < mid {
                        crate::text::lemma_lex_transitive(
                            display_text(t[j]),
                            display_text(t[mid as int]),
                            key@,
                        );
                    }
                }
            }
            lo = mid + 1;
        } else {
            proof {
                assert forall|j: int| mid <= j < t.len() implies !lex_lt(
                    display_text(#[trigger] t[j]),
                    key@,
                ) by {
                    if j > mid && lex_lt(display_text(t[j]), key@) {
                        crate::text::lemma_lex_transitive(
                            display_text(t[mid as int]),
                            display_text(t[j]),
                            key@,
                        );
                    }
                }
            }
            hi = mid;
        }
    }
    proof {
        lemma_lower_bound(t, key@);
        let bound = lower_bound(t, key@);
        if bound < lo {
            assert(lex_lt(display_text(t[bound]), key@));
        }
        if lo < bound {
            assert(lex_lt(display_text(t[lo as int]), key@));
        }
    }
    lo
}

fn write_record(records: &mut Vec<Version>, v: Version)
    requires
        keys_ascending(views(old(records)@)),
    ensures
        views(final(records)@) == upsert(views(old(records)@), v@),
        keys_ascending(views(final(records)@)),
{
    let key = v.display_chars();
    let at = find_lower_bound(records, &key);
    let ghost before = views(records@);
    let ghost value = v@;
    proof {
        lemma_upsert_ascending(before, value);
    }
    if at < records.len() {
        let k = records[at].display_chars();
        if same_chars(&k, &key) {
            records.set(at, v);
            assert(views(records@) =~= before.update(at as int, value));
            return ;
        }
    }
    records.insert(at, v);
    assert(views(records@) =~= before.insert(at as int, value));
}

fn build_table(sorted: &Vec<Version>) -> (r: Vec<Version>)
    ensures
        views(r@) == table_of(views(sorted@)),
        keys_ascending(views(r@)),
{
    let ghost all = views(sorted@);
    let mut out: Vec<Version> = Vec::new();
    let mut i: usize = 0;
    assert(views(out@) =~= table_of(all.take(0)));
    while i < sorted.len()
        invariant
            i <= sorted.len(),
            all == views(sorted@),
            views(out@) == table_of(all.take(i as int)),
            keys_ascending(views(out@)),
        decreases sorted.len() - i,
    {
        let v = sorted[i].duplicate();
        proof {
            assert(all.take(i + 1).drop_last() =~= all.take(i as int));
            assert(all.take(i + 1).last() == v@);
        }
        write_record(&mut out, v);
        i += 1;
    }
    assert(all.take(sorted.len() as int) =~= all);
    out
}

/// Writing a record into a table whose keys ascend leaves a table whose keys
/// ascend.
pub proof fn lemma_upsert_ascending(t: Seq<VersionView>, v: VersionView)
    requires
        keys_ascending(t),
    ensures
        keys_ascending(upsert(t, v)),
{
    let key = display_text(v);
    let at = lower_bound(t, key);
    let after = upsert(t, v);
    lemma_lower_bound(t, key);
    if at < t.len() && display_text(t[at]) == key {
        assert forall|i: int, j: int| 0 <= i < j < after.len() implies lex_lt(
            display_text(#[trigger] after[i]),
            display_text(#[trigger] after[j]),
        ) by {
            assert(display_text(after[i]) == display_text(t[i]));
            assert(display_text(after[j]) == display_text(t[j]));
        }
    } else {
        assert forall|i: int, j: int| 0 <= i < j < after.len() implies lex_lt(
            display_text(#[trigger] after[i]),
            display_text(#[trigger] after[j]),
        ) by {
            if j < at {
                assert(after[i] == t[i] && after[j] == t[j]);
            } else if j == at {
                assert(after[i] == t[i]);
            } else if i == at {
                assert(after[j] == t[j - 1]);
                crate::text::lemma_lex_total(display_text(t[at]), key);
                if j - 1 > at {
                    crate::text::lemma_lex_transitive(
                        key,
                        display_text(t[at]),
                        display_text(t[j - 1]),
                    );
                }
            } else if i < at {
                assert(after[i] == t[i] && after[j] == t[j - 1]);
            } else {
                assert(after[i] == t[i - 1] && after[j] == t[j - 1]);
            }
        }
    }
}

/// The keys of a table ascend, whatever was written into it.
pub proof fn lemma_table_ascending(s: Seq<VersionView>)
    ensures
        keys_ascending(table_of(s)),
    decreases s.len(),
{
    if s.len() > 0 {
        lemma_table_ascending(s.drop_last());
        lemma_upsert_ascending(table_of(s.drop_last()), s.last());
    }
}

// ---------------------------------------------------------------------------
// The derived indexes
// ---------------------------------------------------------------------------

/// The texts of `s` without repetitions, each at the place of its first
/// occurrence.
pub open spec fn distinct(s: Seq<Seq<char>>) -> Seq<Seq<char>>
    decreases s.len(),
{
    if s.len() == 0 {
        Seq::empty()
    } else {
        let seen = distinct(s.drop_last());
        if seen.contains(s.last()) {
            seen
        } else {
            seen.push(s.last())
        }
    }
}

/// The texts of `s` with every run of equal neighbours reduced to one.
pub open spec fn without_repeats(s: Seq<Seq<char>>) -> Seq<Seq<char>>
    decreases s.len(),
{
    if s.len() == 0 {
        Seq::empty()
    } else {
        let kept = without_repeats(s.drop_last());
        if kept.len() > 0 && kept.last() == s.last() {
            kept
        } else {
            kept.push(s.last())
        }
    }
}

/// The operating systems of the releases, in their order.
pub open spec fn os_of(s: Seq<VersionView>) -> Seq<Seq<char>> {
    s.map_values(|v: VersionView| v.os)
}

/// The architectures of the releases, in their order.
pub open spec fn arch_of(s: Seq<VersionView>) -> Seq<Seq<char>> {
    s.map_values(|v: VersionView| v.arch)
}

/// The short forms of the releases, in their order.
pub open spec fn short_of(s: Seq<VersionView>) -> Seq<Seq<char>> {
    s.map_values(|v: VersionView| short_text(v))
}

/// The views of a list of strings.
pub open spec fn texts(s: Seq<String>) -> Seq<Seq<char>> {
    s.map_values(|t: String| t@)
}

fn holds_text(list: &Vec<String>, t: &String) -> (r: bool)
    ensures
        r == texts(list@).contains(t@),
{
    let mut i: usize = 0;
    while i < list.len()
        invariant
            i <= list.len(),
            forall|k: int| 0 <= k < i ==> texts(list@)[k] != t@,
        decreases list.len() - i,
    {
        if list[i] == *t {
            assert(texts(list@)[i as int] == t@);
            return true;
        }
        i += 1;
    }
    false
}

/// Derives the three indexes of a list of releases: the operating systems
/// and the architectures that occur, each once and in the order of first
/// occurrence, and the short forms in the order of the list, neighbours that
/// are the same written once.
pub fn compute_meta(vers: &Vec<Version>) -> (r: (Vec<String>, Vec<String>, Vec<String>))
    ensures
        texts(r.0@) == distinct(os_of(views(vers@))),
        texts(r.1@) == distinct(arch_of(views(vers@))),
        texts(r.2@) == without_repeats(short_of(views(vers@))),
{
    let ghost all = views(vers@);
    let mut os: Vec<String> = Vec::new();
    let mut arch: Vec<String> = Vec::new();
    let mut short_version: Vec<String> = Vec::new();
    let mut i: usize = 0;
    proof {
        assert(texts(os@) =~= distinct(os_of(all.take(0))));
        assert(texts(arch@) =~= distinct(arch_of(all.take(0))));
        assert(texts(short_version@) =~= without_repeats(short_of(all.take(0))));
    }
    while i < vers.len()
        invariant
            i <= vers.len(),
            all == views(vers@),
            texts(os@) == distinct(os_of(all.take(i as int))),
            texts(arch@) == distinct(arch_of(all.take(i as int))),
            texts(short_version@) == without_repeats(short_of(all.take(i as int))),
        decreases vers.len() - i,
    {
        let x = &vers[i];
        let ghost os_before = texts(os@);
        let ghost arch_before = texts(arch@);
        let ghost short_before = texts(short_version@);
        proof {
            assert(all.take(i + 1).drop_last() =~= all.take(i as int));
            assert(all.take(i + 1).last() == x@);
            assert(os_of(all.take(i + 1)).drop_last() =~= os_of(all.take(i as int)));
            assert(arch_of(all.take(i + 1)).drop_last() =~= arch_of(all.take(i as int)));
            assert(short_of(all.take(i + 1)).drop_last() =~= short_of(all.take(i as int)));
        }
        if !holds_text(&os, &x.os) {
            os.push(x.os.clone());
            assert(texts(os@) =~= os_before.push(x@.os));
        }
        if !holds_text(&arch, &x.arch) {
            arch.push(x.arch.clone());
            assert(texts(arch@) =~= arch_before.push(x@.arch));
        }
        let short = x.short_version();
        let repeats = short_version.len() > 0 && short_version[short_version.len() - 1] == short;
        if !repeats {
            short_version.push(short);
            assert(texts(short_version@) =~= short_before.push(short_text(x@)));
        }
        i += 1;
    }
    assert(all.take(vers.len() as int) =~= all);
    (os, arch, short_version)
}


// ---------------------------------------------------------------------------
// What holds of the indexes
// ---------------------------------------------------------------------------

/// A list holds a text exactly when the list without its last element holds
/// it or the last element is that text.
proof fn lemma_contains_last(s: Seq<Seq<char>>, t: Seq<char>)
    requires
        s.len() > 0,
    ensures
        s.contains(t) <==> (s.drop_last().contains(t) || s.last() == t),
{
    let init = s.drop_last();
    if s.contains(t) {
        let i = choose|i: int| 0 <= i < s.len() && s[i] == t;
        if i < s.len() - 1 {
            assert(init[i] == t);
        }
    }
    if init.contains(t) {
        let i = choose|i: int| 0 <= i < init.len() && init[i] == t;
        assert(s[i] == t);
    }
    if s.last() == t {
        assert(s[s.len() - 1] == t);
    }
}

/// An index of distinct texts holds exactly the texts of the list it was
/// made from.
pub proof fn lemma_distinct_contains(s: Seq<Seq<char>>, t: Seq<char>)
    ensures
        distinct(s).contains(t) <==> s.contains(t),
    decreases s.len(),
{
    if s.len() > 0 {
        let seen = distinct(s.drop_last());
        lemma_distinct_contains(s.drop_last(), t);
        lemma_distinct_contains(s.drop_last(), s.last());
        lemma_contains_last(s, t);
        if !seen.contains(s.last()) {
            let grown = seen.push(s.last());
            assert(grown.drop_last() =~= seen);
            lemma_contains_last(grown, t);
        }
    }
}

/// An index of distinct texts holds no text twice.
pub proof fn lemma_distinct(s: Seq<Seq<char>>)
    ensures
        distinct(s).no_duplicates(),
    decreases s.len(),
{
    if s.len() > 0 {
        let seen = distinct(s.drop_last());
        lemma_distinct(s.drop_last());
        if !seen.contains(s.last()) {
            let grown = seen.push(s.last());
            assert forall|i: int, j: int| 0 <= i < grown.len() && 0 <= j < grown.len() && i
                != j implies grown[i] != grown[j] by {
                if i < seen.len() && j < seen.len() {
                    assert(seen[i] != seen[j]);
                } else if i < seen.len() {
                    assert(seen.contains(seen[i]));
                } else if j < seen.len() {
                    assert(seen.contains(seen[j]));
                }
            }
        }
    }
}

// ---------------------------------------------------------------------------
// Queries
// ---------------------------------------------------------------------------

/// Whether a release passes the filters of a query: each filter that is
/// given occurs somewhere in the display text of the release.
pub open spec fn selected(
    v: VersionView,
    os: Option<Seq<char>>,
    arch: Option<Seq<char>>,
) -> bool {
    (os matches Some(o) ==> is_substring(o, display_text(v))) && (arch matches Some(a)
        ==> is_substring(a, display_text(v)))
}

/// The records of `t` that pass the filters, in the order of the table.
pub open spec fn selection(
    t: Seq<VersionView>,
    os: Option<Seq<char>>,
    arch: Option<Seq<char>>,
) -> Seq<VersionView>
    decreases t.len(),
{
    if t.len() == 0 {
        Seq::empty()
    } else {
        let rest = selection(t.drop_last(), os, arch);
        if selected(t.last(), os, arch) {
            rest.push(t.last())
        } else {
            rest
        }
    }
}

/// The answer to a query: the records that pass the filters, from the
/// highest rank to the lowest.
pub open spec fn query(
    t: Seq<VersionView>,
    os: Option<Seq<char>>,
    arch: Option<Seq<char>>,
) -> Seq<VersionView> {
    sort_desc(selection(t, os, arch))
}

/// The view of an optional string slice.
pub open spec fn filter_text(f: Option<&str>) -> Option<Seq<char>> {
    match f {
        Some(t) => Some(t@),
        None => None,
    }
}

fn passes(key: &Vec<char>, filter: &Option<Vec<char>>) -> (r: bool)
    ensures
        r == (filter matches Some(f) ==> is_substring(f@, key@)),
{
    match filter {
        Some(f) => contains(key, f),
        None => true,
    }
}

fn filter_chars(f: Option<&str>) -> (r: Option<Vec<char>>)
    ensures
        match r {
            Some(c) => filter_text(f) == Some(c@),
            None => filter_text(f) is None,
        },
{
    match f {
        Some(t) => Some(chars_of(t)),
        None => None,
    }
}

// ---------------------------------------------------------------------------
// The catalog
// ---------------------------------------------------------------------------

/// The name of the table that holds the records and the indexes.
pub const VERSION_TREE: &'static str = "version";

/// The reserved key under which the index of operating systems is kept.
pub const META_OS: &'static str = "meta_os";

/// The reserved key under which the index of architectures is kept.
pub const META_ARCH: &'static str = "meta_arch";

/// The reserved key under which the index of short forms is kept.
pub const META_VERSIONS: &'static str = "meta_versions";

/// Whether a key of the table is one of the three reserved keys, under
/// which an index is kept and no record.
pub fn is_meta_key(key: &str) -> (r: bool)
    ensures
        r == (key@ == META_OS@ || key@ == META_ARCH@ || key@ == META_VERSIONS@),
{
    let k = chars_of(key);
    same_chars(&k, &chars_of(META_OS)) || same_chars(&k, &chars_of(META_ARCH)) || same_chars(
        &k,
        &chars_of(META_VERSIONS),
    )
}

/// What the program remembers from one run to the next.
#[derive(Debug, Clone, Copy, PartialEq, Eq, Structural)]
pub struct ProgramState {
    /// Whether the catalog was ever filled from the remote listing.
    pub has_versions: bool,
}

/// The mathematical value of a [`Db`].
pub struct DbView {
    /// The records, in ascending order of their keys.
    pub records: Seq<VersionView>,
    /// The operating systems seen when the catalog was last filled.
    pub os: Seq<Seq<char>>,
    /// The architectures seen when the catalog was last filled.
    pub arch: Seq<Seq<char>>,
    /// The short forms seen when the catalog was last filled, from the
    /// highest rank to the lowest.
    pub versions: Seq<Seq<char>>,
    /// What the program remembers.
    pub state: ProgramState,
}

impl DbView {
    /// The catalog after it has been filled with the releases `vs`: they are
    /// ordered from the highest rank to the lowest, the indexes are derived
    /// from that list, and each release is written under its key into a
    /// table that starts empty. Nothing of the former records and indexes
    /// stays; the program state does.
    pub open spec fn stored(self, vs: Seq<VersionView>) -> DbView {
        let sorted = sort_desc(vs);
        DbView {
            records: table_of(sorted),
            os: distinct(os_of(sorted)),
            arch: distinct(arch_of(sorted)),
            versions: without_repeats(short_of(sorted)),
            state: self.state,
        }
    }

    /// The keys of the records ascend, and neither index of names holds a
    /// name twice.
    pub open spec fn well_formed(self) -> bool {
        keys_ascending(self.records) && self.os.no_duplicates() && self.arch.no_duplicates()
    }
}

/// The catalog of known releases.
pub struct Db {
    records: Vec<Version>,
    os: Vec<String>,
    arch: Vec<String>,
    versions: Vec<String>,
    state: ProgramState,
}

impl View for Db {
    type V = DbView;

    closed spec fn view(&self) -> DbView {
        DbView {
            records: views(self.records@),
            os: texts(self.os@),
            arch: texts(self.arch@),
            versions: texts(self.versions@),
            state: self.state,
        }
    }
}

fn copy_texts(list: &Vec<String>) -> (r: Vec<String>)
    ensures
        texts(r@) == texts(list@),
{
    let mut out: Vec<String> = Vec::new();
    let mut i: usize = 0;
    while i < list.len()
        invariant
            i <= list.len(),
            texts(out@) == texts(list@).take(i as int),
        decreases list.len() - i,
    {
        let ghost before = texts(out@);
        let t = list[i].clone();
        assert(t@ == texts(list@)[i as int]);
        out.push(t);
        assert(texts(out@) =~= before.push(t@));
        assert(texts(list@).take(i as int).push(t@) =~= texts(list@).take(i + 1));
        i += 1;
    }
    assert(texts(list@).take(list.len() as int) =~= texts(list@));
    out
}

fn distinct_texts(list: &Vec<String>) -> (r: Vec<String>)
    ensures
        texts(r@) == distinct(texts(list@)),
{
    let ghost all = texts(list@);
    let mut out: Vec<String> = Vec::new();
    let mut i: usize = 0;
    assert(texts(out@) =~= distinct(all.take(0)));
    while i < list.len()
        invariant
            i <= list.len(),
            all == texts(list@),
            texts(out@) == distinct(all.take(i as int)),
        decreases list.len() - i,
    {
        let ghost before = texts(out@);
        proof {
            assert(all.take(i + 1).drop_last() =~= all.take(i as int));
            assert(all.take(i + 1).last() == list@[i as int]@);
        }
        if !holds_text(&out, &list[i]) {
            out.push(list[i].clone());
            assert(texts(out@) =~= before.push(list@[i as int]@));
        }
        i += 1;
    }
    assert(all.take(list.len() as int) =~= all);
    out
}

impl Db {
    #[verifier::type_invariant]
    spec fn holds_together(&self) -> bool {
        self@.well_formed()
    }

    /// An empty catalog that was never filled.
    pub fn new() -> (r: Db)
        ensures
            r@.records.len() == 0,
            r@.os.len() == 0,
            r@.arch.len() == 0,
            r@.versions.len() == 0,
            !r@.state.has_versions,
            r@.well_formed(),
    {
        Db {
            records: Vec::new(),
            os: Vec::new(),
            arch: Vec::new(),
            versions: Vec::new(),
            state: ProgramState { has_versions: false },
        }
    }

    /// The catalog that holds what was persisted: each record written under
    /// its key, the names of each index once, the short forms as given, and
    /// the program state.
    pub fn restore(
        records: Vec<Version>,
        os: Vec<String>,
        arch: Vec<String>,
        versions: Vec<String>,
        state: ProgramState,
    ) -> (r: Db)
        ensures
            r@.records == table_of(views(records@)),
            r@.os == distinct(texts(os@)),
            r@.arch == distinct(texts(arch@)),
            r@.versions == texts(versions@),
            r@.state == state,
            r@.well_formed(),
    {
        let table = build_table(&records);
        let os_index = distinct_texts(&os);
        let arch_index = distinct_texts(&arch);
        proof {
            lemma_table_ascending(views(records@));
            lemma_distinct(texts(os@));
            lemma_distinct(texts(arch@));
        }
        Db { records: table, os: os_index, arch: arch_index, versions, state }
    }

    /// Fills the catalog with the given releases in place of what it held:
    /// they are ordered from the highest rank to the lowest, the three
    /// indexes are derived from that list, and each release is written under
    /// its display text into a fresh table.
    pub fn store(&mut self, vers: Vec<Version>)
        ensures
            final(self)@ == old(self)@.stored(views(vers@)),
            final(self)@.well_formed(),
    {
        let sorted = sort_descending(&vers);
        let (os, arch, versions) = compute_meta(&sorted);
        let table = build_table(&sorted);
        proof {
            use_type_invariant(&*self);
            lemma_table_ascending(views(sorted@));
            lemma_distinct(os_of(views(sorted@)));
            lemma_distinct(arch_of(views(sorted@)));
        }
        self.records = table;
        self.os = os;
        self.arch = arch;
        self.versions = versions;
    }

    /// The records whose display text holds each given filter as a
    /// substring, from the highest rank to the lowest. Records that hold the
    /// same place come in descending order of their display texts.
    pub fn get_versions(&self, os: Option<&str>, arch: Option<&str>) -> (r: Vec<Version>)
        ensures
            views(r@) == query(self@.records, filter_text(os), filter_text(arch)),
            self@.well_formed(),
    {
        proof {
            use_type_invariant(self);
        }
        let ghost table = views(self.records@);
        let ghost fo = filter_text(os);
        let ghost fa = filter_text(arch);
        let os_chars = filter_chars(os);
        let arch_chars = filter_chars(arch);
        let mut picked: Vec<Version> = Vec::new();
        let mut i: usize = 0;
        assert(views(picked@) =~= selection(table.take(0), fo, fa));
        while i < self.records.len()
            invariant
                i <= self.records.len(),
                table == views(self.records@),
                fo == filter_text(os),
                fa == filter_text(arch),
                match os_chars {
                    Some(c) => fo == Some(c@),
                    None => fo is None,
                },
                match arch_chars {
                    Some(c) => fa == Some(c@),
                    None => fa is None,
                },
                views(picked@) == selection(table.take(i as int), fo, fa),
            decreases self.records.len() - i,
        {
            let key = self.records[i].display_chars();
            let ghost before = views(picked@);
            proof {
                assert(table.take(i + 1).drop_last() =~= table.take(i as int));
                assert(table.take(i + 1).last() == self.records@[i as int]@);
            }
            if passes(&key, &os_chars) && passes(&key, &arch_chars) {
                let v = self.records[i].duplicate();
                picked.push(v);
                assert(views(picked@) =~= before.push(v@));
            }
            i += 1;
        }
        assert(table.take(self.records.len() as int) =~= table);
        sort_descending(&picked)
    }

    /// The record whose display text is `name`, if the catalog holds one.
    pub fn version(&self, name: &str) -> (r: Option<Version>)
        ensures
            match r {
                Some(v) => lookup(self@.records, name@) == Some(v@),
                None => lookup(self@.records, name@) is None,
            },
            self@.well_formed(),
    {
        proof {
            use_type_invariant(self);
        }
        let key = chars_of(name);
        let at = find_lower_bound(&self.records, &key);
        if at < self.records.len() {
            let k = self.records[at].display_chars();
            if same_chars(&k, &key) {
                return Some(self.records[at].duplicate());
            }
        }
        None
    }

    /// The operating systems seen when the catalog was last filled, each
    /// once.
    pub fn os(&self) -> (r: Vec<String>)
        ensures
            texts(r@) == self@.os,
            texts(r@).no_duplicates(),
    {
        proof {
            use_type_invariant(self);
        }
        copy_texts(&self.os)
    }

    /// The architectures seen when the catalog was last filled, each once.
    pub fn arch(&self) -> (r: Vec<String>)
        ensures
            texts(r@) == self@.arch,
            texts(r@).no_duplicates(),
    {
        proof {
            use_type_invariant(self);
        }
        copy_texts(&self.arch)
    }

    /// The short forms seen when the catalog was last filled, from the
    /// highest rank to the lowest.
    pub fn short_versions(&self) -> (r: Vec<String>)
        ensures
            texts(r@) == self@.versions,
    {
        copy_texts(&self.versions)
    }

    /// What the program remembers.
    pub fn program_state(&self) -> (r: ProgramState)
        ensures
            r == self@.state,
    {
        self.state
    }

    /// Puts down what the program is to remember. Records and indexes stay
    /// as they are.
    pub fn store_program_state(&mut self, state: &ProgramState)
        ensures
            final(self)@ == (DbView { state: *state, ..old(self)@ }),
    {
        proof {
            use_type_invariant(&*self);
        }
        self.state = *state;
    }
}

} // verus!
