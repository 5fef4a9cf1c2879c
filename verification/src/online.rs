//! The remote catalog: the grammar of archive names, the decoding of a bucket
//! listing into releases, the walk over its pages, and the checks on a
//! download.

use vstd::prelude::*;

use crate::common::WriteSha256;
use crate::common::hex_text;
use crate::common::sha256_digest;
use crate::data::UnstableVersion;
use crate::data::Version;
use crate::data::VersionView;
use crate::data::views;
use crate::errors::Error;
use crate::errors::Reason;
use crate::text::chars_of;
use crate::text::int_digits;
use crate::text::is_digit;
use crate::text::is_digit_char;
use crate::text::is_word;
use crate::text::is_word_char;
use crate::text::number_of;
use crate::text::occurs_at;
use crate::text::parse_i32;
use crate::text::parse_number;
use crate::text::push_i32;
use crate::text::push_str;
use crate::text::same_chars;
use crate::text::signed_number_of;
use crate::text::string_of;

verus! {

/// One entry of a bucket listing.
#[derive(Debug)]
pub struct Content {
    /// Name of the object.
    pub key: String,
    /// Size of the object in bytes.
    pub size: i32,
}

/// One page of a bucket listing.
#[derive(Debug)]
pub struct ListBucket {
    /// Where the next page starts; absent or empty on the last page.
    pub next_marker: Option<String>,
    /// The entries of this page, in listing order.
    pub contents: Vec<Content>,
}

/// The mathematical value of a [`Content`].
pub struct ContentView {
    pub key: Seq<char>,
    pub size: i32,
}

/// The mathematical value of a [`ListBucket`].
pub struct ListBucketView {
    pub next_marker: Option<Seq<char>>,
    pub contents: Seq<ContentView>,
}

impl View for Content {
    type V = ContentView;

    open spec fn view(&self) -> ContentView {
        ContentView { key: self.key@, size: self.size }
    }
}

impl View for ListBucket {
    type V = ListBucketView;

    open spec fn view(&self) -> ListBucketView {
        ListBucketView {
            next_marker: match self.next_marker {
                Some(m) => Some(m@),
                None => None,
            },
            contents: self.contents@.map_values(|c: Content| c@),
        }
    }
}

// ---------------------------------------------------------------------------
// The grammar of archive names
// ---------------------------------------------------------------------------

/// Membership in one of the two character classes of the grammar: word
/// characters, or digits only.
pub open spec fn in_class(c: char, word: bool) -> bool {
    if word {
        is_word(c)
    } else {
        is_digit(c)
    }
}

/// Where the longest run of characters of the class that starts at `from`
/// ends: the index of the first character at or after `from` that is not of
/// the class, or the length of `s`.
pub open spec fn run_end(s: Seq<char>, from: int, word: bool) -> int
    decreases s.len() - from,
{
    if 0 <= from < s.len() && in_class(s[from], word) {
        run_end(s, from + 1, word)
    } else {
        from
    }
}

/// The two archive suffixes that are recognized.
pub open spec fn is_extension(e: Seq<char>) -> bool {
    e == seq!['t', 'a', 'r', '.', 'g', 'z'] || e == seq!['z', 'i', 'p']
}

/// The end of a name, read from `from`: an optional run of word characters
/// (the stability suffix), a dot, the operating system, a hyphen, the
/// architecture, a dot, and a recognized suffix up to the end of the name.
/// Each run extends as far as it can. The result holds the ends of the
/// three runs.
pub open spec fn tail_marks(s: Seq<char>, from: int) -> Option<(int, int, int)> {
    let tag_end = run_end(s, from, true);
    let os_end = run_end(s, tag_end + 1, true);
    let arch_end = run_end(s, os_end + 1, true);
    if tag_end < s.len() && s[tag_end] == '.' && os_end > tag_end + 1 && os_end < s.len()
        && s[os_end] == '-' && arch_end > os_end + 1 && arch_end < s.len() && s[arch_end] == '.'
        && is_extension(s.subrange(arch_end + 1, s.len() as int)) {
        Some((tag_end, os_end, arch_end))
    } else {
        None
    }
}

/// The pieces of an archive name, as runs of characters.
pub struct NameParts {
    pub major: Seq<char>,
    pub minor: Option<Seq<char>>,
    pub patch: Option<Seq<char>>,
    pub suffix: Seq<char>,
    pub os: Seq<char>,
    pub arch: Seq<char>,
}

/// The pieces of a name whose numbers end at `nums_end` and whose tail has
/// the given marks.
pub open spec fn parts_with(
    s: Seq<char>,
    major_end: int,
    minor: Option<Seq<char>>,
    patch: Option<Seq<char>>,
    nums_end: int,
    marks: (int, int, int),
) -> NameParts {
    NameParts {
        major: s.subrange(2, major_end),
        minor,
        patch,
        suffix: s.subrange(nums_end, marks.0),
        os: s.subrange(marks.0 + 1, marks.1),
        arch: s.subrange(marks.1 + 1, marks.2),
    }
}

/// Splits a whole name by the grammar
/// `go<major>[.<minor>][.<patch>][<suffix>].<os>-<arch>.<ext>`, where the
/// numbers are runs of digits, suffix, os and arch are runs of word
/// characters, and ext is `tar.gz` or `zip`. Every run extends as far as it
/// can; a minor or patch number is given up, and its dot and digits read as
/// part of what follows, only where the name does not fit otherwise.
pub open spec fn name_parts(s: Seq<char>) -> Option<NameParts> {
    let d1 = run_end(s, 2, false);
    let d2 = run_end(s, d1 + 1, false);
    let d3 = run_end(s, d2 + 1, false);
    let has_minor = d1 < s.len() && s[d1] == '.' && d2 > d1 + 1;
    let has_patch = has_minor && d2 < s.len() && s[d2] == '.' && d3 > d2 + 1;
    if !(s.len() >= 2 && s[0] == 'g' && s[1] == 'o' && d1 > 2) {
        None
    } else if has_patch && tail_marks(s, d3) is Some {
        Some(
            parts_with(
                s,
                d1,
                Some(s.subrange(d1 + 1, d2)),
                Some(s.subrange(d2 + 1, d3)),
                d3,
                tail_marks(s, d3)->0,
            ),
        )
    } else if has_minor && tail_marks(s, d2) is Some {
        Some(parts_with(s, d1, Some(s.subrange(d1 + 1, d2)), None, d2, tail_marks(s, d2)->0))
    } else if tail_marks(s, d1) is Some {
        Some(parts_with(s, d1, None, None, d1, tail_marks(s, d1)->0))
    } else {
        None
    }
}

/// Whether a stability tag starts at `at`: `beta` or `rc` directly followed
/// by a digit. The result tells whether it is a release candidate and where
/// its number starts.
pub open spec fn tag_start(t: Seq<char>, at: int) -> Option<(bool, int)> {
    if occurs_at(seq!['b', 'e', 't', 'a'], t, at) && at + 4 < t.len() && is_digit(t[at + 4]) {
        Some((false, at + 4))
    } else if occurs_at(seq!['r', 'c'], t, at) && at + 2 < t.len() && is_digit(t[at + 2]) {
        Some((true, at + 2))
    } else {
        None
    }
}

/// The first index at or after `from` at which a stability tag starts, or
/// the length of `t` if there is none.
pub open spec fn first_tag(t: Seq<char>, from: int) -> int
    decreases t.len() - from,
{
    if from < 0 || from >= t.len() {
        t.len() as int
    } else if tag_start(t, from) is Some {
        from
    } else {
        first_tag(t, from + 1)
    }
}

/// The stability tag that a suffix holds: the leftmost `beta` or `rc` that a
/// digit follows, with the longest run of digits after it as its number.
/// There is none where the suffix holds no such text or the number does not
/// fit an `i32`.
pub open spec fn tag_of(t: Seq<char>) -> Option<UnstableVersion> {
    let at = first_tag(t, 0);
    if at >= t.len() {
        None
    } else {
        let (rc, digits) = tag_start(t, at)->0;
        match number_of(t.subrange(digits, run_end(t, digits, false))) {
            Some(n) => Some(
                if rc {
                    UnstableVersion::RC(n)
                } else {
                    UnstableVersion::Beta(n)
                },
            ),
            None => None,
        }
    }
}

/// The number that an optional run of digits gives, if any.
pub open spec fn optional_number(run: Option<Seq<char>>) -> Option<i32> {
    match run {
        Some(d) => number_of(d),
        None => None,
    }
}

/// The name of the resource that holds the checksum of the archive `name`:
/// the name followed by `.sha256`.
pub open spec fn checksum_name(name: Seq<char>) -> Seq<char> {
    name + seq!['.', 's', 'h', 'a', '2', '5', '6']
}

/// The release that a name with the given pieces stands for. There is none
/// where the major number does not fit an `i32`; a minor or patch number that
/// does not fit is taken as absent.
pub open spec fn version_from(key: Seq<char>, size: i32, p: NameParts) -> Option<VersionView> {
    match number_of(p.major) {
        None => None,
        Some(v1) => Some(
            VersionView {
                name: key,
                arch: p.arch,
                os: p.os,
                v1,
                v2: optional_number(p.minor),
                v3: optional_number(p.patch),
                unstable_v4: tag_of(p.suffix),
                size,
                sha256: checksum_name(key),
            },
        ),
    }
}

/// The release that a listing entry stands for, if its key is an archive
/// name: none where the key does not fit the grammar.
pub open spec fn decode_entry(key: Seq<char>, size: i32) -> Option<VersionView> {
    match name_parts(key) {
        None => None,
        Some(p) => version_from(key, size, p),
    }
}

/// The releases that a run of listing entries stands for, in listing order;
/// entries that are no archives leave no trace.
pub open spec fn decode_all(entries: Seq<ContentView>) -> Seq<VersionView>
    decreases entries.len(),
{
    if entries.len() == 0 {
        Seq::empty()
    } else {
        let rest = decode_all(entries.drop_last());
        match decode_entry(entries.last().key, entries.last().size) {
            Some(v) => rest.push(v),
            None => rest,
        }
    }
}

fn class_has(c: char, word: bool) -> (r: bool)
    ensures
        r == in_class(c, word),
{
    if word {
        is_word_char(c)
    } else {
        is_digit_char(c)
    }
}

/// Finds where the run of characters of the class that starts at `from`
/// ends.
fn scan_run(s: &Vec<char>, from: usize, word: bool) -> (end: usize)
    requires
        from <= s.len(),
    ensures
        end == run_end(s@, from as int, word),
        from <= end <= s.len(),
{
    let mut at: usize = from;
    while at < s.len() && class_has(s[at], word)
        invariant
            from <= at <= s.len(),
            run_end(s@, from as int, word) == run_end(s@, at as int, word),
        decreases s.len() - at,
    {
        at += 1;
    }
    at
}

fn copy_range(s: &Vec<char>, from: usize, to: usize) -> (r: Vec<char>)
    requires
        from <= to <= s.len(),
    ensures
        r@ == s@.subrange(from as int, to as int),
{
    let mut out: Vec<char> = Vec::new();
    let mut i: usize = from;
    while i < to
        invariant
            from <= i <= to <= s.len(),
            out@ == s@.subrange(from as int, i as int),
        decreases to - i,
    {
        out.push(s[i]);
        assert(s@.subrange(from as int, i as int).push(s@[i as int]) =~= s@.subrange(
            from as int,
            i + 1,
        ));
        i += 1;
    }
    out
}

fn extension_at(s: &Vec<char>, from: usize) -> (r: bool)
    requires
        from <= s.len(),
    ensures
        r == is_extension(s@.subrange(from as int, s.len() as int)),
{
    let ghost rest = s@.subrange(from as int, s.len() as int);
    let ghost tar_gz = seq!['t', 'a', 'r', '.', 'g', 'z'];
    let ghost zip = seq!['z', 'i', 'p'];
    let n: usize = s.len() - from;
    proof {
        assert(rest.len() == n);
        assert(tar_gz.len() == 6 && zip.len() == 3);
        assert(tar_gz[0] == 't' && tar_gz[1] == 'a' && tar_gz[2] == 'r' && tar_gz[3] == '.'
            && tar_gz[4] == 'g' && tar_gz[5] == 'z');
        assert(zip[0] == 'z' && zip[1] == 'i' && zip[2] == 'p');
    }
    if n == 6 {
        let r = s[from] == 't' && s[from + 1] == 'a' && s[from + 2] == 'r' && s[from + 3] == '.'
            && s[from + 4] == 'g' && s[from + 5] == 'z';
        proof {
            assert(rest[0] == s@[from as int]);
            assert(rest[1] == s@[from + 1]);
            assert(rest[2] == s@[from + 2]);
            assert(rest[3] == s@[from + 3]);
            assert(rest[4] == s@[from + 4]);
            assert(rest[5] == s@[from + 5]);
            if r {
                assert(rest =~= tar_gz);
            }
        }
        r
    } else if n == 3 {
        let r = s[from] == 'z' && s[from + 1] == 'i' && s[from + 2] == 'p';
        proof {
            assert(rest[0] == s@[from as int]);
            assert(rest[1] == s@[from + 1]);
            assert(rest[2] == s@[from + 2]);
            if r {
                assert(rest =~= zip);
            }
        }
        r
    } else {
        false
    }
}

fn scan_tail(s: &Vec<char>, from: usize) -> (r: Option<(usize, usize, usize)>)
    requires
        from <= s.len(),
    ensures
        match r {
            Some(m) => tail_marks(s@, from as int) == Some((m.0 as int, m.1 as int, m.2 as int))
                && from <= m.0 < m.1 < m.2 < s.len(),
            None => tail_marks(s@, from as int) is None,
        },
{
    let tag_end = scan_run(s, from, true);
    if tag_end >= s.len() || s[tag_end] != '.' {
        return None;
    }
    let os_end = scan_run(s, tag_end + 1, true);
    if os_end == tag_end + 1 || os_end >= s.len() || s[os_end] != '-' {
        return None;
    }
    let arch_end = scan_run(s, os_end + 1, true);
    if arch_end == os_end + 1 || arch_end >= s.len() || s[arch_end] != '.' {
        return None;
    }
    if !extension_at(s, arch_end + 1) {
        return None;
    }
    Some((tag_end, os_end, arch_end))
}


fn tag_starts_at(t: &Vec<char>, at: usize) -> (r: Option<(bool, usize)>)
    requires
        at < t.len(),
    ensures
        match r {
            Some(m) => tag_start(t@, at as int) == Some((m.0, m.1 as int)) && at < m.1 < t.len(),
            None => tag_start(t@, at as int) is None,
        },
{
    let ghost beta = seq!['b', 'e', 't', 'a'];
    let ghost rc = seq!['r', 'c'];
    let n: usize = t.len() - at;
    proof {
        assert(beta.len() == 4 && rc.len() == 2);
        assert(beta[0] == 'b' && beta[1] == 'e' && beta[2] == 't' && beta[3] == 'a');
        assert(rc[0] == 'r' && rc[1] == 'c');
    }
    if n > 4 && t[at] == 'b' && t[at + 1] == 'e' && t[at + 2] == 't' && t[at + 3] == 'a'
        && is_digit_char(t[at + 4]) {
        assert(t@.subrange(at as int, at + 4) =~= beta);
        return Some((false, at + 4));
    }
    proof {
        if occurs_at(beta, t@, at as int) {
            let w = t@.subrange(at as int, at + 4);
            assert(w[0] == t@[at as int] && w[1] == t@[at + 1] && w[2] == t@[at + 2] && w[3]
                == t@[at + 3]);
        }
    }
    if n > 2 && t[at] == 'r' && t[at + 1] == 'c' && is_digit_char(t[at + 2]) {
        assert(t@.subrange(at as int, at + 2) =~= rc);
        return Some((true, at + 2));
    }
    proof {
        if occurs_at(rc, t@, at as int) {
            let w = t@.subrange(at as int, at + 2);
            assert(w[0] == t@[at as int] && w[1] == t@[at + 1]);
        }
    }
    None
}

/// Reads the stability tag out of a suffix.
fn parse_tag(t: &Vec<char>) -> (r: Option<UnstableVersion>)
    ensures
        r == tag_of(t@),
{
    let mut at: usize = 0;
    while at < t.len()
        invariant
            at <= t.len(),
            first_tag(t@, 0) == first_tag(t@, at as int),
        decreases t.len() - at,
    {
        match tag_starts_at(t, at) {
            Some((rc, digits)) => {
                let end = scan_run(t, digits, false);
                return match parse_number(t, digits, end) {
                    Some(n) => Some(
                        if rc {
                            UnstableVersion::RC(n)
                        } else {
                            UnstableVersion::Beta(n)
                        },
                    ),
                    None => None,
                };
            },
            None => {},
        }
        at += 1;
    }
    None
}

fn parse_optional(s: &Vec<char>, run: Option<(usize, usize)>) -> (r: Option<i32>)
    requires
        match run {
            Some(b) => b.0 <= b.1 <= s.len(),
            None => true,
        },
    ensures
        r == optional_number(
            match run {
                Some(b) => Some(s@.subrange(b.0 as int, b.1 as int)),
                None => None,
            },
        ),
{
    match run {
        Some(b) => parse_number(s, b.0, b.1),
        None => None,
    }
}

/// Builds the release out of a name that has been split.
fn assemble(
    key: &str,
    s: &Vec<char>,
    size: i32,
    major_end: usize,
    minor: Option<(usize, usize)>,
    patch: Option<(usize, usize)>,
    nums_end: usize,
    marks: (usize, usize, usize),
) -> (r: Option<Version>)
    requires
        s@ == key@,
        2 <= major_end <= nums_end <= marks.0 < marks.1 < marks.2 < s.len(),
        match minor {
            Some(b) => b.0 <= b.1 <= s.len(),
            None => true,
        },
        match patch {
            Some(b) => b.0 <= b.1 <= s.len(),
            None => true,
        },
    ensures
        ({
            let want = version_from(
                key@,
                size,
                parts_with(
                    s@,
                    major_end as int,
                    match minor {
                        Some(b) => Some(s@.subrange(b.0 as int, b.1 as int)),
                        None => None,
                    },
                    match patch {
                        Some(b) => Some(s@.subrange(b.0 as int, b.1 as int)),
                        None => None,
                    },
                    nums_end as int,
                    (marks.0 as int, marks.1 as int, marks.2 as int),
                ),
            );
            match r {
                Some(v) => want == Some(v@),
                None => want is None,
            }
        }),
{
    let v1 = match parse_number(s, 2, major_end) {
        Some(n) => n,
        None => {
            return None;
        },
    };
    let v2 = parse_optional(s, minor);
    let v3 = parse_optional(s, patch);
    let suffix = copy_range(s, nums_end, marks.0);
    let unstable_v4 = parse_tag(&suffix);
    let os = copy_range(s, marks.0 + 1, marks.1);
    let arch = copy_range(s, marks.1 + 1, marks.2);
    let mut sum: Vec<char> = copy_range(s, 0, s.len());
    sum.push('.');
    sum.push('s');
    sum.push('h');
    sum.push('a');
    sum.push('2');
    sum.push('5');
    sum.push('6');
    proof {
        assert(s@.subrange(0, s.len() as int) =~= s@);
        assert(sum@ =~= checksum_name(key@));
    }
    Some(
        Version {
            name: string_of(s),
            arch: string_of(&arch),
            os: string_of(&os),
            v1,
            v2,
            v3,
            unstable_v4,
            size,
            sha256: string_of(&sum),
        },
    )
}

/// Decodes the key of a listing entry by the grammar of archive names,
/// `go<major>[.<minor>][.<patch>][<suffix>].<os>-<arch>.<ext>`, into the
/// release that it stands for. A key that is no archive name gives `None`.
pub fn decode_name(key: &str, size: i32) -> (r: Option<Version>)
    ensures
        match r {
            Some(v) => decode_entry(key@, size) == Some(v@),
            None => decode_entry(key@, size) is None,
        },
{
    let s = chars_of(key);
    if s.len() < 2 || s[0] != 'g' || s[1] != 'o' {
        return None;
    }
    let d1 = scan_run(&s, 2, false);
    if d1 == 2 {
        return None;
    }
    if d1 < s.len() && s[d1] == '.' {
        let d2 = scan_run(&s, d1 + 1, false);
        if d2 > d1 + 1 {
            if d2 < s.len() && s[d2] == '.' {
                let d3 = scan_run(&s, d2 + 1, false);
                if d3 > d2 + 1 {
                    match scan_tail(&s, d3) {
                        Some(marks) => {
                            return assemble(
                                key,
                                &s,
                                size,
                                d1,
                                Some((d1 + 1, d2)),
                                Some((d2 + 1, d3)),
                                d3,
                                marks,
                            );
                        },
                        None => {},
                    }
                }
            }
            match scan_tail(&s, d2) {
                Some(marks) => {
                    return assemble(key, &s, size, d1, Some((d1 + 1, d2)), None, d2, marks);
                },
                None => {},
            }
        }
    }
    match scan_tail(&s, d1) {
        Some(marks) => assemble(key, &s, size, d1, None, None, d1, marks),
        None => None,
    }
}

/// Appends to `out`, in listing order, the release of every entry whose key
/// is an archive name. Other entries are passed over.
pub fn contents_copy_version(contents: Vec<Content>, out: &mut Vec<Version>)
    ensures
        views(final(out)@) == views(old(out)@) + decode_all(
            contents@.map_values(|c: Content| c@),
        ),
{
    let ghost entries = contents@.map_values(|c: Content| c@);
    let mut i: usize = 0;
    while i < contents.len()
        invariant
            i <= contents.len(),
            entries == contents@.map_values(|c: Content| c@),
            views(out@) == views(old(out)@) + decode_all(entries.take(i as int)),
        decreases contents.len() - i,
    {
        let ghost before = out@;
        proof {
            assert(entries.take(i + 1).drop_last() =~= entries.take(i as int));
            assert(entries.take(i + 1).last() == contents@[i as int]@);
        }
        match decode_name(contents[i].key.as_str(), contents[i].size) {
            Some(v) => {
                out.push(v);
                assert(views(out@) =~= views(before).push(v@));
                assert(views(out@) =~= views(old(out)@) + decode_all(entries.take(i + 1)));
            },
            None => {},
        }
        i += 1;
    }
    assert(entries.take(contents.len() as int) =~= entries);
}


// ---------------------------------------------------------------------------
// The walk over the pages of a listing
// ---------------------------------------------------------------------------

/// Where the archives are downloaded from.
pub const GO_DOWNLOAD_LINK: &'static str = "https://storage.googleapis.com/golang";

/// Where the listing is asked for; the marker of the page follows.
pub const GO_HISTORY_VERSION: &'static str =
    "https://storage.googleapis.com/golang/?prefix=go&marker=";

/// A page is the last one when it names no next page: its marker is absent
/// or empty.
pub open spec fn is_last_page(p: ListBucketView) -> bool {
    match p.next_marker {
        None => true,
        Some(m) => m.len() == 0,
    }
}

/// How many of the given pages a walk reads: all up to and including the
/// first last page.
pub open spec fn pages_read(pages: Seq<ListBucketView>) -> nat
    decreases pages.len(),
{
    if pages.len() == 0 {
        0
    } else if is_last_page(pages[0]) {
        1
    } else {
        1 + pages_read(pages.drop_first())
    }
}

/// The releases that a walk over the given pages gathers: those of each page
/// it reads, in the order of the pages and, within a page, of the listing.
pub open spec fn collected(pages: Seq<ListBucketView>) -> Seq<VersionView>
    decreases pages.len(),
{
    if pages.len() == 0 {
        Seq::empty()
    } else if is_last_page(pages[0]) {
        decode_all(pages[0].contents)
    } else {
        decode_all(pages[0].contents) + collected(pages.drop_first())
    }
}

/// A walk stops at the first last page: where page `k` is the first page
/// without a marker, exactly `k + 1` pages are read, and what lies behind
/// them plays no part. In particular a walk over pages of which only the
/// final one is a last page reads each of them once.
pub proof fn lemma_walk_stops_at_last_page(pages: Seq<ListBucketView>, k: int)
    requires
        0 <= k < pages.len(),
        is_last_page(pages[k]),
        forall|i: int| 0 <= i < k ==> !is_last_page(#[trigger] pages[i]),
    ensures
        pages_read(pages) == k + 1,
        collected(pages) == collected(pages.take(k + 1)),
    decreases k,
{
    if k == 0 {
        assert(pages.take(1)[0] == pages[0]);
    } else {
        let rest = pages.drop_first();
        assert(!is_last_page(pages[0]));
        assert forall|i: int| 0 <= i < k - 1 implies !is_last_page(#[trigger] rest[i]) by {
            assert(rest[i] == pages[i + 1]);
        }
        assert(rest[k - 1] == pages[k]);
        lemma_walk_stops_at_last_page(rest, k - 1);
        assert(pages.take(k + 1)[0] == pages[0]);
        assert(pages.take(k + 1).drop_first() =~= rest.take(k));
    }
}

/// A walk never reads more pages than it is given.
pub proof fn lemma_walk_is_bounded(pages: Seq<ListBucketView>)
    ensures
        pages_read(pages) <= pages.len(),
    decreases pages.len(),
{
    if pages.len() > 0 && !is_last_page(pages[0]) {
        lemma_walk_is_bounded(pages.drop_first());
    }
}

/// The address of the page of the listing that starts at `marker`.
pub fn listing_url(marker: &str) -> (r: String)
    ensures
        r@ == GO_HISTORY_VERSION@ + marker@,
{
    let mut out: Vec<char> = Vec::new();
    push_str(&mut out, GO_HISTORY_VERSION);
    push_str(&mut out, marker);
    assert(out@ =~= GO_HISTORY_VERSION@ + marker@);
    string_of(&out)
}

/// The state of a walk over the pages of a listing: what has been gathered,
/// and the marker of the page that is asked for next, if the walk goes on.
pub struct Synchronizer {
    pub data: Vec<Version>,
    pub marker: Option<String>,
}

impl Synchronizer {
    /// Whether the walk asks for another page.
    pub open spec fn pending(&self) -> bool {
        self.marker is Some
    }

    /// A walk that has gathered nothing and asks for the first page, the one
    /// with the empty marker.
    pub fn new() -> (r: Synchronizer)
        ensures
            r.data@.len() == 0,
            r.marker matches Some(m) && m@.len() == 0,
    {
        Synchronizer { data: Vec::new(), marker: Some(String::new()) }
    }

    /// The address to fetch next, or `None` when the walk is over.
    pub fn next_request(&self) -> (r: Option<String>)
        ensures
            match (r, self.marker) {
                (Some(url), Some(m)) => url@ == GO_HISTORY_VERSION@ + m@,
                (None, None) => true,
                _ => false,
            },
    {
        match &self.marker {
            Some(m) => Some(listing_url(m.as_str())),
            None => None,
        }
    }

    /// Takes the page that was asked for: its archives are appended to what
    /// was gathered, and the walk goes on with the page's marker unless the
    /// page is the last one. A walk that is over takes nothing.
    pub fn accept(&mut self, page: ListBucket)
        ensures
            old(self).pending() ==> views(final(self).data@) == views(old(self).data@)
                + decode_all(page@.contents),
            old(self).pending() ==> final(self).pending() == !is_last_page(page@),
            old(self).pending() && !is_last_page(page@) ==> final(self).marker->0@
                == page@.next_marker->0,
            !old(self).pending() ==> views(final(self).data@) == views(old(self).data@)
                && !final(self).pending(),
    {
        if self.marker.is_none() {
            return ;
        }
        let ListBucket { next_marker, contents } = page;
        contents_copy_version(contents, &mut self.data);
        self.marker = match next_marker {
            Some(m) => {
                if m.as_str().is_empty() {
                    None
                } else {
                    Some(m)
                }
            },
            None => None,
        };
    }

    /// Ends the walk and hands out what was gathered.
    pub fn finish(self) -> (r: Vec<Version>)
        ensures
            r == self.data,
    {
        self.data
    }
}

/// Walks over the pages of a listing, first to last, and gathers the
/// releases of every archive in them, in listing order. The walk ends with
/// the first page that names no next page; pages behind it are not read.
pub fn get_versions(pages: Vec<ListBucket>) -> (r: Vec<Version>)
    ensures
        views(r@) == collected(pages@.map_values(|p: ListBucket| p@)),
{
    let ghost all = pages@.map_values(|p: ListBucket| p@);
    let mut rest = pages;
    let mut walk = Synchronizer::new();
    while rest.len() > 0 && walk.marker.is_some()
        invariant
            walk.pending() ==> views(walk.data@) + collected(
                rest@.map_values(|p: ListBucket| p@),
            ) == collected(all),
            !walk.pending() ==> views(walk.data@) == collected(all),
        decreases rest.len(),
    {
        let ghost before = rest@.map_values(|p: ListBucket| p@);
        let ghost gathered = views(walk.data@);
        let page = rest.remove(0);
        proof {
            assert(before[0] == page@);
            assert(rest@.map_values(|p: ListBucket| p@) =~= before.drop_first());
        }
        walk.accept(page);
        proof {
            if !is_last_page(before[0]) {
                assert(views(walk.data@) + collected(before.drop_first()) =~= gathered + (
                decode_all(before[0].contents) + collected(before.drop_first())));
            }
        }
    }
    proof {
        if walk.pending() {
            assert(views(walk.data@) + Seq::<VersionView>::empty() =~= views(walk.data@));
        }
    }
    walk.finish()
}


// ---------------------------------------------------------------------------
// Download and verification
// ---------------------------------------------------------------------------

/// The least size, in bytes, that the server may declare for an archive:
/// forty mebibytes.
pub const MIN_PACKAGE_SIZE: i32 = 41943040;

/// The address of the archive of a release: the download base, a slash, and
/// the archive's file name.
pub fn download_url(v: &Version) -> (r: String)
    ensures
        r@ == GO_DOWNLOAD_LINK@ + seq!['/'] + v@.name,
{
    let mut out: Vec<char> = Vec::new();
    push_str(&mut out, GO_DOWNLOAD_LINK);
    out.push('/');
    push_str(&mut out, v.name.as_str());
    assert(out@ =~= GO_DOWNLOAD_LINK@ + seq!['/'] + v@.name);
    string_of(&out)
}

/// The address of the checksum of a release: the download base, a slash, and
/// the name of the checksum resource.
pub fn checksum_url(v: &Version) -> (r: String)
    ensures
        r@ == GO_DOWNLOAD_LINK@ + seq!['/'] + v@.sha256,
{
    let mut out: Vec<char> = Vec::new();
    push_str(&mut out, GO_DOWNLOAD_LINK);
    out.push('/');
    push_str(&mut out, v.sha256.as_str());
    assert(out@ =~= GO_DOWNLOAD_LINK@ + seq!['/'] + v@.sha256);
    string_of(&out)
}

/// The length that an answer declares: the number in its `content-length`
/// header, if it has the header and the header holds a number that fits an
/// `i32`.
pub fn content_length(header: Option<&str>) -> (r: Option<i32>)
    ensures
        r == match header {
            Some(h) => signed_number_of(h@),
            None => None,
        },
{
    match header {
        Some(h) => parse_i32(h),
        None => None,
    }
}

/// The message for an answer whose status is not 200.
pub open spec fn status_message(status: u16, url: Seq<char>) -> Seq<char> {
    "invalid http status code: "@ + int_digits(status as int) + "; url: "@ + url
}

/// Judges the answer to the request for an archive, by its status, the
/// address that answered and the length it declares, if any. An answer with
/// another status than 200 is a failed connection. A declared length below
/// [`MIN_PACKAGE_SIZE`] is an invalid resource. Otherwise the result is the
/// declared length, or 0 where none was declared.
pub fn open_version(status: u16, url: &str, declared: Option<i32>) -> (r: Result<i32, Error>)
    ensures
        status != 200 ==> (r matches Err(e) && e.kind == Reason::ConnectionFailed && e.msg@
            == status_message(status, url@)),
        status == 200 && declared is Some && declared->0 < MIN_PACKAGE_SIZE ==> (r matches Err(e)
            && e.kind == Reason::InvalidResource && e.msg@ == "go package too small"@),
        status == 200 && declared is Some && declared->0 >= MIN_PACKAGE_SIZE ==> (r matches Ok(n)
            && n == declared->0),
        status == 200 && declared is None ==> (r matches Ok(n) && n == 0),
{
    if status != 200 {
        let mut out: Vec<char> = Vec::new();
        push_str(&mut out, "invalid http status code: ");
        push_i32(&mut out, status as i32);
        push_str(&mut out, "; url: ");
        push_str(&mut out, url);
        assert(out@ =~= status_message(status, url@));
        return Err(Error { kind: Reason::ConnectionFailed, msg: string_of(&out) });
    }
    match declared {
        Some(n) => {
            if n < MIN_PACKAGE_SIZE {
                Err(Error::new(Reason::InvalidResource, "go package too small"))
            } else {
                Ok(n)
            }
        },
        None => Ok(0),
    }
}

/// The lowercase form of an ASCII capital letter; any other character as it
/// is.
pub open spec fn lower_char(c: char) -> char {
    if 'A' <= c && c <= 'Z' {
        ((c as u32) + 32) as char
    } else {
        c
    }
}

/// A text with its ASCII capital letters in lowercase.
pub open spec fn lowered(s: Seq<char>) -> Seq<char> {
    s.map_values(|c: char| lower_char(c))
}

fn to_lower(c: char) -> (r: char)
    ensures
        r == lower_char(c),
{
    if 'A' <= c && c <= 'Z' {
        ((c as u8) + 32) as char
    } else {
        c
    }
}

fn lowered_chars(s: &str) -> (r: Vec<char>)
    ensures
        r@ == lowered(s@),
{
    let cs = chars_of(s);
    let mut out: Vec<char> = Vec::new();
    let mut i: usize = 0;
    while i < cs.len()
        invariant
            i <= cs.len(),
            cs@ == s@,
            out@ == lowered(cs@.take(i as int)),
        decreases cs.len() - i,
    {
        out.push(to_lower(cs[i]));
        assert(out@ =~= lowered(cs@.take(i + 1)));
        i += 1;
    }
    assert(cs@.take(cs.len() as int) =~= cs@);
    out
}

/// Whether a published digest names the digest of the data: its text, with
/// capital letters taken for their lowercase forms, is the lowercase
/// hexadecimal text of the SHA-256 digest.
pub open spec fn digest_agrees(published: Seq<char>, data: Seq<u8>) -> bool {
    lowered(published) == hex_text(sha256_digest(data))
}

/// Checks an archive that has been streamed into `sink` against the
/// published digest. Where no digest is published (`None`: the checksum
/// resource was not found) the archive passes unchecked. Otherwise it passes
/// exactly when the published text, compared without regard to case, is the
/// hexadecimal SHA-256 digest of what the sink received.
pub fn verify_version(published: Option<&str>, sink: WriteSha256) -> (r: Result<(), Error>)
    ensures
        published is None ==> r is Ok,
        published matches Some(p) ==> (r is Ok <==> digest_agrees(p@, sink.received())),
        r matches Err(e) ==> e.kind == Reason::Hashinconformity && e.msg@ == "sha256 hash不一致"@,
{
    match published {
        None => Ok(()),
        Some(p) => {
            let origin_hash_code = lowered_chars(p);
            let hash_code = sink.finish_hex();
            let hash_chars = chars_of(hash_code.as_str());
            if same_chars(&hash_chars, &origin_hash_code) {
                Ok(())
            } else {
                Err(Error::new(Reason::Hashinconformity, "sha256 hash不一致"))
            }
        },
    }
}

} // verus!
