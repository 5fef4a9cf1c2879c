//! What holds of the catalog, whatever it is filled with: proved statements
//! about ordering, tables, queries and refilling.

use vstd::prelude::*;

use crate::catalog::DbView;
use crate::catalog::insert_point;
use crate::catalog::is_descending;
use crate::catalog::keys_ascending;
use crate::catalog::lemma_lower_bound;
use crate::catalog::lemma_table_ascending;
use crate::catalog::lookup;
use crate::catalog::lower_bound;
use crate::catalog::query;
use crate::catalog::selected;
use crate::catalog::selection;
use crate::catalog::sort_desc;
use crate::catalog::table_of;
use crate::catalog::upsert;
use crate::data::VersionView;
use crate::data::display_text;
use crate::data::precedes;
use crate::data::same_rank;
use crate::text::lemma_lex_irreflexive;
use crate::text::lemma_lex_total;
use crate::text::lemma_lex_transitive;
use crate::text::lex_lt;

verus! {

// ---------------------------------------------------------------------------
// Ordering
// ---------------------------------------------------------------------------

/// The insert point of a release lies within the list, every element before
/// it outranks the release, and the element at it, if any, does not.
pub proof fn lemma_insert_point(s: Seq<VersionView>, x: VersionView)
    ensures
        0 <= insert_point(s, x) <= s.len(),
        forall|j: int| 0 <= j < insert_point(s, x) ==> precedes(x, #[trigger] s[j]),
        insert_point(s, x) < s.len() ==> !precedes(x, s[insert_point(s, x)]),
    decreases s.len(),
{
    if s.len() > 0 && precedes(x, s[0]) {
        let rest = s.drop_first();
        lemma_insert_point(rest, x);
        assert forall|j: int| 0 <= j < insert_point(s, x) implies precedes(x, #[trigger] s[j]) by {
            if j > 0 {
                assert(s[j] == rest[j - 1]);
            }
        }
        if insert_point(s, x) < s.len() {
            assert(s[insert_point(s, x)] == rest[insert_point(rest, x)]);
        }
    }
}

/// An ordered list holds the releases it was made from, each as often as it
/// was given.
pub proof fn lemma_sort_permutes(s: Seq<VersionView>)
    ensures
        sort_desc(s).to_multiset() == s.to_multiset(),
        sort_desc(s).len() == s.len(),
    decreases s.len(),
{
    if s.len() > 0 {
        let init = s.drop_last();
        let sorted = sort_desc(init);
        lemma_sort_permutes(init);
        lemma_insert_point(sorted, s.last());
        vstd::seq_lib::to_multiset_insert(sorted, insert_point(sorted, s.last()), s.last());
        vstd::seq_lib::to_multiset_build(init, s.last());
        assert(init.push(s.last()) =~= s);
    } else {
        assert(sort_desc(s) =~= s);
    }
}

/// An ordered list holds a release exactly when the list it was made from
/// holds it.
pub proof fn lemma_sort_contains(s: Seq<VersionView>, v: VersionView)
    ensures
        sort_desc(s).contains(v) <==> s.contains(v),
{
    lemma_sort_permutes(s);
    vstd::seq_lib::to_multiset_contains(s, v);
    vstd::seq_lib::to_multiset_contains(sort_desc(s), v);
}

/// In an ordered list no release ranks below a later one.
pub proof fn lemma_sort_descends(s: Seq<VersionView>)
    ensures
        is_descending(sort_desc(s)),
    decreases s.len(),
{
    if s.len() > 0 {
        let sorted = sort_desc(s.drop_last());
        let x = s.last();
        let at = insert_point(sorted, x);
        let after = sort_desc(s);
        lemma_sort_descends(s.drop_last());
        lemma_insert_point(sorted, x);
        assert forall|i: int, j: int| 0 <= i < j < after.len() implies !precedes(
            #[trigger] after[i],
            #[trigger] after[j],
        ) by {
            if j < at {
                assert(after[i] == sorted[i] && after[j] == sorted[j]);
            } else if j == at {
                assert(after[i] == sorted[i]);
                assert(precedes(x, sorted[i]));
            } else if i == at {
                assert(after[j] == sorted[j - 1]);
                assert(!precedes(x, sorted[at]));
                if j - 1 > at {
                    assert(!precedes(sorted[at], sorted[j - 1]));
                }
            } else if i < at {
                assert(after[i] == sorted[i] && after[j] == sorted[j - 1]);
            } else {
                assert(after[i] == sorted[i - 1] && after[j] == sorted[j - 1]);
            }
        }
    }
}


// ---------------------------------------------------------------------------
// Lists
// ---------------------------------------------------------------------------

/// A list with one more element at its end holds what the list held, and
/// that element.
pub proof fn lemma_push_contains<A>(s: Seq<A>, x: A, t: A)
    ensures
        s.push(x).contains(t) <==> (s.contains(t) || x == t),
{
    let grown = s.push(x);
    if grown.contains(t) {
        let i = choose|i: int| 0 <= i < grown.len() && grown[i] == t;
        if i < s.len() {
            assert(s[i] == t);
        }
    }
    if s.contains(t) {
        let i = choose|i: int| 0 <= i < s.len() && s[i] == t;
        assert(grown[i] == t);
    }
    if x == t {
        assert(grown[s.len() as int] == t);
    }
}

/// A list that is not empty holds what it holds without its last element,
/// and that element.
pub proof fn lemma_last_contains<A>(s: Seq<A>, t: A)
    requires
        s.len() > 0,
    ensures
        s.contains(t) <==> (s.drop_last().contains(t) || s.last() == t),
{
    assert(s.drop_last().push(s.last()) =~= s);
    lemma_push_contains(s.drop_last(), s.last(), t);
}

// ---------------------------------------------------------------------------
// Tables
// ---------------------------------------------------------------------------

/// In a table whose keys ascend, two records with one key are one record.
pub proof fn lemma_ascending_keys_differ(t: Seq<VersionView>, i: int, j: int)
    requires
        keys_ascending(t),
        0 <= i < t.len(),
        0 <= j < t.len(),
        display_text(t[i]) == display_text(t[j]),
    ensures
        i == j,
{
    lemma_lex_irreflexive(display_text(t[i]));
    if i < j {
        assert(lex_lt(display_text(t[i]), display_text(t[j])));
    } else if j < i {
        assert(lex_lt(display_text(t[j]), display_text(t[i])));
    }
}

/// Every record of a table whose keys ascend is found by its key, and what
/// is found under a key is a record with that key.
pub proof fn lemma_lookup(t: Seq<VersionView>, key: Seq<char>, r: VersionView)
    requires
        keys_ascending(t),
    ensures
        lookup(t, key) == Some(r) <==> (t.contains(r) && display_text(r) == key),
{
    let at = lower_bound(t, key);
    lemma_lower_bound(t, key);
    if lookup(t, key) == Some(r) {
        assert(t[at] == r);
    }
    if t.contains(r) && display_text(r) == key {
        let i = choose|i: int| 0 <= i < t.len() && t[i] == r;
        lemma_lex_irreflexive(key);
        if i < at {
            assert(lex_lt(display_text(t[i]), key));
        } else if i > at {
            assert(lex_lt(display_text(t[at]), display_text(t[i])));
        }
    }
}

/// After a record is written into a table whose keys ascend, the table
/// holds that record and those of its former records that have another key.
pub proof fn lemma_upsert_contains(t: Seq<VersionView>, v: VersionView, w: VersionView)
    requires
        keys_ascending(t),
    ensures
        upsert(t, v).contains(w) <==> (w == v || (t.contains(w) && display_text(w)
            != display_text(v))),
{
    let key = display_text(v);
    let at = lower_bound(t, key);
    let after = upsert(t, v);
    lemma_lower_bound(t, key);
    lemma_lex_irreflexive(key);
    if at < t.len() && display_text(t[at]) == key {
        if after.contains(w) {
            let i = choose|i: int| 0 <= i < after.len() && after[i] == w;
            if i != at {
                assert(t[i] == w);
                if display_text(w) == key {
                    lemma_ascending_keys_differ(t, i, at);
                }
            }
        }
        if w == v {
            assert(after[at] == w);
        }
        if t.contains(w) && display_text(w) != key {
            let i = choose|i: int| 0 <= i < t.len() && t[i] == w;
            assert(after[i] == w);
        }
    } else {
        if after.contains(w) {
            let i = choose|i: int| 0 <= i < after.len() && after[i] == w;
            if i < at {
                assert(t[i] == w);
                assert(lex_lt(display_text(t[i]), key));
            } else if i > at {
                assert(t[i - 1] == w);
                if i - 1 > at {
                    assert(lex_lt(display_text(t[at]), display_text(t[i - 1])));
                    lemma_lex_total(display_text(t[at]), key);
                }
            }
        }
        if w == v {
            assert(after[at] == w);
        }
        if t.contains(w) && display_text(w) != key {
            let i = choose|i: int| 0 <= i < t.len() && t[i] == w;
            if i < at {
                assert(after[i] == w);
            } else {
                assert(after[i + 1] == w);
            }
        }
    }
}

/// The release at index `i` of `s` is the last of `s` with its key.
pub open spec fn is_last_with_key(s: Seq<VersionView>, i: int) -> bool {
    0 <= i < s.len() && forall|j: int|
        i < j < s.len() ==> display_text(#[trigger] s[j]) != display_text(s[i])
}

/// Every record of a table was the last release to be written under its
/// key.
pub proof fn lemma_table_record_was_last(s: Seq<VersionView>, w: VersionView) -> (i: int)
    requires
        table_of(s).contains(w),
    ensures
        is_last_with_key(s, i),
        s[i] == w,
    decreases s.len(),
{
    if s.len() == 0 {
        assert(table_of(s).len() == 0);
        0
    } else {
        let init = s.drop_last();
        lemma_table_ascending(init);
        lemma_upsert_contains(table_of(init), s.last(), w);
        if w == s.last() {
            s.len() - 1
        } else {
            let i = lemma_table_record_was_last(init, w);
            assert(s[i] == init[i]);
            assert forall|j: int| i < j < s.len() implies display_text(#[trigger] s[j])
                != display_text(s[i]) by {
                if j < s.len() - 1 {
                    assert(init[j] == s[j]);
                }
            }
            i
        }
    }
}

/// The last release to be written under its key is a record of the table.
pub proof fn lemma_table_keeps_last(s: Seq<VersionView>, i: int)
    requires
        is_last_with_key(s, i),
    ensures
        table_of(s).contains(s[i]),
    decreases s.len(),
{
    let init = s.drop_last();
    lemma_table_ascending(init);
    lemma_upsert_contains(table_of(init), s.last(), s[i]);
    if i < s.len() - 1 {
        assert(init[i] == s[i]);
        assert forall|j: int| i < j < init.len() implies display_text(#[trigger] init[j])
            != display_text(init[i]) by {
            assert(init[j] == s[j]);
        }
        lemma_table_keeps_last(init, i);
        assert(display_text(s[s.len() - 1]) != display_text(s[i]));
    }
}

/// A table holds exactly the releases that were the last to be written
/// under their key.
pub proof fn lemma_table_contains(s: Seq<VersionView>, w: VersionView)
    ensures
        table_of(s).contains(w) <==> exists|i: int| is_last_with_key(s, i) && s[i] == w,
{
    if table_of(s).contains(w) {
        let i = lemma_table_record_was_last(s, w);
        assert(is_last_with_key(s, i) && s[i] == w);
    }
    if exists|i: int| is_last_with_key(s, i) && s[i] == w {
        let i = choose|i: int| is_last_with_key(s, i) && s[i] == w;
        lemma_table_keeps_last(s, i);
    }
}

/// Behind every release of a list stands a last one with the same key.
pub proof fn lemma_last_with_key_exists(s: Seq<VersionView>, i: int) -> (k: int)
    requires
        0 <= i < s.len(),
    ensures
        i <= k,
        is_last_with_key(s, k),
        display_text(s[k]) == display_text(s[i]),
    decreases s.len() - i,
{
    if exists|j: int| i < j < s.len() && display_text(s[j]) == display_text(s[i]) {
        let j = choose|j: int| i < j < s.len() && display_text(s[j]) == display_text(s[i]);
        lemma_last_with_key_exists(s, j)
    } else {
        i
    }
}

/// Releases with one display text are one release: no two different
/// releases of the list share a key.
pub open spec fn key_determines(s: Seq<VersionView>) -> bool {
    forall|i: int, j: int|
        0 <= i < s.len() && 0 <= j < s.len() && display_text(#[trigger] s[i]) == display_text(
            #[trigger] s[j],
        ) ==> s[i] == s[j]
}

/// Every record of a table is one of the releases written into it, and
/// every release written into it has a record under its key. Where no two
/// different releases share a key, the table holds exactly the releases
/// written into it.
pub proof fn lemma_table_members(s: Seq<VersionView>, v: VersionView)
    ensures
        table_of(s).contains(v) ==> s.contains(v),
        s.contains(v) ==> lookup(table_of(s), display_text(v)) is Some,
        key_determines(s) ==> (table_of(s).contains(v) <==> s.contains(v)),
{
    lemma_table_contains(s, v);
    lemma_table_ascending(s);
    if table_of(s).contains(v) {
        let i = choose|i: int| is_last_with_key(s, i) && s[i] == v;
        assert(s[i] == v);
    }
    if s.contains(v) {
        let i = choose|i: int| 0 <= i < s.len() && s[i] == v;
        let k = lemma_last_with_key_exists(s, i);
        lemma_table_contains(s, s[k]);
        assert(is_last_with_key(s, k) && s[k] == s[k]);
        assert(table_of(s).contains(s[k]));
        lemma_lookup(table_of(s), display_text(v), s[k]);
        if key_determines(s) {
            assert(s[k] == s[i]);
        }
    }
}

/// Two tables whose keys ascend and that hold the same records are the same
/// table.
pub proof fn lemma_ascending_unique(a: Seq<VersionView>, b: Seq<VersionView>)
    requires
        keys_ascending(a),
        keys_ascending(b),
        forall|v: VersionView| a.contains(v) <==> b.contains(v),
    ensures
        a == b,
    decreases a.len(),
{
    if a.len() == 0 {
        if b.len() > 0 {
            assert(b.contains(b[0]));
        }
        assert(a =~= b);
    } else {
        let x = a.last();
        assert(a.contains(x)) by {
            assert(a[a.len() - 1] == x);
        }
        assert(b.contains(x));
        let y = b.last();
        assert(b.contains(y)) by {
            assert(b[b.len() - 1] == y);
        }
        assert(a.contains(y));
        let j = choose|j: int| 0 <= j < b.len() && b[j] == x;
        let i = choose|i: int| 0 <= i < a.len() && a[i] == y;
        assert(x == y) by {
            lemma_lex_irreflexive(display_text(x));
            if j < b.len() - 1 {
                assert(lex_lt(display_text(b[j]), display_text(b[b.len() - 1])));
                if i < a.len() - 1 {
                    assert(lex_lt(display_text(a[i]), display_text(a[a.len() - 1])));
                    lemma_lex_transitive(display_text(x), display_text(y), display_text(x));
                }
            }
        }
        let a0 = a.drop_last();
        let b0 = b.drop_last();
        assert forall|v: VersionView| a0.contains(v) <==> b0.contains(v) by {
            lemma_last_contains(a, v);
            lemma_last_contains(b, v);
            if a0.contains(v) {
                let k = choose|k: int| 0 <= k < a0.len() && a0[k] == v;
                assert(a[k] == v);
                lemma_ascending_keys_differ(a, k, k);
                if v == x {
                    lemma_ascending_keys_differ(a, k, a.len() - 1);
                }
            }
            if b0.contains(v) {
                let k = choose|k: int| 0 <= k < b0.len() && b0[k] == v;
                assert(b[k] == v);
                if v == y {
                    lemma_ascending_keys_differ(b, k, b.len() - 1);
                }
            }
        }
        assert(keys_ascending(a0)) by {
            assert forall|p: int, q: int| 0 <= p < q < a0.len() implies lex_lt(
                display_text(#[trigger] a0[p]),
                display_text(#[trigger] a0[q]),
            ) by {
                assert(a0[p] == a[p] && a0[q] == a[q]);
            }
        }
        assert(keys_ascending(b0)) by {
            assert forall|p: int, q: int| 0 <= p < q < b0.len() implies lex_lt(
                display_text(#[trigger] b0[p]),
                display_text(#[trigger] b0[q]),
            ) by {
                assert(b0[p] == b[p] && b0[q] == b[q]);
            }
        }
        lemma_ascending_unique(a0, b0);
        assert(a =~= a0.push(x));
        assert(b =~= b0.push(y));
    }
}


// ---------------------------------------------------------------------------
// Queries
// ---------------------------------------------------------------------------

/// A selection holds exactly the records that pass the filters.
pub proof fn lemma_selection_contains(
    t: Seq<VersionView>,
    os: Option<Seq<char>>,
    arch: Option<Seq<char>>,
    v: VersionView,
)
    ensures
        selection(t, os, arch).contains(v) <==> (t.contains(v) && selected(v, os, arch)),
    decreases t.len(),
{
    if t.len() == 0 {
        assert(!selection(t, os, arch).contains(v));
    } else {
        lemma_selection_contains(t.drop_last(), os, arch, v);
        lemma_last_contains(t, v);
        if selected(t.last(), os, arch) {
            lemma_push_contains(selection(t.drop_last(), os, arch), t.last(), v);
        }
    }
}

/// Without filters the selection is the whole table.
pub proof fn lemma_selection_all(t: Seq<VersionView>)
    ensures
        selection(t, None, None) == t,
    decreases t.len(),
{
    if t.len() > 0 {
        lemma_selection_all(t.drop_last());
        assert(t.drop_last().push(t.last()) =~= t);
    } else {
        assert(selection(t, None, None) =~= t);
    }
}

/// The answer to a query holds a release exactly when the table holds it and
/// its display text holds each given filter as a substring, wherever in the
/// text the filter occurs. The answer runs from the highest rank to the
/// lowest.
pub proof fn lemma_query_filters(
    t: Seq<VersionView>,
    os: Option<Seq<char>>,
    arch: Option<Seq<char>>,
    v: VersionView,
)
    ensures
        query(t, os, arch).contains(v) <==> (t.contains(v) && selected(v, os, arch)),
        is_descending(query(t, os, arch)),
{
    lemma_selection_contains(t, os, arch, v);
    lemma_sort_contains(selection(t, os, arch), v);
    lemma_sort_descends(selection(t, os, arch));
}

/// The selection from a table whose keys ascend is a table whose keys
/// ascend.
pub proof fn lemma_selection_ascending(
    t: Seq<VersionView>,
    os: Option<Seq<char>>,
    arch: Option<Seq<char>>,
)
    requires
        keys_ascending(t),
    ensures
        keys_ascending(selection(t, os, arch)),
    decreases t.len(),
{
    if t.len() > 0 {
        let init = t.drop_last();
        let picked = selection(init, os, arch);
        assert(keys_ascending(init)) by {
            assert forall|p: int, q: int| 0 <= p < q < init.len() implies lex_lt(
                display_text(#[trigger] init[p]),
                display_text(#[trigger] init[q]),
            ) by {
                assert(init[p] == t[p] && init[q] == t[q]);
            }
        }
        lemma_selection_ascending(init, os, arch);
        if selected(t.last(), os, arch) {
            let grown = picked.push(t.last());
            assert forall|p: int, q: int| 0 <= p < q < grown.len() implies lex_lt(
                display_text(#[trigger] grown[p]),
                display_text(#[trigger] grown[q]),
            ) by {
                if q < picked.len() {
                    assert(grown[p] == picked[p] && grown[q] == picked[q]);
                } else {
                    assert(grown[p] == picked[p]);
                    assert(picked.contains(picked[p]));
                    lemma_selection_contains(init, os, arch, picked[p]);
                    let k = choose|k: int| 0 <= k < init.len() && init[k] == picked[p];
                    assert(t[k] == picked[p]);
                    assert(lex_lt(display_text(t[k]), display_text(t[t.len() - 1])));
                }
            }
        }
    }
}

/// `a` stands ahead of `b` in an answer: it outranks `b`, or holds the same
/// place and has the later display text.
pub open spec fn stands_ahead(a: VersionView, b: VersionView) -> bool {
    precedes(b, a) || (same_rank(a, b) && lex_lt(display_text(b), display_text(a)))
}

/// Ordering a table whose keys ascend puts every release ahead of all that
/// follow it: ranks descend, and releases that hold the same place come in
/// descending order of their display texts.
pub proof fn lemma_sort_breaks_ties_by_key(t: Seq<VersionView>)
    requires
        keys_ascending(t),
    ensures
        forall|i: int, j: int|
            0 <= i < j < sort_desc(t).len() ==> stands_ahead(
                #[trigger] sort_desc(t)[i],
                #[trigger] sort_desc(t)[j],
            ),
    decreases t.len(),
{
    if t.len() > 0 {
        let init = t.drop_last();
        let x = t.last();
        let sorted = sort_desc(init);
        let at = insert_point(sorted, x);
        let after = sort_desc(t);
        assert(keys_ascending(init)) by {
            assert forall|p: int, q: int| 0 <= p < q < init.len() implies lex_lt(
                display_text(#[trigger] init[p]),
                display_text(#[trigger] init[q]),
            ) by {
                assert(init[p] == t[p] && init[q] == t[q]);
            }
        }
        lemma_sort_breaks_ties_by_key(init);
        lemma_sort_descends(t);
        lemma_insert_point(sorted, x);
        assert forall|i: int, j: int| 0 <= i < j < after.len() implies stands_ahead(
            #[trigger] after[i],
            #[trigger] after[j],
        ) by {
            assert(!precedes(after[i], after[j]));
            if j < at {
                assert(after[i] == sorted[i] && after[j] == sorted[j]);
            } else if j == at {
                assert(after[i] == sorted[i]);
                assert(precedes(x, sorted[i]));
            } else if i == at {
                assert(after[j] == sorted[j - 1]);
                assert(sorted.contains(sorted[j - 1]));
                lemma_sort_contains(init, sorted[j - 1]);
                let k = choose|k: int| 0 <= k < init.len() && init[k] == sorted[j - 1];
                assert(t[k] == sorted[j - 1]);
                assert(lex_lt(display_text(t[k]), display_text(t[t.len() - 1])));
            } else if i < at {
                assert(after[i] == sorted[i] && after[j] == sorted[j - 1]);
            } else {
                assert(after[i] == sorted[i - 1] && after[j] == sorted[j - 1]);
            }
        }
    }
}

/// In the answer to a query on a table whose keys ascend every release
/// stands ahead of all that follow it: ranks descend, and releases that hold
/// the same place come in descending order of their display texts.
pub proof fn lemma_query_order(
    t: Seq<VersionView>,
    os: Option<Seq<char>>,
    arch: Option<Seq<char>>,
)
    requires
        keys_ascending(t),
    ensures
        forall|i: int, j: int|
            0 <= i < j < query(t, os, arch).len() ==> stands_ahead(
                #[trigger] query(t, os, arch)[i],
                #[trigger] query(t, os, arch)[j],
            ),
{
    lemma_selection_ascending(t, os, arch);
    lemma_sort_breaks_ties_by_key(selection(t, os, arch));
}

/// A list all of whose releases are releases of a list in which the key
/// determines the release is such a list itself.
pub proof fn lemma_key_determines_within(whole: Seq<VersionView>, part: Seq<VersionView>)
    requires
        key_determines(whole),
        forall|v: VersionView| part.contains(v) ==> whole.contains(v),
    ensures
        key_determines(part),
{
    assert forall|i: int, j: int|
        0 <= i < part.len() && 0 <= j < part.len() && display_text(#[trigger] part[i])
            == display_text(#[trigger] part[j]) implies part[i] == part[j] by {
        assert(part.contains(part[i]));
        assert(part.contains(part[j]));
        let p = choose|p: int| 0 <= p < whole.len() && whole[p] == part[i];
        let q = choose|q: int| 0 <= q < whole.len() && whole[q] == part[j];
        assert(display_text(whole[p]) == display_text(whole[q]));
    }
}

/// No two releases of the list share a display text.
pub open spec fn keys_distinct(s: Seq<VersionView>) -> bool {
    forall|i: int, j: int|
        0 <= i < s.len() && 0 <= j < s.len() && i != j ==> display_text(#[trigger] s[i])
            != display_text(#[trigger] s[j])
}

/// Filling a catalog and asking for everything gives the releases back:
/// the answer runs from the highest rank to the lowest, holds no two
/// releases with one display text, holds only releases that were stored, and
/// holds for every stored release one with its display text. Where no two
/// different stored releases share a display text, the answer holds exactly
/// the stored releases.
pub proof fn lemma_store_then_query(db: DbView, vs: Seq<VersionView>, v: VersionView)
    ensures
        is_descending(query(db.stored(vs).records, None, None)),
        keys_distinct(query(db.stored(vs).records, None, None)),
        query(db.stored(vs).records, None, None).contains(v) ==> vs.contains(v),
        vs.contains(v) ==> exists|r: VersionView|
            query(db.stored(vs).records, None, None).contains(r) && display_text(r)
                == display_text(v),
        key_determines(vs) ==> (query(db.stored(vs).records, None, None).contains(v)
            <==> vs.contains(v)),
{
    let sorted = sort_desc(vs);
    let records = table_of(sorted);
    let answer = query(records, None, None);
    assert(db.stored(vs).records == records);
    lemma_selection_all(records);
    assert(answer == sort_desc(records));
    lemma_sort_descends(records);
    lemma_sort_contains(records, v);
    lemma_sort_contains(vs, v);
    lemma_table_members(sorted, v);
    lemma_table_ascending(sorted);
    // no key twice in the answer
    assert(keys_distinct(answer)) by {
        lemma_sort_permutes(records);
        assert(records.no_duplicates()) by {
            assert forall|i: int, j: int|
                0 <= i < records.len() && 0 <= j < records.len() && i != j implies records[i]
                != records[j] by {
                if records[i] == records[j] {
                    lemma_ascending_keys_differ(records, i, j);
                }
            }
        }
        records.lemma_multiset_has_no_duplicates();
        answer.lemma_multiset_has_no_duplicates_conv();
        assert forall|i: int, j: int|
            0 <= i < answer.len() && 0 <= j < answer.len() && i != j implies display_text(
            #[trigger] answer[i],
        ) != display_text(#[trigger] answer[j]) by {
            if display_text(answer[i]) == display_text(answer[j]) {
                assert(answer.contains(answer[i]));
                assert(answer.contains(answer[j]));
                lemma_sort_contains(records, answer[i]);
                lemma_sort_contains(records, answer[j]);
                let p = choose|p: int| 0 <= p < records.len() && records[p] == answer[i];
                let q = choose|q: int| 0 <= q < records.len() && records[q] == answer[j];
                lemma_ascending_keys_differ(records, p, q);
            }
        }
    }
    if vs.contains(v) {
        let r = lookup(records, display_text(v))->0;
        lemma_lookup(records, display_text(v), r);
        lemma_sort_contains(records, r);
        assert(answer.contains(r) && display_text(r) == display_text(v));
    }
    if key_determines(vs) {
        assert forall|w: VersionView| sorted.contains(w) implies vs.contains(w) by {
            lemma_sort_contains(vs, w);
        }
        lemma_key_determines_within(vs, sorted);
    }
}

/// What a catalog holds after it was filled does not depend on the order in
/// which the releases were given: where no two different releases share a
/// display text, two lists of the same releases leave the same records, and
/// so the same answer to every query.
pub proof fn lemma_store_any_order(
    db1: DbView,
    db2: DbView,
    vs1: Seq<VersionView>,
    vs2: Seq<VersionView>,
    os: Option<Seq<char>>,
    arch: Option<Seq<char>>,
)
    requires
        key_determines(vs1),
        vs1.to_multiset() == vs2.to_multiset(),
    ensures
        db1.stored(vs1).records == db2.stored(vs2).records,
        query(db1.stored(vs1).records, os, arch) == query(db2.stored(vs2).records, os, arch),
{
    let s1 = sort_desc(vs1);
    let s2 = sort_desc(vs2);
    assert forall|w: VersionView| vs1.contains(w) <==> vs2.contains(w) by {
        vstd::seq_lib::to_multiset_contains(vs1, w);
        vstd::seq_lib::to_multiset_contains(vs2, w);
    }
    lemma_key_determines_within(vs1, vs2);
    assert forall|w: VersionView| s1.contains(w) implies vs1.contains(w) by {
        lemma_sort_contains(vs1, w);
    }
    assert forall|w: VersionView| s2.contains(w) implies vs2.contains(w) by {
        lemma_sort_contains(vs2, w);
    }
    lemma_key_determines_within(vs1, s1);
    lemma_key_determines_within(vs2, s2);
    lemma_table_ascending(s1);
    lemma_table_ascending(s2);
    assert forall|w: VersionView| table_of(s1).contains(w) <==> table_of(s2).contains(w) by {
        lemma_table_members(s1, w);
        lemma_table_members(s2, w);
        lemma_sort_contains(vs1, w);
        lemma_sort_contains(vs2, w);
    }
    lemma_ascending_unique(table_of(s1), table_of(s2));
}

/// Filling a catalog again leaves nothing of the first filling: the catalog
/// is what one filling with the second list alone would have made it, and
/// each of its records is a release of the second list.
pub proof fn lemma_refill_forgets(
    db: DbView,
    first: Seq<VersionView>,
    second: Seq<VersionView>,
    v: VersionView,
)
    ensures
        db.stored(first).stored(second) == db.stored(second),
        db.stored(first).stored(second).records.contains(v) ==> second.contains(v),
{
    lemma_table_members(sort_desc(second), v);
    lemma_sort_contains(second, v);
}

} // verus!
