//! What holds of the grammar of archive names: the names that it accepts are
//! exactly the names that are put together from well-formed pieces.

use vstd::prelude::*;

use crate::data::UnstableVersion;
use crate::data::VersionView;
use crate::data::component_text;
use crate::data::display_text;
use crate::data::optional_tag_text;
use crate::data::short_text;
use crate::data::tag_text;
use crate::online::NameParts;
use crate::online::checksum_name;
use crate::online::decode_entry;
use crate::online::first_tag;
use crate::online::optional_number;
use crate::online::tag_of;
use crate::online::tag_start;
use crate::online::version_from;
use crate::text::digit_char;
use crate::text::digit_value;
use crate::text::digits_value;
use crate::text::int_digits;
use crate::text::nat_digits;
use crate::text::number_of;
use crate::text::occurs_at;
use crate::online::in_class;
use crate::online::is_extension;
use crate::online::name_parts;
use crate::online::run_end;
use crate::online::tail_marks;
use crate::text::all_digits;
use crate::text::is_digit;
use crate::text::is_word;

verus! {

/// Every element of `s` is a word character.
pub open spec fn all_word(s: Seq<char>) -> bool {
    forall|i: int| 0 <= i < s.len() ==> is_word(#[trigger] s[i])
}

/// An optional number as it stands in a name: a dot and its digits, or
/// nothing.
pub open spec fn dotted(run: Option<Seq<char>>) -> Seq<char> {
    match run {
        Some(d) => seq!['.'] + d,
        None => Seq::empty(),
    }
}

/// The name put together from its pieces and its extension:
/// `go<major>[.<minor>][.<patch>][<suffix>].<os>-<arch>.<ext>`.
pub open spec fn name_of(p: NameParts, ext: Seq<char>) -> Seq<char> {
    seq!['g', 'o'] + p.major + dotted(p.minor) + dotted(p.patch) + p.suffix + seq!['.'] + p.os
        + seq!['-'] + p.arch + seq!['.'] + ext
}

/// A non-empty run of digits.
pub open spec fn is_number(d: Seq<char>) -> bool {
    d.len() > 0 && all_digits(d)
}

/// A non-empty run of word characters.
pub open spec fn is_name(w: Seq<char>) -> bool {
    w.len() > 0 && all_word(w)
}

/// The pieces are such as the grammar yields: the numbers are non-empty runs
/// of digits, and there is no patch number without a minor number; the
/// suffix is a run of word characters that does not start with a digit, so
/// that the number before it ends where the suffix starts; operating system
/// and architecture are non-empty runs of word characters.
pub open spec fn well_formed(p: NameParts) -> bool {
    &&& is_number(p.major)
    &&& (p.minor matches Some(d) ==> is_number(d))
    &&& (p.patch matches Some(d) ==> is_number(d))
    &&& (p.patch is Some ==> p.minor is Some)
    &&& all_word(p.suffix)
    &&& (p.suffix.len() > 0 ==> !is_digit(p.suffix[0]))
    &&& is_name(p.os)
    &&& is_name(p.arch)
}

/// A run of the grammar ends within the text, holds only characters of its
/// class, and stops before a character of another class.
pub proof fn lemma_run_end(s: Seq<char>, from: int, word: bool)
    requires
        0 <= from <= s.len(),
    ensures
        from <= run_end(s, from, word) <= s.len(),
        forall|i: int| from <= i < run_end(s, from, word) ==> in_class(#[trigger] s[i], word),
        run_end(s, from, word) < s.len() ==> !in_class(s[run_end(s, from, word)], word),
    decreases s.len() - from,
{
    if from < s.len() && in_class(s[from], word) {
        lemma_run_end(s, from + 1, word);
    }
}

/// A run that holds only characters of the class and stops before a
/// character of another class, or at the end of the text, is the run of the
/// grammar.
pub proof fn lemma_run_end_is(s: Seq<char>, from: int, to: int, word: bool)
    requires
        0 <= from <= to <= s.len(),
        forall|i: int| from <= i < to ==> in_class(#[trigger] s[i], word),
        to < s.len() ==> !in_class(s[to], word),
    ensures
        run_end(s, from, word) == to,
    decreases to - from,
{
    if from < to {
        assert(in_class(s[from], word));
        lemma_run_end_is(s, from + 1, to, word);
    }
}

/// A piece of a text is a run of digits, or of word characters, when each
/// of its characters is.
proof fn lemma_piece_in_class(s: Seq<char>, from: int, to: int, word: bool)
    requires
        0 <= from <= to <= s.len(),
        forall|i: int| from <= i < to ==> in_class(#[trigger] s[i], word),
    ensures
        word ==> all_word(s.subrange(from, to)),
        !word ==> all_digits(s.subrange(from, to)),
{
    let piece = s.subrange(from, to);
    if word {
        assert forall|i: int| 0 <= i < piece.len() implies is_word(#[trigger] piece[i]) by {
            assert(piece[i] == s[from + i]);
            assert(in_class(s[from + i], word));
        }
    } else {
        assert forall|i: int| 0 <= i < piece.len() implies is_digit(#[trigger] piece[i]) by {
            assert(piece[i] == s[from + i]);
            assert(in_class(s[from + i], word));
        }
    }
}

/// What the marks of a tail say of the text behind `from`.
proof fn lemma_tail_shape(s: Seq<char>, from: int)
    requires
        0 <= from <= s.len(),
        tail_marks(s, from) is Some,
    ensures
        ({
            let m = tail_marks(s, from)->0;
            &&& from <= m.0 < m.1 < m.2 < s.len()
            &&& all_word(s.subrange(from, m.0))
            &&& is_name(s.subrange(m.0 + 1, m.1))
            &&& is_name(s.subrange(m.1 + 1, m.2))
            &&& is_extension(s.subrange(m.2 + 1, s.len() as int))
        }),
{
    let m = tail_marks(s, from)->0;
    lemma_run_end(s, from, true);
    lemma_run_end(s, m.0 + 1, true);
    lemma_run_end(s, m.1 + 1, true);
    lemma_piece_in_class(s, from, m.0, true);
    lemma_piece_in_class(s, m.0 + 1, m.1, true);
    lemma_piece_in_class(s, m.1 + 1, m.2, true);
}

/// A text is its pieces between any cuts, put together in order.
proof fn lemma_cut(s: Seq<char>, a: int, b: int, c: int, d: int, e: int, f: int)
    requires
        2 <= a <= b <= c <= d < e < f < s.len(),
    ensures
        s == s.subrange(0, 2) + s.subrange(2, a) + s.subrange(a, b) + s.subrange(b, c)
            + s.subrange(c, d) + s.subrange(d, d + 1) + s.subrange(d + 1, e) + s.subrange(
            e,
            e + 1,
        ) + s.subrange(e + 1, f) + s.subrange(f, f + 1) + s.subrange(f + 1, s.len() as int),
{
    let n = s.len() as int;
    assert(s.subrange(0, a) =~= s.subrange(0, 2) + s.subrange(2, a));
    assert(s.subrange(0, b) =~= s.subrange(0, a) + s.subrange(a, b));
    assert(s.subrange(0, c) =~= s.subrange(0, b) + s.subrange(b, c));
    assert(s.subrange(0, d) =~= s.subrange(0, c) + s.subrange(c, d));
    assert(s.subrange(0, d + 1) =~= s.subrange(0, d) + s.subrange(d, d + 1));
    assert(s.subrange(0, e) =~= s.subrange(0, d + 1) + s.subrange(d + 1, e));
    assert(s.subrange(0, e + 1) =~= s.subrange(0, e) + s.subrange(e, e + 1));
    assert(s.subrange(0, f) =~= s.subrange(0, e + 1) + s.subrange(e + 1, f));
    assert(s.subrange(0, f + 1) =~= s.subrange(0, f) + s.subrange(f, f + 1));
    assert(s.subrange(0, n) =~= s.subrange(0, f + 1) + s.subrange(f + 1, n));
    assert(s.subrange(0, n) =~= s);
}

/// The piece from a dot to the end of the number behind it is the number
/// with its dot.
proof fn lemma_dotted_piece(s: Seq<char>, from: int, to: int)
    requires
        0 <= from < to <= s.len(),
        s[from] == '.',
    ensures
        s.subrange(from, to) == dotted(Some(s.subrange(from + 1, to))),
{
    assert(s.subrange(from, to) =~= seq!['.'] + s.subrange(from + 1, to));
}

/// The piece of one character is that character.
proof fn lemma_single(s: Seq<char>, at: int, c: char)
    requires
        0 <= at < s.len(),
        s[at] == c,
    ensures
        s.subrange(at, at + 1) == seq![c],
{
    assert(s.subrange(at, at + 1) =~= seq![c]);
}

/// A text that starts with `go`, goes on with pieces as the cuts tell, and
/// ends in a recognized extension is the name put together from those
/// pieces.
proof fn lemma_joined(
    s: Seq<char>,
    p: NameParts,
    a: int,
    b: int,
    c: int,
    d: int,
    e: int,
    f: int,
)
    requires
        2 <= a <= b <= c <= d < e < f < s.len(),
        s[0] == 'g',
        s[1] == 'o',
        s[d] == '.',
        s[e] == '-',
        s[f] == '.',
        p.major == s.subrange(2, a),
        s.subrange(a, b) == dotted(p.minor),
        s.subrange(b, c) == dotted(p.patch),
        p.suffix == s.subrange(c, d),
        p.os == s.subrange(d + 1, e),
        p.arch == s.subrange(e + 1, f),
    ensures
        s == name_of(p, s.subrange(f + 1, s.len() as int)),
{
    lemma_cut(s, a, b, c, d, e, f);
    assert(s.subrange(0, 2) =~= seq!['g', 'o']);
    lemma_single(s, d, '.');
    lemma_single(s, e, '-');
    lemma_single(s, f, '.');
}

/// A name that the grammar accepts is put together from the pieces that the
/// grammar yields and a recognized extension, and the pieces are
/// well-formed.
pub proof fn lemma_accepted_name_is_joined(s: Seq<char>)
    requires
        name_parts(s) is Some,
    ensures
        well_formed(name_parts(s)->0),
        exists|ext: Seq<char>| is_extension(ext) && s == name_of(name_parts(s)->0, ext),
{
    let p = name_parts(s)->0;
    let n = s.len() as int;
    let d1 = run_end(s, 2, false);
    lemma_run_end(s, 2, false);
    lemma_piece_in_class(s, 2, d1, false);
    let has_minor = d1 < s.len() && s[d1] == '.' && run_end(s, d1 + 1, false) > d1 + 1;
    if has_minor {
        let d2 = run_end(s, d1 + 1, false);
        lemma_run_end(s, d1 + 1, false);
        lemma_piece_in_class(s, d1 + 1, d2, false);
        lemma_dotted_piece(s, d1, d2);
        let has_patch = d2 < s.len() && s[d2] == '.' && run_end(s, d2 + 1, false) > d2 + 1;
        if has_patch && tail_marks(s, run_end(s, d2 + 1, false)) is Some {
            let d3 = run_end(s, d2 + 1, false);
            lemma_run_end(s, d2 + 1, false);
            lemma_piece_in_class(s, d2 + 1, d3, false);
            lemma_dotted_piece(s, d2, d3);
            let m = tail_marks(s, d3)->0;
            lemma_tail_shape(s, d3);
            if m.0 > d3 {
                assert(s.subrange(d3, m.0)[0] == s[d3]);
            }
            lemma_joined(s, p, d1, d2, d3, m.0, m.1, m.2);
            assert(is_extension(s.subrange(m.2 + 1, n)) && s == name_of(p, s.subrange(m.2 + 1, n)));
        } else if tail_marks(s, d2) is Some {
            let m = tail_marks(s, d2)->0;
            lemma_tail_shape(s, d2);
            if m.0 > d2 {
                assert(s.subrange(d2, m.0)[0] == s[d2]);
            }
            assert(s.subrange(d2, d2) =~= dotted(None));
            lemma_joined(s, p, d1, d2, d2, m.0, m.1, m.2);
            assert(is_extension(s.subrange(m.2 + 1, n)) && s == name_of(p, s.subrange(m.2 + 1, n)));
        } else {
            lemma_accepted_without_numbers(s);
        }
    } else {
        lemma_accepted_without_numbers(s);
    }
}

/// The same for a name that is accepted without a minor number.
proof fn lemma_accepted_without_numbers(s: Seq<char>)
    requires
        s.len() >= 2,
        s[0] == 'g',
        s[1] == 'o',
        run_end(s, 2, false) > 2,
        tail_marks(s, run_end(s, 2, false)) is Some,
    ensures
        ({
            let d1 = run_end(s, 2, false);
            let m = tail_marks(s, d1)->0;
            let p = NameParts {
                major: s.subrange(2, d1),
                minor: None,
                patch: None,
                suffix: s.subrange(d1, m.0),
                os: s.subrange(m.0 + 1, m.1),
                arch: s.subrange(m.1 + 1, m.2),
            };
            &&& well_formed(p)
            &&& is_extension(s.subrange(m.2 + 1, s.len() as int))
            &&& s == name_of(p, s.subrange(m.2 + 1, s.len() as int))
        }),
{
    let d1 = run_end(s, 2, false);
    let m = tail_marks(s, d1)->0;
    let p = NameParts {
        major: s.subrange(2, d1),
        minor: None,
        patch: None,
        suffix: s.subrange(d1, m.0),
        os: s.subrange(m.0 + 1, m.1),
        arch: s.subrange(m.1 + 1, m.2),
    };
    lemma_run_end(s, 2, false);
    lemma_piece_in_class(s, 2, d1, false);
    lemma_tail_shape(s, d1);
    if m.0 > d1 {
        assert(s.subrange(d1, m.0)[0] == s[d1]);
    }
    assert(s.subrange(d1, d1) =~= dotted(None));
    lemma_joined(s, p, d1, d1, d1, m.0, m.1, m.2);
}


// ---------------------------------------------------------------------------
// Every name that is put together from well-formed pieces is accepted
// ---------------------------------------------------------------------------

/// The text `s` holds the pieces `p` between the given cuts, with `go`
/// before them, the separators between them and a recognized extension
/// behind them.
pub open spec fn laid_out(
    s: Seq<char>,
    p: NameParts,
    a: int,
    b: int,
    c: int,
    d: int,
    e: int,
    f: int,
) -> bool {
    &&& 2 <= a <= b <= c <= d < e < f < s.len()
    &&& s[0] == 'g'
    &&& s[1] == 'o'
    &&& s.subrange(2, a) == p.major
    &&& s.subrange(a, b) == dotted(p.minor)
    &&& s.subrange(b, c) == dotted(p.patch)
    &&& s.subrange(c, d) == p.suffix
    &&& s[d] == '.'
    &&& s.subrange(d + 1, e) == p.os
    &&& s[e] == '-'
    &&& s.subrange(e + 1, f) == p.arch
    &&& s[f] == '.'
    &&& is_extension(s.subrange(f + 1, s.len() as int))
}

/// The two halves of a text that was put together from two.
proof fn lemma_halves(x: Seq<char>, y: Seq<char>)
    ensures
        (x + y).len() == x.len() + y.len(),
        (x + y).subrange(0, x.len() as int) == x,
        (x + y).subrange(x.len() as int, (x + y).len() as int) == y,
{
    assert((x + y).subrange(0, x.len() as int) =~= x);
    assert((x + y).subrange(x.len() as int, (x + y).len() as int) =~= y);
}

/// A piece of the front half of a text is a piece of the text.
proof fn lemma_front(x: Seq<char>, y: Seq<char>, from: int, to: int)
    requires
        0 <= from <= to <= x.len(),
    ensures
        (x + y).subrange(from, to) == x.subrange(from, to),
{
    assert((x + y).subrange(from, to) =~= x.subrange(from, to));
}

/// A name that is put together from its pieces holds them between the cuts
/// that their lengths give.
proof fn lemma_layout(p: NameParts, ext: Seq<char>)
    requires
        is_extension(ext),
    ensures
        ({
            let a: int = 2 + p.major.len() as int;
            let b: int = a + dotted(p.minor).len();
            let c: int = b + dotted(p.patch).len();
            let d: int = c + p.suffix.len();
            let e: int = d + 1 + p.os.len();
            let f: int = e + 1 + p.arch.len();
            p.os.len() > 0 && p.arch.len() > 0 ==> laid_out(name_of(p, ext), p, a, b, c, d, e, f)
        }),
{
    let a: int = 2 + p.major.len() as int;
    let b: int = a + dotted(p.minor).len();
    let c: int = b + dotted(p.patch).len();
    let d: int = c + p.suffix.len();
    let e: int = d + 1 + p.os.len();
    let f: int = e + 1 + p.arch.len();
    let t0 = seq!['g', 'o'];
    let t1 = t0 + p.major;
    let t2 = t1 + dotted(p.minor);
    let t3 = t2 + dotted(p.patch);
    let t4 = t3 + p.suffix;
    let t5 = t4 + seq!['.'];
    let t6 = t5 + p.os;
    let t7 = t6 + seq!['-'];
    let t8 = t7 + p.arch;
    let t9 = t8 + seq!['.'];
    let s = t9 + ext;
    assert(s == name_of(p, ext));
    if p.os.len() > 0 && p.arch.len() > 0 {
        lemma_halves(t0, p.major);
        lemma_halves(t1, dotted(p.minor));
        lemma_halves(t2, dotted(p.patch));
        lemma_halves(t3, p.suffix);
        lemma_halves(t4, seq!['.']);
        lemma_halves(t5, p.os);
        lemma_halves(t6, seq!['-']);
        lemma_halves(t7, p.arch);
        lemma_halves(t8, seq!['.']);
        lemma_halves(t9, ext);
        assert(t0.len() == 2 && t0[0] == 'g' && t0[1] == 'o');
        assert(s.len() == f + 1 + ext.len());
        // each piece, seen in the text that ends with it, is seen in every
        // longer text
        assert(s.subrange(2, a) == p.major) by {
            lemma_front(t1, dotted(p.minor), 2, a);
            lemma_front(t2, dotted(p.patch), 2, a);
            lemma_front(t3, p.suffix, 2, a);
            lemma_front(t4, seq!['.'], 2, a);
            lemma_front(t5, p.os, 2, a);
            lemma_front(t6, seq!['-'], 2, a);
            lemma_front(t7, p.arch, 2, a);
            lemma_front(t8, seq!['.'], 2, a);
            lemma_front(t9, ext, 2, a);
        }
        assert(s.subrange(a, b) == dotted(p.minor)) by {
            lemma_front(t2, dotted(p.patch), a, b);
            lemma_front(t3, p.suffix, a, b);
            lemma_front(t4, seq!['.'], a, b);
            lemma_front(t5, p.os, a, b);
            lemma_front(t6, seq!['-'], a, b);
            lemma_front(t7, p.arch, a, b);
            lemma_front(t8, seq!['.'], a, b);
            lemma_front(t9, ext, a, b);
        }
        assert(s.subrange(b, c) == dotted(p.patch)) by {
            lemma_front(t3, p.suffix, b, c);
            lemma_front(t4, seq!['.'], b, c);
            lemma_front(t5, p.os, b, c);
            lemma_front(t6, seq!['-'], b, c);
            lemma_front(t7, p.arch, b, c);
            lemma_front(t8, seq!['.'], b, c);
            lemma_front(t9, ext, b, c);
        }
        assert(s.subrange(c, d) == p.suffix) by {
            lemma_front(t4, seq!['.'], c, d);
            lemma_front(t5, p.os, c, d);
            lemma_front(t6, seq!['-'], c, d);
            lemma_front(t7, p.arch, c, d);
            lemma_front(t8, seq!['.'], c, d);
            lemma_front(t9, ext, c, d);
        }
        assert(s.subrange(d + 1, e) == p.os) by {
            lemma_front(t6, seq!['-'], d + 1, e);
            lemma_front(t7, p.arch, d + 1, e);
            lemma_front(t8, seq!['.'], d + 1, e);
            lemma_front(t9, ext, d + 1, e);
        }
        assert(s.subrange(e + 1, f) == p.arch) by {
            lemma_front(t8, seq!['.'], e + 1, f);
            lemma_front(t9, ext, e + 1, f);
        }
        assert(s[0] == 'g' && s[1] == 'o') by {
            lemma_front(t0, p.major, 0, 2);
            assert(s.subrange(0, 2) == t0) by {
                lemma_front(t1, dotted(p.minor), 0, 2);
                lemma_front(t2, dotted(p.patch), 0, 2);
                lemma_front(t3, p.suffix, 0, 2);
                lemma_front(t4, seq!['.'], 0, 2);
                lemma_front(t5, p.os, 0, 2);
                lemma_front(t6, seq!['-'], 0, 2);
                lemma_front(t7, p.arch, 0, 2);
                lemma_front(t8, seq!['.'], 0, 2);
                lemma_front(t9, ext, 0, 2);
            }
            assert(s.subrange(0, 2)[0] == s[0]);
            assert(s.subrange(0, 2)[1] == s[1]);
        }
        assert(s[d] == '.') by {
            assert(s.subrange(d, d + 1) == seq!['.']) by {
                lemma_front(t5, p.os, d, d + 1);
                lemma_front(t6, seq!['-'], d, d + 1);
                lemma_front(t7, p.arch, d, d + 1);
                lemma_front(t8, seq!['.'], d, d + 1);
                lemma_front(t9, ext, d, d + 1);
            }
            assert(s.subrange(d, d + 1)[0] == s[d]);
        }
        assert(s[e] == '-') by {
            assert(s.subrange(e, e + 1) == seq!['-']) by {
                lemma_front(t7, p.arch, e, e + 1);
                lemma_front(t8, seq!['.'], e, e + 1);
                lemma_front(t9, ext, e, e + 1);
            }
            assert(s.subrange(e, e + 1)[0] == s[e]);
        }
        assert(s[f] == '.') by {
            assert(s.subrange(f, f + 1) == seq!['.']) by {
                lemma_front(t9, ext, f, f + 1);
            }
            assert(s.subrange(f, f + 1)[0] == s[f]);
        }
        assert(ext.len() > 0) by {
            assert(seq!['t', 'a', 'r', '.', 'g', 'z'].len() == 6);
            assert(seq!['z', 'i', 'p'].len() == 3);
        }
    }
}

/// The characters of a piece that is a run of digits, or of word
/// characters, are of that class where they stand in the text.
proof fn lemma_class_of_piece(s: Seq<char>, from: int, to: int, word: bool)
    requires
        0 <= from <= to <= s.len(),
        word ==> all_word(s.subrange(from, to)),
        !word ==> all_digits(s.subrange(from, to)),
    ensures
        forall|i: int| from <= i < to ==> in_class(#[trigger] s[i], word),
{
    let piece = s.subrange(from, to);
    assert forall|i: int| from <= i < to implies in_class(#[trigger] s[i], word) by {
        assert(piece[i - from] == s[i]);
        if word {
            assert(is_word(piece[i - from]));
        } else {
            assert(is_digit(piece[i - from]));
        }
    }
}

/// Where the text behind `from` is a run of word characters, a dot, a name,
/// a hyphen, a name, a dot and a recognized extension, the marks of the tail
/// are the ends of the three runs.
proof fn lemma_tail_marks_is(s: Seq<char>, from: int, d: int, e: int, f: int)
    requires
        0 <= from <= d < e < f < s.len(),
        all_word(s.subrange(from, d)),
        s[d] == '.',
        is_name(s.subrange(d + 1, e)),
        s[e] == '-',
        is_name(s.subrange(e + 1, f)),
        s[f] == '.',
        is_extension(s.subrange(f + 1, s.len() as int)),
    ensures
        tail_marks(s, from) == Some((d, e, f)),
{
    lemma_class_of_piece(s, from, d, true);
    lemma_class_of_piece(s, d + 1, e, true);
    lemma_class_of_piece(s, e + 1, f, true);
    lemma_run_end_is(s, from, d, true);
    lemma_run_end_is(s, d + 1, e, true);
    lemma_run_end_is(s, e + 1, f, true);
}

/// A tail that runs in word characters up to a hyphen has no marks: the dot
/// before the operating system is missing.
proof fn lemma_tail_marks_none(s: Seq<char>, from: int, e: int)
    requires
        0 <= from <= e < s.len(),
        forall|i: int| from <= i < e ==> is_word(#[trigger] s[i]),
        s[e] == '-',
    ensures
        tail_marks(s, from) is None,
{
    assert forall|i: int| from <= i < e implies in_class(#[trigger] s[i], true) by {
        assert(is_word(s[i]));
    }
    lemma_run_end_is(s, from, e, true);
}

/// A run of digits that starts within a run of word characters ends within
/// it.
proof fn lemma_digits_within_word(s: Seq<char>, from: int, e: int)
    requires
        0 <= from <= e < s.len(),
        !is_digit(s[e]),
    ensures
        from <= run_end(s, from, false) <= e,
{
    lemma_run_end(s, from, false);
    if run_end(s, from, false) > e {
        assert(in_class(s[e], false));
    }
}

/// A name that holds well-formed pieces between its cuts is accepted, and
/// the grammar yields those pieces.
proof fn lemma_laid_out_is_accepted(
    s: Seq<char>,
    p: NameParts,
    a: int,
    b: int,
    c: int,
    d: int,
    e: int,
    f: int,
)
    requires
        laid_out(s, p, a, b, c, d, e, f),
        well_formed(p),
    ensures
        name_parts(s) == Some(p),
{
    let n = s.len() as int;
    lemma_class_of_piece(s, 2, a, false);
    lemma_class_of_piece(s, c, d, true);
    lemma_class_of_piece(s, d + 1, e, true);
    lemma_tail_marks_is(s, c, d, e, f);
    // the character behind the last number is no digit
    assert(!is_digit(s[c])) by {
        if c < d {
            assert(s.subrange(c, d)[0] == s[c]);
        }
    }
    match p.minor {
        Some(minor) => {
            assert(b == a + 1 + minor.len()) by {
                assert(s.subrange(a, b).len() == b - a);
                assert(dotted(p.minor).len() == 1 + minor.len());
            }
            assert(s[a] == '.') by {
                assert(s.subrange(a, b)[0] == s[a]);
                assert(dotted(p.minor)[0] == '.');
            }
            assert(s.subrange(a + 1, b) =~= minor) by {
                assert forall|i: int| 0 <= i < minor.len() implies s.subrange(a + 1, b)[i]
                    == minor[i] by {
                    assert(s.subrange(a, b)[i + 1] == s[a + 1 + i]);
                    assert(dotted(p.minor)[i + 1] == minor[i]);
                }
            }
            lemma_class_of_piece(s, a + 1, b, false);
            lemma_run_end_is(s, 2, a, false);
            match p.patch {
                Some(patch) => {
                    assert(c == b + 1 + patch.len()) by {
                        assert(s.subrange(b, c).len() == c - b);
                        assert(dotted(p.patch).len() == 1 + patch.len());
                    }
                    assert(s[b] == '.') by {
                        assert(s.subrange(b, c)[0] == s[b]);
                        assert(dotted(p.patch)[0] == '.');
                    }
                    assert(s.subrange(b + 1, c) =~= patch) by {
                        assert forall|i: int| 0 <= i < patch.len() implies s.subrange(b + 1, c)[i]
                            == patch[i] by {
                            assert(s.subrange(b, c)[i + 1] == s[b + 1 + i]);
                            assert(dotted(p.patch)[i + 1] == patch[i]);
                        }
                    }
                    lemma_class_of_piece(s, b + 1, c, false);
                    lemma_run_end_is(s, a + 1, b, false);
                    lemma_run_end_is(s, b + 1, c, false);
                    assert(name_parts(s) == Some(p));
                },
                None => {
                    assert(c == b) by {
                        assert(s.subrange(b, c).len() == c - b);
                        assert(dotted(p.patch).len() == 0);
                    }
                    lemma_run_end_is(s, a + 1, b, false);
                    // a patch number that the grammar may see here is the
                    // start of the operating system, and the name does not
                    // fit with it
                    let d3 = run_end(s, b + 1, false);
                    if s[b] == '.' && d3 > b + 1 {
                        assert(b == d);
                        lemma_digits_within_word(s, b + 1, e);
                        lemma_run_end(s, b + 1, false);
                        assert forall|i: int| d3 <= i < e implies is_word(#[trigger] s[i]) by {
                            assert(in_class(s[i], true));
                        }
                        lemma_tail_marks_none(s, d3, e);
                    }
                    assert(name_parts(s) == Some(p));
                },
            }
        },
        None => {
            assert(b == a && c == a) by {
                assert(s.subrange(a, b).len() == b - a);
                assert(s.subrange(b, c).len() == c - b);
                assert(dotted(p.minor).len() == 0);
                assert(dotted(p.patch).len() == 0);
            }
            lemma_run_end_is(s, 2, a, false);
            let d2 = run_end(s, a + 1, false);
            if s[a] == '.' && d2 > a + 1 {
                assert(a == d);
                lemma_digits_within_word(s, a + 1, e);
                lemma_run_end(s, a + 1, false);
                assert forall|i: int| d2 <= i < e implies is_word(#[trigger] s[i]) by {
                    assert(in_class(s[i], true));
                }
                lemma_tail_marks_none(s, d2, e);
                // and no patch number follows: what stands at the end of
                // the digits is a word character or the hyphen
                assert(s[d2] != '.') by {
                    if d2 < e {
                        assert(in_class(s[d2], true));
                    }
                }
            }
            assert(name_parts(s) == Some(p));
        },
    }
}

/// The grammar accepts every name that is put together from well-formed
/// pieces and a recognized extension, and yields those pieces. With
/// [`lemma_accepted_name_is_joined`]: the names that the grammar accepts are
/// exactly these, and no name can be put together in two ways.
pub proof fn lemma_joined_name_is_accepted(p: NameParts, ext: Seq<char>)
    requires
        well_formed(p),
        is_extension(ext),
    ensures
        name_parts(name_of(p, ext)) == Some(p),
{
    let a: int = 2 + p.major.len() as int;
    let b: int = a + dotted(p.minor).len();
    let c: int = b + dotted(p.patch).len();
    let d: int = c + p.suffix.len();
    let e: int = d + 1 + p.os.len();
    let f: int = e + 1 + p.arch.len();
    lemma_layout(p, ext);
    lemma_laid_out_is_accepted(name_of(p, ext), p, a, b, c, d, e, f);
}


/// The grammar of archive names, said at once: a name is accepted, with the
/// pieces `p`, exactly when `p` is well-formed and the name is put together
/// from `p` and a recognized extension.
pub proof fn lemma_grammar(s: Seq<char>, p: NameParts)
    ensures
        name_parts(s) == Some(p) <==> (well_formed(p) && exists|ext: Seq<char>|
            is_extension(ext) && s == name_of(p, ext)),
{
    if name_parts(s) == Some(p) {
        lemma_accepted_name_is_joined(s);
    }
    if well_formed(p) && exists|ext: Seq<char>| is_extension(ext) && s == name_of(p, ext) {
        let ext = choose|ext: Seq<char>| is_extension(ext) && s == name_of(p, ext);
        lemma_joined_name_is_accepted(p, ext);
    }
}

/// The first tag of a suffix is the leftmost: a tag starts where it is
/// found, and none starts before.
pub proof fn lemma_first_tag(t: Seq<char>, from: int)
    requires
        0 <= from <= t.len(),
    ensures
        from <= first_tag(t, from) <= t.len(),
        first_tag(t, from) < t.len() ==> tag_start(t, first_tag(t, from)) is Some,
        forall|i: int| from <= i < first_tag(t, from) ==> tag_start(t, i) is None,
    decreases t.len() - from,
{
    if from < t.len() && tag_start(t, from) is None {
        lemma_first_tag(t, from + 1);
    }
}

// ---------------------------------------------------------------------------
// Names that are made from releases
// ---------------------------------------------------------------------------

/// The decimal digits of a number are a non-empty run of digits that reads
/// as the number.
pub proof fn lemma_nat_digits(n: nat)
    ensures
        is_number(nat_digits(n)),
        digits_value(nat_digits(n)) == n,
    decreases n,
{
    if n < 10 {
        let d = nat_digits(n);
        assert(d.len() == 1);
        assert(d[0] == digit_char(n as int));
        assert(d.drop_last() =~= Seq::<char>::empty());
        assert(digits_value(d.drop_last()) == 0);
        assert(digit_value(d.last()) == n);
    } else {
        let init = nat_digits(n / 10);
        let d = nat_digits(n);
        lemma_nat_digits(n / 10);
        assert(d.drop_last() =~= init);
        assert(d.last() == digit_char((n % 10) as int));
        assert(digit_value(d.last()) == n % 10);
        assert forall|i: int| 0 <= i < d.len() implies is_digit(#[trigger] d[i]) by {
            if i < init.len() {
                assert(d[i] == init[i]);
            }
        }
    }
}

/// The number of the tag.
pub open spec fn tag_number(t: UnstableVersion) -> i32 {
    match t {
        UnstableVersion::RC(n) => n,
        UnstableVersion::Beta(n) => n,
    }
}

/// A release as the decoding of a name yields it: no number is negative,
/// there is no patch number without a minor number, and operating system
/// and architecture are non-empty runs of word characters.
pub open spec fn canonical(v: VersionView) -> bool {
    &&& v.v1 >= 0
    &&& (v.v2 matches Some(x) ==> x >= 0)
    &&& (v.v3 matches Some(x) ==> x >= 0)
    &&& (v.v3 is Some ==> v.v2 is Some)
    &&& (v.unstable_v4 matches Some(t) ==> tag_number(t) >= 0)
    &&& is_name(v.os)
    &&& is_name(v.arch)
}

/// The written form of a tag with a number that is not negative is read
/// back as the tag.
pub proof fn lemma_tag_round_trip(t: UnstableVersion)
    requires
        tag_number(t) >= 0,
    ensures
        tag_of(tag_text(t)) == Some(t),
        all_word(tag_text(t)),
        tag_text(t).len() > 0,
        !is_digit(tag_text(t)[0]),
{
    let text = tag_text(t);
    let n = tag_number(t);
    let digits = nat_digits(n as nat);
    lemma_nat_digits(n as nat);
    let beta = seq!['b', 'e', 't', 'a'];
    let rc = seq!['r', 'c'];
    assert(beta.len() == 4 && rc.len() == 2);
    assert(int_digits(n as int) == digits);
    let start: int = match t {
        UnstableVersion::RC(_) => 2,
        UnstableVersion::Beta(_) => 4,
    };
    match t {
        UnstableVersion::RC(_) => {
            assert(text == rc + digits);
            assert(text[0] == 'r' && text[1] == 'c');
            assert(text.subrange(0, 2) =~= rc);
            assert(!occurs_at(beta, text, 0)) by {
                if occurs_at(beta, text, 0) {
                    assert(text.subrange(0, 4)[0] == text[0]);
                    assert(beta[0] == 'b');
                }
            }
        },
        UnstableVersion::Beta(_) => {
            assert(text == beta + digits);
            assert(text[0] == 'b' && text[1] == 'e' && text[2] == 't' && text[3] == 'a');
            assert(text.subrange(0, 4) =~= beta);
        },
    }
    assert(text.len() == start + digits.len());
    assert(text.subrange(start, text.len() as int) =~= digits);
    assert forall|i: int| start <= i < text.len() implies in_class(#[trigger] text[i], false) by {
        assert(text[i] == digits[i - start]);
        assert(is_digit(digits[i - start]));
    }
    assert(is_digit(text[start]));
    lemma_run_end_is(text, start, text.len() as int, false);
    assert(tag_start(text, 0) is Some);
    assert forall|i: int| 0 <= i < text.len() implies is_word(#[trigger] text[i]) by {
        if i >= start {
            assert(in_class(text[i], false));
        }
    }
}

/// The pieces of the archive name of a release.
pub open spec fn parts_of(v: VersionView) -> NameParts {
    NameParts {
        major: int_digits(v.v1 as int),
        minor: match v.v2 {
            Some(x) => Some(int_digits(x as int)),
            None => None,
        },
        patch: match v.v3 {
            Some(x) => Some(int_digits(x as int)),
            None => None,
        },
        suffix: optional_tag_text(v.unstable_v4),
        os: v.os,
        arch: v.arch,
    }
}

/// The display text of a release, a dot and an extension are the name put
/// together from the pieces of the release.
proof fn lemma_display_is_joined(v: VersionView, ext: Seq<char>)
    ensures
        display_text(v) + seq!['.'] + ext == name_of(parts_of(v), ext),
{
    let p = parts_of(v);
    assert(component_text(v.v2) == dotted(p.minor));
    assert(component_text(v.v3) == dotted(p.patch));
    let numbers = p.major + dotted(p.minor) + dotted(p.patch) + p.suffix;
    assert(short_text(v) == numbers);
    let go = seq!['g', 'o'];
    assert(go + numbers =~= go + p.major + dotted(p.minor) + dotted(p.patch) + p.suffix);
}

/// Parsing undoes display: the archive name that the display text of a
/// canonical release and a recognized extension make is decoded into that
/// release, with the name as its file name, the size of the entry, and the
/// name of its checksum. So the decoded release displays as the release it
/// was made from.
pub proof fn lemma_archive_name_round_trip(v: VersionView, ext: Seq<char>, size: i32)
    requires
        canonical(v),
        is_extension(ext),
    ensures
        ({
            let key = display_text(v) + seq!['.'] + ext;
            decode_entry(key, size) == Some(
                VersionView { name: key, size, sha256: checksum_name(key), ..v },
            )
        }),
{
    let key = display_text(v) + seq!['.'] + ext;
    let p = parts_of(v);
    lemma_display_is_joined(v, ext);
    lemma_nat_digits(v.v1 as nat);
    assert(number_of(p.major) == Some(v.v1));
    match v.v2 {
        Some(x) => {
            lemma_nat_digits(x as nat);
            assert(optional_number(p.minor) == Some(x));
        },
        None => {},
    }
    match v.v3 {
        Some(x) => {
            lemma_nat_digits(x as nat);
            assert(optional_number(p.patch) == Some(x));
        },
        None => {},
    }
    match v.unstable_v4 {
        Some(t) => {
            lemma_tag_round_trip(t);
        },
        None => {
            assert(p.suffix.len() == 0);
            assert(tag_of(p.suffix) is None);
        },
    }
    assert(well_formed(p));
    lemma_joined_name_is_accepted(p, ext);
    assert(version_from(key, size, p) == Some(
        VersionView { name: key, size, sha256: checksum_name(key), ..v },
    ));
}

} // verus!
