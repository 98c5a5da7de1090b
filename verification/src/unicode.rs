use vstd::prelude::*;
use vstd::string::StrSliceExecFns;
use vstd::string::StringExecFns;
use crate::strutil::chars_of;
use crate::strutil::string_from_chars;
use unicode_categories::UnicodeCategories;
use unicode_segmentation::UnicodeSegmentation;

verus! {

/// Whether a character has the spacing-combining-mark general category.
pub uninterp spec fn spacing_mark(c: char) -> bool;

/// The extended grapheme clusters of a string, in order.
pub uninterp spec fn graphemes_of(s: Seq<char>) -> Seq<Seq<char>>;

/// The lowercase form of a string.
pub uninterp spec fn lower_of(s: Seq<char>) -> Seq<char>;

/// The uppercase mapping of a character.
pub uninterp spec fn upper_of(c: char) -> Seq<char>;

/// Whether a character has the White_Space property.
pub uninterp spec fn white_space(c: char) -> bool;

/// Relies on unicode_categories' is_mark_spacing_combining: whether the
/// character has general category Mc, a property of the character alone.
#[verifier::external_body]
pub(crate) fn is_spacing_mark_char(c: char) -> (r: bool)
    ensures
        r == spacing_mark(c),
{
    c.is_mark_spacing_combining()
}

/// Relies on unicode_segmentation's graphemes(true): the extended grapheme
/// clusters of the string, in order. They are non-empty consecutive
/// substrings whose concatenation is the whole string, and they depend on
/// the characters alone.
#[verifier::external_body]
pub(crate) fn grapheme_clusters(s: &str) -> (r: Vec<String>)
    ensures
        r.deep_view() == graphemes_of(s@),
        r.deep_view().flatten() == s@,
        forall|i: int| 0 <= i < r.deep_view().len() ==> #[trigger] r.deep_view()[i].len() > 0,
{
    s.graphemes(true).map(|g| g.to_string()).collect()
}

/// Relies on str::to_lowercase: the result depends on the characters alone.
#[verifier::external_body]
pub(crate) fn lowercase(s: &str) -> (r: String)
    ensures
        r@ == lower_of(s@),
{
    s.to_lowercase()
}

/// Relies on char::to_uppercase: the uppercase mapping depends on the
/// character alone.
#[verifier::external_body]
pub(crate) fn uppercase_char(c: char) -> (r: Vec<char>)
    ensures
        r@ == upper_of(c),
{
    c.to_uppercase().collect()
}

/// Relies on char::is_whitespace: the White_Space property of the character.
#[verifier::external_body]
pub(crate) fn is_white_char(c: char) -> (r: bool)
    ensures
        r == white_space(c),
{
    c.is_whitespace()
}

/// Whether a grapheme cluster consists of spacing-combining marks alone.
pub open spec fn all_marks(g: Seq<char>) -> bool {
    forall|i: int| 0 <= i < g.len() ==> spacing_mark(#[trigger] g[i])
}

/// The concatenation of the clusters that are not made of spacing-combining
/// marks alone.
pub open spec fn norm_of(gs: Seq<Seq<char>>) -> Seq<char>
    decreases gs.len(),
{
    if gs.len() == 0 {
        Seq::empty()
    } else {
        norm_of(gs.drop_last()) + (if all_marks(gs.last()) {
            Seq::<char>::empty()
        } else {
            gs.last()
        })
    }
}

/// The canonical comparison key of a glyph: its grapheme clusters with the
/// clusters made of spacing-combining marks alone removed.
pub open spec fn normalize_spec(s: Seq<char>) -> Seq<char> {
    norm_of(graphemes_of(s))
}

fn has_non_mark(g: &str) -> (r: bool)
    ensures
        r == !all_marks(g@),
{
    let n = g.unicode_len();
    let mut i: usize = 0;
    while i < n
        invariant
            n == g@.len(),
            i <= n,
            forall|j: int| 0 <= j < i ==> spacing_mark(#[trigger] g@[j]),
        decreases n - i,
    {
        let c = g.get_char(i);
        if !is_spacing_mark_char(c) {
            assert(!spacing_mark(g@[i as int]));
            return true;
        }
        i = i + 1;
    }
    false
}

proof fn lemma_norm_of_no_marks(gv: Seq<Seq<char>>, s: Seq<char>)
    requires
        gv.flatten() == s,
        forall|i: int| 0 <= i < gv.len() ==> #[trigger] gv[i].len() > 0,
        forall|i: int| 0 <= i < s.len() ==> !spacing_mark(#[trigger] s[i]),
    ensures
        norm_of(gv) == s,
    decreases gv.len(),
{
    gv.lemma_flatten_and_flatten_alt_are_equivalent();
    if gv.len() == 0 {
        assert(s =~= Seq::<char>::empty());
    } else {
        let pre = gv.drop_last();
        let last = gv.last();
        pre.lemma_flatten_and_flatten_alt_are_equivalent();
        assert(s == pre.flatten_alt() + last);
        let pf = pre.flatten_alt();
        assert(pf =~= s.take(s.len() - last.len())) by {
            assert(s == pf + last);
        }
        assert(forall|i: int| 0 <= i < pf.len() ==> !spacing_mark(#[trigger] pf[i])) by {
            assert(forall|i: int| 0 <= i < pf.len() ==> pf[i] == s[i]);
        }
        lemma_norm_of_no_marks(pre, pre.flatten());
        assert(last[0] == s[s.len() - last.len()]);
        assert(!spacing_mark(last[0]));
        assert(!all_marks(last));
        assert(norm_of(gv) == norm_of(pre) + last);
        assert(norm_of(gv) =~= s);
    }
}

/// Compute the join key of a glyph: iterate its grapheme clusters and drop
/// every cluster that consists of spacing-combining marks alone.
///
/// On a string that holds no spacing-combining mark at all, normalization
/// returns the string unchanged; on such strings it is therefore idempotent.
pub fn normalize(s: &str) -> (r: String)
    ensures
        r@ == normalize_spec(s@),
        (forall|i: int| 0 <= i < s@.len() ==> !spacing_mark(#[trigger] s@[i])) ==> r@ == s@,
{
    let gs = grapheme_clusters(s);
    let ghost gv = graphemes_of(s@);
    let mut out = String::new();
    let mut i: usize = 0;
    while i < gs.len()
        invariant
            gs.deep_view() == gv,
            gv == graphemes_of(s@),
            gv.flatten() == s@,
            forall|j: int| 0 <= j < gv.len() ==> #[trigger] gv[j].len() > 0,
            i <= gs@.len(),
            gs@.len() == gv.len(),
            out@ == norm_of(gv.take(i as int)),
        decreases gs@.len() - i,
    {
        proof {
            assert(gv[i as int] == gs@[i as int]@);
            assert(gv.take(i + 1).drop_last() =~= gv.take(i as int));
            assert(gv.take(i + 1).last() == gv[i as int]);
        }
        let g = &gs[i];
        if has_non_mark(g.as_str()) {
            out.append(g.as_str());
        } else {
            proof {
                assert(out@ + Seq::<char>::empty() =~= out@);
            }
        }
        i = i + 1;
    }
    proof {
        assert(gv.take(gv.len() as int) =~= gv);
        if forall|i: int| 0 <= i < s@.len() ==> !spacing_mark(#[trigger] s@[i]) {
            lemma_norm_of_no_marks(gv, s@);
        }
    }
    out
}

/// One step of title casing: whitespace ends a word; the first character of
/// a word is uppercased and words are joined by single spaces.
pub open spec fn tc_step(acc: (Seq<char>, bool), c: char) -> (Seq<char>, bool) {
    if white_space(c) {
        (acc.0, false)
    } else if acc.1 {
        (acc.0.push(c), true)
    } else {
        (
            (if acc.0.len() > 0 {
                acc.0.push(' ')
            } else {
                acc.0
            }) + upper_of(c),
            true,
        )
    }
}

pub open spec fn tc_fold(s: Seq<char>, i: int) -> (Seq<char>, bool)
    decreases i,
{
    if i <= 0 {
        (Seq::empty(), false)
    } else {
        tc_step(tc_fold(s, i - 1), s[i - 1])
    }
}

/// Hyphens become spaces before words are split.
pub open spec fn dash_to_space(s: Seq<char>) -> Seq<char> {
    s.map_values(
        |c: char|
            if c == '-' {
                ' '
            } else {
                c
            },
    )
}

/// The title-cased form of a heading: hyphens replaced by spaces, the first
/// character of each whitespace-separated word uppercased, the rest kept,
/// words joined with single spaces.
pub open spec fn title_case_spec(s: Seq<char>) -> Seq<char> {
    tc_fold(dash_to_space(s), dash_to_space(s).len() as int).0
}

pub fn to_title_case(s: String) -> (r: String)
    ensures
        r@ == title_case_spec(s@),
{
    let cs = chars_of(s.as_str());
    let ghost m = dash_to_space(s@);
    let mut out: Vec<char> = Vec::new();
    let mut in_word = false;
    let mut i: usize = 0;
    while i < cs.len()
        invariant
            cs@ == s@,
            m == dash_to_space(s@),
            m.len() == s@.len(),
            i <= cs@.len(),
            out@ == tc_fold(m, i as int).0,
            in_word == tc_fold(m, i as int).1,
        decreases cs@.len() - i,
    {
        let c0 = cs[i];
        let c = if c0 == '-' {
            ' '
        } else {
            c0
        };
        proof {
            assert(m[i as int] == c);
        }
        if is_white_char(c) {
            in_word = false;
        } else if in_word {
            out.push(c);
        } else {
            if out.len() > 0 {
                out.push(' ');
            }
            let mut up = uppercase_char(c);
            out.append(&mut up);
            in_word = true;
        }
        i = i + 1;
    }
    string_from_chars(&out)
}

} // verus!
