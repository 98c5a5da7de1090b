use vstd::prelude::*;
use crate::strutil::chars_of;
use crate::strutil::match_at;
use crate::strutil::parse_hex_u32;
use crate::strutil::string_from_chars;
use crate::strutil::char_from_u32;
use crate::strutil::parses_hex;
use crate::strutil::hex_seq_val;
use crate::strutil::valid_scalar;

verus! {

/// A classified shortcode literal: either the sequence of Unicode codepoints
/// the shortcode renders to, or the name of a custom image asset.
#[derive(Debug)]
pub enum EmojiLiteral {
    Unicode(Vec<char>),
    Custom(String),
}

/// The mathematical shape of a classified literal.
pub enum LitView {
    Unicode(Seq<char>),
    Custom(Seq<char>),
}

impl DeepView for EmojiLiteral {
    type V = LitView;

    open spec fn deep_view(&self) -> LitView {
        match self {
            EmojiLiteral::Unicode(cs) => LitView::Unicode(cs@),
            EmojiLiteral::Custom(s) => LitView::Custom(s@),
        }
    }
}

/// The errors the pipeline surfaces. Structural anomalies inside a parseable
/// chart are not among them: those rows are skipped.
#[derive(Debug)]
pub enum EmojiError {
    /// The shortcode source is not a JSON object with string values.
    MalformedSource,
    /// The named shortcode's image URL yields no valid literal: a codepoint
    /// fragment of a Unicode URL is not a valid hexadecimal Unicode scalar
    /// value, or a custom asset's file stem is empty.
    BadImageUrl(String),
    /// A subcategory heading occurred before any category heading.
    MalformedChart,
}

/// What parsing the shortcode source returns: the entries of the JSON
/// object, as key and string value, or nothing when the body is not such an
/// object. The entry order is a function of the text alone.
pub uninterp spec fn json_string_map_of(s: Seq<char>) -> Option<Seq<(Seq<char>, Seq<char>)>>;

/// Relies on serde_json: from_str parses the text, as_object and as_str
/// expose a JSON object with string values. serde_json's object map iterates
/// sorted by key, so the entries depend on the text alone.
#[verifier::external_body]
fn parse_json_string_map(text: &str) -> (r: Option<Vec<(String, String)>>)
    ensures
        r.deep_view() == json_string_map_of(text@),
{
    let v: serde_json::Value = serde_json::from_str(text).ok()?;
    let mut out: Vec<(String, String)> = Vec::new();
    for (k, val) in v.as_object()? {
        out.push((k.clone(), val.as_str()?.to_string()));
    }
    Some(out)
}

/// The last '/'-separated segment of a URL.
pub open spec fn last_seg(s: Seq<char>) -> Seq<char>
    decreases s.len(),
{
    if s.len() == 0 {
        s
    } else if s.last() == '/' {
        Seq::empty()
    } else {
        last_seg(s.drop_last()).push(s.last())
    }
}

/// The segment with a trailing ".png" suffix removed.
pub open spec fn strip_png(s: Seq<char>) -> Seq<char> {
    if s.len() >= 4 && s.subrange(s.len() - 4, s.len() as int) == ".png"@ {
        s.take(s.len() - 4)
    } else {
        s
    }
}

/// The file stem of a URL: its last path segment without a ".png" suffix.
pub open spec fn file_stem(u: Seq<char>) -> Seq<char> {
    strip_png(last_seg(u))
}

/// The URL up to, and not including, the '/' before its last segment.
pub open spec fn url_dir(u: Seq<char>) -> Seq<char> {
    u.take(u.len() - last_seg(u).len() - 1)
}

/// Whether the URL points into the Unicode image directory: the path
/// segment immediately before the file name is "unicode".
pub open spec fn is_unicode_url(u: Seq<char>) -> bool {
    last_seg(u).len() < u.len() && last_seg(url_dir(u)) == "unicode"@
}

/// The stem split on '-': always at least one (possibly empty) part.
pub open spec fn split_dash(s: Seq<char>) -> Seq<Seq<char>>
    decreases s.len(),
{
    if s.len() == 0 {
        seq![Seq::empty()]
    } else {
        let p = split_dash(s.drop_last());
        if s.last() == '-' {
            p.push(Seq::empty())
        } else {
            p.update(p.len() - 1, p.last().push(s.last()))
        }
    }
}

pub proof fn lemma_split_dash_len(s: Seq<char>)
    ensures
        split_dash(s).len() >= 1,
    decreases s.len(),
{
    if s.len() > 0 {
        lemma_split_dash_len(s.drop_last());
    }
}

/// A codepoint fragment is sound: hexadecimal and a Unicode scalar value.
pub open spec fn part_ok(p: Seq<char>) -> bool {
    parses_hex(p) && valid_scalar(hex_seq_val(p) as u32)
}

/// Every '-'-separated fragment of the stem is a sound codepoint.
pub open spec fn unicode_parts_ok(stem: Seq<char>) -> bool {
    forall|i: int| 0 <= i < split_dash(stem).len() ==> part_ok(#[trigger] split_dash(stem)[i])
}

/// How a classified literal relates to the image URL it was read from.
pub open spec fn lit_matches(url: Seq<char>, l: LitView) -> bool {
    if is_unicode_url(url) {
        let parts = split_dash(file_stem(url));
        match l {
            LitView::Unicode(cps) => {
                &&& cps.len() == parts.len()
                &&& forall|i: int|
                    0 <= i < parts.len() ==> (#[trigger] cps[i] as u32) as nat == hex_seq_val(
                        parts[i],
                    )
            },
            LitView::Custom(_) => false,
        }
    } else {
        l == LitView::Custom(file_stem(url))
    }
}

proof fn lemma_last_seg_at(s: Seq<char>, p: int)
    requires
        0 <= p <= s.len(),
        forall|j: int| p <= j < s.len() ==> s[j] != '/',
        p > 0 ==> s[p - 1] == '/',
    ensures
        last_seg(s) == s.subrange(p, s.len() as int),
    decreases s.len(),
{
    if s.len() == 0 {
        assert(last_seg(s) =~= s.subrange(p, s.len() as int));
    } else if p == s.len() {
        assert(s.last() == '/');
        assert(last_seg(s) =~= s.subrange(p, s.len() as int));
    } else {
        assert(s.last() != '/');
        lemma_last_seg_at(s.drop_last(), p);
        assert(last_seg(s) == last_seg(s.drop_last()).push(s.last()));
        assert(s.drop_last().subrange(p, s.len() - 1).push(s.last()) =~= s.subrange(
            p,
            s.len() as int,
        ));
    }
}

/// The index at which the URL's last path segment starts.
fn seg_start(cs: &Vec<char>) -> (p: usize)
    ensures
        p <= cs@.len(),
        last_seg(cs@) == cs@.subrange(p as int, cs@.len() as int),
        p > 0 ==> cs@[p - 1] == '/',
{
    let n = cs.len();
    let mut start: usize = 0;
    let mut i: usize = 0;
    while i < n
        invariant
            n == cs@.len(),
            i <= n,
            start <= i,
            forall|j: int| start <= j < i ==> cs@[j] != '/',
            start > 0 ==> cs@[start - 1] == '/',
        decreases n - i,
    {
        if cs[i] == '/' {
            start = i + 1;
        }
        i = i + 1;
    }
    proof {
        lemma_last_seg_at(cs@, start as int);
    }
    start
}

fn copy_range(cs: &Vec<char>, lo: usize, hi: usize) -> (r: Vec<char>)
    requires
        lo <= hi <= cs@.len(),
    ensures
        r@ == cs@.subrange(lo as int, hi as int),
{
    let mut r: Vec<char> = Vec::new();
    let mut k: usize = lo;
    while k < hi
        invariant
            lo <= k <= hi <= cs@.len(),
            r@ == cs@.subrange(lo as int, k as int),
        decreases hi - k,
    {
        r.push(cs[k]);
        proof {
            assert(cs@.subrange(lo as int, k + 1) =~= cs@.subrange(lo as int, k as int).push(
                cs@[k as int],
            ));
        }
        k = k + 1;
    }
    r
}

/// The file stem of the URL, executably.
fn file_stem_exec(cs: &Vec<char>) -> (r: Vec<char>)
    ensures
        r@ == file_stem(cs@),
{
    let start = seg_start(cs);
    let mut seg = copy_range(cs, start, cs.len());
    // strip a trailing ".png"
    let png = chars_of(".png");
    proof {
        reveal_strlit(".png");
        assert(png@.len() == 4);
    }
    if seg.len() >= 4 {
        let at = seg.len() - 4;
        if match_at(&seg, &png, at) {
            seg.truncate(at);
            return seg;
        }
    }
    seg
}

/// Whether the path segment immediately before the file name is "unicode".
fn is_unicode_url_exec(cs: &Vec<char>) -> (r: bool)
    ensures
        r == is_unicode_url(cs@),
{
    let n = cs.len();
    let p = seg_start(cs);
    if p == 0 {
        proof {
            assert(last_seg(cs@).len() == cs@.len());
        }
        return false;
    }
    let dir = copy_range(cs, 0, p - 1);
    proof {
        assert(last_seg(cs@).len() == n - p);
        assert(dir@ =~= url_dir(cs@));
    }
    let q = seg_start(&dir);
    let pat = chars_of("unicode");
    if dir.len() - q != pat.len() {
        proof {
            assert(last_seg(dir@).len() != "unicode"@.len());
        }
        return false;
    }
    let eq = match_at(&dir, &pat, q);
    proof {
        assert(dir@.subrange(q as int, q + pat@.len()) =~= last_seg(dir@));
    }
    eq
}

/// The stem split on '-', executably.
fn split_dash_exec(stem: &Vec<char>) -> (r: Vec<Vec<char>>)
    ensures
        r.deep_view() == split_dash(stem@),
        r@.len() >= 1,
{
    let n = stem.len();
    let mut done: Vec<Vec<char>> = Vec::new();
    let mut cur: Vec<char> = Vec::new();
    let mut i: usize = 0;
    while i < n
        invariant
            n == stem@.len(),
            i <= n,
            done.deep_view().push(cur@) == split_dash(stem@.take(i as int)),
        decreases n - i,
    {
        proof {
            assert(stem@.take(i + 1).drop_last() =~= stem@.take(i as int));
            assert(stem@.take(i + 1).last() == stem@[i as int]);
        }
        let ghost old_done = done.deep_view();
        let ghost old_cur = cur@;
        let c = stem[i];
        if c == '-' {
            done.push(cur);
            cur = Vec::new();
            proof {
                assert(done.deep_view() =~~= old_done.push(old_cur));
                assert(done.deep_view().push(cur@) =~~= old_done.push(old_cur).push(
                    Seq::<char>::empty(),
                ));
            }
        } else {
            let ghost prev = done.deep_view().push(cur@);
            cur.push(c);
            proof {
                lemma_split_dash_len(stem@.take(i as int));
                assert(done.deep_view().push(cur@) =~~= prev.update(
                    prev.len() - 1,
                    prev.last().push(stem@[i as int]),
                ));
            }
        }
        i = i + 1;
    }
    proof {
        assert(stem@.take(n as int) =~= stem@);
    }
    let ghost old_done = done.deep_view();
    let ghost old_cur = cur@;
    done.push(cur);
    proof {
        assert(done.deep_view() =~~= old_done.push(old_cur));
    }
    done
}

/// Classify one image URL: a Unicode codepoint sequence when the URL lies in
/// the Unicode image directory, else a custom asset name. Fails exactly when
/// a codepoint fragment of a Unicode URL is unsound, or a custom URL's file
/// stem is empty.
fn classify_url(url: &String) -> (r: Option<EmojiLiteral>)
    ensures
        r is Some <==> (if is_unicode_url(url@) {
            unicode_parts_ok(file_stem(url@))
        } else {
            file_stem(url@).len() > 0
        }),
        r matches Some(l) ==> lit_matches(url@, l.deep_view()),
{
    let cs = chars_of(url.as_str());
    let stem = file_stem_exec(&cs);
    if is_unicode_url_exec(&cs) {
        let parts = split_dash_exec(&stem);
        let ghost pv = split_dash(file_stem(url@));
        let mut cps: Vec<char> = Vec::new();
        let mut i: usize = 0;
        while i < parts.len()
            invariant
                pv == split_dash(file_stem(url@)),
                is_unicode_url(url@),
                parts.deep_view() == pv,
                parts@.len() == pv.len(),
                i <= pv.len(),
                cps@.len() == i,
                forall|j: int| 0 <= j < i ==> part_ok(#[trigger] pv[j]),
                forall|j: int|
                    0 <= j < i ==> (#[trigger] cps@[j] as u32) as nat == hex_seq_val(pv[j]),
            decreases pv.len() - i,
        {
            proof {
                assert(parts.deep_view()[i as int] =~= parts@[i as int]@);
                assert((i as int) < split_dash(file_stem(url@)).len());
            }
            let v = match parse_hex_u32(&parts[i]) {
                Some(v) => v,
                None => {
                    proof {
                        assert(!part_ok(split_dash(file_stem(url@))[i as int]));
                        assert(!unicode_parts_ok(file_stem(url@)));
                    }
                    return None;
                },
            };
            match char_from_u32(v) {
                Some(c) => {
                    cps.push(c);
                },
                None => {
                    proof {
                        assert(hex_seq_val(pv[i as int]) as u32 == v);
                        assert(!part_ok(split_dash(file_stem(url@))[i as int]));
                        assert(!unicode_parts_ok(file_stem(url@)));
                    }
                    return None;
                },
            }
            i = i + 1;
        }
        Some(EmojiLiteral::Unicode(cps))
    } else {
        if stem.len() == 0 {
            return None;
        }
        Some(EmojiLiteral::Custom(string_from_chars(&stem)))
    }
}

/// Whether the adapter rejects a source entry: a Unicode URL with an
/// unsound codepoint fragment, or a custom URL with an empty file stem
/// (a custom asset name must be non-empty).
pub open spec fn entry_bad(p: (Seq<char>, Seq<char>)) -> bool {
    if is_unicode_url(p.1) {
        !unicode_parts_ok(file_stem(p.1))
    } else {
        file_stem(p.1).len() == 0
    }
}

/// How the classified map relates to the source entries: same ids in the
/// same order, each literal classified from its URL.
pub open spec fn classified_matches(
    pairs: Seq<(Seq<char>, Seq<char>)>,
    entries: Seq<(Seq<char>, LitView)>,
) -> bool {
    &&& entries.len() == pairs.len()
    &&& forall|i: int|
        0 <= i < pairs.len() ==> (#[trigger] entries[i]).0 == pairs[i].0 && lit_matches(
            pairs[i].1,
            entries[i].1,
        )
}

/// Parse the shortcode source and classify every entry.
///
/// Returns the classified map exactly when the body is a JSON object with
/// string values, every Unicode URL carries sound codepoint fragments, and
/// every custom URL has a non-empty file stem; otherwise the error says
/// what was malformed, naming the first offending shortcode where one
/// exists.
pub fn get_github_emoji_id_map(text: &str) -> (r: Result<
    Vec<(String, EmojiLiteral)>,
    EmojiError,
>)
    ensures
        match r {
            Ok(entries) => {
                &&& json_string_map_of(text@) is Some
                &&& classified_matches(json_string_map_of(text@).unwrap(), entries.deep_view())
                &&& forall|i: int|
                    0 <= i < json_string_map_of(text@).unwrap().len() ==> !entry_bad(
                        #[trigger] json_string_map_of(text@).unwrap()[i],
                    )
            },
            Err(e) => match e {
                EmojiError::MalformedSource => json_string_map_of(text@) is None,
                EmojiError::BadImageUrl(id) => {
                    &&& json_string_map_of(text@) is Some
                    &&& exists|i: int|
                        {
                            &&& 0 <= i < json_string_map_of(text@).unwrap().len()
                            &&& entry_bad(#[trigger] json_string_map_of(text@).unwrap()[i])
                            &&& json_string_map_of(text@).unwrap()[i].0 == id@
                            &&& forall|j: int|
                                0 <= j < i ==> !entry_bad(
                                    #[trigger] json_string_map_of(text@).unwrap()[j],
                                )
                        }
                },
                EmojiError::MalformedChart => false,
            },
        },
{
    let pairs = match parse_json_string_map(text) {
        Some(p) => p,
        None => {
            return Err(EmojiError::MalformedSource);
        },
    };
    let ghost pv = json_string_map_of(text@).unwrap();
    let mut entries: Vec<(String, EmojiLiteral)> = Vec::new();
    let mut i: usize = 0;
    while i < pairs.len()
        invariant
            pairs.deep_view() == pv,
            json_string_map_of(text@) == Some(pv),
            pairs@.len() == pv.len(),
            i <= pv.len(),
            entries.deep_view().len() == i,
            forall|j: int| 0 <= j < i ==> !entry_bad(#[trigger] pv[j]),
            forall|j: int|
                0 <= j < i ==> (#[trigger] entries.deep_view()[j]).0 == pv[j].0 && lit_matches(
                    pv[j].1,
                    entries.deep_view()[j].1,
                ),
        decreases pv.len() - i,
    {
        proof {
            assert(pairs@[i as int].0@ == pv[i as int].0);
            assert(pairs@[i as int].1@ == pv[i as int].1);
        }
        let id = pairs[i].0.clone();
        let lit = match classify_url(&pairs[i].1) {
            Some(l) => l,
            None => {
                proof {
                    assert(entry_bad(json_string_map_of(text@).unwrap()[i as int]));
                    assert(json_string_map_of(text@).unwrap()[i as int].0 == id@);
                }
                return Err(EmojiError::BadImageUrl(id));
            },
        };
        let ghost old_dv = entries.deep_view();
        let ghost lit_v = lit.deep_view();
        let ghost id_v = id@;
        entries.push((id, lit));
        proof {
            assert(entries.deep_view() =~~= old_dv.push((id_v, lit_v)));
        }
        i = i + 1;
    }
    Ok(entries)
}

} // verus!
