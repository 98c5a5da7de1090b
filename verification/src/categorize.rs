use vstd::prelude::*;
use vstd::string::StringExecFns;
use crate::source::EmojiLiteral;
use crate::source::LitView;
use crate::source::EmojiError;
use crate::unicode::normalize;
use crate::unicode::normalize_spec;
use crate::chart::ChartEvent;
use crate::chart::EventV;
use crate::strutil::string_from_chars;

verus! {

/// One subcategory: its title and the ordered groups of shortcodes, one
/// group per matched chart row.
#[derive(Debug)]
pub struct Subcategory {
    pub title: String,
    pub groups: Vec<Vec<String>>,
}

/// One top-level category: its title and its subcategories in first
/// appearance order.
#[derive(Debug)]
pub struct Category {
    pub title: String,
    pub subs: Vec<Subcategory>,
}

/// The categorization tree: categories in first appearance order.
#[derive(Debug)]
pub struct Categorized {
    pub cats: Vec<Category>,
}

#[verifier::ext_equal]
pub struct SubV {
    pub title: Seq<char>,
    pub groups: Seq<Seq<Seq<char>>>,
}

#[verifier::ext_equal]
pub struct CatV {
    pub title: Seq<char>,
    pub subs: Seq<SubV>,
}

impl View for Subcategory {
    type V = SubV;

    open spec fn view(&self) -> SubV {
        SubV { title: self.title@, groups: self.groups.deep_view() }
    }
}

impl View for Category {
    type V = CatV;

    open spec fn view(&self) -> CatV {
        CatV { title: self.title@, subs: Seq::new(self.subs@.len(), |i: int| self.subs@[i]@) }
    }
}

impl View for Categorized {
    type V = Seq<CatV>;

    open spec fn view(&self) -> Seq<CatV> {
        Seq::new(self.cats@.len(), |i: int| self.cats@[i]@)
    }
}

pub open spec fn cats_view(cats: Seq<Category>) -> Seq<CatV> {
    Seq::new(cats.len(), |i: int| cats[i]@)
}

// ---------------------------------------------------------------------------
// Association lists: insertion-ordered maps from a key to a list of ids.
// ---------------------------------------------------------------------------

/// The list bound to the first occurrence of `k`, if any.
pub open spec fn assoc_get(m: Seq<(Seq<char>, Seq<Seq<char>>)>, k: Seq<char>) -> Option<
    Seq<Seq<char>>,
>
    decreases m.len(),
{
    if m.len() == 0 {
        None
    } else if m[0].0 == k {
        Some(m[0].1)
    } else {
        assoc_get(m.drop_first(), k)
    }
}

/// Append `id` to the list of `k`, creating the key at the back on first use.
pub open spec fn assoc_push(
    m: Seq<(Seq<char>, Seq<Seq<char>>)>,
    k: Seq<char>,
    id: Seq<char>,
) -> Seq<(Seq<char>, Seq<Seq<char>>)>
    decreases m.len(),
{
    if m.len() == 0 {
        seq![(k, seq![id])]
    } else if m[0].0 == k {
        seq![(m[0].0, m[0].1.push(id))] + m.drop_first()
    } else {
        seq![m[0]] + assoc_push(m.drop_first(), k, id)
    }
}

proof fn lemma_assoc_push_found(
    m: Seq<(Seq<char>, Seq<Seq<char>>)>,
    k: Seq<char>,
    id: Seq<char>,
    i: int,
)
    requires
        0 <= i < m.len(),
        m[i].0 == k,
        forall|j: int| 0 <= j < i ==> (#[trigger] m[j]).0 != k,
    ensures
        assoc_push(m, k, id) == m.update(i, (m[i].0, m[i].1.push(id))),
    decreases i,
{
    if i == 0 {
        assert(assoc_push(m, k, id) =~~= m.update(i, (m[i].0, m[i].1.push(id))));
    } else {
        assert(m[0].0 != k);
        lemma_assoc_push_found(m.drop_first(), k, id, i - 1);
        assert(seq![m[0]] + assoc_push(m.drop_first(), k, id) =~~= m.update(
            i,
            (m[i].0, m[i].1.push(id)),
        ));
    }
}

proof fn lemma_assoc_push_absent(m: Seq<(Seq<char>, Seq<Seq<char>>)>, k: Seq<char>, id: Seq<char>)
    requires
        forall|j: int| 0 <= j < m.len() ==> (#[trigger] m[j]).0 != k,
    ensures
        assoc_push(m, k, id) == m.push((k, seq![id])),
    decreases m.len(),
{
    if m.len() == 0 {
        assert(assoc_push(m, k, id) =~~= m.push((k, seq![id])));
    } else {
        lemma_assoc_push_absent(m.drop_first(), k, id);
        assert(seq![m[0]] + assoc_push(m.drop_first(), k, id) =~~= m.push((k, seq![id])));
    }
}

proof fn lemma_assoc_get_at(m: Seq<(Seq<char>, Seq<Seq<char>>)>, k: Seq<char>, i: int)
    requires
        0 <= i < m.len(),
        m[i].0 == k,
        forall|j: int| 0 <= j < i ==> (#[trigger] m[j]).0 != k,
    ensures
        assoc_get(m, k) == Some(m[i].1),
    decreases i,
{
    if i > 0 {
        lemma_assoc_get_at(m.drop_first(), k, i - 1);
    }
}

proof fn lemma_assoc_get_absent(m: Seq<(Seq<char>, Seq<Seq<char>>)>, k: Seq<char>)
    requires
        forall|j: int| 0 <= j < m.len() ==> (#[trigger] m[j]).0 != k,
    ensures
        assoc_get(m, k) is None,
    decreases m.len(),
{
    if m.len() > 0 {
        lemma_assoc_get_absent(m.drop_first(), k);
    }
}

// ---------------------------------------------------------------------------
// The two indexes precomputed from the classified map.
// ---------------------------------------------------------------------------

/// key -> ids, over the Unicode entries, keys normalized, insertion order.
pub open spec fn key_index(es: Seq<(Seq<char>, LitView)>) -> Seq<(Seq<char>, Seq<Seq<char>>)>
    decreases es.len(),
{
    if es.len() == 0 {
        Seq::empty()
    } else {
        let m = key_index(es.drop_last());
        match es.last().1 {
            LitView::Unicode(cps) => assoc_push(m, normalize_spec(cps), es.last().0),
            LitView::Custom(_) => m,
        }
    }
}

/// custom name -> ids, over the custom entries, insertion order.
pub open spec fn custom_index(es: Seq<(Seq<char>, LitView)>) -> Seq<(Seq<char>, Seq<Seq<char>>)>
    decreases es.len(),
{
    if es.len() == 0 {
        Seq::empty()
    } else {
        let m = custom_index(es.drop_last());
        match es.last().1 {
            LitView::Unicode(_) => m,
            LitView::Custom(name) => assoc_push(m, name, es.last().0),
        }
    }
}

fn find_assoc(m: &Vec<(String, Vec<String>)>, k: &String) -> (r: Option<usize>)
    ensures
        match r {
            Some(i) => {
                &&& i < m@.len()
                &&& m.deep_view()[i as int].0 == k@
                &&& forall|j: int| 0 <= j < i ==> (#[trigger] m.deep_view()[j]).0 != k@
            },
            None => forall|j: int|
                0 <= j < m.deep_view().len() ==> (#[trigger] m.deep_view()[j]).0 != k@,
        },
{
    let n = m.len();
    let mut i: usize = 0;
    while i < n
        invariant
            n == m@.len(),
            m.deep_view().len() == m@.len(),
            i <= n,
            forall|j: int| 0 <= j < i ==> (#[trigger] m.deep_view()[j]).0 != k@,
        decreases n - i,
    {
        proof {
            assert(m.deep_view()[i as int].0 == m@[i as int].0@);
        }
        if m[i].0.eq(k) {
            return Some(i);
        }
        i = i + 1;
    }
    None
}

fn assoc_push_exec(m: &mut Vec<(String, Vec<String>)>, k: String, id: String)
    ensures
        final(m).deep_view() == assoc_push(old(m).deep_view(), k@, id@),
{
    let ghost mv = m.deep_view();
    match find_assoc(m, &k) {
        Some(i) => {
            proof {
                lemma_assoc_push_found(mv, k@, id@, i as int);
            }
            let (key_i, mut ids_i) = m.remove(i);
            ids_i.push(id);
            m.insert(i, (key_i, ids_i));
            proof {
                assert(m.deep_view() =~~= assoc_push(mv, k@, id@));
            }
        },
        None => {
            proof {
                lemma_assoc_push_absent(mv, k@, id@);
            }
            let mut ids: Vec<String> = Vec::new();
            ids.push(id);
            m.push((k, ids));
            proof {
                assert(m.deep_view() =~~= assoc_push(mv, k@, id@));
            }
        },
    }
}

/// Build the two indexes of the categorizer from the classified map:
/// normalized key -> ids for Unicode entries, custom name -> ids for custom
/// entries, both in insertion order.
pub fn build_indexes(entries: &Vec<(String, EmojiLiteral)>) -> (r: (
    Vec<(String, Vec<String>)>,
    Vec<(String, Vec<String>)>,
))
    ensures
        r.0.deep_view() == key_index(entries.deep_view()),
        r.1.deep_view() == custom_index(entries.deep_view()),
{
    let ghost es = entries.deep_view();
    let mut km: Vec<(String, Vec<String>)> = Vec::new();
    let mut cm: Vec<(String, Vec<String>)> = Vec::new();
    let mut i: usize = 0;
    while i < entries.len()
        invariant
            es == entries.deep_view(),
            es.len() == entries@.len(),
            i <= entries@.len(),
            km.deep_view() == key_index(es.take(i as int)),
            cm.deep_view() == custom_index(es.take(i as int)),
        decreases entries@.len() - i,
    {
        proof {
            assert(es.take(i + 1).drop_last() =~= es.take(i as int));
            assert(es.take(i + 1).last() == es[i as int]);
            assert(es[i as int] == (entries@[i as int].0@, entries@[i as int].1.deep_view()));
        }
        let id = entries[i].0.clone();
        match &entries[i].1 {
            EmojiLiteral::Unicode(cps) => {
                let glyph = string_from_chars(cps);
                let key = normalize(glyph.as_str());
                assoc_push_exec(&mut km, key, id);
            },
            EmojiLiteral::Custom(name) => {
                assoc_push_exec(&mut cm, name.clone(), id);
            },
        }
        i = i + 1;
    }
    proof {
        assert(es.take(es.len() as int) =~= es);
    }
    (km, cm)
}

// ---------------------------------------------------------------------------
// The event fold: what the categorizer does with the chart stream.
// ---------------------------------------------------------------------------

pub open spec fn has_cat(cats: Seq<CatV>, t: Seq<char>) -> bool {
    exists|i: int| 0 <= i < cats.len() && (#[trigger] cats[i]).title == t
}

pub open spec fn cat_idx(cats: Seq<CatV>, t: Seq<char>) -> int
    decreases cats.len(),
{
    if cats.len() == 0 {
        0
    } else if cats[0].title == t {
        0
    } else {
        1 + cat_idx(cats.drop_first(), t)
    }
}

pub proof fn lemma_cat_idx(cats: Seq<CatV>, t: Seq<char>)
    requires
        has_cat(cats, t),
    ensures
        0 <= cat_idx(cats, t) < cats.len(),
        cats[cat_idx(cats, t)].title == t,
        forall|j: int| 0 <= j < cat_idx(cats, t) ==> (#[trigger] cats[j]).title != t,
    decreases cats.len(),
{
    if cats[0].title != t {
        assert(has_cat(cats.drop_first(), t)) by {
            let w = choose|i: int| 0 <= i < cats.len() && (#[trigger] cats[i]).title == t;
            assert(cats.drop_first()[w - 1].title == t);
        }
        lemma_cat_idx(cats.drop_first(), t);
        assert forall|j: int| 0 <= j < cat_idx(cats, t) implies (#[trigger] cats[j]).title != t by {
            if j > 0 {
                assert(cats[j] == cats.drop_first()[j - 1]);
            }
        }
    }
}

pub open spec fn has_sub(subs: Seq<SubV>, t: Seq<char>) -> bool {
    exists|i: int| 0 <= i < subs.len() && (#[trigger] subs[i]).title == t
}

pub open spec fn sub_idx(subs: Seq<SubV>, t: Seq<char>) -> int
    decreases subs.len(),
{
    if subs.len() == 0 {
        0
    } else if subs[0].title == t {
        0
    } else {
        1 + sub_idx(subs.drop_first(), t)
    }
}

pub proof fn lemma_sub_idx(subs: Seq<SubV>, t: Seq<char>)
    requires
        has_sub(subs, t),
    ensures
        0 <= sub_idx(subs, t) < subs.len(),
        subs[sub_idx(subs, t)].title == t,
        forall|j: int| 0 <= j < sub_idx(subs, t) ==> (#[trigger] subs[j]).title != t,
    decreases subs.len(),
{
    if subs[0].title != t {
        assert(has_sub(subs.drop_first(), t)) by {
            let w = choose|i: int| 0 <= i < subs.len() && (#[trigger] subs[i]).title == t;
            assert(subs.drop_first()[w - 1].title == t);
        }
        lemma_sub_idx(subs.drop_first(), t);
        assert forall|j: int| 0 <= j < sub_idx(subs, t) implies (#[trigger] subs[j]).title != t by {
            if j > 0 {
                assert(subs[j] == subs.drop_first()[j - 1]);
            }
        }
    }
}

proof fn lemma_cat_idx_first(cats: Seq<CatV>, t: Seq<char>, i: int)
    requires
        0 <= i < cats.len(),
        cats[i].title == t,
        forall|j: int| 0 <= j < i ==> (#[trigger] cats[j]).title != t,
    ensures
        has_cat(cats, t),
        cat_idx(cats, t) == i,
    decreases i,
{
    if i > 0 {
        lemma_cat_idx_first(cats.drop_first(), t, i - 1);
    }
}

proof fn lemma_sub_idx_first(subs: Seq<SubV>, t: Seq<char>, i: int)
    requires
        0 <= i < subs.len(),
        subs[i].title == t,
        forall|j: int| 0 <= j < i ==> (#[trigger] subs[j]).title != t,
    ensures
        has_sub(subs, t),
        sub_idx(subs, t) == i,
    decreases i,
{
    if i > 0 {
        lemma_sub_idx_first(subs.drop_first(), t, i - 1);
    }
}

#[verifier::ext_equal]
pub struct StateV {
    pub cats: Seq<CatV>,
    pub stack: Seq<Seq<char>>,
}

/// One transition of the categorizer.
///
/// A category heading resets the stack and creates its bucket on first
/// sight; a subcategory heading replaces the second stack slot and creates
/// its list on first sight; a data row appends the id group of its
/// normalized key under the current category and subcategory, and is
/// skipped when the stack is not two deep or the key is unknown. A
/// subcategory heading on an empty stack is the fatal malformed-chart case,
/// handled by the caller; here it leaves the state unchanged.
pub open spec fn step(
    st: StateV,
    ev: EventV,
    kidx: Seq<(Seq<char>, Seq<Seq<char>>)>,
) -> StateV {
    match ev {
        EventV::BeginCategory(c) => StateV {
            cats: if has_cat(st.cats, c) {
                st.cats
            } else {
                st.cats.push(CatV { title: c, subs: Seq::empty() })
            },
            stack: seq![c],
        },
        EventV::BeginSubcategory(s) => {
            if st.stack.len() == 0 {
                st
            } else {
                let c = st.stack[0];
                let ci = cat_idx(st.cats, c);
                let cats2 = if has_sub(st.cats[ci].subs, s) {
                    st.cats
                } else {
                    st.cats.update(
                        ci,
                        CatV {
                            title: st.cats[ci].title,
                            subs: st.cats[ci].subs.push(SubV { title: s, groups: Seq::empty() }),
                        },
                    )
                };
                StateV { cats: cats2, stack: seq![c, s] }
            }
        },
        EventV::Row(g) => {
            if st.stack.len() < 2 {
                st
            } else {
                let k = normalize_spec(g);
                match assoc_get(kidx, k) {
                    None => st,
                    Some(ids) => {
                        let c = st.stack[0];
                        let s = st.stack[1];
                        let ci = cat_idx(st.cats, c);
                        let subs = st.cats[ci].subs;
                        let si = sub_idx(subs, s);
                        StateV {
                            cats: st.cats.update(
                                ci,
                                CatV {
                                    title: st.cats[ci].title,
                                    subs: subs.update(
                                        si,
                                        SubV {
                                            title: subs[si].title,
                                            groups: subs[si].groups.push(ids),
                                        },
                                    ),
                                },
                            ),
                            stack: st.stack,
                        }
                    },
                }
            }
        },
    }
}

/// The categorizer folded over a prefix of the event stream.
pub open spec fn run(evs: Seq<EventV>, kidx: Seq<(Seq<char>, Seq<Seq<char>>)>) -> StateV
    decreases evs.len(),
{
    if evs.len() == 0 {
        StateV { cats: Seq::empty(), stack: Seq::empty() }
    } else {
        step(run(evs.drop_last(), kidx), evs.last(), kidx)
    }
}

/// The fatal case: a subcategory heading before any category heading.
pub open spec fn chart_error(evs: Seq<EventV>) -> bool {
    exists|i: int|
        0 <= i < evs.len() && (#[trigger] evs[i]) is BeginSubcategory && (forall|j: int|
            0 <= j < i ==> !((#[trigger] evs[j]) is BeginCategory))
}

/// The categorizer's state invariant: the stack is at most two deep and
/// names a category, and below it a subcategory, that the tree holds.
pub open spec fn st_wf(st: StateV) -> bool {
    &&& st.stack.len() <= 2
    &&& st.stack.len() >= 1 ==> has_cat(st.cats, st.stack[0])
    &&& st.stack.len() == 2 ==> has_sub(st.cats[cat_idx(st.cats, st.stack[0])].subs, st.stack[1])
}

proof fn lemma_cat_idx_same_titles(cats1: Seq<CatV>, cats2: Seq<CatV>, t: Seq<char>)
    requires
        cats1.len() == cats2.len(),
        forall|i: int| 0 <= i < cats1.len() ==> (#[trigger] cats1[i]).title == cats2[i].title,
        has_cat(cats1, t),
    ensures
        has_cat(cats2, t),
        cat_idx(cats2, t) == cat_idx(cats1, t),
{
    lemma_cat_idx(cats1, t);
    let i = cat_idx(cats1, t);
    assert(cats2[i].title == t);
    assert forall|j: int| 0 <= j < i implies (#[trigger] cats2[j]).title != t by {
        assert(cats1[j].title == cats2[j].title);
        assert(cats1[j].title != t);
    }
    lemma_cat_idx_first(cats2, t, i);
}

proof fn lemma_step_wf(st: StateV, ev: EventV, kidx: Seq<(Seq<char>, Seq<Seq<char>>)>)
    requires
        st_wf(st),
    ensures
        st_wf(step(st, ev, kidx)),
{
    match ev {
        EventV::BeginCategory(c) => {
            if !has_cat(st.cats, c) {
                let cats2 = st.cats.push(CatV { title: c, subs: Seq::empty() });
                assert(cats2[cats2.len() - 1].title == c);
                assert(has_cat(cats2, c));
            }
        },
        EventV::BeginSubcategory(s) => {
            if st.stack.len() > 0 {
                let c = st.stack[0];
                lemma_cat_idx(st.cats, c);
                let ci = cat_idx(st.cats, c);
                if has_sub(st.cats[ci].subs, s) {
                    assert(st_wf(step(st, ev, kidx)));
                } else {
                    let subs2 = st.cats[ci].subs.push(SubV { title: s, groups: Seq::empty() });
                    let cats2 = st.cats.update(ci, CatV { title: st.cats[ci].title, subs: subs2 });
                    lemma_cat_idx_same_titles(st.cats, cats2, c);
                    assert(subs2[subs2.len() - 1].title == s);
                    assert(has_sub(cats2[cat_idx(cats2, c)].subs, s));
                }
            }
        },
        EventV::Row(g) => {
            if st.stack.len() >= 2 {
                let k = normalize_spec(g);
                match assoc_get(kidx, k) {
                    None => {},
                    Some(ids) => {
                        let c = st.stack[0];
                        let s = st.stack[1];
                        lemma_cat_idx(st.cats, c);
                        let ci = cat_idx(st.cats, c);
                        lemma_sub_idx(st.cats[ci].subs, s);
                        let si = sub_idx(st.cats[ci].subs, s);
                        let subs2 = st.cats[ci].subs.update(
                            si,
                            SubV {
                                title: st.cats[ci].subs[si].title,
                                groups: st.cats[ci].subs[si].groups.push(ids),
                            },
                        );
                        let cats2 = st.cats.update(
                            ci,
                            CatV { title: st.cats[ci].title, subs: subs2 },
                        );
                        lemma_cat_idx_same_titles(st.cats, cats2, c);
                        assert(subs2[si].title == s);
                        assert(has_sub(subs2, s));
                    },
                }
            }
        },
    }
}

/// The lists of an association list, in order.
pub open spec fn assoc_values(m: Seq<(Seq<char>, Seq<Seq<char>>)>) -> Seq<Seq<Seq<char>>> {
    Seq::new(m.len(), |i: int| m[i].1)
}

/// The custom bucket: appended last when any custom entry exists, as one
/// category with a single subcategory whose title is empty and whose groups
/// are the custom index's lists in insertion order.
pub open spec fn attach_custom(
    cats: Seq<CatV>,
    cust: Seq<(Seq<char>, Seq<Seq<char>>)>,
) -> Seq<CatV> {
    if cust.len() == 0 {
        cats
    } else {
        cats.push(
            CatV {
                title: "GitHub Custom Emoji"@,
                subs: seq![SubV { title: Seq::empty(), groups: assoc_values(cust) }],
            },
        )
    }
}

fn clone_ids(v: &Vec<String>) -> (r: Vec<String>)
    ensures
        r.deep_view() == v.deep_view(),
{
    let mut r: Vec<String> = Vec::new();
    let mut i: usize = 0;
    while i < v.len()
        invariant
            i <= v@.len(),
            r.deep_view() == v.deep_view().take(i as int),
        decreases v@.len() - i,
    {
        let ghost old_dv = r.deep_view();
        let c = v[i].clone();
        let ghost cv = c@;
        proof {
            assert(cv == v@[i as int]@);
        }
        r.push(c);
        proof {
            assert(old_dv.len() == i as int);
            assert(r@.len() == i + 1);
            assert(r@[i as int]@ == cv);
            assert(r.deep_view()[i as int] == cv);
            assert(v.deep_view()[i as int] == v@[i as int]@);
            assert(forall|x: int| 0 <= x < i ==> #[trigger] r.deep_view()[x] == old_dv[x]);
            assert(r.deep_view() =~= v.deep_view().take(i + 1));
        }
        i = i + 1;
    }
    proof {
        assert(v.deep_view().take(v.deep_view().len() as int) =~= v.deep_view());
        assert(v.deep_view().len() == v@.len());
    }
    r
}

spec fn opt_stack(c: Option<Seq<char>>, s: Option<Seq<char>>) -> Seq<Seq<char>> {
    match (c, s) {
        (Option::None, _) => Seq::empty(),
        (Option::Some(cv), Option::None) => seq![cv],
        (Option::Some(cv), Option::Some(sv)) => seq![cv, sv],
    }
}

fn find_cat(cats: &Vec<Category>, t: &String) -> (r: Option<usize>)
    ensures
        r is Some <==> has_cat(cats_view(cats@), t@),
        r matches Some(i) ==> i < cats@.len() && i as int == cat_idx(cats_view(cats@), t@),
{
    let n = cats.len();
    let mut i: usize = 0;
    while i < n
        invariant
            n == cats@.len(),
            i <= n,
            forall|j: int| 0 <= j < i ==> (#[trigger] cats_view(cats@)[j]).title != t@,
        decreases n - i,
    {
        proof {
            assert(cats_view(cats@)[i as int].title == cats@[i as int].title@);
        }
        if cats[i].title.eq(t) {
            proof {
                lemma_cat_idx_first(cats_view(cats@), t@, i as int);
            }
            return Some(i);
        }
        i = i + 1;
    }
    proof {
        if has_cat(cats_view(cats@), t@) {
            lemma_cat_idx(cats_view(cats@), t@);
        }
    }
    None
}

fn find_sub(subs: &Vec<Subcategory>, t: &String) -> (r: Option<usize>)
    ensures
        r is Some <==> has_sub(Seq::new(subs@.len(), |i: int| subs@[i]@), t@),
        r matches Some(i) ==> i < subs@.len() && i as int == sub_idx(
            Seq::new(subs@.len(), |i: int| subs@[i]@),
            t@,
        ),
{
    let ghost sv = Seq::new(subs@.len(), |i: int| subs@[i]@);
    let n = subs.len();
    let mut i: usize = 0;
    while i < n
        invariant
            sv == Seq::new(subs@.len(), |i: int| subs@[i]@),
            n == subs@.len(),
            i <= n,
            forall|j: int| 0 <= j < i ==> (#[trigger] sv[j]).title != t@,
        decreases n - i,
    {
        proof {
            assert(sv[i as int].title == subs@[i as int].title@);
        }
        if subs[i].title.eq(t) {
            proof {
                lemma_sub_idx_first(sv, t@, i as int);
            }
            return Some(i);
        }
        i = i + 1;
    }
    proof {
        if has_sub(sv, t@) {
            lemma_sub_idx(sv, t@);
        }
    }
    None
}

/// Join the classified map with the chart event stream.
///
/// Fails with the malformed-chart error exactly when a subcategory heading
/// occurs before any category heading; otherwise the result is the fold of
/// the events over the two indexes, with the custom bucket, when any custom
/// entry exists, appended last.
pub fn categorize_github_emoji_ids(
    entries: &Vec<(String, EmojiLiteral)>,
    events: &Vec<ChartEvent>,
) -> (r: Result<Categorized, EmojiError>)
    ensures
        match r {
            Ok(c) => !chart_error(events.deep_view()) && c@ == attach_custom(
                run(events.deep_view(), key_index(entries.deep_view())).cats,
                custom_index(entries.deep_view()),
            ),
            Err(e) => e is MalformedChart && chart_error(events.deep_view()),
        },
{
    let ghost es = entries.deep_view();
    let ghost ev = events.deep_view();
    let ghost kidx = key_index(es);
    let (km, cm) = build_indexes(entries);
    let mut cats: Vec<Category> = Vec::new();
    let mut cur_cat: Option<String> = None;
    let mut cur_sub: Option<String> = None;
    let mut i: usize = 0;
    while i < events.len()
        invariant
            es == entries.deep_view(),
            ev == events.deep_view(),
            kidx == key_index(es),
            km.deep_view() == kidx,
            ev.len() == events@.len(),
            i <= events@.len(),
            cur_cat is None ==> cur_sub is None,
            run(ev.take(i as int), kidx) == (StateV {
                cats: cats_view(cats@),
                stack: opt_stack(cur_cat.deep_view(), cur_sub.deep_view()),
            }),
            st_wf(run(ev.take(i as int), kidx)),
            !chart_error(ev.take(i as int)),
            (cur_cat is None) <==> (forall|j: int|
                0 <= j < i ==> !((#[trigger] ev[j]) is BeginCategory)),
        decreases events@.len() - i,
    {
        proof {
            assert(ev.take(i + 1).drop_last() =~= ev.take(i as int));
            assert(ev.take(i + 1).last() == ev[i as int]);
            assert(ev[i as int] == events@[i as int].deep_view());
            lemma_step_wf(run(ev.take(i as int), kidx), ev[i as int], kidx);
        }
        let ghost st = run(ev.take(i as int), kidx);
        match &events[i] {
            ChartEvent::BeginCategory(t) => {
                match find_cat(&cats, t) {
                    Some(_) => {
                    },
                    None => {
                        let ghost old_cats = cats_view(cats@);
                        cats.push(Category { title: t.clone(), subs: Vec::new() });
                        proof {
                            assert(cats_view(cats@) =~~= old_cats.push(
                                CatV { title: t@, subs: Seq::empty() },
                            ));
                        }
                    },
                }
                cur_cat = Some(t.clone());
                cur_sub = None;
                proof {
                    assert(run(ev.take(i + 1), kidx) =~~= (StateV {
                        cats: cats_view(cats@),
                        stack: opt_stack(cur_cat.deep_view(), cur_sub.deep_view()),
                    }));
                    assert(!chart_error(ev.take(i + 1))) by {
                        if chart_error(ev.take(i + 1)) {
                            let w = choose|x: int|
                                0 <= x < ev.take(i + 1).len() && (#[trigger] ev.take(i + 1)[x])
                                    is BeginSubcategory && (forall|j: int|
                                    0 <= j < x ==> !((#[trigger] ev.take(i + 1)[j])
                                        is BeginCategory));
                            assert(ev.take(i as int)[w] == ev.take(i + 1)[w]);
                            assert(chart_error(ev.take(i as int)));
                        }
                    }
                }
            },
            ChartEvent::BeginSubcategory(t) => {
                match &cur_cat {
                    None => {
                        proof {
                            assert(ev[i as int] is BeginSubcategory);
                            assert(chart_error(ev)) by {
                                assert(forall|j: int|
                                    0 <= j < i ==> !((#[trigger] ev[j]) is BeginCategory));
                            }
                        }
                        return Err(EmojiError::MalformedChart);
                    },
                    Some(cc) => {
                        let ci = match find_cat(&cats, cc) {
                            Some(ci) => ci,
                            None => {
                                proof {
                                    assert(false);
                                }
                                return Err(EmojiError::MalformedChart);
                            },
                        };
                        let sub_present = {
                            match find_sub(&cats[ci].subs, t) {
                                Some(_) => true,
                                None => false,
                            }
                        };
                        proof {
                            assert(cats_view(cats@)[ci as int].subs == Seq::new(
                                cats@[ci as int].subs@.len(),
                                |x: int| cats@[ci as int].subs@[x]@,
                            ));
                        }
                        if !sub_present {
                            let ghost old_cats = cats_view(cats@);
                            let mut cat = cats.remove(ci);
                            cat.subs.push(Subcategory { title: t.clone(), groups: Vec::new() });
                            cats.insert(ci, cat);
                            proof {
                                assert(cats_view(cats@) =~~= old_cats.update(
                                    ci as int,
                                    CatV {
                                        title: old_cats[ci as int].title,
                                        subs: old_cats[ci as int].subs.push(
                                            SubV { title: t@, groups: Seq::empty() },
                                        ),
                                    },
                                ));
                            }
                        }
                        cur_sub = Some(t.clone());
                        proof {
                            assert(run(ev.take(i + 1), kidx) =~~= (StateV {
                                cats: cats_view(cats@),
                                stack: opt_stack(cur_cat.deep_view(), cur_sub.deep_view()),
                            }));
                            assert(!chart_error(ev.take(i + 1))) by {
                                if chart_error(ev.take(i + 1)) {
                                    let w = choose|x: int|
                                        0 <= x < ev.take(i + 1).len() && (#[trigger] ev.take(
                                            i + 1,
                                        )[x]) is BeginSubcategory && (forall|j: int|
                                            0 <= j < x ==> !((#[trigger] ev.take(i + 1)[j])
                                                is BeginCategory));
                                    if w < i {
                                        assert(ev.take(i as int)[w] == ev.take(i + 1)[w]);
                                        assert(chart_error(ev.take(i as int)));
                                    } else {
                                        let b = choose|j: int|
                                            0 <= j < i && (#[trigger] ev[j]) is BeginCategory;
                                        assert(ev.take(i + 1)[b] is BeginCategory);
                                    }
                                }
                            }
                        }
                    },
                }
            },
            ChartEvent::Row(g) => {
                let skip = match (&cur_cat, &cur_sub) {
                    (Some(_), Some(_)) => false,
                    _ => true,
                };
                if !skip {
                    let key = normalize(g.as_str());
                    match find_assoc(&km, &key) {
                        Some(gi) => {
                            proof {
                                lemma_assoc_get_at(kidx, key@, gi as int);
                            }
                            let group = clone_ids(&km[gi].1);
                            let cc = match &cur_cat {
                                Some(cc) => cc,
                                None => {
                                    proof {
                                        assert(false);
                                    }
                                    return Err(EmojiError::MalformedChart);
                                },
                            };
                            let cs = match &cur_sub {
                                Some(cs) => cs,
                                None => {
                                    proof {
                                        assert(false);
                                    }
                                    return Err(EmojiError::MalformedChart);
                                },
                            };
                            let ci = match find_cat(&cats, cc) {
                                Some(ci) => ci,
                                None => {
                                    proof {
                                        assert(false);
                                    }
                                    return Err(EmojiError::MalformedChart);
                                },
                            };
                            proof {
                                assert(cats_view(cats@)[ci as int].subs == Seq::new(
                                    cats@[ci as int].subs@.len(),
                                    |x: int| cats@[ci as int].subs@[x]@,
                                ));
                            }
                            let mut cat = cats.remove(ci);
                            let si = match find_sub(&cat.subs, cs) {
                                Some(si) => si,
                                None => {
                                    proof {
                                        assert(false);
                                    }
                                    return Err(EmojiError::MalformedChart);
                                },
                            };
                            let ghost old_cats = cats_view(cats@).insert(ci as int, cat@);
                            let mut sub = cat.subs.remove(si);
                            sub.groups.push(group);
                            cat.subs.insert(si, sub);
                            cats.insert(ci, cat);
                            proof {
                                assert(km.deep_view()[gi as int].1 == group.deep_view());
                                let subs0 = old_cats[ci as int].subs;
                                assert(cats_view(cats@) =~~= old_cats.update(
                                    ci as int,
                                    CatV {
                                        title: old_cats[ci as int].title,
                                        subs: subs0.update(
                                            si as int,
                                            SubV {
                                                title: subs0[si as int].title,
                                                groups: subs0[si as int].groups.push(
                                                    group.deep_view(),
                                                ),
                                            },
                                        ),
                                    },
                                ));
                            }
                        },
                        None => {
                            proof {
                                lemma_assoc_get_absent(kidx, key@);
                            }
                        },
                    }
                }
                proof {
                    assert(run(ev.take(i + 1), kidx) =~~= (StateV {
                        cats: cats_view(cats@),
                        stack: opt_stack(cur_cat.deep_view(), cur_sub.deep_view()),
                    }));
                    assert(!chart_error(ev.take(i + 1))) by {
                        if chart_error(ev.take(i + 1)) {
                            let w = choose|x: int|
                                0 <= x < ev.take(i + 1).len() && (#[trigger] ev.take(i + 1)[x])
                                    is BeginSubcategory && (forall|j: int|
                                    0 <= j < x ==> !((#[trigger] ev.take(i + 1)[j])
                                        is BeginCategory));
                            assert(ev.take(i as int)[w] == ev.take(i + 1)[w]);
                            assert(chart_error(ev.take(i as int)));
                        }
                    }
                }
            },
        }
        i = i + 1;
    }
    proof {
        assert(ev.take(ev.len() as int) =~= ev);
    }
    // append the custom bucket
    if cm.len() > 0 {
        let ghost cmv = cm.deep_view();
        let mut groups: Vec<Vec<String>> = Vec::new();
        let mut j: usize = 0;
        while j < cm.len()
            invariant
                cmv == cm.deep_view(),
                cmv.len() == cm@.len(),
                j <= cm@.len(),
                groups.deep_view() == assoc_values(cmv.take(j as int)),
            decreases cm@.len() - j,
        {
            proof {
                assert(cmv[j as int].1 == cm@[j as int].1.deep_view());
            }
            let pair = &cm[j];
            let g = clone_ids(&pair.1);
            let ghost gv = g.deep_view();
            proof {
                assert(gv == cmv[j as int].1);
            }
            let ghost old_g = groups.deep_view();
            let ghost old_gs = groups@;
            proof {
                assert(old_g.len() == j as int);
                assert(old_gs.len() == j as int);
            }
            groups.push(g);
            proof {
                assert(groups@ == old_gs.push(g));
                assert forall|x: int| 0 <= x < groups@.len() implies #[trigger] groups.deep_view()[x]
                    == assoc_values(cmv.take(j + 1))[x] by {
                    if x < j {
                        assert(groups@[x] == old_gs[x]);
                        assert(groups.deep_view()[x] == old_g[x]);
                        assert(old_g[x] == assoc_values(cmv.take(j as int))[x]);
                    } else {
                        assert(groups@[x] == g);
                        assert(groups.deep_view()[x] == gv);
                    }
                }
                assert(groups.deep_view() =~= assoc_values(cmv.take(j + 1)));
            }
            j = j + 1;
        }
        proof {
            assert(cmv.take(cmv.len() as int) =~= cmv);
        }
        let mut subs: Vec<Subcategory> = Vec::new();
        subs.push(Subcategory { title: String::new(), groups });
        let ghost old_cats = cats_view(cats@);
        cats.push(Category { title: String::from_str("GitHub Custom Emoji"), subs });
        proof {
            assert(cats_view(cats@) =~~= attach_custom(old_cats, cmv));
        }
    }
    let result = Categorized { cats };
    proof {
        assert(result@ =~~= cats_view(result.cats@));
    }
    Ok(result)
}

// ---------------------------------------------------------------------------
// Laws of the categorizer.
// ---------------------------------------------------------------------------

/// The category titles of a tree, in order.
pub open spec fn cat_titles(cats: Seq<CatV>) -> Seq<Seq<char>> {
    Seq::new(cats.len(), |i: int| cats[i].title)
}

/// The subcategory titles of a category, in order.
pub open spec fn sub_titles(subs: Seq<SubV>) -> Seq<Seq<char>> {
    Seq::new(subs.len(), |i: int| subs[i].title)
}

/// The titles of the category headings in order of first occurrence.
pub open spec fn first_occ(evs: Seq<EventV>) -> Seq<Seq<char>>
    decreases evs.len(),
{
    if evs.len() == 0 {
        Seq::empty()
    } else {
        let p = first_occ(evs.drop_last());
        match evs.last() {
            EventV::BeginCategory(c) => if p.contains(c) {
                p
            } else {
                p.push(c)
            },
            _ => p,
        }
    }
}

/// The categorizer's state invariant holds after any prefix of events.
pub proof fn lemma_run_wf(evs: Seq<EventV>, kidx: Seq<(Seq<char>, Seq<Seq<char>>)>)
    ensures
        st_wf(run(evs, kidx)),
    decreases evs.len(),
{
    if evs.len() > 0 {
        lemma_run_wf(evs.drop_last(), kidx);
        lemma_step_wf(run(evs.drop_last(), kidx), evs.last(), kidx);
    }
}

proof fn lemma_run_order(evs: Seq<EventV>, kidx: Seq<(Seq<char>, Seq<Seq<char>>)>)
    ensures
        cat_titles(run(evs, kidx).cats) == first_occ(evs),
    decreases evs.len(),
{
    if evs.len() > 0 {
        lemma_run_order(evs.drop_last(), kidx);
        lemma_run_wf(evs.drop_last(), kidx);
        let st = run(evs.drop_last(), kidx);
        let titles = cat_titles(st.cats);
        if st.stack.len() >= 1 {
            lemma_cat_idx(st.cats, st.stack[0]);
            if st.stack.len() == 2 {
                lemma_sub_idx(st.cats[cat_idx(st.cats, st.stack[0])].subs, st.stack[1]);
            }
        }
        match evs.last() {
            EventV::BeginCategory(c) => {
                assert(has_cat(st.cats, c) <==> titles.contains(c)) by {
                    if has_cat(st.cats, c) {
                        let w = choose|i: int|
                            0 <= i < st.cats.len() && (#[trigger] st.cats[i]).title == c;
                        assert(titles[w] == c);
                    }
                    if titles.contains(c) {
                        let w = choose|i: int| 0 <= i < titles.len() && titles[i] == c;
                        assert(st.cats[w].title == c);
                    }
                }
                if has_cat(st.cats, c) {
                    assert(cat_titles(run(evs, kidx).cats) =~= first_occ(evs));
                } else {
                    assert(cat_titles(st.cats.push(CatV { title: c, subs: Seq::empty() }))
                        =~= titles.push(c));
                }
            },
            EventV::BeginSubcategory(_) => {
                let st2 = step(st, evs.last(), kidx);
                assert(run(evs, kidx) == st2);
                assert(st2.cats.len() == st.cats.len());
                assert forall|i: int| 0 <= i < st.cats.len() implies (#[trigger] st2.cats[i]).title
                    == st.cats[i].title by {}
                assert(cat_titles(st2.cats) =~= titles);
            },
            EventV::Row(_) => {
                let st2 = step(st, evs.last(), kidx);
                assert(run(evs, kidx) == st2);
                assert(st2.cats.len() == st.cats.len());
                assert forall|i: int| 0 <= i < st.cats.len() implies (#[trigger] st2.cats[i]).title
                    == st.cats[i].title by {}
                assert(cat_titles(st2.cats) =~= titles);
            },
        }
    }
}

/// Ordering: the result lists the categories in the order in which their
/// category headings first occurred in the chart stream; the custom bucket,
/// when any custom entry exists, comes last.
pub proof fn lemma_category_order(evs: Seq<EventV>, es: Seq<(Seq<char>, LitView)>)
    ensures
        custom_index(es).len() == 0 ==> cat_titles(
            attach_custom(run(evs, key_index(es)).cats, custom_index(es)),
        ) == first_occ(evs),
        custom_index(es).len() > 0 ==> cat_titles(
            attach_custom(run(evs, key_index(es)).cats, custom_index(es)),
        ) == first_occ(evs).push("GitHub Custom Emoji"@),
{
    lemma_run_order(evs, key_index(es));
    let cats = run(evs, key_index(es)).cats;
    if custom_index(es).len() > 0 {
        assert(cat_titles(attach_custom(cats, custom_index(es))) =~= cat_titles(cats).push(
            "GitHub Custom Emoji"@,
        ));
    }
}

/// The custom bucket's converse: provided no category heading of the chart
/// stream is itself titled "GitHub Custom Emoji", the result carries a
/// category of that title exactly when a custom entry exists.
pub proof fn lemma_custom_bucket_iff(evs: Seq<EventV>, es: Seq<(Seq<char>, LitView)>)
    requires
        !first_occ(evs).contains("GitHub Custom Emoji"@),
    ensures
        has_cat(
            attach_custom(run(evs, key_index(es)).cats, custom_index(es)),
            "GitHub Custom Emoji"@,
        ) <==> custom_index(es).len() > 0,
{
    let t = "GitHub Custom Emoji"@;
    let cats = run(evs, key_index(es)).cats;
    let r = attach_custom(cats, custom_index(es));
    lemma_run_order(evs, key_index(es));
    assert(!has_cat(cats, t)) by {
        if has_cat(cats, t) {
            let w = choose|w: int| 0 <= w < cats.len() && (#[trigger] cats[w]).title == t;
            assert(cat_titles(cats)[w] == t);
            assert(first_occ(evs).contains(t));
        }
    }
    if custom_index(es).len() > 0 {
        assert(r[r.len() - 1].title == t);
        assert(has_cat(r, t));
    } else {
        assert(r == cats);
    }
}

/// Custom-bucket shape: when any custom entry exists, the tree gains exactly
/// one category, last, with exactly one subcategory, whose title is the
/// empty string and whose groups are the custom index lists in order.
pub proof fn lemma_custom_bucket_shape(cats: Seq<CatV>, cust: Seq<(Seq<char>, Seq<Seq<char>>)>)
    requires
        cust.len() > 0,
    ensures
        attach_custom(cats, cust).len() == cats.len() + 1,
        attach_custom(cats, cust).last().title == "GitHub Custom Emoji"@,
        attach_custom(cats, cust).last().subs.len() == 1,
        attach_custom(cats, cust).last().subs[0].title == Seq::<char>::empty(),
        attach_custom(cats, cust).last().subs[0].groups == assoc_values(cust),
        forall|i: int| 0 <= i < cats.len() ==> attach_custom(cats, cust)[i] == cats[i],
{
}

/// `id` is a shortcode of the source classified as Unicode with normalized
/// key `k`.
pub open spec fn has_unicode_entry(
    es: Seq<(Seq<char>, LitView)>,
    id: Seq<char>,
    k: Seq<char>,
) -> bool {
    exists|i: int|
        0 <= i < es.len() && (#[trigger] es[i]).0 == id && es[i].1 is Unicode && normalize_spec(
            es[i].1->Unicode_0,
        ) == k
}

/// `id` is a shortcode of the source classified as custom with name `name`.
pub open spec fn has_custom_entry(
    es: Seq<(Seq<char>, LitView)>,
    id: Seq<char>,
    name: Seq<char>,
) -> bool {
    exists|i: int|
        0 <= i < es.len() && (#[trigger] es[i]).0 == id && es[i].1 is Custom
            && es[i].1->Custom_0 == name
}

/// Every id under every key of `m` has a Unicode entry with that key.
pub open spec fn kindex_sound(
    es: Seq<(Seq<char>, LitView)>,
    m: Seq<(Seq<char>, Seq<Seq<char>>)>,
) -> bool {
    forall|x: int, y: int|
        0 <= x < m.len() && 0 <= y < m[x].1.len() ==> has_unicode_entry(
            es,
            #[trigger] m[x].1[y],
            m[x].0,
        )
}

/// Every id under every name of `m` has a custom entry with that name.
pub open spec fn cindex_sound(
    es: Seq<(Seq<char>, LitView)>,
    m: Seq<(Seq<char>, Seq<Seq<char>>)>,
) -> bool {
    forall|x: int, y: int|
        0 <= x < m.len() && 0 <= y < m[x].1.len() ==> has_custom_entry(
            es,
            #[trigger] m[x].1[y],
            m[x].0,
        )
}

proof fn lemma_assoc_push_sound_u(
    es: Seq<(Seq<char>, LitView)>,
    m: Seq<(Seq<char>, Seq<Seq<char>>)>,
    k: Seq<char>,
    id: Seq<char>,
)
    requires
        kindex_sound(es, m),
        has_unicode_entry(es, id, k),
    ensures
        kindex_sound(es, assoc_push(m, k, id)),
    decreases m.len(),
{
    let m2 = assoc_push(m, k, id);
    if m.len() == 0 {
        assert forall|x: int, y: int|
            0 <= x < m2.len() && 0 <= y < m2[x].1.len() implies has_unicode_entry(
            es,
            #[trigger] m2[x].1[y],
            m2[x].0,
        ) by {
            assert(x == 0 && y == 0);
            assert(m2[0].1[0] == id && m2[0].0 == k);
        }
    } else if m[0].0 == k {
        assert forall|x: int, y: int|
            0 <= x < m2.len() && 0 <= y < m2[x].1.len() implies has_unicode_entry(
            es,
            #[trigger] m2[x].1[y],
            m2[x].0,
        ) by {
            if x == 0 {
                if y < m[0].1.len() {
                    assert(m2[0].1[y] == m[0].1[y]);
                    assert(has_unicode_entry(es, m[0].1[y], m[0].0));
                } else {
                    assert(m2[0].1[y] == id);
                }
            } else {
                assert(m2[x] == m[x]);
                assert(has_unicode_entry(es, m[x].1[y], m[x].0));
            }
        }
    } else {
        assert(kindex_sound(es, m.drop_first())) by {
            assert forall|x: int, y: int|
                0 <= x < m.drop_first().len() && 0 <= y < m.drop_first()[x].1.len()
                implies has_unicode_entry(
                es,
                #[trigger] m.drop_first()[x].1[y],
                m.drop_first()[x].0,
            ) by {
                assert(m.drop_first()[x] == m[x + 1]);
                assert(has_unicode_entry(es, m[x + 1].1[y], m[x + 1].0));
            }
        }
        lemma_assoc_push_sound_u(es, m.drop_first(), k, id);
        let r2 = assoc_push(m.drop_first(), k, id);
        assert forall|x: int, y: int|
            0 <= x < m2.len() && 0 <= y < m2[x].1.len() implies has_unicode_entry(
            es,
            #[trigger] m2[x].1[y],
            m2[x].0,
        ) by {
            if x == 0 {
                assert(m2[0] == m[0]);
                assert(has_unicode_entry(es, m[0].1[y], m[0].0));
            } else {
                assert(m2[x] == r2[x - 1]);
                assert(has_unicode_entry(es, r2[x - 1].1[y], r2[x - 1].0));
            }
        }
    }
}

proof fn lemma_assoc_push_sound_c(
    es: Seq<(Seq<char>, LitView)>,
    m: Seq<(Seq<char>, Seq<Seq<char>>)>,
    k: Seq<char>,
    id: Seq<char>,
)
    requires
        cindex_sound(es, m),
        has_custom_entry(es, id, k),
    ensures
        cindex_sound(es, assoc_push(m, k, id)),
    decreases m.len(),
{
    let m2 = assoc_push(m, k, id);
    if m.len() == 0 {
        assert forall|x: int, y: int|
            0 <= x < m2.len() && 0 <= y < m2[x].1.len() implies has_custom_entry(
            es,
            #[trigger] m2[x].1[y],
            m2[x].0,
        ) by {
            assert(x == 0 && y == 0);
            assert(m2[0].1[0] == id && m2[0].0 == k);
        }
    } else if m[0].0 == k {
        assert forall|x: int, y: int|
            0 <= x < m2.len() && 0 <= y < m2[x].1.len() implies has_custom_entry(
            es,
            #[trigger] m2[x].1[y],
            m2[x].0,
        ) by {
            if x == 0 {
                if y < m[0].1.len() {
                    assert(m2[0].1[y] == m[0].1[y]);
                    assert(has_custom_entry(es, m[0].1[y], m[0].0));
                } else {
                    assert(m2[0].1[y] == id);
                }
            } else {
                assert(m2[x] == m[x]);
                assert(has_custom_entry(es, m[x].1[y], m[x].0));
            }
        }
    } else {
        assert(cindex_sound(es, m.drop_first())) by {
            assert forall|x: int, y: int|
                0 <= x < m.drop_first().len() && 0 <= y < m.drop_first()[x].1.len()
                implies has_custom_entry(
                es,
                #[trigger] m.drop_first()[x].1[y],
                m.drop_first()[x].0,
            ) by {
                assert(m.drop_first()[x] == m[x + 1]);
                assert(has_custom_entry(es, m[x + 1].1[y], m[x + 1].0));
            }
        }
        lemma_assoc_push_sound_c(es, m.drop_first(), k, id);
        let r2 = assoc_push(m.drop_first(), k, id);
        assert forall|x: int, y: int|
            0 <= x < m2.len() && 0 <= y < m2[x].1.len() implies has_custom_entry(
            es,
            #[trigger] m2[x].1[y],
            m2[x].0,
        ) by {
            if x == 0 {
                assert(m2[0] == m[0]);
                assert(has_custom_entry(es, m[0].1[y], m[0].0));
            } else {
                assert(m2[x] == r2[x - 1]);
                assert(has_custom_entry(es, r2[x - 1].1[y], r2[x - 1].0));
            }
        }
    }
}

proof fn lemma_key_index_sound(es: Seq<(Seq<char>, LitView)>)
    ensures
        kindex_sound(es, key_index(es)),
    decreases es.len(),
{
    if es.len() > 0 {
        let pre = es.drop_last();
        lemma_key_index_sound(pre);
        let m = key_index(pre);
        assert(kindex_sound(es, m)) by {
            assert forall|x: int, y: int|
                0 <= x < m.len() && 0 <= y < m[x].1.len() implies has_unicode_entry(
                es,
                #[trigger] m[x].1[y],
                m[x].0,
            ) by {
                assert(has_unicode_entry(pre, m[x].1[y], m[x].0));
                let w = choose|i: int|
                    0 <= i < pre.len() && (#[trigger] pre[i]).0 == m[x].1[y] && pre[i].1 is Unicode
                        && normalize_spec(pre[i].1->Unicode_0) == m[x].0;
                assert(es[w] == pre[w]);
            }
        }
        match es.last().1 {
            LitView::Unicode(cps) => {
                let k = normalize_spec(cps);
                let id = es.last().0;
                assert(es[es.len() - 1].0 == id && es[es.len() - 1].1 is Unicode);
                assert(has_unicode_entry(es, id, k));
                lemma_assoc_push_sound_u(es, m, k, id);
            },
            LitView::Custom(_) => {},
        }
    }
}

proof fn lemma_custom_index_sound(es: Seq<(Seq<char>, LitView)>)
    ensures
        cindex_sound(es, custom_index(es)),
    decreases es.len(),
{
    if es.len() > 0 {
        let pre = es.drop_last();
        lemma_custom_index_sound(pre);
        let m = custom_index(pre);
        assert(cindex_sound(es, m)) by {
            assert forall|x: int, y: int|
                0 <= x < m.len() && 0 <= y < m[x].1.len() implies has_custom_entry(
                es,
                #[trigger] m[x].1[y],
                m[x].0,
            ) by {
                assert(has_custom_entry(pre, m[x].1[y], m[x].0));
                let w = choose|i: int|
                    0 <= i < pre.len() && (#[trigger] pre[i]).0 == m[x].1[y] && pre[i].1 is Custom
                        && pre[i].1->Custom_0 == m[x].0;
                assert(es[w] == pre[w]);
            }
        }
        match es.last().1 {
            LitView::Custom(name) => {
                let id = es.last().0;
                assert(es[es.len() - 1].0 == id && es[es.len() - 1].1 is Custom);
                assert(has_custom_entry(es, id, name));
                lemma_assoc_push_sound_c(es, m, name, id);
            },
            LitView::Unicode(_) => {},
        }
    }
}

/// The group is one of the index's lists.
pub open spec fn group_in_index(m: Seq<(Seq<char>, Seq<Seq<char>>)>, g: Seq<Seq<char>>) -> bool {
    exists|x: int| 0 <= x < m.len() && g == #[trigger] m[x].1
}

/// Every group of the tree is a list of the key index.
pub open spec fn groups_from(cats: Seq<CatV>, m: Seq<(Seq<char>, Seq<Seq<char>>)>) -> bool {
    forall|ci: int, si: int, gi: int|
        #![trigger cats[ci].subs[si].groups[gi]]
        0 <= ci < cats.len() && 0 <= si < cats[ci].subs.len() && 0 <= gi
            < cats[ci].subs[si].groups.len() ==> group_in_index(m, cats[ci].subs[si].groups[gi])
}

proof fn lemma_assoc_get_is_elem(m: Seq<(Seq<char>, Seq<Seq<char>>)>, k: Seq<char>)
    requires
        assoc_get(m, k) is Some,
    ensures
        group_in_index(m, assoc_get(m, k).unwrap()),
    decreases m.len(),
{
    if m.len() > 0 && m[0].0 != k {
        lemma_assoc_get_is_elem(m.drop_first(), k);
        let x = choose|x: int|
            0 <= x < m.drop_first().len() && assoc_get(m.drop_first(), k).unwrap() == (
            #[trigger] m.drop_first()[x]).1;
        assert(m[x + 1] == m.drop_first()[x]);
        assert(assoc_get(m, k).unwrap() == m[x + 1].1);
    }
}

proof fn lemma_run_groups(evs: Seq<EventV>, kidx: Seq<(Seq<char>, Seq<Seq<char>>)>)
    ensures
        groups_from(run(evs, kidx).cats, kidx),
    decreases evs.len(),
{
    if evs.len() > 0 {
        lemma_run_groups(evs.drop_last(), kidx);
        lemma_run_wf(evs.drop_last(), kidx);
        let st = run(evs.drop_last(), kidx);
        let st2 = step(st, evs.last(), kidx);
        assert(run(evs, kidx) == st2);
        if st.stack.len() >= 1 {
            lemma_cat_idx(st.cats, st.stack[0]);
            if st.stack.len() == 2 {
                lemma_sub_idx(st.cats[cat_idx(st.cats, st.stack[0])].subs, st.stack[1]);
            }
        }
        match evs.last() {
            EventV::Row(g) => {
                if st.stack.len() >= 2 && assoc_get(kidx, normalize_spec(g)) is Some {
                    lemma_assoc_get_is_elem(kidx, normalize_spec(g));
                }
            },
            _ => {},
        }
        assert forall|ci: int, si: int, gi: int|
            #![trigger st2.cats[ci].subs[si].groups[gi]]
            0 <= ci < st2.cats.len() && 0 <= si < st2.cats[ci].subs.len() && 0 <= gi
                < st2.cats[ci].subs[si].groups.len() implies group_in_index(
            kidx,
            st2.cats[ci].subs[si].groups[gi],
        ) by {
            match evs.last() {
                EventV::BeginCategory(c) => {
                    if !has_cat(st.cats, c) && ci == st.cats.len() {
                        assert(st2.cats[ci].subs.len() == 0);
                    } else {
                        assert(st2.cats[ci] == st.cats[ci]);
                        assert(st.cats[ci].subs[si].groups[gi]
                            == st2.cats[ci].subs[si].groups[gi]);
                        assert(group_in_index(kidx, st.cats[ci].subs[si].groups[gi]));
                    }
                },
                EventV::BeginSubcategory(s_) => {
                    if st.stack.len() == 0 {
                        assert(st2 == st);
                        assert(group_in_index(kidx, st.cats[ci].subs[si].groups[gi]));
                    } else {
                        let c = st.stack[0];
                        let cix = cat_idx(st.cats, c);
                        if !has_sub(st.cats[cix].subs, s_) && ci == cix {
                            if si < st.cats[ci].subs.len() {
                                assert(st2.cats[ci].subs[si] == st.cats[ci].subs[si]);
                                assert(group_in_index(kidx, st.cats[ci].subs[si].groups[gi]));
                            } else {
                                assert(st2.cats[ci].subs[si].groups.len() == 0);
                            }
                        } else {
                            assert(st2.cats[ci] == st.cats[ci]);
                            assert(group_in_index(kidx, st.cats[ci].subs[si].groups[gi]));
                        }
                    }
                },
                EventV::Row(g) => {
                    let k = normalize_spec(g);
                    if st.stack.len() < 2 || assoc_get(kidx, k) is None {
                        assert(st2 == st);
                        assert(group_in_index(kidx, st.cats[ci].subs[si].groups[gi]));
                    } else {
                        let c = st.stack[0];
                        let s_ = st.stack[1];
                        let cix = cat_idx(st.cats, c);
                        let six = sub_idx(st.cats[cix].subs, s_);
                        let ids = assoc_get(kidx, k).unwrap();
                        if ci == cix && si == six {
                            if gi < st.cats[ci].subs[si].groups.len() {
                                assert(st2.cats[ci].subs[si].groups[gi]
                                    == st.cats[ci].subs[si].groups[gi]);
                                assert(group_in_index(kidx, st.cats[ci].subs[si].groups[gi]));
                            } else {
                                assert(st2.cats[ci].subs[si].groups[gi] == ids);
                                assert(group_in_index(kidx, ids));
                            }
                        } else if ci == cix {
                            assert(st2.cats[ci].subs[si] == st.cats[ci].subs[si]);
                            assert(group_in_index(kidx, st.cats[ci].subs[si].groups[gi]));
                        } else {
                            assert(st2.cats[ci] == st.cats[ci]);
                            assert(group_in_index(kidx, st.cats[ci].subs[si].groups[gi]));
                        }
                    }
                },
            }
        }
    }
}

/// Every id of the group has a Unicode entry with normalized key `k`.
pub open spec fn group_has_key(es: Seq<(Seq<char>, LitView)>, g: Seq<Seq<char>>, k: Seq<char>) -> bool {
    forall|a: int| 0 <= a < g.len() ==> has_unicode_entry(es, #[trigger] g[a], k)
}

/// All ids of the group share one normalized Unicode key in the source.
pub open spec fn unicode_coherent_group(es: Seq<(Seq<char>, LitView)>, g: Seq<Seq<char>>) -> bool {
    exists|k: Seq<char>| #[trigger] group_has_key(es, g, k)
}

/// Every id of the group has a custom entry with name `name`.
pub open spec fn group_has_name(
    es: Seq<(Seq<char>, LitView)>,
    g: Seq<Seq<char>>,
    name: Seq<char>,
) -> bool {
    forall|a: int| 0 <= a < g.len() ==> has_custom_entry(es, #[trigger] g[a], name)
}

/// All ids of the group share one custom name in the source.
pub open spec fn custom_coherent_group(es: Seq<(Seq<char>, LitView)>, g: Seq<Seq<char>>) -> bool {
    exists|name: Seq<char>| #[trigger] group_has_name(es, g, name)
}

/// Group coherence: within any group of the chart part of the result, all
/// shortcodes map to classified literals with one and the same normalized
/// key; within any group of the custom bucket, all shortcodes map to one and
/// the same custom name.
pub proof fn lemma_group_coherence(evs: Seq<EventV>, es: Seq<(Seq<char>, LitView)>)
    ensures
        ({
            let cats = run(evs, key_index(es)).cats;
            forall|ci: int, si: int, gi: int|
                0 <= ci < cats.len() && 0 <= si < cats[ci].subs.len() && 0 <= gi
                    < cats[ci].subs[si].groups.len() ==> unicode_coherent_group(
                    es,
                    #[trigger] cats[ci].subs[si].groups[gi],
                )
        }),
        custom_index(es).len() > 0 ==> forall|gi: int|
            0 <= gi < assoc_values(custom_index(es)).len() ==> custom_coherent_group(
                es,
                #[trigger] assoc_values(custom_index(es))[gi],
            ),
{
    let kidx = key_index(es);
    let cats = run(evs, kidx).cats;
    lemma_run_groups(evs, kidx);
    lemma_key_index_sound(es);
    lemma_custom_index_sound(es);
    assert forall|ci: int, si: int, gi: int|
        0 <= ci < cats.len() && 0 <= si < cats[ci].subs.len() && 0 <= gi
            < cats[ci].subs[si].groups.len() implies unicode_coherent_group(
        es,
        #[trigger] cats[ci].subs[si].groups[gi],
    ) by {
        let g = cats[ci].subs[si].groups[gi];
        assert(group_in_index(kidx, g));
        let x = choose|x: int| 0 <= x < kidx.len() && g == #[trigger] kidx[x].1;
        let k = kidx[x].0;
        assert(group_has_key(es, g, k)) by {
            assert forall|a: int| 0 <= a < g.len() implies has_unicode_entry(
                es,
                #[trigger] g[a],
                k,
            ) by {
                assert(has_unicode_entry(es, kidx[x].1[a], kidx[x].0));
            }
        }
    }
    let cm = custom_index(es);
    if cm.len() > 0 {
        assert forall|gi: int| 0 <= gi < assoc_values(cm).len() implies custom_coherent_group(
            es,
            #[trigger] assoc_values(cm)[gi],
        ) by {
            let g = assoc_values(cm)[gi];
            assert(g == cm[gi].1);
            let name = cm[gi].0;
            assert(group_has_name(es, g, name)) by {
                assert forall|a: int| 0 <= a < g.len() implies has_custom_entry(
                    es,
                    #[trigger] g[a],
                    name,
                ) by {
                    assert(has_custom_entry(es, cm[gi].1[a], cm[gi].0));
                }
            }
        }
    }
}

// ---------------------------------------------------------------------------
// No id loss: counting occurrences of one id across the tree.
// ---------------------------------------------------------------------------

/// How often `id` occurs in one group.
pub open spec fn cg(g: Seq<Seq<char>>, id: Seq<char>) -> nat
    decreases g.len(),
{
    if g.len() == 0 {
        0
    } else {
        cg(g.drop_last(), id) + (if g.last() == id {
            1nat
        } else {
            0nat
        })
    }
}

/// How often `id` occurs in a list of groups.
pub open spec fn cgs(gs: Seq<Seq<Seq<char>>>, id: Seq<char>) -> nat
    decreases gs.len(),
{
    if gs.len() == 0 {
        0
    } else {
        cgs(gs.drop_last(), id) + cg(gs.last(), id)
    }
}

/// How often `id` occurs in the subcategories of one category.
pub open spec fn csubs(subs: Seq<SubV>, id: Seq<char>) -> nat
    decreases subs.len(),
{
    if subs.len() == 0 {
        0
    } else {
        csubs(subs.drop_last(), id) + cgs(subs.last().groups, id)
    }
}

/// How often `id` occurs in the whole tree.
pub open spec fn ccats(cats: Seq<CatV>, id: Seq<char>) -> nat
    decreases cats.len(),
{
    if cats.len() == 0 {
        0
    } else {
        ccats(cats.drop_last(), id) + csubs(cats.last().subs, id)
    }
}

proof fn lemma_ccats_push(cats: Seq<CatV>, c: CatV, id: Seq<char>)
    ensures
        ccats(cats.push(c), id) == ccats(cats, id) + csubs(c.subs, id),
{
    assert(cats.push(c).drop_last() =~= cats);
}

proof fn lemma_csubs_push(subs: Seq<SubV>, sb: SubV, id: Seq<char>)
    ensures
        csubs(subs.push(sb), id) == csubs(subs, id) + cgs(sb.groups, id),
{
    assert(subs.push(sb).drop_last() =~= subs);
}

proof fn lemma_cgs_push(gs: Seq<Seq<Seq<char>>>, g: Seq<Seq<char>>, id: Seq<char>)
    ensures
        cgs(gs.push(g), id) == cgs(gs, id) + cg(g, id),
{
    assert(gs.push(g).drop_last() =~= gs);
}

proof fn lemma_ccats_update(cats: Seq<CatV>, ci: int, c: CatV, id: Seq<char>)
    requires
        0 <= ci < cats.len(),
    ensures
        ccats(cats.update(ci, c), id) + csubs(cats[ci].subs, id) == ccats(cats, id) + csubs(
            c.subs,
            id,
        ),
    decreases cats.len(),
{
    let u = cats.update(ci, c);
    if ci == cats.len() - 1 {
        assert(u.drop_last() =~= cats.drop_last());
        assert(u.last() == c);
    } else {
        assert(u.drop_last() =~= cats.drop_last().update(ci, c));
        assert(u.last() == cats.last());
        lemma_ccats_update(cats.drop_last(), ci, c, id);
    }
}

proof fn lemma_csubs_update(subs: Seq<SubV>, si: int, sb: SubV, id: Seq<char>)
    requires
        0 <= si < subs.len(),
    ensures
        csubs(subs.update(si, sb), id) + cgs(subs[si].groups, id) == csubs(subs, id) + cgs(
            sb.groups,
            id,
        ),
    decreases subs.len(),
{
    let u = subs.update(si, sb);
    if si == subs.len() - 1 {
        assert(u.drop_last() =~= subs.drop_last());
        assert(u.last() == sb);
    } else {
        assert(u.drop_last() =~= subs.drop_last().update(si, sb));
        assert(u.last() == subs.last());
        lemma_csubs_update(subs.drop_last(), si, sb, id);
    }
}

/// The matched keys of the event stream, in row order: the normalized key
/// of every data row that lands in the tree (the stack two deep and the key
/// known to the index).
pub open spec fn matched_keys(evs: Seq<EventV>, kidx: Seq<(Seq<char>, Seq<Seq<char>>)>) -> Seq<
    Seq<char>,
>
    decreases evs.len(),
{
    if evs.len() == 0 {
        Seq::empty()
    } else {
        let p = matched_keys(evs.drop_last(), kidx);
        match evs.last() {
            EventV::Row(g) => {
                if run(evs.drop_last(), kidx).stack.len() >= 2 && assoc_get(
                    kidx,
                    normalize_spec(g),
                ) is Some {
                    p.push(normalize_spec(g))
                } else {
                    p
                }
            },
            _ => p,
        }
    }
}

/// The sum of `id`'s occurrences in the groups the matched keys name.
pub open spec fn matched_total(
    evs: Seq<EventV>,
    kidx: Seq<(Seq<char>, Seq<Seq<char>>)>,
    id: Seq<char>,
) -> nat
    decreases evs.len(),
{
    if evs.len() == 0 {
        0
    } else {
        matched_total(evs.drop_last(), kidx, id) + (match evs.last() {
            EventV::Row(g) => {
                if run(evs.drop_last(), kidx).stack.len() >= 2 && assoc_get(
                    kidx,
                    normalize_spec(g),
                ) is Some {
                    cg(assoc_get(kidx, normalize_spec(g)).unwrap(), id)
                } else {
                    0nat
                }
            },
            _ => 0nat,
        })
    }
}

proof fn lemma_run_count(evs: Seq<EventV>, kidx: Seq<(Seq<char>, Seq<Seq<char>>)>, id: Seq<char>)
    ensures
        ccats(run(evs, kidx).cats, id) == matched_total(evs, kidx, id),
    decreases evs.len(),
{
    if evs.len() > 0 {
        lemma_run_count(evs.drop_last(), kidx, id);
        lemma_run_wf(evs.drop_last(), kidx);
        let st = run(evs.drop_last(), kidx);
        let st2 = step(st, evs.last(), kidx);
        assert(run(evs, kidx) == st2);
        if st.stack.len() >= 1 {
            lemma_cat_idx(st.cats, st.stack[0]);
            if st.stack.len() == 2 {
                lemma_sub_idx(st.cats[cat_idx(st.cats, st.stack[0])].subs, st.stack[1]);
            }
        }
        match evs.last() {
            EventV::BeginCategory(c) => {
                if !has_cat(st.cats, c) {
                    lemma_ccats_push(st.cats, CatV { title: c, subs: Seq::empty() }, id);
                }
            },
            EventV::BeginSubcategory(s_) => {
                if st.stack.len() > 0 {
                    let ci = cat_idx(st.cats, st.stack[0]);
                    if !has_sub(st.cats[ci].subs, s_) {
                        let sb = SubV { title: s_, groups: Seq::empty() };
                        let c2 = CatV {
                            title: st.cats[ci].title,
                            subs: st.cats[ci].subs.push(sb),
                        };
                        lemma_csubs_push(st.cats[ci].subs, sb, id);
                        lemma_ccats_update(st.cats, ci, c2, id);
                    }
                }
            },
            EventV::Row(g) => {
                let k = normalize_spec(g);
                if st.stack.len() >= 2 && assoc_get(kidx, k) is Some {
                    let ids = assoc_get(kidx, k).unwrap();
                    let ci = cat_idx(st.cats, st.stack[0]);
                    let subs = st.cats[ci].subs;
                    let si = sub_idx(subs, st.stack[1]);
                    let sb2 = SubV { title: subs[si].title, groups: subs[si].groups.push(ids) };
                    let c2 = CatV { title: st.cats[ci].title, subs: subs.update(si, sb2) };
                    lemma_cgs_push(subs[si].groups, ids, id);
                    lemma_csubs_update(subs, si, sb2, id);
                    lemma_ccats_update(st.cats, ci, c2, id);
                }
            },
        }
    }
}

/// How often `id` occurs across all lists of an association list.
pub open spec fn total_in_index(m: Seq<(Seq<char>, Seq<Seq<char>>)>, id: Seq<char>) -> nat
    decreases m.len(),
{
    if m.len() == 0 {
        0
    } else {
        cg(m[0].1, id) + total_in_index(m.drop_first(), id)
    }
}

proof fn lemma_assoc_push_total(
    m: Seq<(Seq<char>, Seq<Seq<char>>)>,
    k: Seq<char>,
    id: Seq<char>,
    id2: Seq<char>,
)
    ensures
        total_in_index(assoc_push(m, k, id), id2) == total_in_index(m, id2) + (if id2 == id {
            1nat
        } else {
            0nat
        }),
    decreases m.len(),
{
    let m2 = assoc_push(m, k, id);
    if m.len() == 0 {
        assert(m2[0].1 =~= seq![id]);
        assert(m2.drop_first() =~= Seq::<(Seq<char>, Seq<Seq<char>>)>::empty());
        assert(seq![id].drop_last() =~= Seq::<Seq<char>>::empty());
        assert(m2[0].1.len() == 1);
        assert(m2[0].1.last() == id);
        assert(m2[0].1.drop_last().len() == 0);
        assert(cg(m2[0].1.drop_last(), id2) == 0);
        assert(cg(m2[0].1, id2) == cg(m2[0].1.drop_last(), id2) + (if m2[0].1.last() == id2 {
            1nat
        } else {
            0nat
        }));
        assert(total_in_index(m2, id2) == cg(m2[0].1, id2) + total_in_index(
            m2.drop_first(),
            id2,
        ));
        assert(total_in_index(m, id2) == 0);
    } else if m[0].0 == k {
        assert(m2[0].1 == m[0].1.push(id));
        assert(m[0].1.push(id).drop_last() =~= m[0].1);
        assert(m[0].1.push(id).last() == id);
        assert(cg(m[0].1.push(id), id2) == cg(m[0].1, id2) + (if id2 == id {
            1nat
        } else {
            0nat
        }));
        assert(m2.drop_first() =~= m.drop_first());
        assert(total_in_index(m2, id2) == cg(m2[0].1, id2) + total_in_index(
            m2.drop_first(),
            id2,
        ));
    } else {
        lemma_assoc_push_total(m.drop_first(), k, id, id2);
        assert(m2[0] == m[0]);
        assert(m2.drop_first() =~= assoc_push(m.drop_first(), k, id));
        assert(total_in_index(m2, id2) == cg(m2[0].1, id2) + total_in_index(
            m2.drop_first(),
            id2,
        ));
    }
}

/// How many Unicode entries of the source carry `id`.
pub open spec fn u_count(es: Seq<(Seq<char>, LitView)>, id: Seq<char>) -> nat
    decreases es.len(),
{
    if es.len() == 0 {
        0
    } else {
        u_count(es.drop_last(), id) + (if es.last().0 == id && es.last().1 is Unicode {
            1nat
        } else {
            0nat
        })
    }
}

/// How many custom entries of the source carry `id`.
pub open spec fn c_count(es: Seq<(Seq<char>, LitView)>, id: Seq<char>) -> nat
    decreases es.len(),
{
    if es.len() == 0 {
        0
    } else {
        c_count(es.drop_last(), id) + (if es.last().0 == id && es.last().1 is Custom {
            1nat
        } else {
            0nat
        })
    }
}

proof fn lemma_key_index_total(es: Seq<(Seq<char>, LitView)>, id: Seq<char>)
    ensures
        total_in_index(key_index(es), id) == u_count(es, id),
    decreases es.len(),
{
    if es.len() > 0 {
        lemma_key_index_total(es.drop_last(), id);
        match es.last().1 {
            LitView::Unicode(cps) => {
                lemma_assoc_push_total(
                    key_index(es.drop_last()),
                    normalize_spec(cps),
                    es.last().0,
                    id,
                );
            },
            LitView::Custom(_) => {},
        }
    }
}

proof fn lemma_custom_index_total(es: Seq<(Seq<char>, LitView)>, id: Seq<char>)
    ensures
        total_in_index(custom_index(es), id) == c_count(es, id),
    decreases es.len(),
{
    if es.len() > 0 {
        lemma_custom_index_total(es.drop_last(), id);
        match es.last().1 {
            LitView::Custom(name) => {
                lemma_assoc_push_total(custom_index(es.drop_last()), name, es.last().0, id);
            },
            LitView::Unicode(_) => {},
        }
    }
}

/// No two entries of the source share a shortcode.
pub open spec fn distinct_ids(es: Seq<(Seq<char>, LitView)>) -> bool {
    forall|i: int, j: int|
        0 <= i < j < es.len() ==> (#[trigger] es[i]).0 != (#[trigger] es[j]).0
}

proof fn lemma_counts_of_entry(es: Seq<(Seq<char>, LitView)>, i: int)
    requires
        distinct_ids(es),
        0 <= i < es.len(),
    ensures
        es[i].1 is Unicode ==> u_count(es, es[i].0) == 1 && c_count(es, es[i].0) == 0,
        es[i].1 is Custom ==> u_count(es, es[i].0) == 0 && c_count(es, es[i].0) == 1,
    decreases es.len(),
{
    if es.len() > 0 {
        if i == es.len() - 1 {
            assert(u_count(es.drop_last(), es[i].0) == 0 && c_count(es.drop_last(), es[i].0)
                == 0) by {
                lemma_counts_absent(es.drop_last(), es[i].0);
            }
        } else {
            assert(distinct_ids(es.drop_last())) by {
                assert(forall|a: int, b: int|
                    0 <= a < b < es.drop_last().len() ==> es.drop_last()[a] == es[a]
                        && es.drop_last()[b] == es[b]);
            }
            lemma_counts_of_entry(es.drop_last(), i);
            assert(es.drop_last()[i] == es[i]);
            assert(es.last().0 != es[i].0);
        }
    }
}

proof fn lemma_counts_absent(es: Seq<(Seq<char>, LitView)>, id: Seq<char>)
    requires
        forall|j: int| 0 <= j < es.len() ==> (#[trigger] es[j]).0 != id,
    ensures
        u_count(es, id) == 0,
        c_count(es, id) == 0,
    decreases es.len(),
{
    if es.len() > 0 {
        lemma_counts_absent(es.drop_last(), id);
    }
}

/// A list of the index counts no more than the whole index.
proof fn lemma_elem_le_total(m: Seq<(Seq<char>, Seq<Seq<char>>)>, x: int, id: Seq<char>)
    requires
        0 <= x < m.len(),
    ensures
        cg(m[x].1, id) <= total_in_index(m, id),
    decreases m.len(),
{
    if x > 0 {
        lemma_elem_le_total(m.drop_first(), x - 1, id);
        assert(m.drop_first()[x - 1] == m[x]);
    }
}

/// An id with a positive count occurs in the group.
proof fn lemma_cg_pos(g: Seq<Seq<char>>, id: Seq<char>)
    requires
        cg(g, id) > 0,
    ensures
        exists|a: int| 0 <= a < g.len() && g[a] == id,
    decreases g.len(),
{
    if g.last() == id {
        assert(g[g.len() - 1] == id);
    } else {
        lemma_cg_pos(g.drop_last(), id);
        let a = choose|a: int| 0 <= a < g.drop_last().len() && g.drop_last()[a] == id;
        assert(g[a] == id);
    }
}

/// An id that occurs in the group counts at least once.
proof fn lemma_cg_mem(g: Seq<Seq<char>>, a: int, id: Seq<char>)
    requires
        0 <= a < g.len(),
        g[a] == id,
    ensures
        cg(g, id) >= 1,
    decreases g.len(),
{
    if a < g.len() - 1 {
        lemma_cg_mem(g.drop_last(), a, id);
    }
}

/// The sum of the custom bucket's groups is the index total.
proof fn lemma_cgs_assoc_values(m: Seq<(Seq<char>, Seq<Seq<char>>)>, id: Seq<char>)
    ensures
        cgs(assoc_values(m), id) == total_in_index(m, id),
    decreases m.len(),
{
    if m.len() > 0 {
        lemma_cgs_assoc_values(m.drop_last(), id);
        assert(assoc_values(m).drop_last() =~= assoc_values(m.drop_last()));
        assert(assoc_values(m).last() == m.last().1);
        lemma_total_drop_last(m, id);
    }
}

proof fn lemma_total_drop_last(m: Seq<(Seq<char>, Seq<Seq<char>>)>, id: Seq<char>)
    requires
        m.len() > 0,
    ensures
        total_in_index(m, id) == total_in_index(m.drop_last(), id) + cg(m.last().1, id),
    decreases m.len(),
{
    if m.len() == 1 {
        assert(m.drop_last() =~= Seq::<(Seq<char>, Seq<Seq<char>>)>::empty());
        assert(m.drop_first() =~= Seq::<(Seq<char>, Seq<Seq<char>>)>::empty());
    } else {
        lemma_total_drop_last(m.drop_first(), id);
        assert(m.drop_first().drop_last() =~= m.drop_last().drop_first());
        assert(m.drop_first().last() == m.last());
        assert(m.drop_last()[0] == m[0]);
    }
}

proof fn lemma_get_after_push(
    m: Seq<(Seq<char>, Seq<Seq<char>>)>,
    k: Seq<char>,
    id: Seq<char>,
    k2: Seq<char>,
)
    ensures
        assoc_get(assoc_push(m, k, id), k2) == (if k2 == k {
            match assoc_get(m, k2) {
                Some(v) => Some(v.push(id)),
                None => Some(seq![id]),
            }
        } else {
            assoc_get(m, k2)
        }),
    decreases m.len(),
{
    let m2 = assoc_push(m, k, id);
    if m.len() == 0 {
        assert(m2[0] == (k, seq![id]));
        assert(m2.drop_first() =~~= Seq::<(Seq<char>, Seq<Seq<char>>)>::empty());
        if k2 == k {
            assert(assoc_get(m2, k2) == Some(m2[0].1));
            assert(assoc_get(m, k2) is None);
        } else {
            assert(assoc_get(m2, k2) == assoc_get(m2.drop_first(), k2));
            assert(assoc_get(m2.drop_first(), k2) is None);
            assert(assoc_get(m, k2) is None);
        }
    } else if m[0].0 == k {
        assert(m2[0] == (m[0].0, m[0].1.push(id)));
        assert(m2.drop_first() =~~= m.drop_first());
        if k2 == k {
            assert(assoc_get(m2, k2) == Some(m2[0].1));
            assert(assoc_get(m, k2) == Some(m[0].1));
        } else {
            assert(assoc_get(m2, k2) == assoc_get(m2.drop_first(), k2));
            assert(assoc_get(m, k2) == assoc_get(m.drop_first(), k2));
        }
    } else {
        lemma_get_after_push(m.drop_first(), k, id, k2);
        assert(m2[0] == m[0]);
        assert(m2.drop_first() =~~= assoc_push(m.drop_first(), k, id));
        if k2 == m[0].0 {
            assert(assoc_get(m2, k2) == Some(m2[0].1));
            assert(assoc_get(m, k2) == Some(m[0].1));
        } else {
            assert(assoc_get(m2, k2) == assoc_get(m2.drop_first(), k2));
            assert(assoc_get(m, k2) == assoc_get(m.drop_first(), k2));
        }
    }
}

proof fn lemma_assoc_get_key(m: Seq<(Seq<char>, Seq<Seq<char>>)>, k: Seq<char>)
    requires
        assoc_get(m, k) is Some,
    ensures
        exists|x: int|
            0 <= x < m.len() && (#[trigger] m[x]).0 == k && m[x].1 == assoc_get(m, k).unwrap(),
    decreases m.len(),
{
    if m.len() > 0 && m[0].0 != k {
        lemma_assoc_get_key(m.drop_first(), k);
        let x = choose|x: int|
            0 <= x < m.drop_first().len() && (#[trigger] m.drop_first()[x]).0 == k
                && m.drop_first()[x].1 == assoc_get(m.drop_first(), k).unwrap();
        assert(m[x + 1] == m.drop_first()[x]);
    }
}

/// A Unicode entry's id stands under its own normalized key in the index.
proof fn lemma_id_in_own_key(es: Seq<(Seq<char>, LitView)>, i: int)
    requires
        0 <= i < es.len(),
        es[i].1 is Unicode,
    ensures
        assoc_get(key_index(es), normalize_spec(es[i].1->Unicode_0)) is Some,
        cg(assoc_get(key_index(es), normalize_spec(es[i].1->Unicode_0)).unwrap(), es[i].0) >= 1,
    decreases es.len(),
{
    let k0 = normalize_spec(es[i].1->Unicode_0);
    let id = es[i].0;
    let pre = es.drop_last();
    let m = key_index(pre);
    if i == es.len() - 1 {
        lemma_get_after_push(m, k0, id, k0);
        match assoc_get(m, k0) {
            Some(v) => {
                assert(v.push(id).drop_last() =~= v);
                assert(cg(v.push(id), id) == cg(v, id) + 1);
            },
            None => {
                assert(seq![id].drop_last() =~= Seq::<Seq<char>>::empty());
                assert(cg(seq![id], id) == cg(seq![id].drop_last(), id) + 1);
            },
        }
    } else {
        assert(pre[i] == es[i]);
        lemma_id_in_own_key(pre, i);
        match es.last().1 {
            LitView::Unicode(cps) => {
                let kl = normalize_spec(cps);
                lemma_get_after_push(m, kl, es.last().0, k0);
                if kl == k0 {
                    let v = assoc_get(m, k0).unwrap();
                    assert(v.push(es.last().0).drop_last() =~= v);
                    assert(cg(v.push(es.last().0), id) >= cg(v, id));
                }
            },
            LitView::Custom(_) => {},
        }
    }
}

/// Under any key other than its own, a Unicode entry's id does not occur,
/// when no two entries share an id.
proof fn lemma_cg_other_key(es: Seq<(Seq<char>, LitView)>, i: int, k: Seq<char>)
    requires
        distinct_ids(es),
        0 <= i < es.len(),
        es[i].1 is Unicode,
        assoc_get(key_index(es), k) is Some,
        k != normalize_spec(es[i].1->Unicode_0),
    ensures
        cg(assoc_get(key_index(es), k).unwrap(), es[i].0) == 0,
{
    let kidx = key_index(es);
    let id = es[i].0;
    let v = assoc_get(kidx, k).unwrap();
    if cg(v, id) > 0 {
        lemma_cg_pos(v, id);
        let a = choose|a: int| 0 <= a < v.len() && v[a] == id;
        lemma_assoc_get_key(kidx, k);
        let x = choose|x: int|
            0 <= x < kidx.len() && (#[trigger] kidx[x]).0 == k && kidx[x].1 == v;
        lemma_key_index_sound(es);
        assert(has_unicode_entry(es, kidx[x].1[a], kidx[x].0));
        let j = choose|j: int|
            0 <= j < es.len() && (#[trigger] es[j]).0 == id && es[j].1 is Unicode
                && normalize_spec(es[j].1->Unicode_0) == k;
        if j < i {
            assert(es[j].0 != es[i].0);
        } else if j > i {
            assert(es[i].0 != es[j].0);
        }
        assert(false);
    }
}

/// When the id occurs in no list of the index, no matched row counts it.
proof fn lemma_matched_zero(
    evs: Seq<EventV>,
    kidx: Seq<(Seq<char>, Seq<Seq<char>>)>,
    id: Seq<char>,
)
    requires
        forall|x: int| 0 <= x < kidx.len() ==> cg((#[trigger] kidx[x]).1, id) == 0,
    ensures
        matched_total(evs, kidx, id) == 0,
    decreases evs.len(),
{
    if evs.len() > 0 {
        lemma_matched_zero(evs.drop_last(), kidx, id);
        match evs.last() {
            EventV::Row(g) => {
                let k = normalize_spec(g);
                if run(evs.drop_last(), kidx).stack.len() >= 2 && assoc_get(kidx, k) is Some {
                    lemma_assoc_get_key(kidx, k);
                    let x = choose|x: int|
                        0 <= x < kidx.len() && (#[trigger] kidx[x]).0 == k && kidx[x].1
                            == assoc_get(kidx, k).unwrap();
                    assert(cg(assoc_get(kidx, k).unwrap(), id) == 0);
                }
            },
            _ => {},
        }
    }
}

/// How often `k` occurs in a key sequence.
pub open spec fn key_count(ks: Seq<Seq<char>>, k: Seq<char>) -> nat
    decreases ks.len(),
{
    if ks.len() == 0 {
        0
    } else {
        key_count(ks.drop_last(), k) + (if ks.last() == k {
            1nat
        } else {
            0nat
        })
    }
}

/// The id of key `k0` is counted once per matched row carrying `k0`.
proof fn lemma_matched_count(
    evs: Seq<EventV>,
    kidx: Seq<(Seq<char>, Seq<Seq<char>>)>,
    id: Seq<char>,
    k0: Seq<char>,
)
    requires
        forall|k: Seq<char>|
            #[trigger] assoc_get(kidx, k) is Some && k != k0 ==> cg(
                assoc_get(kidx, k).unwrap(),
                id,
            ) == 0,
        assoc_get(kidx, k0) is Some ==> cg(assoc_get(kidx, k0).unwrap(), id) == 1,
    ensures
        matched_total(evs, kidx, id) == key_count(matched_keys(evs, kidx), k0),
    decreases evs.len(),
{
    let mk = matched_keys(evs, kidx);
    if evs.len() > 0 {
        let pre = evs.drop_last();
        let mkp = matched_keys(pre, kidx);
        lemma_matched_count(pre, kidx, id, k0);
        match evs.last() {
            EventV::Row(g) => {
                let k = normalize_spec(g);
                if run(pre, kidx).stack.len() >= 2 && assoc_get(kidx, k) is Some {
                    assert(mk == mkp.push(k));
                    assert(mkp.push(k).drop_last() =~= mkp);
                    assert(key_count(mk, k0) == key_count(mkp, k0) + (if k == k0 {
                        1nat
                    } else {
                        0nat
                    }));
                } else {
                    assert(mk == mkp);
                }
            },
            _ => {
                assert(mk == mkp);
            },
        }
    }
}

proof fn lemma_key_count_absent(ks: Seq<Seq<char>>, k: Seq<char>)
    requires
        forall|a: int| 0 <= a < ks.len() ==> ks[a] != k,
    ensures
        key_count(ks, k) == 0,
    decreases ks.len(),
{
    if ks.len() > 0 {
        lemma_key_count_absent(ks.drop_last(), k);
    }
}

proof fn lemma_key_count_distinct(ks: Seq<Seq<char>>, k: Seq<char>)
    requires
        forall|a: int, b: int| 0 <= a < b < ks.len() ==> ks[a] != ks[b],
    ensures
        key_count(ks, k) == (if ks.contains(k) {
            1nat
        } else {
            0nat
        }),
    decreases ks.len(),
{
    if ks.len() > 0 {
        let pre = ks.drop_last();
        assert(forall|a: int, b: int| 0 <= a < b < pre.len() ==> pre[a] != pre[b]) by {
            assert(forall|a: int| 0 <= a < pre.len() ==> pre[a] == ks[a]);
        }
        lemma_key_count_distinct(pre, k);
        if ks.last() == k {
            assert(forall|a: int| 0 <= a < pre.len() ==> pre[a] != k) by {
                assert(forall|a: int|
                    0 <= a < pre.len() ==> pre[a] == ks[a] && ks[a] != ks[ks.len() - 1]);
            }
            lemma_key_count_absent(pre, k);
            assert(ks.contains(k)) by {
                assert(ks[ks.len() - 1] == k);
            }
        } else {
            assert(ks.contains(k) == pre.contains(k)) by {
                if pre.contains(k) {
                    let w = choose|w: int| 0 <= w < pre.len() && pre[w] == k;
                    assert(ks[w] == k);
                }
                if ks.contains(k) {
                    let w = choose|w: int| 0 <= w < ks.len() && ks[w] == k;
                    assert(w < pre.len() && pre[w] == k);
                }
            }
        }
    }
}

proof fn lemma_csubs_single(sb: SubV, id: Seq<char>)
    ensures
        csubs(seq![sb], id) == cgs(sb.groups, id),
{
    assert(seq![sb].drop_last() =~= Seq::<SubV>::empty());
    assert(csubs(Seq::<SubV>::empty(), id) == 0);
    assert(seq![sb].last() == sb);
}

/// No id loss: provided no two source entries share a shortcode, every
/// custom shortcode stands in exactly one group of the result, and every
/// Unicode shortcode stands in one group per matched chart row carrying its
/// normalized key — in none, that is dropped, when no matched row carries
/// it, and in exactly one when one does.
pub proof fn lemma_no_id_loss(evs: Seq<EventV>, es: Seq<(Seq<char>, LitView)>, i: int)
    requires
        distinct_ids(es),
        0 <= i < es.len(),
    ensures
        ({
            let kidx = key_index(es);
            let r = attach_custom(run(evs, kidx).cats, custom_index(es));
            match es[i].1 {
                LitView::Custom(_) => ccats(r, es[i].0) == 1,
                LitView::Unicode(cps) => ccats(r, es[i].0) == key_count(
                    matched_keys(evs, kidx),
                    normalize_spec(cps),
                ),
            }
        }),
{
    let kidx = key_index(es);
    let cm = custom_index(es);
    let id = es[i].0;
    let cats = run(evs, kidx).cats;
    let r = attach_custom(cats, cm);
    lemma_run_count(evs, kidx, id);
    lemma_key_index_total(es, id);
    lemma_custom_index_total(es, id);
    lemma_counts_of_entry(es, i);
    lemma_cgs_assoc_values(cm, id);
    if cm.len() > 0 {
        lemma_ccats_push(
            cats,
            CatV {
                title: "GitHub Custom Emoji"@,
                subs: seq![SubV { title: Seq::empty(), groups: assoc_values(cm) }],
            },
            id,
        );
        lemma_csubs_single(SubV { title: Seq::empty(), groups: assoc_values(cm) }, id);
        assert(ccats(r, id) == ccats(cats, id) + total_in_index(cm, id));
    } else {
        assert(ccats(r, id) == ccats(cats, id) + total_in_index(cm, id)) by {
            assert(total_in_index(cm, id) == 0);
        }
    }
    match es[i].1 {
        LitView::Custom(_) => {
            assert(total_in_index(cm, id) == c_count(es, id));
            assert(c_count(es, id) == 1);
            assert forall|x: int| 0 <= x < kidx.len() implies cg((#[trigger] kidx[x]).1, id)
                == 0 by {
                lemma_elem_le_total(kidx, x, id);
            }
            lemma_matched_zero(evs, kidx, id);
        },
        LitView::Unicode(cps) => {
            let k0 = normalize_spec(cps);
            lemma_id_in_own_key(es, i);
            assert(cg(assoc_get(kidx, k0).unwrap(), id) == 1) by {
                assert(group_in_index(kidx, assoc_get(kidx, k0).unwrap())) by {
                    lemma_assoc_get_is_elem(kidx, k0);
                }
                let x = choose|x: int|
                    0 <= x < kidx.len() && assoc_get(kidx, k0).unwrap() == #[trigger] kidx[x].1;
                lemma_elem_le_total(kidx, x, id);
            }
            assert forall|k: Seq<char>|
                #[trigger] assoc_get(kidx, k) is Some && k != k0 implies cg(
                assoc_get(kidx, k).unwrap(),
                id,
            ) == 0 by {
                lemma_cg_other_key(es, i, k);
            }
            lemma_matched_count(evs, kidx, id, k0);
            assert(total_in_index(cm, id) == 0);
        },
    }
}

/// No id loss under distinct matched row keys: every custom shortcode
/// stands in exactly one group, and every Unicode shortcode stands in
/// exactly one group when some matched chart row carries its normalized key
/// and in none otherwise.
pub proof fn lemma_no_id_loss_unique(evs: Seq<EventV>, es: Seq<(Seq<char>, LitView)>, i: int)
    requires
        distinct_ids(es),
        forall|a: int, b: int|
            0 <= a < b < matched_keys(evs, key_index(es)).len() ==> matched_keys(
                evs,
                key_index(es),
            )[a] != matched_keys(evs, key_index(es))[b],
        0 <= i < es.len(),
    ensures
        ({
            let kidx = key_index(es);
            let r = attach_custom(run(evs, kidx).cats, custom_index(es));
            match es[i].1 {
                LitView::Custom(_) => ccats(r, es[i].0) == 1,
                LitView::Unicode(cps) => ccats(r, es[i].0) == (if matched_keys(
                    evs,
                    kidx,
                ).contains(normalize_spec(cps)) {
                    1nat
                } else {
                    0nat
                }),
            }
        }),
{
    lemma_no_id_loss(evs, es, i);
    match es[i].1 {
        LitView::Custom(_) => {},
        LitView::Unicode(cps) => {
            lemma_key_count_distinct(matched_keys(evs, key_index(es)), normalize_spec(cps));
        },
    }
}

/// When every data row of the stream arrives under a category and a
/// subcategory, the matched keys are exactly the normalized keys of the
/// stream's data rows that the key index knows. Together with the law of no
/// id loss: a Unicode shortcode is dropped exactly when no data row of the
/// chart carries its key.
pub proof fn lemma_matched_keys_placed(evs: Seq<EventV>, kidx: Seq<(Seq<char>, Seq<Seq<char>>)>)
    requires
        forall|i: int|
            0 <= i < evs.len() && (#[trigger] evs[i]) is Row ==> run(evs.take(i), kidx).stack.len()
                >= 2,
    ensures
        forall|k: Seq<char>|
            #![trigger matched_keys(evs, kidx).contains(k)]
            matched_keys(evs, kidx).contains(k) <==> (assoc_get(kidx, k) is Some && exists|i: int|
                0 <= i < evs.len() && (#[trigger] evs[i]) is Row && normalize_spec(evs[i]->Row_0)
                    == k),
    decreases evs.len(),
{
    let mk = matched_keys(evs, kidx);
    if evs.len() == 0 {
        assert forall|k: Seq<char>| #![trigger mk.contains(k)] !mk.contains(k) by {}
    } else {
        let pre = evs.drop_last();
        assert(forall|i: int|
            0 <= i < pre.len() && (#[trigger] pre[i]) is Row ==> run(pre.take(i), kidx).stack.len()
                >= 2) by {
            assert(forall|i: int| 0 <= i < pre.len() ==> pre.take(i) =~= evs.take(i) && pre[i]
                == evs[i]);
        }
        lemma_matched_keys_placed(pre, kidx);
        let mkp = matched_keys(pre, kidx);
        assert(evs.take(evs.len() - 1) =~= pre);
        assert forall|k: Seq<char>|
            #![trigger mk.contains(k)]
            mk.contains(k) <==> (assoc_get(kidx, k) is Some && exists|i: int|
                0 <= i < evs.len() && (#[trigger] evs[i]) is Row && normalize_spec(evs[i]->Row_0)
                    == k) by {
            let rhs_pre = assoc_get(kidx, k) is Some && exists|i: int|
                0 <= i < pre.len() && (#[trigger] pre[i]) is Row && normalize_spec(pre[i]->Row_0)
                    == k;
            if rhs_pre {
                let w = choose|i: int|
                    0 <= i < pre.len() && (#[trigger] pre[i]) is Row && normalize_spec(
                        pre[i]->Row_0,
                    ) == k;
                assert(evs[w] is Row && normalize_spec(evs[w]->Row_0) == k);
            }
            match evs.last() {
                EventV::Row(g) => {
                    let kg = normalize_spec(g);
                    assert(evs[evs.len() - 1] is Row);
                    if assoc_get(kidx, kg) is Some {
                        assert(mk == mkp.push(kg));
                        assert(mk.contains(k) == (mkp.contains(k) || k == kg)) by {
                            if mkp.contains(k) {
                                let w = choose|w: int| 0 <= w < mkp.len() && mkp[w] == k;
                                assert(mk[w] == k);
                            }
                            if k == kg {
                                assert(mk[mk.len() - 1] == k);
                            }
                            if mk.contains(k) {
                                let w = choose|w: int| 0 <= w < mk.len() && mk[w] == k;
                                if w < mkp.len() {
                                    assert(mkp[w] == k);
                                }
                            }
                        }
                        if mk.contains(k) && !mkp.contains(k) {
                            assert(k == kg);
                            assert(normalize_spec(evs[evs.len() - 1]->Row_0) == k);
                        }
                        if !mk.contains(k) {
                            if exists|i: int|
                                0 <= i < evs.len() && (#[trigger] evs[i]) is Row && normalize_spec(
                                    evs[i]->Row_0,
                                ) == k && assoc_get(kidx, k) is Some {
                                let w = choose|i: int|
                                    0 <= i < evs.len() && (#[trigger] evs[i]) is Row
                                        && normalize_spec(evs[i]->Row_0) == k;
                                if w < evs.len() - 1 {
                                    assert(pre[w] is Row && normalize_spec(pre[w]->Row_0) == k);
                                }
                            }
                        }
                    } else {
                        assert(mk == mkp);
                        if k == kg {
                            assert(!(assoc_get(kidx, k) is Some));
                        } else {
                            if exists|i: int|
                                0 <= i < evs.len() && (#[trigger] evs[i]) is Row && normalize_spec(
                                    evs[i]->Row_0,
                                ) == k {
                                let w = choose|i: int|
                                    0 <= i < evs.len() && (#[trigger] evs[i]) is Row
                                        && normalize_spec(evs[i]->Row_0) == k;
                                if w < evs.len() - 1 {
                                    assert(pre[w] is Row && normalize_spec(pre[w]->Row_0) == k);
                                }
                            }
                        }
                    }
                },
                EventV::BeginCategory(_) => {
                    assert(mk == mkp);
                    if exists|i: int|
                        0 <= i < evs.len() && (#[trigger] evs[i]) is Row && normalize_spec(
                            evs[i]->Row_0,
                        ) == k {
                        let w = choose|i: int|
                            0 <= i < evs.len() && (#[trigger] evs[i]) is Row && normalize_spec(
                                evs[i]->Row_0,
                            ) == k;
                        assert(w < evs.len() - 1);
                        assert(pre[w] is Row && normalize_spec(pre[w]->Row_0) == k);
                    }
                },
                EventV::BeginSubcategory(_) => {
                    assert(mk == mkp);
                    if exists|i: int|
                        0 <= i < evs.len() && (#[trigger] evs[i]) is Row && normalize_spec(
                            evs[i]->Row_0,
                        ) == k {
                        let w = choose|i: int|
                            0 <= i < evs.len() && (#[trigger] evs[i]) is Row && normalize_spec(
                                evs[i]->Row_0,
                            ) == k;
                        assert(w < evs.len() - 1);
                        assert(pre[w] is Row && normalize_spec(pre[w]->Row_0) == k);
                    }
                },
            }
        }
    }
}

/// The subcategory headings first seen while category `c` is current, in
/// order of first occurrence.
pub open spec fn sub_first_occ(
    evs: Seq<EventV>,
    kidx: Seq<(Seq<char>, Seq<Seq<char>>)>,
    c: Seq<char>,
) -> Seq<Seq<char>>
    decreases evs.len(),
{
    if evs.len() == 0 {
        Seq::empty()
    } else {
        let p = sub_first_occ(evs.drop_last(), kidx, c);
        match evs.last() {
            EventV::BeginSubcategory(s) => {
                let st = run(evs.drop_last(), kidx);
                if st.stack.len() >= 1 && st.stack[0] == c && !p.contains(s) {
                    p.push(s)
                } else {
                    p
                }
            },
            _ => p,
        }
    }
}

proof fn lemma_run_sub_order(evs: Seq<EventV>, kidx: Seq<(Seq<char>, Seq<Seq<char>>)>)
    ensures
        ({
            let cats = run(evs, kidx).cats;
            &&& (forall|a: int, b: int|
                0 <= a < b < cats.len() ==> (#[trigger] cats[a]).title != (
                #[trigger] cats[b]).title)
            &&& (forall|ci: int|
                0 <= ci < cats.len() ==> sub_titles((#[trigger] cats[ci]).subs) == sub_first_occ(
                    evs,
                    kidx,
                    cats[ci].title,
                ))
            &&& (forall|c: Seq<char>|
                !has_cat(cats, c) ==> #[trigger] sub_first_occ(evs, kidx, c)
                    == Seq::<Seq<char>>::empty())
        }),
    decreases evs.len(),
{
    if evs.len() == 0 {
    } else {
        let pre = evs.drop_last();
        lemma_run_sub_order(pre, kidx);
        lemma_run_wf(pre, kidx);
        let st = run(pre, kidx);
        let st2 = step(st, evs.last(), kidx);
        assert(run(evs, kidx) == st2);
        if st.stack.len() >= 1 {
            lemma_cat_idx(st.cats, st.stack[0]);
            if st.stack.len() == 2 {
                lemma_sub_idx(st.cats[cat_idx(st.cats, st.stack[0])].subs, st.stack[1]);
            }
        }
        match evs.last() {
            EventV::BeginCategory(c0) => {
                assert(forall|c: Seq<char>|
                    #[trigger] sub_first_occ(evs, kidx, c) == sub_first_occ(pre, kidx, c));
                if has_cat(st.cats, c0) {
                    assert(st2.cats == st.cats);
                } else {
                    let cats2 = st.cats.push(CatV { title: c0, subs: Seq::empty() });
                    assert(st2.cats == cats2);
                    assert forall|a: int, b: int|
                        0 <= a < b < cats2.len() implies (#[trigger] cats2[a]).title != (
                    #[trigger] cats2[b]).title by {
                        if b < st.cats.len() {
                            assert(cats2[a] == st.cats[a] && cats2[b] == st.cats[b]);
                        } else {
                            assert(cats2[a] == st.cats[a] && cats2[b].title == c0);
                            if st.cats[a].title == c0 {
                                assert(has_cat(st.cats, c0));
                            }
                        }
                    }
                    assert forall|ci: int|
                        0 <= ci < cats2.len() implies sub_titles((#[trigger] cats2[ci]).subs)
                        == sub_first_occ(evs, kidx, cats2[ci].title) by {
                        if ci < st.cats.len() {
                            assert(cats2[ci] == st.cats[ci]);
                            assert(sub_titles(st.cats[ci].subs) == sub_first_occ(
                                pre,
                                kidx,
                                st.cats[ci].title,
                            ));
                        } else {
                            assert(cats2[ci].title == c0 && cats2[ci].subs
                                == Seq::<SubV>::empty());
                            assert(sub_first_occ(pre, kidx, c0) == Seq::<Seq<char>>::empty());
                            assert(sub_titles(Seq::<SubV>::empty())
                                =~= Seq::<Seq<char>>::empty());
                        }
                    }
                    assert forall|c: Seq<char>| !has_cat(cats2, c) implies #[trigger] sub_first_occ(
                        evs,
                        kidx,
                        c,
                    ) == Seq::<Seq<char>>::empty() by {
                        assert(!has_cat(st.cats, c)) by {
                            if has_cat(st.cats, c) {
                                let w = choose|w: int|
                                    0 <= w < st.cats.len() && (#[trigger] st.cats[w]).title == c;
                                assert(cats2[w].title == c);
                            }
                        }
                    }
                }
            },
            EventV::BeginSubcategory(s0) => {
                if st.stack.len() == 0 {
                    assert(st2 == st);
                    assert(forall|c: Seq<char>|
                        #[trigger] sub_first_occ(evs, kidx, c) == sub_first_occ(pre, kidx, c));
                } else {
                    let cc = st.stack[0];
                    let ci = cat_idx(st.cats, cc);
                    let subs = st.cats[ci].subs;
                    assert(forall|c: Seq<char>|
                        c != cc ==> #[trigger] sub_first_occ(evs, kidx, c) == sub_first_occ(
                            pre,
                            kidx,
                            c,
                        ));
                    assert(sub_titles(subs) == sub_first_occ(pre, kidx, cc));
                    assert(has_sub(subs, s0) <==> sub_first_occ(pre, kidx, cc).contains(s0)) by {
                        if has_sub(subs, s0) {
                            let w = choose|w: int|
                                0 <= w < subs.len() && (#[trigger] subs[w]).title == s0;
                            assert(sub_titles(subs)[w] == s0);
                        }
                        if sub_first_occ(pre, kidx, cc).contains(s0) {
                            let w = choose|w: int|
                                0 <= w < sub_titles(subs).len() && sub_titles(subs)[w] == s0;
                            assert(subs[w].title == s0);
                        }
                    }
                    if has_sub(subs, s0) {
                        assert(st2.cats == st.cats);
                        assert(sub_first_occ(evs, kidx, cc) == sub_first_occ(pre, kidx, cc));
                    } else {
                        let subs2 = subs.push(SubV { title: s0, groups: Seq::empty() });
                        let cats2 = st.cats.update(ci, CatV { title: st.cats[ci].title, subs: subs2 });
                        assert(st2.cats == cats2);
                        assert(sub_first_occ(evs, kidx, cc) == sub_first_occ(
                            pre,
                            kidx,
                            cc,
                        ).push(s0));
                        assert(cats2.len() == st.cats.len());
                        assert forall|a: int, b: int|
                            0 <= a < b < cats2.len() implies (#[trigger] cats2[a]).title != (
                        #[trigger] cats2[b]).title by {
                            assert(cats2[a].title == st.cats[a].title);
                            assert(cats2[b].title == st.cats[b].title);
                        }
                        assert forall|cj: int|
                            0 <= cj < cats2.len() implies sub_titles((#[trigger] cats2[cj]).subs)
                            == sub_first_occ(evs, kidx, cats2[cj].title) by {
                            if cj == ci {
                                assert(cats2[cj].title == cc);
                                assert(sub_titles(subs2) =~= sub_titles(subs).push(s0));
                            } else {
                                assert(cats2[cj] == st.cats[cj]);
                                assert(st.cats[cj].title != cc) by {
                                    if cj < ci {
                                        assert(st.cats[cj].title != st.cats[ci].title);
                                    } else {
                                        assert(st.cats[ci].title != st.cats[cj].title);
                                    }
                                }
                                assert(sub_titles(st.cats[cj].subs) == sub_first_occ(
                                    pre,
                                    kidx,
                                    st.cats[cj].title,
                                ));
                            }
                        }
                        assert forall|c: Seq<char>|
                            !has_cat(cats2, c) implies #[trigger] sub_first_occ(evs, kidx, c)
                            == Seq::<Seq<char>>::empty() by {
                            assert(!has_cat(st.cats, c)) by {
                                if has_cat(st.cats, c) {
                                    let w = choose|w: int|
                                        0 <= w < st.cats.len() && (#[trigger] st.cats[w]).title
                                            == c;
                                    assert(cats2[w].title == c);
                                }
                            }
                            assert(c != cc) by {
                                assert(st.cats[ci].title == cc);
                                if c == cc {
                                    assert(has_cat(st.cats, c));
                                }
                            }
                        }
                    }
                }
            },
            EventV::Row(g) => {
                assert(forall|c: Seq<char>|
                    #[trigger] sub_first_occ(evs, kidx, c) == sub_first_occ(pre, kidx, c));
                if st.stack.len() >= 2 && assoc_get(kidx, normalize_spec(g)) is Some {
                    let cc = st.stack[0];
                    let ci = cat_idx(st.cats, cc);
                    let subs = st.cats[ci].subs;
                    let si = sub_idx(subs, st.stack[1]);
                    assert(st2.cats.len() == st.cats.len());
                    assert forall|a: int, b: int|
                        0 <= a < b < st2.cats.len() implies (#[trigger] st2.cats[a]).title != (
                    #[trigger] st2.cats[b]).title by {
                        assert(st2.cats[a].title == st.cats[a].title);
                        assert(st2.cats[b].title == st.cats[b].title);
                    }
                    assert forall|cj: int|
                        0 <= cj < st2.cats.len() implies sub_titles((#[trigger] st2.cats[cj]).subs)
                        == sub_first_occ(evs, kidx, st2.cats[cj].title) by {
                        if cj == ci {
                            assert(sub_titles(st2.cats[cj].subs) =~= sub_titles(subs));
                            assert(st2.cats[cj].title == st.cats[cj].title);
                        } else {
                            assert(st2.cats[cj] == st.cats[cj]);
                        }
                        assert(sub_titles(st.cats[cj].subs) == sub_first_occ(
                            pre,
                            kidx,
                            st.cats[cj].title,
                        ));
                    }
                    assert forall|c: Seq<char>|
                        !has_cat(st2.cats, c) implies #[trigger] sub_first_occ(evs, kidx, c)
                        == Seq::<Seq<char>>::empty() by {
                        assert(!has_cat(st.cats, c)) by {
                            if has_cat(st.cats, c) {
                                let w = choose|w: int|
                                    0 <= w < st.cats.len() && (#[trigger] st.cats[w]).title == c;
                                assert(st2.cats[w].title == c);
                            }
                        }
                    }
                } else {
                    assert(st2 == st);
                }
            },
        }
    }
}

/// Ordering within one category: its subcategories stand in the order their
/// headings first occurred while that category was current. The custom
/// bucket, appended after the chart part, does not disturb them.
pub proof fn lemma_subcategory_order(evs: Seq<EventV>, es: Seq<(Seq<char>, LitView)>, ci: int)
    requires
        0 <= ci < run(evs, key_index(es)).cats.len(),
    ensures
        sub_titles(run(evs, key_index(es)).cats[ci].subs) == sub_first_occ(
            evs,
            key_index(es),
            run(evs, key_index(es)).cats[ci].title,
        ),
{
    lemma_run_sub_order(evs, key_index(es));
}

} // verus!
