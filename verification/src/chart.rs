use vstd::prelude::*;
use vstd::string::StringExecFns;
use crate::unicode::to_title_case;
use crate::unicode::title_case_spec;

verus! {

#[verifier::external_type_specification]
#[verifier::external_body]
pub struct ExDocument(select::document::Document);

/// What one node of a parsed chart document holds, as plain values: its
/// element name (nothing for text and comment nodes), its attribute list in
/// order, the combined text of its subtree, the index of its first child,
/// and the indices of its descendants in document order.
pub struct NodeRec {
    pub name: Option<Seq<char>>,
    pub attrs: Seq<(Seq<char>, Seq<char>)>,
    pub text: Seq<char>,
    pub first_child: Option<int>,
    pub descendants: Seq<int>,
}

/// What a parsed document holds: one record per node, in document order.
pub uninterp spec fn doc_model(doc: select::document::Document) -> Seq<NodeRec>;

/// The node records that parsing a text as HTML yields: a function of the
/// text alone.
pub uninterp spec fn chart_nodes(html: Seq<char>) -> Seq<NodeRec>;

/// The value of the first attribute with the given name, as select's
/// Node::attr looks it up.
pub open spec fn attr_lookup(
    attrs: Seq<(Seq<char>, Seq<char>)>,
    name: Seq<char>,
) -> Option<Seq<char>>
    decreases attrs.len(),
{
    if attrs.len() == 0 {
        None
    } else if attrs[0].0 == name {
        Some(attrs[0].1)
    } else {
        attr_lookup(attrs.drop_first(), name)
    }
}

/// Relies on select's Document::from(&str): it parses any string as HTML,
/// and the nodes it builds depend on the text alone.
#[verifier::external_body]
pub(crate) fn parse_document(html: &str) -> (doc: select::document::Document)
    ensures
        doc_model(doc) == chart_nodes(html@),
{
    select::document::Document::from(html)
}

/// Relies on select's Document.nodes: one entry per node of the document.
#[verifier::external_body]
fn doc_node_count(doc: &select::document::Document) -> (n: usize)
    ensures
        n == doc_model(*doc).len(),
{
    doc.nodes.len()
}

/// Relies on select's Document::nth and Node::name: the tag name of the
/// nth node where it is an element, nothing otherwise.
#[verifier::external_body]
fn node_name_at(doc: &select::document::Document, i: usize) -> (r: Option<String>)
    requires
        i < doc_model(*doc).len(),
    ensures
        r.deep_view() == doc_model(*doc)[i as int].name,
{
    match doc.nth(i) {
        Some(n) => n.name().map(|s| s.to_string()),
        None => None,
    }
}

/// Relies on select's Node::attr: the value of the first attribute with the
/// given name in the element's attribute list.
#[verifier::external_body]
fn node_attr_at(doc: &select::document::Document, i: usize, name: &str) -> (r: Option<String>)
    requires
        i < doc_model(*doc).len(),
    ensures
        r.deep_view() == attr_lookup(doc_model(*doc)[i as int].attrs, name@),
{
    match doc.nth(i) {
        Some(n) => n.attr(name).map(|s| s.to_string()),
        None => None,
    }
}

/// Relies on select's Node::text: the combined text of the node's subtree.
#[verifier::external_body]
fn node_text_at(doc: &select::document::Document, i: usize) -> (r: String)
    requires
        i < doc_model(*doc).len(),
    ensures
        r@ == doc_model(*doc)[i as int].text,
{
    match doc.nth(i) {
        Some(n) => n.text(),
        None => String::new(),
    }
}

/// Relies on select's Node::first_child: the index of the node's first
/// child, an existing node of the same document.
#[verifier::external_body]
fn first_child_at(doc: &select::document::Document, i: usize) -> (r: Option<usize>)
    requires
        i < doc_model(*doc).len(),
    ensures
        r matches Some(c) ==> doc_model(*doc)[i as int].first_child == Some(c as int) && c
            < doc_model(*doc).len(),
        r is None <==> doc_model(*doc)[i as int].first_child is None,
{
    match doc.nth(i) {
        Some(n) => n.first_child().map(|c| c.index()),
        None => None,
    }
}

/// Relies on select's Node::descendants: the indices of the node's subtree
/// below it, in document order; all are existing nodes.
#[verifier::external_body]
fn descendants_at(doc: &select::document::Document, i: usize) -> (r: Vec<usize>)
    requires
        i < doc_model(*doc).len(),
    ensures
        r@.len() == doc_model(*doc)[i as int].descendants.len(),
        forall|j: int|
            0 <= j < r@.len() ==> (#[trigger] r@[j]) as int == doc_model(
                *doc,
            )[i as int].descendants[j] && r@[j] < doc_model(*doc).len(),
{
    match doc.nth(i) {
        Some(n) => n.descendants().map(|d| d.index()).collect(),
        None => Vec::new(),
    }
}

/// One event of the chart stream: a top-level heading, a second-level
/// heading, or a data row's glyph text.
pub enum ChartEvent {
    BeginCategory(String),
    BeginSubcategory(String),
    Row(String),
}

/// The mathematical shape of a chart event.
pub enum EventV {
    BeginCategory(Seq<char>),
    BeginSubcategory(Seq<char>),
    Row(Seq<char>),
}

impl DeepView for ChartEvent {
    type V = EventV;

    open spec fn deep_view(&self) -> EventV {
        match self {
            ChartEvent::BeginCategory(t) => EventV::BeginCategory(t@),
            ChartEvent::BeginSubcategory(t) => EventV::BeginSubcategory(t@),
            ChartEvent::Row(t) => EventV::Row(t@),
        }
    }
}

/// The event a heading cell yields: a category for a "bighead" cell, a
/// subcategory for a "mediumhead" cell, nothing otherwise; the heading text
/// is title-cased.
pub open spec fn head_event_spec(class: Seq<char>, text: Seq<char>) -> Option<EventV> {
    if class == "bighead"@ {
        Some(EventV::BeginCategory(title_case_spec(text)))
    } else if class == "mediumhead"@ {
        Some(EventV::BeginSubcategory(title_case_spec(text)))
    } else {
        None
    }
}

/// Classify a heading cell of the chart by its class attribute.
pub fn head_event(class: &String, text: String) -> (r: Option<ChartEvent>)
    ensures
        r.deep_view() == head_event_spec(class@, text@),
{
    let big = String::from_str("bighead");
    let medium = String::from_str("mediumhead");
    if class.eq(&big) {
        Some(ChartEvent::BeginCategory(to_title_case(text)))
    } else if class.eq(&medium) {
        Some(ChartEvent::BeginSubcategory(to_title_case(text)))
    } else {
        None
    }
}

/// A table row: an element named "tr".
pub open spec fn is_tr(rec: NodeRec) -> bool {
    rec.name == Some("tr"@)
}

/// A glyph cell: a table cell (td or th) whose class is "chars".
pub open spec fn chars_cell(model: Seq<NodeRec>, d: int) -> bool {
    &&& 0 <= d < model.len()
    &&& (model[d].name == Some("td"@) || model[d].name == Some("th"@))
    &&& attr_lookup(model[d].attrs, "class"@) == Some("chars"@)
}

/// The first glyph cell among the descendants, from position `k` on.
pub open spec fn find_chars(model: Seq<NodeRec>, ds: Seq<int>, k: int) -> Option<int>
    decreases ds.len() - k,
{
    if k < 0 || k >= ds.len() {
        None
    } else if chars_cell(model, ds[k]) {
        Some(ds[k])
    } else {
        find_chars(model, ds, k + 1)
    }
}

/// The event one table row yields. A first child that is a "th" heading
/// cell yields its class's heading event; otherwise the first glyph cell
/// among the row's descendants yields the row's glyph text; a row with
/// neither yields nothing and is skipped.
pub open spec fn row_event_of(model: Seq<NodeRec>, i: int) -> Option<EventV> {
    match model[i].first_child {
        Option::None => None,
        Option::Some(c) => {
            if !(0 <= c < model.len()) {
                None
            } else if model[c].name == Some("th"@) {
                match attr_lookup(model[c].attrs, "class"@) {
                    Option::Some(cls) => head_event_spec(cls, model[c].text),
                    Option::None => None,
                }
            } else {
                match find_chars(model, model[i].descendants, 0) {
                    Option::Some(d) => Some(EventV::Row(model[d].text)),
                    Option::None => None,
                }
            }
        },
    }
}

/// The events of the document's first `n` nodes: every table row in
/// document order contributes its event.
pub open spec fn events_upto(model: Seq<NodeRec>, n: int) -> Seq<EventV>
    decreases n,
{
    if n <= 0 {
        Seq::empty()
    } else {
        let p = events_upto(model, n - 1);
        if 0 <= n - 1 < model.len() && is_tr(model[n - 1]) {
            match row_event_of(model, n - 1) {
                Some(ev) => p.push(ev),
                None => p,
            }
        } else {
            p
        }
    }
}

/// The event stream of a whole chart document.
pub open spec fn events_of(model: Seq<NodeRec>) -> Seq<EventV> {
    events_upto(model, model.len() as int)
}

proof fn lemma_find_chars_some(model: Seq<NodeRec>, ds: Seq<int>, k: int, d: int)
    requires
        find_chars(model, ds, k) == Some(d),
    ensures
        chars_cell(model, d),
    decreases ds.len() - k,
{
    if !(k < 0 || k >= ds.len()) && !chars_cell(model, ds[k]) {
        lemma_find_chars_some(model, ds, k + 1, d);
    }
}

fn node_named(doc: &select::document::Document, i: usize, a: &String) -> (r: bool)
    requires
        i < doc_model(*doc).len(),
    ensures
        r == (doc_model(*doc)[i as int].name == Some(a@)),
{
    match node_name_at(doc, i) {
        Some(nm) => nm.eq(a),
        None => false,
    }
}

fn node_has_class(doc: &select::document::Document, i: usize, cls: &String) -> (r: bool)
    requires
        i < doc_model(*doc).len(),
    ensures
        r == (attr_lookup(doc_model(*doc)[i as int].attrs, "class"@) == Some(cls@)),
{
    match node_attr_at(doc, i, "class") {
        Some(c) => c.eq(cls),
        None => false,
    }
}

fn push_event(events: &mut Vec<ChartEvent>, ev: ChartEvent)
    ensures
        final(events).deep_view() == old(events).deep_view().push(ev.deep_view()),
{
    let ghost old_dv = events.deep_view();
    let ghost old_ev = events@;
    let ghost evv = ev.deep_view();
    proof {
        assert(old_dv.len() == old_ev.len());
    }
    events.push(ev);
    proof {
        assert(events@ == old_ev.push(events@[old_ev.len() as int]));
        assert(events@[old_ev.len() as int].deep_view() == evv);
        assert forall|x: int| 0 <= x < events@.len() implies #[trigger] events.deep_view()[x]
            == old_dv.push(evv)[x] by {
            if x < old_ev.len() {
                assert(events@[x] == old_ev[x]);
                assert(events.deep_view()[x] == old_dv[x]);
            } else {
                assert(events.deep_view()[x] == evv);
            }
        }
        assert(events.deep_view() =~= old_dv.push(evv));
    }
}

/// Walk every table row of the chart document in document order and yield
/// its events: a "bighead" or "mediumhead" heading cell begins a category
/// or subcategory, a data row's first glyph cell yields its glyph text,
/// and rows with neither are skipped.
pub fn parse_chart(doc: &select::document::Document) -> (events: Vec<ChartEvent>)
    ensures
        events.deep_view() == events_of(doc_model(*doc)),
{
    let ghost model = doc_model(*doc);
    let tr_lbl = String::from_str("tr");
    let th_lbl = String::from_str("th");
    let td_lbl = String::from_str("td");
    let chars_lbl = String::from_str("chars");
    let n = doc_node_count(doc);
    let mut events: Vec<ChartEvent> = Vec::new();
    let mut i: usize = 0;
    while i < n
        invariant
            model == doc_model(*doc),
            n == model.len(),
            i <= n,
            tr_lbl@ == "tr"@,
            th_lbl@ == "th"@,
            td_lbl@ == "td"@,
            chars_lbl@ == "chars"@,
            events.deep_view() == events_upto(model, i as int),
        decreases n - i,
    {
        let is_tr_node = node_named(doc, i, &tr_lbl);
        proof {
            assert(is_tr_node == is_tr(model[i as int]));
        }
        let mut ev_opt: Option<ChartEvent> = None;
        if is_tr_node {
            match first_child_at(doc, i) {
                None => {
                },
                Some(c) => {
                    let child_is_th = node_named(doc, c, &th_lbl);
                    proof {
                        assert(child_is_th == (model[c as int].name == Some("th"@)));
                    }
                    if child_is_th {
                        match node_attr_at(doc, c, "class") {
                            Some(cls) => {
                                ev_opt = head_event(&cls, node_text_at(doc, c));
                            },
                            None => {
                            },
                        }
                    } else {
                        let ds = descendants_at(doc, i);
                        let ghost dsv = model[i as int].descendants;
                        let mut j: usize = 0;
                        let mut found = false;
                        while j < ds.len() && !found
                            invariant
                                model == doc_model(*doc),
                                td_lbl@ == "td"@,
                                th_lbl@ == "th"@,
                                chars_lbl@ == "chars"@,
                                dsv == model[i as int].descendants,
                                i < model.len(),
                                ds@.len() == dsv.len(),
                                forall|x: int|
                                    0 <= x < ds@.len() ==> (#[trigger] ds@[x]) as int == dsv[x]
                                        && ds@[x] < model.len(),
                                j <= ds@.len(),
                                !found ==> find_chars(model, dsv, 0) == find_chars(
                                    model,
                                    dsv,
                                    j as int,
                                ),
                                found ==> j < ds@.len() && find_chars(model, dsv, 0) == Some(
                                    dsv[j as int],
                                ) && chars_cell(model, dsv[j as int]),
                            decreases ds@.len() - j + (if found {
                                0int
                            } else {
                                1int
                            }),
                        {
                            let d = ds[j];
                            let is_cell = node_named(doc, d, &td_lbl) || node_named(
                                doc,
                                d,
                                &th_lbl,
                            );
                            let has_class = node_has_class(doc, d, &chars_lbl);
                            proof {
                                assert(d == ds@[j as int]);
                                assert(dsv[j as int] == d as int);
                                assert(0 <= dsv[j as int] < model.len());
                                assert((is_cell && has_class) == chars_cell(
                                    model,
                                    dsv[j as int],
                                ));
                            }
                            if is_cell && has_class {
                                found = true;
                            } else {
                                j = j + 1;
                            }
                        }
                        if found {
                            let d = ds[j];
                            ev_opt = Some(ChartEvent::Row(node_text_at(doc, d)));
                            proof {
                                assert(row_event_of(model, i as int) == Some(
                                    EventV::Row(model[dsv[j as int]].text),
                                ));
                            }
                        } else {
                            proof {
                                assert(find_chars(model, dsv, dsv.len() as int) is None);
                                assert(row_event_of(model, i as int) is None);
                            }
                        }
                    }
                },
            }
        }
        proof {
            if is_tr(model[i as int]) {
                assert(ev_opt.deep_view() == row_event_of(model, i as int));
            }
        }
        match ev_opt {
            Some(ev) => {
                push_event(&mut events, ev);
            },
            None => {
            },
        }
        proof {
            assert(events.deep_view() == events_upto(model, i + 1));
        }
        i = i + 1;
    }
    events
}

/// Parse the chart HTML and yield its event stream.
pub fn parse_chart_events(html: &str) -> (events: Vec<ChartEvent>)
    ensures
        events.deep_view() == events_of(chart_nodes(html@)),
{
    let doc = parse_document(html);
    parse_chart(&doc)
}

} // verus!
