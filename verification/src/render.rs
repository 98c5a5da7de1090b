use vstd::prelude::*;
use vstd::string::StringExecFns;
use crate::strutil::chars_of;
use crate::strutil::string_from_chars;
use crate::unicode::lower_of;
use crate::unicode::lowercase;
use crate::categorize::Categorized;
use crate::categorize::Category;
use crate::categorize::Subcategory;
use crate::categorize::cats_view;
use crate::categorize::CatV;
use crate::categorize::SubV;
use crate::categorize::cat_titles;
use crate::categorize::sub_titles;

verus! {

pub open spec fn is_ascii_alnum(c: char) -> bool {
    let v = c as u32;
    (48 <= v && v <= 57) || (97 <= v && v <= 122) || (65 <= v && v <= 90)
}

/// The header anchor characters: spaces become dashes, then every character
/// that is neither an ASCII alphanumeric nor a dash is removed.
pub open spec fn hid(s: Seq<char>) -> Seq<char>
    decreases s.len(),
{
    if s.len() == 0 {
        Seq::empty()
    } else {
        let p = hid(s.drop_last());
        let c = if s.last() == ' ' {
            '-'
        } else {
            s.last()
        };
        if is_ascii_alnum(c) || c == '-' {
            p.push(c)
        } else {
            p
        }
    }
}

/// The anchor id of a heading: lowercased, spaces to dashes, everything but
/// ASCII alphanumerics and dashes removed.
pub open spec fn header_id_spec(s: Seq<char>) -> Seq<char> {
    hid(lower_of(s))
}

pub fn get_header_id(header: &str) -> (r: String)
    ensures
        r@ == header_id_spec(header@),
{
    let lo = lowercase(header);
    let cs = chars_of(lo.as_str());
    let mut out: Vec<char> = Vec::new();
    let mut i: usize = 0;
    while i < cs.len()
        invariant
            cs@ == lower_of(header@),
            i <= cs@.len(),
            out@ == hid(cs@.take(i as int)),
        decreases cs@.len() - i,
    {
        proof {
            assert(cs@.take(i + 1).drop_last() =~= cs@.take(i as int));
            assert(cs@.take(i + 1).last() == cs@[i as int]);
        }
        let c0 = cs[i];
        let c = if c0 == ' ' {
            '-'
        } else {
            c0
        };
        let v = c as u32;
        if (48 <= v && v <= 57) || (97 <= v && v <= 122) || (65 <= v && v <= 90) || c == '-' {
            out.push(c);
        }
        i = i + 1;
    }
    proof {
        assert(cs@.take(cs@.len() as int) =~= cs@);
    }
    string_from_chars(&out)
}

/// One table-of-contents line for a heading.
pub open spec fn toc_line(h: Seq<char>) -> Seq<char> {
    "- ["@ + h + "](#"@ + header_id_spec(h) + ")"@
}

/// The table of contents of a list of headings.
pub open spec fn toc_lines(hs: Seq<Seq<char>>) -> Seq<Seq<char>> {
    Seq::new(hs.len(), |i: int| toc_line(hs[i]))
}

pub fn generate_toc(headers: &Vec<String>) -> (r: Vec<String>)
    ensures
        r.deep_view() == toc_lines(headers.deep_view()),
{
    let mut r: Vec<String> = Vec::new();
    let mut i: usize = 0;
    while i < headers.len()
        invariant
            i <= headers@.len(),
            headers.deep_view().len() == headers@.len(),
            r.deep_view() == toc_lines(headers.deep_view()).take(i as int),
        decreases headers@.len() - i,
    {
        let h = &headers[i];
        let mut line = String::from_str("- [");
        line.append(h.as_str());
        line.append("](#");
        let anchor = get_header_id(h.as_str());
        line.append(anchor.as_str());
        line.append(")");
        proof {
            assert(headers.deep_view()[i as int] == headers@[i as int]@);
            assert(line@ == toc_line(headers.deep_view()[i as int]));
        }
        let ghost old_dv = r.deep_view();
        let ghost old_rv = r@;
        let ghost lv = line@;
        proof {
            assert(old_dv.len() == i as int);
            assert(old_rv.len() == i as int);
        }
        r.push(line);
        proof {
            assert(r@ == old_rv.push(r@[i as int]));
            assert(r@[i as int]@ == lv);
            assert forall|x: int| 0 <= x < r@.len() implies #[trigger] r.deep_view()[x]
                == toc_lines(headers.deep_view()).take(i + 1)[x] by {
                if x < i {
                    assert(r@[x] == old_rv[x]);
                    assert(r.deep_view()[x] == old_dv[x]);
                } else {
                    assert(r.deep_view()[x] == lv);
                }
            }
            assert(r.deep_view() =~= toc_lines(headers.deep_view()).take(i + 1));
        }
        i = i + 1;
    }
    proof {
        assert(toc_lines(headers.deep_view()).take(headers.deep_view().len() as int) =~= toc_lines(
            headers.deep_view(),
        ));
    }
    r
}

/// `unit` repeated `n` times.
pub open spec fn rep(unit: Seq<char>, n: int) -> Seq<char>
    decreases n,
{
    if n <= 0 {
        Seq::empty()
    } else {
        rep(unit, n - 1) + unit
    }
}

/// The alias cells of one group, from the second id on.
pub open spec fn cell_tail(g: Seq<Seq<char>>, k: int) -> Seq<char>
    decreases g.len() - k,
{
    if k >= g.len() {
        Seq::empty()
    } else {
        "<br /> `:"@ + g[k] + ":` "@ + cell_tail(g, k + 1)
    }
}

/// The table cell of one group: the primary id's glyph and shortcode, then
/// the aliases.
pub open spec fn cell_of(g: Seq<Seq<char>>) -> Seq<char>
    recommends
        g.len() >= 1,
{
    "| :"@ + g[0] + ": | `:"@ + g[0] + ":` "@ + cell_tail(g, 1)
}

/// The cells of one table row, `columns` wide, starting at group `i`.
pub open spec fn row_cells(gs: Seq<Seq<Seq<char>>>, i: int, j: int, columns: int) -> Seq<char>
    decreases columns - j,
{
    if j >= columns {
        Seq::empty()
    } else {
        (if i + j < gs.len() {
            cell_of(gs[i + j])
        } else if gs.len() > columns {
            "| | "@
        } else {
            Seq::empty()
        }) + row_cells(gs, i, j + 1, columns)
    }
}

pub open spec fn table_row(
    gs: Seq<Seq<Seq<char>>>,
    i: int,
    columns: int,
    left: Seq<char>,
    right: Seq<char>,
) -> Seq<char> {
    "| "@ + left + " "@ + row_cells(gs, i, 0, columns) + "| "@ + right + " |"@
}

pub open spec fn table_rows(
    gs: Seq<Seq<Seq<char>>>,
    i: int,
    columns: int,
    left: Seq<char>,
    right: Seq<char>,
) -> Seq<Seq<char>>
    decreases gs.len() - i,
{
    if i >= gs.len() || columns <= 0 {
        Seq::empty()
    } else {
        seq![table_row(gs, i, columns, left, right)] + table_rows(
            gs,
            if i + columns <= gs.len() {
                i + columns
            } else {
                gs.len() as int
            },
            columns,
            left,
            right,
        )
    }
}

pub open spec fn min_cols(columns: int, n: int) -> int {
    if columns <= n {
        columns
    } else {
        n
    }
}

/// The lines of one table: a header and delimiter sized to the narrower of
/// `columns` and the group count, then one row per `columns` groups.
pub open spec fn table_lines(
    gs: Seq<Seq<Seq<char>>>,
    columns: int,
    left: Seq<char>,
    right: Seq<char>,
) -> Seq<Seq<char>> {
    seq![
        "| "@ + rep("| ico | shortcode "@, min_cols(columns, gs.len() as int)) + "| |"@,
        "| - "@ + rep("| :-: | - "@, min_cols(columns, gs.len() as int)) + "| - |"@,
    ] + table_rows(gs, 0, columns, left, right)
}

/// Every group of the table is non-empty.
pub open spec fn groups_nonempty(gs: Seq<Seq<Seq<char>>>) -> bool {
    forall|i: int| 0 <= i < gs.len() ==> (#[trigger] gs[i]).len() >= 1
}

fn append_cell(line: &mut String, g: &Vec<String>)
    requires
        g.deep_view().len() >= 1,
    ensures
        final(line)@ == old(line)@ + cell_of(g.deep_view()),
{
    let ghost gv = g.deep_view();
    proof {
        assert(gv[0] == g@[0]@);
    }
    let primary = &g[0];
    line.append("| :");
    line.append(primary.as_str());
    line.append(": | `:");
    line.append(primary.as_str());
    line.append(":` ");
    let ghost base = line@;
    proof {
        assert(base + cell_tail(gv, 1) =~= old(line)@ + cell_of(gv));
    }
    let mut k: usize = 1;
    while k < g.len()
        invariant
            gv == g.deep_view(),
            1 <= k <= g@.len(),
            g@.len() == gv.len(),
            base + cell_tail(gv, 1) == line@ + cell_tail(gv, k as int),
        decreases g@.len() - k,
    {
        proof {
            assert(gv[k as int] == g@[k as int]@);
        }
        let ghost before = line@;
        line.append("<br /> `:");
        line.append(g[k].as_str());
        line.append(":` ");
        proof {
            assert(cell_tail(gv, k as int) == "<br /> `:"@ + gv[k as int] + ":` "@ + cell_tail(
                gv,
                k + 1,
            ));
            assert(before + cell_tail(gv, k as int) =~= line@ + cell_tail(gv, k + 1));
            assert(base + cell_tail(gv, 1) =~= line@ + cell_tail(gv, k + 1));
        }
        k = k + 1;
    }
    proof {
        assert(cell_tail(gv, g@.len() as int) =~= Seq::<char>::empty());
        assert(line@ + Seq::<char>::empty() =~= line@);
        assert(line@ =~= old(line)@ + cell_of(gv));
    }
}

fn append_cells(line: &mut String, gs_vec: &Vec<Vec<String>>, i: usize, columns: usize)
    requires
        columns >= 1,
        i < gs_vec.deep_view().len(),
        groups_nonempty(gs_vec.deep_view()),
    ensures
        final(line)@ == old(line)@ + row_cells(
            gs_vec.deep_view(),
            i as int,
            0,
            columns as int,
        ),
{
    let ghost gs = gs_vec.deep_view();
    let n = gs_vec.len();
    let mut j: usize = 0;
    while j < columns
        invariant
            gs == gs_vec.deep_view(),
            groups_nonempty(gs),
            n == gs.len(),
            n == gs_vec@.len(),
            columns >= 1,
            i < n,
            j <= columns,
            old(line)@ + row_cells(gs, i as int, 0, columns as int) == line@ + row_cells(
                gs,
                i as int,
                j as int,
                columns as int,
            ),
        decreases columns - j,
    {
        let ghost before = line@;
        if j < n - i {
            proof {
                assert(gs[i + j] == gs_vec@[i + j].deep_view());
            }
            append_cell(line, &gs_vec[i + j]);
            proof {
                assert(row_cells(gs, i as int, j as int, columns as int) == cell_of(gs[i + j])
                    + row_cells(gs, i as int, j + 1, columns as int));
                assert(before + row_cells(gs, i as int, j as int, columns as int) =~= line@
                    + row_cells(gs, i as int, j + 1, columns as int));
                assert(old(line)@ + row_cells(gs, i as int, 0, columns as int) =~= line@
                    + row_cells(gs, i as int, j + 1, columns as int));
            }
        } else if n > columns {
            line.append("| | ");
            proof {
                assert(row_cells(gs, i as int, j as int, columns as int) == "| | "@ + row_cells(
                    gs,
                    i as int,
                    j + 1,
                    columns as int,
                ));
                assert(old(line)@ + row_cells(gs, i as int, 0, columns as int) =~= line@
                    + row_cells(gs, i as int, j + 1, columns as int));
            }
        } else {
            proof {
                assert(row_cells(gs, i as int, j as int, columns as int) == Seq::<char>::empty()
                    + row_cells(gs, i as int, j + 1, columns as int));
                assert(old(line)@ + row_cells(gs, i as int, 0, columns as int) =~= line@
                    + row_cells(gs, i as int, j + 1, columns as int));
            }
        }
        j = j + 1;
    }
    proof {
        assert(row_cells(gs, i as int, columns as int, columns as int) =~= Seq::<char>::empty());
        assert(line@ + Seq::<char>::empty() =~= line@);
    }
}

pub fn generate_table(
    github_emoji_ids: &Vec<Vec<String>>,
    columns: usize,
    left_text: &str,
    right_text: &str,
) -> (r: Vec<String>)
    requires
        columns >= 1,
        groups_nonempty(github_emoji_ids.deep_view()),
    ensures
        r.deep_view() == table_lines(
            github_emoji_ids.deep_view(),
            columns as int,
            left_text@,
            right_text@,
        ),
{
    let ghost gs = github_emoji_ids.deep_view();
    let ghost full = table_lines(gs, columns as int, left_text@, right_text@);
    let n = github_emoji_ids.len();
    proof {
        assert(gs.len() == n);
    }
    let shown = if columns < n {
        columns
    } else {
        n
    };
    let mut header = String::from_str("| ");
    let mut delimiter = String::from_str("| - ");
    let mut t: usize = 0;
    while t < shown
        invariant
            t <= shown,
            header@ == "| "@ + rep("| ico | shortcode "@, t as int),
            delimiter@ == "| - "@ + rep("| :-: | - "@, t as int),
        decreases shown - t,
    {
        header.append("| ico | shortcode ");
        delimiter.append("| :-: | - ");
        proof {
            assert(header@ =~= "| "@ + rep("| ico | shortcode "@, t + 1));
            assert(delimiter@ =~= "| - "@ + rep("| :-: | - "@, t + 1));
        }
        t = t + 1;
    }
    header.append("| |");
    delimiter.append("| - |");
    proof {
        assert(shown as int == min_cols(columns as int, gs.len() as int));
    }
    let mut lines: Vec<String> = Vec::new();
    let ghost hv = header@;
    lines.push(header);
    let ghost dvv = delimiter@;
    lines.push(delimiter);
    proof {
        assert(lines.deep_view() =~= seq![hv, dvv]);
        assert(full == seq![full[0], full[1]] + table_rows(
            gs,
            0,
            columns as int,
            left_text@,
            right_text@,
        )) by {
            assert(full =~= seq![full[0], full[1]] + table_rows(
                gs,
                0,
                columns as int,
                left_text@,
                right_text@,
            ));
        }
        assert(hv == full[0]);
        assert(dvv == full[1]);
        assert(lines.deep_view() + table_rows(gs, 0, columns as int, left_text@, right_text@)
            =~= full);
    }
    let mut i: usize = 0;
    while i < n
        invariant
            gs == github_emoji_ids.deep_view(),
            full == table_lines(gs, columns as int, left_text@, right_text@),
            groups_nonempty(gs),
            n == gs.len(),
            n == github_emoji_ids@.len(),
            columns >= 1,
            i <= n,
            lines.deep_view() + table_rows(gs, i as int, columns as int, left_text@, right_text@)
                == full,
        decreases n - i,
    {
        let mut line = String::from_str("| ");
        line.append(left_text);
        line.append(" ");
        let ghost pre = line@;
        proof {
            assert(pre =~= "| "@ + left_text@ + " "@);
        }
        append_cells(&mut line, github_emoji_ids, i, columns);
        line.append("| ");
        line.append(right_text);
        line.append(" |");
        proof {
            assert(line@ =~= table_row(gs, i as int, columns as int, left_text@, right_text@));
        }
        let ghost old_lines = lines.deep_view();
        let ghost old_lv = lines@;
        let ghost linev = line@;
        proof {
            assert(old_lines.len() == old_lv.len());
        }
        lines.push(line);
        let ghost ni: int = if i as int + columns as int <= gs.len() {
            i as int + columns as int
        } else {
            gs.len() as int
        };
        proof {
            assert(lines@ == old_lv.push(lines@[old_lv.len() as int]));
            assert(lines@[old_lv.len() as int]@ == linev);
            assert forall|x: int| 0 <= x < lines@.len() implies #[trigger] lines.deep_view()[x]
                == old_lines.push(linev)[x] by {
                if x < old_lv.len() {
                    assert(lines@[x] == old_lv[x]);
                    assert(lines.deep_view()[x] == old_lines[x]);
                } else {
                    assert(lines.deep_view()[x] == linev);
                }
            }
            assert(lines.deep_view() =~= old_lines.push(linev));
            assert(table_rows(gs, i as int, columns as int, left_text@, right_text@) == seq![
                table_row(gs, i as int, columns as int, left_text@, right_text@),
            ] + table_rows(gs, ni, columns as int, left_text@, right_text@));
            assert(lines.deep_view() + table_rows(gs, ni, columns as int, left_text@, right_text@)
                =~= full);
        }
        if columns < n - i {
            i = i + columns;
        } else {
            i = n;
        }
    }
    proof {
        assert(table_rows(gs, n as int, columns as int, left_text@, right_text@)
            =~= Seq::<Seq<char>>::empty());
        assert(lines.deep_view() + Seq::<Seq<char>>::empty() =~= lines.deep_view());
    }
    lines
}

/// The back link to a heading.
pub open spec fn top_link(title: Seq<char>) -> Seq<char> {
    "[top](#"@ + header_id_spec(title) + ")"@
}

/// The lines of the subcategories of one category, from the `j`th on: a
/// fourth-level heading for each non-empty title, then the table, then a
/// blank line.
pub open spec fn sub_sections(cat: CatV, j: int, columns: int, toc_name: Seq<char>) -> Seq<
    Seq<char>,
>
    decreases cat.subs.len() - j,
{
    if j >= cat.subs.len() {
        Seq::empty()
    } else {
        (if cat.subs[j].title.len() > 0 {
            seq!["#### "@ + cat.subs[j].title, Seq::<char>::empty()]
        } else {
            Seq::<Seq<char>>::empty()
        }) + table_lines(cat.subs[j].groups, columns, top_link(cat.title), top_link(toc_name))
            + seq![Seq::<char>::empty()] + sub_sections(cat, j + 1, columns, toc_name)
    }
}

/// The lines of one category: its heading, a subcategory table of contents
/// when there is more than one subcategory, then the subcategory sections.
pub open spec fn cat_section(cat: CatV, columns: int, toc_name: Seq<char>) -> Seq<Seq<char>> {
    seq!["### "@ + cat.title, Seq::<char>::empty()] + (if cat.subs.len() > 1 {
        toc_lines(sub_titles(cat.subs)) + seq![Seq::<char>::empty()]
    } else {
        Seq::<Seq<char>>::empty()
    }) + sub_sections(cat, 0, columns, toc_name)
}

pub open spec fn cat_sections(cats: Seq<CatV>, i: int, columns: int, toc_name: Seq<char>) -> Seq<
    Seq<char>,
>
    decreases cats.len() - i,
{
    if i >= cats.len() {
        Seq::empty()
    } else {
        cat_section(cats[i], columns, toc_name) + cat_sections(cats, i + 1, columns, toc_name)
    }
}

/// Every line of the cheat sheet, in order.
pub open spec fn cheat_lines(
    repo: Seq<char>,
    r1: Seq<char>,
    r2: Seq<char>,
    columns: int,
    toc_name: Seq<char>,
    cats: Seq<CatV>,
) -> Seq<Seq<char>> {
    seq![
        "# "@ + repo,
        Seq::<char>::empty(),
        Seq::<char>::empty(),
        "This cheat sheet is automatically generated from ["@ + r1
            + "](https://api.github.com/emojis) and ["@ + r2
            + "](https://unicode.org/emoji/charts/full-emoji-list.html)."@,
        Seq::<char>::empty(),
        "## "@ + toc_name,
        Seq::<char>::empty(),
    ] + toc_lines(cat_titles(cats)) + seq![Seq::<char>::empty()] + cat_sections(
        cats,
        0,
        columns,
        toc_name,
    )
}

/// The lines joined with single newlines.
pub open spec fn join_lines(ls: Seq<Seq<char>>) -> Seq<char>
    decreases ls.len(),
{
    if ls.len() == 0 {
        Seq::empty()
    } else if ls.len() == 1 {
        ls[0]
    } else {
        join_lines(ls.drop_last()) + seq!['\n'] + ls.last()
    }
}

/// Every group anywhere in the tree is non-empty.
pub open spec fn tree_groups_nonempty(cats: Seq<CatV>) -> bool {
    forall|ci: int, si: int|
        0 <= ci < cats.len() && 0 <= si < cats[ci].subs.len() ==> groups_nonempty(
            #[trigger] cats[ci].subs[si].groups,
        )
}

fn push_line(lines: &mut Vec<String>, line: String)
    ensures
        final(lines).deep_view() == old(lines).deep_view().push(line@),
{
    let ghost old_dv = lines.deep_view();
    let ghost old_lv = lines@;
    let ghost lv = line@;
    proof {
        assert(old_dv.len() == old_lv.len());
    }
    lines.push(line);
    proof {
        assert(lines@ == old_lv.push(lines@[old_lv.len() as int]));
        assert(lines@[old_lv.len() as int]@ == lv);
        assert forall|x: int| 0 <= x < lines@.len() implies #[trigger] lines.deep_view()[x]
            == old_dv.push(lv)[x] by {
            if x < old_lv.len() {
                assert(lines@[x] == old_lv[x]);
                assert(lines.deep_view()[x] == old_dv[x]);
            } else {
                assert(lines.deep_view()[x] == lv);
            }
        }
        assert(lines.deep_view() =~= old_dv.push(lv));
    }
}

fn extend_lines(lines: &mut Vec<String>, more: Vec<String>)
    ensures
        final(lines).deep_view() == old(lines).deep_view() + more.deep_view(),
{
    let ghost mv = more.deep_view();
    let mut rest = more;
    let mut i: usize = 0;
    while i < rest.len()
        invariant
            rest.deep_view() == mv,
            mv.len() == rest@.len(),
            i <= rest@.len(),
            lines.deep_view() == old(lines).deep_view() + mv.take(i as int),
        decreases rest@.len() - i,
    {
        proof {
            assert(rest.deep_view()[i as int] == rest@[i as int]@);
        }
        let item = rest[i].clone();
        push_line(lines, item);
        proof {
            assert(lines.deep_view() =~= old(lines).deep_view() + mv.take(i + 1));
        }
        i = i + 1;
    }
    proof {
        assert(mv.take(mv.len() as int) =~= mv);
    }
}

fn cat_title_vec(cats: &Vec<Category>) -> (r: Vec<String>)
    ensures
        r.deep_view() == cat_titles(cats_view(cats@)),
{
    let mut r: Vec<String> = Vec::new();
    let mut i: usize = 0;
    while i < cats.len()
        invariant
            i <= cats@.len(),
            r.deep_view() == cat_titles(cats_view(cats@)).take(i as int),
        decreases cats@.len() - i,
    {
        let ghost old_dv = r.deep_view();
        let ghost old_rv = r@;
        proof {
            assert(old_dv.len() == i as int);
            assert(old_rv.len() == i as int);
            assert(cat_titles(cats_view(cats@))[i as int] == cats@[i as int].title@);
        }
        r.push(cats[i].title.clone());
        proof {
            assert forall|x: int| 0 <= x < r@.len() implies #[trigger] r.deep_view()[x]
                == cat_titles(cats_view(cats@)).take(i + 1)[x] by {
                if x < i {
                    assert(r@[x] == old_rv[x]);
                    assert(r.deep_view()[x] == old_dv[x]);
                } else {
                    assert(r@[x] == cats@[i as int].title);
                }
            }
            assert(r.deep_view() =~= cat_titles(cats_view(cats@)).take(i + 1));
        }
        i = i + 1;
    }
    proof {
        assert(cat_titles(cats_view(cats@)).take(cats@.len() as int) =~= cat_titles(
            cats_view(cats@),
        ));
    }
    r
}

fn sub_title_vec(subs: &Vec<Subcategory>) -> (r: Vec<String>)
    ensures
        r.deep_view() == sub_titles(Seq::new(subs@.len(), |i: int| subs@[i]@)),
{
    let ghost sv = Seq::new(subs@.len(), |i: int| subs@[i]@);
    let mut r: Vec<String> = Vec::new();
    let mut i: usize = 0;
    while i < subs.len()
        invariant
            sv == Seq::new(subs@.len(), |i: int| subs@[i]@),
            i <= subs@.len(),
            r.deep_view() == sub_titles(sv).take(i as int),
        decreases subs@.len() - i,
    {
        let ghost old_dv = r.deep_view();
        let ghost old_rv = r@;
        proof {
            assert(old_dv.len() == i as int);
            assert(old_rv.len() == i as int);
            assert(sub_titles(sv)[i as int] == subs@[i as int].title@);
        }
        r.push(subs[i].title.clone());
        proof {
            assert forall|x: int| 0 <= x < r@.len() implies #[trigger] r.deep_view()[x]
                == sub_titles(sv).take(i + 1)[x] by {
                if x < i {
                    assert(r@[x] == old_rv[x]);
                    assert(r.deep_view()[x] == old_dv[x]);
                } else {
                    assert(r@[x] == subs@[i as int].title);
                }
            }
            assert(r.deep_view() =~= sub_titles(sv).take(i + 1));
        }
        i = i + 1;
    }
    proof {
        assert(sub_titles(sv).take(subs@.len() as int) =~= sub_titles(sv));
    }
    r
}

fn make_top_link(title: &String) -> (r: String)
    ensures
        r@ == top_link(title@),
{
    let mut r = String::from_str("[top](#");
    let anchor = get_header_id(title.as_str());
    r.append(anchor.as_str());
    r.append(")");
    r
}

fn join_with_newlines(lines: &Vec<String>) -> (r: String)
    ensures
        r@ == join_lines(lines.deep_view()),
{
    let ghost lv = lines.deep_view();
    let mut out = String::new();
    let mut i: usize = 0;
    while i < lines.len()
        invariant
            lv == lines.deep_view(),
            lv.len() == lines@.len(),
            i <= lines@.len(),
            out@ == join_lines(lv.take(i as int)),
        decreases lines@.len() - i,
    {
        proof {
            reveal_strlit("\n");
            assert(lv.take(i + 1).drop_last() =~= lv.take(i as int));
            assert(lv.take(i + 1).last() == lv[i as int]);
            assert(lv[i as int] == lines@[i as int]@);
        }
        if i > 0 {
            out.append("\n");
            proof {
                assert("\n"@ =~= seq!['\n']);
            }
        }
        out.append(lines[i].as_str());
        proof {
            if i == 0 {
                assert(join_lines(lv.take(1)) == lv.take(1)[0]);
                assert(out@ =~= join_lines(lv.take(1)));
            } else {
                assert(join_lines(lv.take(i + 1)) == join_lines(lv.take(i as int)) + seq!['\n']
                    + lv[i as int]);
                assert(out@ =~= join_lines(lv.take(i + 1)));
            }
        }
        i = i + 1;
    }
    proof {
        assert(lv.take(lv.len() as int) =~= lv);
    }
    out
}

/// Assemble the whole cheat sheet document from the categorization tree: a
/// title, a note naming the two sources, a table of contents, and one
/// section with tables per category, joined with newlines.
pub fn generate_cheat_sheet(
    repo_name: &str,
    resource1: &str,
    resource2: &str,
    columns: usize,
    toc_name: &str,
    categorized_github_emoji_ids: &Categorized,
) -> (r: String)
    requires
        columns >= 1,
        tree_groups_nonempty(categorized_github_emoji_ids@),
    ensures
        r@ == join_lines(
            cheat_lines(
                repo_name@,
                resource1@,
                resource2@,
                columns as int,
                toc_name@,
                categorized_github_emoji_ids@,
            ),
        ),
{
    let ghost cv = categorized_github_emoji_ids@;
    let ghost full = cheat_lines(repo_name@, resource1@, resource2@, columns as int, toc_name@, cv);
    let cats = &categorized_github_emoji_ids.cats;
    proof {
        assert(cv =~= cats_view(cats@));
    }
    let mut lines: Vec<String> = Vec::new();
    let mut l = String::from_str("# ");
    l.append(repo_name);
    push_line(&mut lines, l);
    push_line(&mut lines, String::new());
    push_line(&mut lines, String::new());
    let mut l = String::from_str("This cheat sheet is automatically generated from [");
    l.append(resource1);
    l.append("](https://api.github.com/emojis) and [");
    l.append(resource2);
    l.append("](https://unicode.org/emoji/charts/full-emoji-list.html).");
    push_line(&mut lines, l);
    push_line(&mut lines, String::new());
    let mut l = String::from_str("## ");
    l.append(toc_name);
    push_line(&mut lines, l);
    push_line(&mut lines, String::new());
    let titles = cat_title_vec(cats);
    let toc = generate_toc(&titles);
    extend_lines(&mut lines, toc);
    push_line(&mut lines, String::new());
    proof {
        assert(lines.deep_view() + cat_sections(cv, 0, columns as int, toc_name@) =~= full);
    }
    let mut i: usize = 0;
    while i < cats.len()
        invariant
            cv == categorized_github_emoji_ids@,
            cv == cats_view(cats@),
            full == cheat_lines(repo_name@, resource1@, resource2@, columns as int, toc_name@, cv),
            tree_groups_nonempty(cv),
            columns >= 1,
            cv.len() == cats@.len(),
            i <= cats@.len(),
            lines.deep_view() + cat_sections(cv, i as int, columns as int, toc_name@) == full,
        decreases cats@.len() - i,
    {
        let ghost catv = cv[i as int];
        proof {
            assert(catv == cats@[i as int]@);
            assert(cat_sections(cv, i as int, columns as int, toc_name@) == cat_section(
                catv,
                columns as int,
                toc_name@,
            ) + cat_sections(cv, i + 1, columns as int, toc_name@));
        }
        let cat = &cats[i];
        let mut l = String::from_str("### ");
        l.append(cat.title.as_str());
        push_line(&mut lines, l);
        push_line(&mut lines, String::new());
        if cat.subs.len() > 1 {
            let stitles = sub_title_vec(&cat.subs);
            let stoc = generate_toc(&stitles);
            extend_lines(&mut lines, stoc);
            push_line(&mut lines, String::new());
        }
        proof {
            assert(lines.deep_view() + sub_sections(catv, 0, columns as int, toc_name@)
                + cat_sections(cv, i + 1, columns as int, toc_name@) =~= full);
        }
        let left = make_top_link(&cat.title);
        let right_name = String::from_str(toc_name);
        let right = make_top_link(&right_name);
        let mut j: usize = 0;
        while j < cat.subs.len()
            invariant
                cv == categorized_github_emoji_ids@,
                cv == cats_view(cats@),
                full == cheat_lines(
                    repo_name@,
                    resource1@,
                    resource2@,
                    columns as int,
                    toc_name@,
                    cv,
                ),
                tree_groups_nonempty(cv),
                columns >= 1,
                cv.len() == cats@.len(),
                i < cats@.len(),
                catv == cv[i as int],
                catv == cats@[i as int]@,
                j <= cat.subs@.len(),
                cat == cats@[i as int],
                catv.subs.len() == cat.subs@.len(),
                left@ == top_link(catv.title),
                right@ == top_link(toc_name@),
                lines.deep_view() + sub_sections(catv, j as int, columns as int, toc_name@)
                    + cat_sections(cv, i + 1, columns as int, toc_name@) == full,
            decreases cat.subs@.len() - j,
        {
            let ghost subv = catv.subs[j as int];
            proof {
                assert(subv == cat.subs@[j as int]@);
                assert(sub_sections(catv, j as int, columns as int, toc_name@) == (if subv.title.len() > 0 {
                    seq!["#### "@ + subv.title, Seq::<char>::empty()]
                } else {
                    Seq::<Seq<char>>::empty()
                }) + table_lines(subv.groups, columns as int, top_link(catv.title), top_link(toc_name@))
                    + seq![Seq::<char>::empty()] + sub_sections(catv, j + 1, columns as int, toc_name@));
            }
            let sub = &cat.subs[j];
            if !sub.title.as_str().is_empty() {
                let mut l = String::from_str("#### ");
                l.append(sub.title.as_str());
                push_line(&mut lines, l);
                push_line(&mut lines, String::new());
            }
            proof {
                assert(subv.groups == sub.groups.deep_view());
                assert(groups_nonempty(subv.groups));
            }
            let table = generate_table(&sub.groups, columns, left.as_str(), right.as_str());
            extend_lines(&mut lines, table);
            push_line(&mut lines, String::new());
            proof {
                assert(lines.deep_view() + sub_sections(catv, j + 1, columns as int, toc_name@)
                    + cat_sections(cv, i + 1, columns as int, toc_name@) =~= full);
            }
            j = j + 1;
        }
        proof {
            assert(sub_sections(catv, cat.subs@.len() as int, columns as int, toc_name@)
                =~= Seq::<Seq<char>>::empty());
            assert(lines.deep_view() + cat_sections(cv, i + 1, columns as int, toc_name@)
                =~= full);
        }
        i = i + 1;
    }
    proof {
        assert(cat_sections(cv, cv.len() as int, columns as int, toc_name@)
            =~= Seq::<Seq<char>>::empty());
        assert(lines.deep_view() =~= full);
    }
    join_with_newlines(&lines)
}

} // verus!
