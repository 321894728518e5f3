//! The table model and the projection/formatting engine.
//!
//! A table is a header row and data rows of [`Cell`]s, each cell annotated
//! with its display width and the maximum width of its column group. The
//! renderer pads each visible cell to that maximum, joins the survivors of
//! the active column selection with `" | "`, and truncates every line to the
//! terminal's width budget.

use vstd::prelude::*;
use vstd::string::StrSliceExecFns;
use vstd::string::StringExecFns;
use crate::command::Expr;
use crate::command::ExprView;
use crate::command::str_eq;

verus! {

/// The number of terminal display columns a string occupies; a function of
/// its characters alone.
pub uninterp spec fn display_width(s: Seq<char>) -> nat;

/// Relies on `unicode_width::UnicodeWidthStr::width`: the display width of
/// the string in terminal columns, determined by its characters alone.
#[verifier::external_body]
fn str_display_width(s: &str) -> (r: usize)
    ensures
        r as nat == display_width(s@),
{
    unicode_width::UnicodeWidthStr::width(s)
}

/// The prefix of a line that survives truncation to a display-width budget.
pub uninterp spec fn trimmed(line: Seq<char>, budget: nat) -> Seq<char>;

/// Relies on `promkit::grapheme::trim`: keeps the longest prefix of the
/// line's characters whose accumulated display width stays within the
/// budget, so the result is always a prefix of the line, determined by the
/// line and the budget alone.
#[verifier::external_body]
fn trim_line(line: &str, budget: usize) -> (r: String)
    ensures
        r@ == trimmed(line@, budget as nat),
        r@.len() <= line@.len(),
        r@ == line@.subrange(0, r@.len() as int),
{
    let styled = promkit::grapheme::StyledGraphemes::from_str(
        line,
        promkit::crossterm::style::ContentStyle::new(),
    );
    promkit::grapheme::trim(budget, &styled).to_string()
}

/// Mathematical model of a cell.
pub struct CellView {
    pub value: Seq<char>,
    pub width: nat,
    pub max_width: Option<nat>,
    pub index: nat,
}

/// One table value: its text, the text's display width, the maximum width
/// within the cell's column group, and its column position.
#[derive(Debug)]
pub struct Cell {
    value: String,
    width: usize,
    max_width: Option<usize>,
    index: usize,
}

impl DeepView for Cell {
    type V = CellView;

    closed spec fn deep_view(&self) -> CellView {
        CellView {
            value: self.value@,
            width: self.width as nat,
            max_width: match self.max_width {
                Some(w) => Some(w as nat),
                None => None,
            },
            index: self.index as nat,
        }
    }
}

impl Cell {
    /// A cell holding `value` at column `index`, its display width computed,
    /// its column-group maximum not yet assigned.
    pub fn new(value: &str, index: usize) -> (r: Cell)
        ensures
            r.deep_view() == (CellView {
                value: value@,
                width: display_width(value@),
                max_width: None::<nat>,
                index: index as nat,
            }),
    {
        let width = str_display_width(value);
        Cell { value: value.to_owned(), width, max_width: None, index }
    }

    /// The display width of the cell's text.
    pub fn width(&self) -> (r: usize)
        ensures
            r as nat == self.deep_view().width,
    {
        self.width
    }
}

/// The widths of a sequence of texts.
pub open spec fn widths_of(texts: Seq<Seq<char>>) -> Seq<nat> {
    Seq::new(texts.len(), |i: int| display_width(texts[i]))
}

/// The maximum among the first `i` entries of `ws` that exist, `0` if none
/// do.
pub open spec fn prefix_max(ws: Seq<nat>, i: int) -> nat
    decreases i,
{
    if i <= 0 {
        0
    } else {
        let rest = prefix_max(ws, i - 1);
        if i - 1 < ws.len() && ws[i - 1] > rest {
            ws[i - 1]
        } else {
            rest
        }
    }
}

/// The header cells built from the header texts: every one carries the
/// maximum width across all headers.
pub open spec fn built_header_cells(texts: Seq<Seq<char>>) -> Seq<CellView> {
    let mw = prefix_max(widths_of(texts), texts.len() as int);
    Seq::new(
        texts.len(),
        |i: int| CellView {
            value: texts[i],
            width: display_width(texts[i]),
            max_width: Some(mw),
            index: i as nat,
        },
    )
}

/// The cells of one data row: every one carries the maximum width among the
/// header columns the row reaches (alignment is against the headers, not
/// across all rows).
pub open spec fn built_row_cells(header_texts: Seq<Seq<char>>, texts: Seq<Seq<char>>) -> Seq<
    CellView,
> {
    let mw = prefix_max(widths_of(header_texts), texts.len() as int);
    Seq::new(
        texts.len(),
        |i: int| CellView {
            value: texts[i],
            width: display_width(texts[i]),
            max_width: Some(mw),
            index: i as nat,
        },
    )
}

/// Mathematical model of the table: header cells, row cells, and the active
/// column selection.
pub struct TableView {
    pub headers: Seq<CellView>,
    pub rows: Seq<Seq<CellView>>,
    pub selected_headers: Option<Seq<usize>>,
}

/// The table a fresh build produces: all columns visible.
pub open spec fn built_table(
    header_texts: Seq<Seq<char>>,
    row_texts: Seq<Seq<Seq<char>>>,
) -> TableView {
    TableView {
        headers: built_header_cells(header_texts),
        rows: Seq::new(row_texts.len(), |r: int| built_row_cells(header_texts, row_texts[r])),
        selected_headers: None,
    }
}

/// The table invariant: when a selection is active, every selected index is
/// a valid column position in `[0, headers.len())`.
pub open spec fn table_wf(t: TableView) -> bool {
    match t.selected_headers {
        Some(s) => forall|k: int| 0 <= k < s.len() ==> (#[trigger] s[k]) < t.headers.len(),
        None => true,
    }
}

/// The loaded table and the column selection the renderer projects it
/// through.
pub struct CsvRenderer {
    headers: Vec<Cell>,
    rows: Vec<Vec<Cell>>,
    selected_headers: Option<Vec<usize>>,
}

impl DeepView for CsvRenderer {
    type V = TableView;

    closed spec fn deep_view(&self) -> TableView {
        TableView {
            headers: self.headers.deep_view(),
            rows: self.rows.deep_view(),
            selected_headers: match self.selected_headers {
                Some(ref v) => Some(v@),
                None => None,
            },
        }
    }
}

impl CsvRenderer {
    /// Builds the table from header texts and row texts: computes every
    /// cell's display width and its column group's maximum, and leaves all
    /// columns visible.
    pub fn build(header_texts: &Vec<String>, row_texts: &Vec<Vec<String>>) -> (r: CsvRenderer)
        ensures
            r.deep_view() == built_table(header_texts.deep_view(), row_texts.deep_view()),
            table_wf(r.deep_view()),
    {
        let ghost ht = header_texts.deep_view();
        let n = header_texts.len();
        let mut header_widths: Vec<usize> = Vec::new();
        let mut header_max: usize = 0;
        let mut i: usize = 0;
        while i < n
            invariant
                ht == header_texts.deep_view(),
                n == header_texts@.len(),
                i <= n,
                header_widths@.len() == i,
                forall|k: int| 0 <= k < i ==> header_widths@[k] as nat == display_width(ht[k]),
                header_max as nat == prefix_max(widths_of(ht), i as int),
            decreases n - i,
        {
            let w = str_display_width(header_texts[i].as_str());
            proof {
                assert(ht[i as int] == header_texts@[i as int]@);
                assert(widths_of(ht)[i as int] == display_width(ht[i as int]));
            }
            if w > header_max {
                header_max = w;
            }
            header_widths.push(w);
            i += 1;
        }
        let mut headers: Vec<Cell> = Vec::new();
        let mut j: usize = 0;
        while j < n
            invariant
                ht == header_texts.deep_view(),
                n == header_texts@.len(),
                j <= n,
                header_max as nat == prefix_max(widths_of(ht), n as int),
                headers.deep_view() =~= built_header_cells(ht).subrange(0, j as int),
            decreases n - j,
        {
            let ghost prev = headers.deep_view();
            let text = header_texts[j].as_str();
            let width = str_display_width(text);
            headers.push(Cell { value: text.to_owned(), width, max_width: Some(header_max), index: j });
            proof {
                assert(ht[j as int] == header_texts@[j as int]@);
                assert(headers.deep_view() =~= prev.push(built_header_cells(ht)[j as int]));
                assert(headers.deep_view() =~= built_header_cells(ht).subrange(0, j + 1));
            }
            j += 1;
        }
        proof {
            assert(headers.deep_view() =~= built_header_cells(ht));
        }
        let ghost rt = row_texts.deep_view();
        let m = row_texts.len();
        let mut rows: Vec<Vec<Cell>> = Vec::new();
        let mut r: usize = 0;
        proof {
            assert(rows.deep_view() =~= built_table(ht, rt).rows.subrange(0, 0));
        }
        while r < m
            invariant
                ht == header_texts.deep_view(),
                rt == row_texts.deep_view(),
                m == row_texts@.len(),
                r <= m,
                header_widths@.len() == header_texts@.len(),
                forall|k: int| 0 <= k < header_widths@.len() ==> header_widths@[k] as nat
                    == display_width(ht[k]),
                rows.deep_view() =~= built_table(ht, rt).rows.subrange(0, r as int),
            decreases m - r,
        {
            let ghost prev_rows = rows.deep_view();
            let row = &row_texts[r];
            let ghost rv = rt[r as int];
            proof {
                assert(rv == row_texts@[r as int].deep_view());
            }
            let rn = row.len();
            let mut row_max: usize = 0;
            let mut k: usize = 0;
            while k < rn
                invariant
                    ht == header_texts.deep_view(),
                    rv == row.deep_view(),
                    rn == row@.len(),
                    k <= rn,
                    header_widths@.len() == header_texts@.len(),
                    forall|q: int| 0 <= q < header_widths@.len() ==> header_widths@[q] as nat
                        == display_width(ht[q]),
                    row_max as nat == prefix_max(widths_of(ht), k as int),
                decreases rn - k,
            {
                if k < header_widths.len() {
                    let hw = header_widths[k];
                    proof {
                        assert(widths_of(ht)[k as int] == display_width(ht[k as int]));
                    }
                    if hw > row_max {
                        row_max = hw;
                    }
                }
                k += 1;
            }
            let mut cells: Vec<Cell> = Vec::new();
            let mut c: usize = 0;
            while c < rn
                invariant
                    rv == row.deep_view(),
                    rn == row@.len(),
                    c <= rn,
                    row_max as nat == prefix_max(widths_of(ht), rn as int),
                    cells.deep_view() =~= built_row_cells(ht, rv).subrange(0, c as int),
                decreases rn - c,
            {
                let ghost prev = cells.deep_view();
                let text = row[c].as_str();
                let width = str_display_width(text);
                cells.push(Cell { value: text.to_owned(), width, max_width: Some(row_max), index: c });
                proof {
                    assert(rv[c as int] == row@[c as int]@);
                    assert(cells.deep_view() =~= prev.push(built_row_cells(ht, rv)[c as int]));
                    assert(cells.deep_view() =~= built_row_cells(ht, rv).subrange(0, c + 1));
                }
                c += 1;
            }
            proof {
                assert(cells.deep_view() =~= built_row_cells(ht, rv));
            }
            rows.push(cells);
            proof {
                assert(rows.deep_view() =~= prev_rows.push(built_row_cells(ht, rv)));
                assert(rows.deep_view() =~= built_table(ht, rt).rows.subrange(0, r + 1));
            }
            r += 1;
        }
        proof {
            assert(rows.deep_view() =~= built_table(ht, rt).rows);
        }
        CsvRenderer { headers, rows, selected_headers: None }
    }
}

/// Whether `x` occurs in `v`.
fn contains_usize(v: &Vec<usize>, x: usize) -> (r: bool)
    ensures
        r == v@.contains(x),
{
    let mut i: usize = 0;
    while i < v.len()
        invariant
            i <= v@.len(),
            forall|j: int| 0 <= j < i ==> v@[j] != x,
        decreases v@.len() - i,
    {
        if v[i] == x {
            return true;
        }
        i += 1;
    }
    false
}

/// Whether the text `x` occurs in `names`.
fn contains_string(names: &Vec<String>, x: &str) -> (r: bool)
    ensures
        r == names.deep_view().contains(x@),
{
    let mut i: usize = 0;
    while i < names.len()
        invariant
            i <= names@.len(),
            forall|j: int| 0 <= j < i ==> names.deep_view()[j] != x@,
        decreases names@.len() - i,
    {
        if str_eq(names[i].as_str(), x) {
            proof {
                assert(names.deep_view()[i as int] == x@);
            }
            return true;
        }
        i += 1;
    }
    false
}

/// The column indices, in increasing order, among the first `i` header cells
/// whose text occurs in `names`.
pub open spec fn selection_upto(h: Seq<CellView>, names: Seq<Seq<char>>, i: int) -> Seq<usize>
    decreases i,
{
    if i <= 0 {
        Seq::empty()
    } else {
        let rest = selection_upto(h, names, i - 1);
        if 0 <= i - 1 < h.len() && names.contains(h[i - 1].value) {
            rest.push((i - 1) as usize)
        } else {
            rest
        }
    }
}

/// The column indices of the header cells whose text occurs in `names`:
/// header names absent from the table are silently ignored.
pub open spec fn selection_of(h: Seq<CellView>, names: Seq<Seq<char>>) -> Seq<usize> {
    selection_upto(h, names, h.len() as int)
}

impl CsvRenderer {
    /// The indices of the header cells whose value occurs in `names`.
    fn compute_selection(headers: &Vec<Cell>, names: &Vec<String>) -> (r: Vec<usize>)
        ensures
            r@ == selection_of(headers.deep_view(), names.deep_view()),
    {
        let ghost hdv = headers.deep_view();
        let ghost ndv = names.deep_view();
        let mut selected: Vec<usize> = Vec::new();
        let mut i: usize = 0;
        proof {
            assert(selected@ =~= selection_upto(hdv, ndv, 0));
        }
        while i < headers.len()
            invariant
                hdv == headers.deep_view(),
                ndv == names.deep_view(),
                i <= headers@.len(),
                selected@ =~= selection_upto(hdv, ndv, i as int),
            decreases headers@.len() - i,
        {
            proof {
                assert(hdv[i as int] == headers@[i as int].deep_view());
            }
            if contains_string(names, headers[i].value.as_str()) {
                selected.push(i);
            }
            i += 1;
        }
        selected
    }

    /// Restricts the visible columns to those whose header text occurs in
    /// `headers`; names that match no header are silently ignored.
    pub fn select_headers(&mut self, headers: Vec<&str>)
        ensures
            final(self).deep_view().headers == old(self).deep_view().headers,
            final(self).deep_view().rows == old(self).deep_view().rows,
            final(self).deep_view().selected_headers == Some(
                selection_of(old(self).deep_view().headers, headers.deep_view()),
            ),
            table_wf(final(self).deep_view()),
    {
        proof {
            lemma_selection_valid(old(self).deep_view().headers, headers.deep_view());
        }
        let ghost ndv = headers.deep_view();
        let mut names: Vec<String> = Vec::new();
        let mut i: usize = 0;
        proof {
            assert(names.deep_view() =~= ndv.subrange(0, 0));
        }
        while i < headers.len()
            invariant
                ndv == headers.deep_view(),
                i <= headers@.len(),
                names.deep_view() =~= ndv.subrange(0, i as int),
            decreases headers@.len() - i,
        {
            let ghost prev = names.deep_view();
            names.push(headers[i].to_owned());
            proof {
                assert(ndv[i as int] == headers@[i as int]@);
                assert(names.deep_view() =~= prev.push(ndv[i as int]));
                assert(names.deep_view() =~= ndv.subrange(0, i + 1));
            }
            i += 1;
        }
        proof {
            assert(names.deep_view() =~= ndv);
        }
        let selection = Self::compute_selection(&self.headers, &names);
        self.selected_headers = Some(selection);
    }
}

/// The position, among the first `i` expressions, of the last `ColumnFilter`,
/// if any.
pub open spec fn last_filter_at(es: Seq<ExprView>, i: int) -> Option<int>
    decreases i,
{
    if i <= 0 {
        None
    } else if 0 <= i - 1 < es.len() && es[i - 1] is ColumnFilter {
        Some(i - 1)
    } else {
        last_filter_at(es, i - 1)
    }
}

pub proof fn lemma_last_filter_at_props(es: Seq<ExprView>, i: int)
    requires
        0 <= i <= es.len(),
    ensures
        match last_filter_at(es, i) {
            Some(k) => 0 <= k < i && es[k] is ColumnFilter,
            None => true,
        },
    decreases i,
{
    if i > 0 && !(es[i - 1] is ColumnFilter) {
        lemma_last_filter_at_props(es, i - 1);
    }
}

/// The argument texts among the first `i` items of an argument list: each
/// `Arg` contributes its value, anything else is skipped.
pub open spec fn arg_names_upto(items: Seq<ExprView>, i: int) -> Seq<Seq<char>>
    decreases i,
{
    if i <= 0 {
        Seq::empty()
    } else {
        let rest = arg_names_upto(items, i - 1);
        if 0 <= i - 1 < items.len() && items[i - 1] is Arg {
            rest.push(items[i - 1]->Arg_0)
        } else {
            rest
        }
    }
}

/// The argument texts of an argument list.
pub open spec fn arg_names(items: Seq<ExprView>) -> Seq<Seq<char>> {
    arg_names_upto(items, items.len() as int)
}

/// The column names a filter expression asks for.
pub open spec fn filter_names(f: ExprView) -> Seq<Seq<char>> {
    match f {
        ExprView::ColumnFilter(inner) => match *inner {
            ExprView::ArgList(items) => arg_names(items),
            ExprView::Arg(v) => seq![v],
            ExprView::ColumnFilter(_) => Seq::empty(),
        },
        _ => Seq::empty(),
    }
}

/// The selection after applying a parsed expression sequence: the last
/// `ColumnFilter` wins; with no filter present the selection is unchanged.
pub open spec fn apply_exprs_selection(
    h: Seq<CellView>,
    es: Seq<ExprView>,
    old_sel: Option<Seq<usize>>,
) -> Option<Seq<usize>> {
    match last_filter_at(es, es.len() as int) {
        Some(k) => Some(selection_of(h, filter_names(es[k]))),
        None => old_sel,
    }
}

impl CsvRenderer {
    /// Applies a parsed expression sequence: the most recent `ColumnFilter`
    /// becomes the active selection; a sequence without one (from an empty
    /// query) leaves the selection as it was.
    pub fn set_exprs(&mut self, exprs: Vec<Expr>)
        ensures
            final(self).deep_view().headers == old(self).deep_view().headers,
            final(self).deep_view().rows == old(self).deep_view().rows,
            final(self).deep_view().selected_headers == apply_exprs_selection(
                old(self).deep_view().headers,
                exprs.deep_view(),
                old(self).deep_view().selected_headers,
            ),
            table_wf(old(self).deep_view()) ==> table_wf(final(self).deep_view()),
    {
        let ghost es = exprs.deep_view();
        let n = exprs.len();
        let mut found: Option<usize> = None;
        let mut i: usize = 0;
        while i < n
            invariant
                es == exprs.deep_view(),
                n == exprs@.len(),
                i <= n,
                match found {
                    Some(k) => last_filter_at(es, i as int) == Some(k as int),
                    None => last_filter_at(es, i as int) is None,
                },
            decreases n - i,
        {
            proof {
                assert(es[i as int] == exprs@[i as int].deep_view());
            }
            match &exprs[i] {
                Expr::ColumnFilter(_) => {
                    found = Some(i);
                },
                _ => {},
            }
            i += 1;
        }
        match found {
            None => {
            },
            Some(k) => {
                proof {
                    lemma_last_filter_at_props(es, es.len() as int);
                    assert(es[k as int] == exprs@[k as int].deep_view());
                }
                let mut names: Vec<String> = Vec::new();
                match &exprs[k] {
                    Expr::ColumnFilter(inner) => {
                        proof {
                            assert(es[k as int] == ExprView::ColumnFilter(
                                Box::new((**inner).deep_view()),
                            ));
                        }
                        match &**inner {
                            Expr::ArgList(items) => {
                                let ghost idv = (**inner).deep_view();
                                let ghost itemsv = items@;
                                proof {
                                    assert(idv is ArgList);
                                    assert(filter_names(es[k as int]) == arg_names(
                                        idv->ArgList_0,
                                    ));
                                    assert(idv->ArgList_0.len() == itemsv.len());
                                    assert(forall|q: int|
                                        0 <= q < itemsv.len() ==> idv->ArgList_0[q]
                                            == itemsv[q].deep_view());
                                    assert(names.deep_view() =~= arg_names_upto(
                                        idv->ArgList_0,
                                        0,
                                    ));
                                }
                                let m = items.len();
                                let mut j: usize = 0;
                                while j < m
                                    invariant
                                        idv is ArgList,
                                        itemsv == items@,
                                        m == items@.len(),
                                        j <= m,
                                        idv->ArgList_0.len() == itemsv.len(),
                                        forall|q: int|
                                            0 <= q < itemsv.len() ==> idv->ArgList_0[q]
                                                == itemsv[q].deep_view(),
                                        names.deep_view() =~= arg_names_upto(
                                            idv->ArgList_0,
                                            j as int,
                                        ),
                                    decreases m - j,
                                {
                                    let ghost prev = names.deep_view();
                                    match &items[j] {
                                        Expr::Arg(v) => {
                                            names.push(v.clone());
                                            proof {
                                                assert(names.deep_view() =~= prev.push(
                                                    idv->ArgList_0[j as int]->Arg_0,
                                                ));
                                            }
                                        },
                                        _ => {},
                                    }
                                    j += 1;
                                }
                                proof {
                                    assert(names.deep_view() =~= arg_names(idv->ArgList_0));
                                }
                            },
                            Expr::Arg(v) => {
                                names.push(v.clone());
                                proof {
                                    assert(names.deep_view() =~= seq![v@]);
                                }
                            },
                            Expr::ColumnFilter(_) => {
                            },
                        }
                    },
                    _ => {
                    },
                }
                proof {
                    assert(names.deep_view() =~= filter_names(es[k as int]));
                }
                proof {
                    lemma_selection_valid(old(self).deep_view().headers, names.deep_view());
                }
                let selection = Self::compute_selection(&self.headers, &names);
                self.selected_headers = Some(selection);
            },
        }
    }
}

/// A run of `n` spaces.
pub open spec fn spaces(n: nat) -> Seq<char> {
    Seq::new(n, |i: int| ' ')
}

/// How many spaces a cell is padded with: up to the maximum of its group's
/// width ceiling and its own width, so padding never removes text.
pub open spec fn pad_width(c: CellView) -> nat {
    let mw = match c.max_width {
        Some(w) => w,
        None => 0,
    };
    if mw > c.width {
        (mw - c.width) as nat
    } else {
        0
    }
}

/// A cell's text right-padded with spaces to its column group's width.
pub open spec fn padded_cell(c: CellView) -> Seq<char> {
    c.value + spaces(pad_width(c))
}

/// Whether the column at position `i` is visible under the selection: with
/// no selection active, every column is.
pub open spec fn is_selected(sel: Option<Seq<usize>>, i: int) -> bool {
    match sel {
        Some(s) => exists|j: int| 0 <= j < s.len() && s[j] as int == i,
        None => true,
    }
}

/// The padded texts of the visible cells among the first `i`, in order.
pub open spec fn kept_parts_upto(cells: Seq<CellView>, sel: Option<Seq<usize>>, i: int) -> Seq<
    Seq<char>,
>
    decreases i,
{
    if i <= 0 {
        Seq::empty()
    } else {
        let rest = kept_parts_upto(cells, sel, i - 1);
        if 0 <= i - 1 < cells.len() && is_selected(sel, i - 1) {
            rest.push(padded_cell(cells[i - 1]))
        } else {
            rest
        }
    }
}

/// The padded texts of all visible cells, in order.
pub open spec fn kept_parts(cells: Seq<CellView>, sel: Option<Seq<usize>>) -> Seq<Seq<char>> {
    kept_parts_upto(cells, sel, cells.len() as int)
}

/// The parts joined with the literal separator `" | "`.
pub open spec fn join_parts(parts: Seq<Seq<char>>) -> Seq<char>
    decreases parts.len(),
{
    if parts.len() == 0 {
        Seq::empty()
    } else if parts.len() == 1 {
        parts[0]
    } else {
        join_parts(parts.drop_last()) + " | "@ + parts.last()
    }
}

/// One display line: the visible cells of the row, padded and pipe-joined,
/// before truncation.
pub open spec fn line_of(cells: Seq<CellView>, sel: Option<Seq<usize>>) -> Seq<char> {
    join_parts(kept_parts(cells, sel))
}

/// The full rendered frame: the header line followed by one line per row,
/// each truncated to the width budget.
pub open spec fn spec_render(t: TableView, budget: nat) -> Seq<Seq<char>> {
    Seq::new(
        t.rows.len() + 1,
        |i: int|
            if i == 0 {
                trimmed(line_of(t.headers, t.selected_headers), budget)
            } else {
                trimmed(line_of(t.rows[i - 1], t.selected_headers), budget)
            },
    )
}

/// A cell's text followed by its padding spaces.
fn padded_text(cell: &Cell) -> (r: String)
    ensures
        r@ == padded_cell(cell.deep_view()),
{
    let pad = match cell.max_width {
        Some(mw) => if mw > cell.width {
            mw - cell.width
        } else {
            0
        },
        None => 0,
    };
    let mut r = cell.value.clone();
    let mut k: usize = 0;
    proof {
        assert(r@ =~= cell.deep_view().value + spaces(0));
    }
    while k < pad
        invariant
            k <= pad,
            pad as nat == pad_width(cell.deep_view()),
            r@ =~= cell.deep_view().value + spaces(k as nat),
        decreases pad - k,
    {
        r.append(" ");
        proof {
            reveal_strlit(" ");
            assert(r@ =~= cell.deep_view().value + spaces((k + 1) as nat));
        }
        k += 1;
    }
    r
}

/// Whether the column at position `i` survives the selection.
fn selected_exec(sel: &Option<Vec<usize>>, i: usize) -> (r: bool)
    ensures
        r == is_selected(sel.deep_view(), i as int),
{
    match sel {
        Some(v) => {
            let r = contains_usize(v, i);
            proof {
                let s = sel.deep_view()->0;
                assert(s =~= v@);
                if r {
                    let j = choose|j: int| 0 <= j < v@.len() && v@[j] == i;
                    assert(s[j] as int == i as int);
                } else {
                    if is_selected(sel.deep_view(), i as int) {
                        let j = choose|j: int| 0 <= j < s.len() && s[j] as int == i as int;
                        assert(v@[j] == i);
                        assert(v@.contains(i));
                    }
                }
            }
            r
        },
        None => true,
    }
}

/// One row of cells rendered as a display line: visible cells padded and
/// joined with `" | "`, not yet truncated.
fn render_line(cells: &Vec<Cell>, sel: &Option<Vec<usize>>) -> (line: String)
    ensures
        line@ == line_of(cells.deep_view(), sel.deep_view()),
{
    let ghost cdv = cells.deep_view();
    let ghost sdv = sel.deep_view();
    let mut line = String::new();
    let mut count: usize = 0;
    let mut i: usize = 0;
    proof {
        assert(line@ =~= join_parts(kept_parts_upto(cdv, sdv, 0)));
    }
    while i < cells.len()
        invariant
            cdv == cells.deep_view(),
            sdv == sel.deep_view(),
            i <= cells@.len(),
            count <= i,
            count as int == kept_parts_upto(cdv, sdv, i as int).len(),
            line@ == join_parts(kept_parts_upto(cdv, sdv, i as int)),
        decreases cells@.len() - i,
    {
        proof {
            assert(cdv[i as int] == cells@[i as int].deep_view());
        }
        let keep = selected_exec(sel, i);
        let ghost prev_parts = kept_parts_upto(cdv, sdv, i as int);
        if keep {
            let part = padded_text(&cells[i]);
            if count > 0 {
                line.append(" | ");
            }
            line.append(part.as_str());
            count += 1;
            proof {
                let parts = kept_parts_upto(cdv, sdv, i + 1);
                assert(parts == prev_parts.push(padded_cell(cdv[i as int])));
                assert(parts.drop_last() =~= prev_parts);
                assert(parts.last() == padded_cell(cdv[i as int]));
                if prev_parts.len() == 0 {
                    assert(line@ =~= join_parts(parts));
                } else {
                    assert(line@ =~= join_parts(parts));
                }
            }
        } else {
            proof {
                assert(kept_parts_upto(cdv, sdv, i + 1) == prev_parts);
            }
        }
        i += 1;
    }
    proof {
        assert(kept_parts_upto(cdv, sdv, cdv.len() as int) == kept_parts(cdv, sdv));
    }
    line
}

impl CsvRenderer {
    /// Renders the table through the active selection: the header line, then
    /// one line per data row in table order, each line truncated to the
    /// display-width budget. Pure: two renders of one table give one frame.
    pub fn render(&self, budget: usize) -> (r: Vec<String>)
        ensures
            r.deep_view() == spec_render(self.deep_view(), budget as nat),
    {
        let ghost t = self.deep_view();
        let ghost goal = spec_render(t, budget as nat);
        let mut out: Vec<String> = Vec::new();
        let header_line = render_line(&self.headers, &self.selected_headers);
        let trimmed_header = trim_line(header_line.as_str(), budget);
        out.push(trimmed_header);
        proof {
            assert(t.selected_headers == self.selected_headers.deep_view());
            assert(out.deep_view() =~= goal.subrange(0, 1));
        }
        let m = self.rows.len();
        let mut r_i: usize = 0;
        while r_i < m
            invariant
                t == self.deep_view(),
                goal == spec_render(t, budget as nat),
                m == self.rows@.len(),
                r_i <= m,
                out.deep_view() =~= goal.subrange(0, r_i + 1),
            decreases m - r_i,
        {
            let ghost prev = out.deep_view();
            proof {
                assert(t.rows[r_i as int] == self.rows@[r_i as int].deep_view());
                assert(t.selected_headers == self.selected_headers.deep_view());
            }
            let line = render_line(&self.rows[r_i], &self.selected_headers);
            let trimmed_row = trim_line(line.as_str(), budget);
            out.push(trimmed_row);
            proof {
                assert(out.deep_view() =~= prev.push(goal[r_i + 1]));
                assert(out.deep_view() =~= goal.subrange(0, r_i + 2));
            }
            r_i += 1;
        }
        proof {
            assert(out.deep_view() =~= goal);
        }
        out
    }
}

/// Padding never shortens a cell's text: the padded form starts with the
/// original value and continues with spaces alone.
pub proof fn lemma_padding_preserves_value(c: CellView)
    ensures
        padded_cell(c).len() == c.value.len() + pad_width(c),
        padded_cell(c).subrange(0, c.value.len() as int) == c.value,
        forall|j: int| c.value.len() <= j < padded_cell(c).len() ==> padded_cell(c)[j] == ' ',
{
    assert(padded_cell(c).subrange(0, c.value.len() as int) =~= c.value);
}

pub proof fn lemma_kept_parts_upto_len(cells: Seq<CellView>, sel: Option<Seq<usize>>, i: int)
    requires
        0 <= i,
    ensures
        kept_parts_upto(cells, sel, i).len() <= i,
        (sel is None && i <= cells.len()) ==> kept_parts_upto(cells, sel, i).len() == i,
    decreases i,
{
    if i > 0 {
        lemma_kept_parts_upto_len(cells, sel, i - 1);
    }
}

/// Selection containment: a line never renders more cells than the row has,
/// and renders exactly all of them while no filter has been applied.
pub proof fn lemma_selection_containment(cells: Seq<CellView>, sel: Option<Seq<usize>>)
    ensures
        kept_parts(cells, sel).len() <= cells.len(),
        sel is None ==> kept_parts(cells, sel).len() == cells.len(),
{
    lemma_kept_parts_upto_len(cells, sel, cells.len() as int);
}

pub proof fn lemma_selection_upto_valid(h: Seq<CellView>, names: Seq<Seq<char>>, i: int)
    requires
        0 <= i,
    ensures
        forall|k: int|
            #![trigger selection_upto(h, names, i)[k]]
            0 <= k < selection_upto(h, names, i).len() ==> selection_upto(h, names, i)[k]
                < h.len(),
    decreases i,
{
    if i > 0 {
        lemma_selection_upto_valid(h, names, i - 1);
        let rest = selection_upto(h, names, i - 1);
        let cur = selection_upto(h, names, i);
        assert forall|k: int| 0 <= k < cur.len() implies cur[k] < h.len() by {
            if 0 <= i - 1 < h.len() && names.contains(h[i - 1].value) {
                assert(cur == rest.push((i - 1) as usize));
                if k < rest.len() {
                    assert(cur[k] == rest[k]);
                } else {
                    assert(cur[k] == (i - 1) as usize);
                }
            } else {
                assert(cur == rest);
            }
        }
    }
}

/// The active selection is always a set of valid column positions: every
/// index a filter produces lies within the header row.
pub proof fn lemma_selection_valid(h: Seq<CellView>, names: Seq<Seq<char>>)
    ensures
        forall|k: int|
            #![trigger selection_of(h, names)[k]]
            0 <= k < selection_of(h, names).len() ==> selection_of(h, names)[k] < h.len(),
{
    lemma_selection_upto_valid(h, names, h.len() as int);
}

/// With no selection active, a line renders every cell: its parts are
/// exactly the padded cells of the row, in order.
pub proof fn lemma_no_selection_renders_every_cell(cells: Seq<CellView>, i: int)
    requires
        0 <= i <= cells.len(),
    ensures
        kept_parts_upto(cells, None, i).len() == i,
        forall|k: int|
            0 <= k < i ==> #[trigger] kept_parts_upto(cells, None, i)[k] == padded_cell(
                cells[k],
            ),
    decreases i,
{
    if i > 0 {
        lemma_no_selection_renders_every_cell(cells, i - 1);
    }
}

/// Applying one parsed expression sequence twice in a row yields the same
/// selection as applying it once, and therefore an identical rendered frame.
pub proof fn lemma_apply_exprs_idempotent(t: TableView, es: Seq<ExprView>, budget: nat)
    ensures
        ({
            let once = apply_exprs_selection(t.headers, es, t.selected_headers);
            let twice = apply_exprs_selection(t.headers, es, once);
            &&& twice == once
            &&& spec_render(
                TableView { headers: t.headers, rows: t.rows, selected_headers: twice },
                budget,
            ) == spec_render(
                TableView { headers: t.headers, rows: t.rows, selected_headers: once },
                budget,
            )
        }),
{
}

} // verus!
