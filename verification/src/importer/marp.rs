//! Marp Markdown importer: front matter, slide splitting and per-slide
//! parsing into the `Out*` intermediate form that the YAML emitter writes.
use vstd::prelude::*;

use crate::text::{
    back_char, chars_of, contains_seq, copy_range, debug_quoted, debug_str, eq_char, eq_chars,
    find_char, find_char_at, find_char_from, lemma_find_char_from, lines_of, push_all, push_str,
    skip_char, skip_while, split_char, split_on, starts_with, string_of, trim, trim_by,
    trim_matches_char, trim_start, trim_start_ws, trim_ws, views,
};

verus! {

// ── output model ────────────────────────────────────────────────────────────

#[derive(Debug)]
pub struct OutPresentation {
    pub title: Option<String>,
    pub theme: Option<String>,
    pub paginate: Option<bool>,
    pub slides: Vec<OutSlide>,
}

#[derive(Debug)]
pub struct OutSlide {
    pub title: Option<String>,
    /// (text, level): set from the first heading after the title.
    pub subtitle: Option<(String, u8)>,
    pub content_lines: Vec<String>,
    pub bullets: Vec<String>,
    pub code: Option<OutCode>,
    pub image: Option<String>,
    pub table: Option<OutTable>,
}

#[derive(Debug)]
pub struct OutCode {
    pub language: Option<String>,
    pub source: String,
}

#[derive(Debug)]
pub struct OutTable {
    pub headers: Vec<String>,
    pub rows: Vec<Vec<String>>,
    /// One per column: "left" | "center" | "right".
    pub aligns: Vec<&'static str>,
}

pub struct SpecCode {
    pub language: Option<Seq<char>>,
    pub source: Seq<char>,
}

pub struct SpecTable {
    pub headers: Seq<Seq<char>>,
    pub rows: Seq<Seq<Seq<char>>>,
    pub aligns: Seq<Seq<char>>,
}

pub struct SpecSlide {
    pub title: Option<Seq<char>>,
    pub subtitle: Option<(Seq<char>, u8)>,
    pub content_lines: Seq<Seq<char>>,
    pub bullets: Seq<Seq<char>>,
    pub code: Option<SpecCode>,
    pub image: Option<Seq<char>>,
    pub table: Option<SpecTable>,
}

pub struct SpecPresentation {
    pub title: Option<Seq<char>>,
    pub theme: Option<Seq<char>>,
    pub paginate: Option<bool>,
    pub slides: Seq<SpecSlide>,
}

pub open spec fn opt_view(o: Option<String>) -> Option<Seq<char>> {
    match o {
        Some(s) => Some(s@),
        None => None,
    }
}

pub open spec fn strs(v: Seq<String>) -> Seq<Seq<char>> {
    v.map_values(|s: String| s@)
}

pub open spec fn lits(v: Seq<&'static str>) -> Seq<Seq<char>> {
    v.map_values(|s: &'static str| s@)
}

impl View for OutCode {
    type V = SpecCode;

    open spec fn view(&self) -> SpecCode {
        SpecCode { language: opt_view(self.language), source: self.source@ }
    }
}

impl View for OutTable {
    type V = SpecTable;

    open spec fn view(&self) -> SpecTable {
        SpecTable {
            headers: strs(self.headers@),
            rows: self.rows@.map_values(|r: Vec<String>| strs(r@)),
            aligns: lits(self.aligns@),
        }
    }
}

impl View for OutSlide {
    type V = SpecSlide;

    open spec fn view(&self) -> SpecSlide {
        SpecSlide {
            title: opt_view(self.title),
            subtitle: match self.subtitle {
                Some((t, l)) => Some((t@, l)),
                None => None,
            },
            content_lines: strs(self.content_lines@),
            bullets: strs(self.bullets@),
            code: match self.code {
                Some(c) => Some(c@),
                None => None,
            },
            image: opt_view(self.image),
            table: match self.table {
                Some(t) => Some(t@),
                None => None,
            },
        }
    }
}

impl View for OutPresentation {
    type V = SpecPresentation;

    open spec fn view(&self) -> SpecPresentation {
        SpecPresentation {
            title: opt_view(self.title),
            theme: opt_view(self.theme),
            paginate: self.paginate,
            slides: self.slides@.map_values(|s: OutSlide| s@),
        }
    }
}

pub open spec fn empty_slide() -> SpecSlide {
    SpecSlide {
        title: None,
        subtitle: None,
        content_lines: Seq::empty(),
        bullets: Seq::empty(),
        code: None,
        image: None,
        table: None,
    }
}

impl OutSlide {
    /// A slide with no title, no content and nothing else.
    pub fn new() -> (s: OutSlide)
        ensures
            s@ == empty_slide(),
    {
        let s = OutSlide {
            title: None,
            subtitle: None,
            content_lines: Vec::new(),
            bullets: Vec::new(),
            code: None,
            image: None,
            table: None,
        };
        assert(s@.content_lines =~= Seq::<Seq<char>>::empty());
        assert(s@.bullets =~= Seq::<Seq<char>>::empty());
        s
    }
}

// ── line classifiers ────────────────────────────────────────────────────────

/// `(level, text)` of a Markdown ATX heading: 1 to 6 `#` and a space.
pub open spec fn spec_parse_heading(t: Seq<char>) -> Option<(u8, Seq<char>)> {
    let line = trim_start(t);
    let h = skip_while(line, eq_char('#'), 0);
    if h == 0 || h > 6 {
        None
    } else if !(h < line.len() && line[h] == ' ') {
        None
    } else {
        Some((h as u8, trim(line.skip(h))))
    }
}

/// Returns `(level, text)` for a markdown ATX heading, or None.
pub fn parse_heading(t: &[char]) -> (res: Option<(u8, Vec<char>)>)
    ensures
        match res {
            Some((l, h)) => spec_parse_heading(t@) == Some((l, h@)),
            None => spec_parse_heading(t@) is None,
        },
{
    let line = trim_start_ws(t);
    let h = skip_char(line.as_slice(), 0, '#');
    if h == 0 || h > 6 {
        return None;
    }
    if !(h < line.len() && line[h] == ' ') {
        return None;
    }
    let rest = copy_range(line.as_slice(), h, line.len());
    let text = trim_ws(rest.as_slice());
    Some((h as u8, text))
}

pub open spec fn bullet_after(line: Seq<char>, marker: char) -> bool {
    line.len() >= 2 && line[0] == marker && line[1] == ' '
}

/// The text of a `- `, `* ` or `+ ` list item.
pub open spec fn spec_strip_bullet(t: Seq<char>) -> Option<Seq<char>> {
    let line = trim_start(t);
    if bullet_after(line, '-') || bullet_after(line, '*') || bullet_after(line, '+') {
        Some(trim(line.skip(2)))
    } else {
        None
    }
}

pub fn strip_bullet(t: &[char]) -> (res: Option<Vec<char>>)
    ensures
        match res {
            Some(b) => spec_strip_bullet(t@) == Some(b@),
            None => spec_strip_bullet(t@) is None,
        },
{
    let line = trim_start_ws(t);
    if line.len() >= 2 && (line[0] == '-' || line[0] == '*' || line[0] == '+') && line[1] == ' ' {
        let rest = copy_range(line.as_slice(), 2, line.len());
        Some(trim_ws(rest.as_slice()))
    } else {
        None
    }
}

/// A line is a list item exactly when its text starts with `- `, `* ` or
/// `+ `; the item holds the trimmed rest of the line.
pub proof fn law_bullet_markers(t: Seq<char>)
    ensures
        spec_strip_bullet(t) is Some <==> (crate::text::has_prefix(trim_start(t), "- "@)
            || crate::text::has_prefix(trim_start(t), "* "@) || crate::text::has_prefix(
            trim_start(t),
            "+ "@,
        )),
        spec_strip_bullet(t) is Some ==> spec_strip_bullet(t) == Some(trim(trim_start(t).skip(2))),
{
    reveal_strlit("- ");
    reveal_strlit("* ");
    reveal_strlit("+ ");
    let line = trim_start(t);
    if line.len() >= 2 {
        let h = line.subrange(0, 2);
        assert(h[0] == line[0] && h[1] == line[1]);
        if line[0] == '-' && line[1] == ' ' {
            assert(h =~= "- "@);
        }
        if line[0] == '*' && line[1] == ' ' {
            assert(h =~= "* "@);
        }
        if line[0] == '+' && line[1] == ' ' {
            assert(h =~= "+ "@);
        }
    }
}

/// The path of a `![alt](path)` image line.
pub open spec fn spec_parse_image(line: Seq<char>) -> Option<Seq<char>> {
    if !(line.len() >= 2 && line[0] == '!' && line[1] == '[') {
        None
    } else {
        let rest = line.skip(2);
        match find_char(rest, ']') {
            None => None,
            Some(ca) => {
                let after_alt = rest.skip(ca + 1);
                if !(after_alt.len() >= 1 && after_alt[0] == '(') {
                    None
                } else {
                    let after_paren = after_alt.skip(1);
                    match find_char(after_paren, ')') {
                        None => None,
                        Some(c) => Some(after_paren.take(c)),
                    }
                }
            },
        }
    }
}

pub fn parse_image(line: &[char]) -> (res: Option<Vec<char>>)
    ensures
        match res {
            Some(p) => spec_parse_image(line@) == Some(p@),
            None => spec_parse_image(line@) is None,
        },
{
    if !(line.len() >= 2 && line[0] == '!' && line[1] == '[') {
        return None;
    }
    let rest = copy_range(line, 2, line.len());
    let ca = match find_char_at(rest.as_slice(), ']', 0) {
        Some(k) => k,
        None => return None,
    };
    proof {
        lemma_find_char_from(rest@, ']', 0);
    }
    let after_alt = copy_range(rest.as_slice(), ca + 1, rest.len());
    if !(after_alt.len() >= 1 && after_alt[0] == '(') {
        return None;
    }
    let after_paren = copy_range(after_alt.as_slice(), 1, after_alt.len());
    let c = match find_char_at(after_paren.as_slice(), ')', 0) {
        Some(k) => k,
        None => return None,
    };
    proof {
        lemma_find_char_from(after_paren@, ')', 0);
    }
    Some(copy_range(after_paren.as_slice(), 0, c))
}

/// A `|`-delimited table row (after trimming).
pub open spec fn spec_is_table_row(line: Seq<char>) -> bool {
    line.len() >= 2 && line[0] == '|' && line[line.len() - 1] == '|'
}

pub fn is_table_row(line: &[char]) -> (res: bool)
    ensures
        res == spec_is_table_row(line@),
{
    line.len() >= 2 && line[0] == '|' && line[line.len() - 1] == '|'
}

/// The text between the outer pipes of a table row.
pub open spec fn row_inner(line: Seq<char>) -> Seq<char> {
    line.subrange(1, line.len() - 1)
}

/// Cells of a table row, each trimmed.
pub open spec fn spec_split_table_row(line: Seq<char>) -> Seq<Seq<char>> {
    let pieces = split_char(row_inner(line), '|');
    Seq::new(pieces.len(), |k: int| trim(pieces[k]))
}

pub open spec fn vviews(v: Seq<Vec<char>>) -> Seq<Seq<char>> {
    v.map_values(|x: Vec<char>| x@)
}

pub fn split_table_row(line: &[char]) -> (res: Vec<Vec<char>>)
    requires
        spec_is_table_row(line@),
    ensures
        vviews(res@) == spec_split_table_row(line@),
{
    let pieces = split_on(&line[1..line.len() - 1], '|');
    let ghost p = split_char(row_inner(line@), '|');
    let mut res: Vec<Vec<char>> = Vec::new();
    let mut k: usize = 0;
    while k < pieces.len()
        invariant
            p == split_char(row_inner(line@), '|'),
            views(pieces@) == p,
            k <= pieces@.len(),
            vviews(res@) =~= spec_split_table_row(line@).take(k as int),
        decreases pieces@.len() - k,
    {
        assert(views(pieces@)[k as int] == pieces@[k as int]@);
        let cell = trim_ws(pieces[k].as_slice());
        let ghost before = vviews(res@);
        res.push(cell);
        assert(vviews(res@) =~= before.push(cell@));
        k += 1;
    }
    res
}

/// Alignment named by one separator cell (`---`, `:--`, `--:`, `:-:`).
pub open spec fn sep_cell_align(cell: Seq<char>) -> Option<Seq<char>> {
    let c = trim(cell);
    let body = trim_by(c, eq_char(':'));
    if c.len() == 0 {
        None
    } else if body.len() == 0 || !(forall|j: int| 0 <= j < body.len() ==> body[j] == '-') {
        None
    } else if c[0] == ':' && c[c.len() - 1] == ':' {
        Some("center"@)
    } else if c[c.len() - 1] == ':' {
        Some("right"@)
    } else {
        Some("left"@)
    }
}

/// Per-column alignments of a GFM separator row (`|---|:--:|--:|`), or None.
pub open spec fn spec_table_separator(line: Seq<char>) -> Option<Seq<Seq<char>>> {
    if !spec_is_table_row(line) {
        None
    } else {
        let pieces = split_char(row_inner(line), '|');
        if forall|k: int| 0 <= k < pieces.len() ==> (#[trigger] sep_cell_align(pieces[k])) is Some {
            Some(Seq::new(pieces.len(), |k: int| sep_cell_align(pieces[k])->0))
        } else {
            None
        }
    }
}

fn sep_cell(cell: &[char]) -> (res: Option<&'static str>)
    ensures
        match res {
            Some(a) => sep_cell_align(cell@) == Some(a@),
            None => sep_cell_align(cell@) is None,
        },
{
    let c = trim_ws(cell);
    if c.len() == 0 {
        return None;
    }
    let body = trim_matches_char(c.as_slice(), ':');
    if body.len() == 0 {
        return None;
    }
    let mut j: usize = 0;
    while j < body.len()
        invariant
            c@ == trim(cell@),
            c@.len() > 0,
            body@ == trim_by(c@, eq_char(':')),
            j <= body@.len(),
            forall|i: int| 0 <= i < j ==> body@[i] == '-',
        decreases body@.len() - j,
    {
        if body[j] != '-' {
            assert(body@[j as int] != '-');
            return None;
        }
        j += 1;
    }
    let left = c[0] == ':';
    let right = c[c.len() - 1] == ':';
    if left && right {
        Some("center")
    } else if right {
        Some("right")
    } else {
        Some("left")
    }
}

/// Parse a GFM table separator row. Returns per-column alignment strings,
/// or None if the row isn't a valid separator.
pub fn parse_table_separator(line: &[char]) -> (res: Option<Vec<&'static str>>)
    ensures
        match res {
            Some(a) => spec_table_separator(line@) == Some(lits(a@)),
            None => spec_table_separator(line@) is None,
        },
{
    if !is_table_row(line) {
        return None;
    }
    let pieces = split_on(&line[1..line.len() - 1], '|');
    let ghost p = split_char(row_inner(line@), '|');
    let mut aligns: Vec<&'static str> = Vec::new();
    let mut k: usize = 0;
    while k < pieces.len()
        invariant
            p == split_char(row_inner(line@), '|'),
            views(pieces@) == p,
            k <= pieces@.len(),
            forall|i: int| 0 <= i < k ==> (#[trigger] sep_cell_align(p[i])) is Some,
            lits(aligns@) =~= Seq::new(k as nat, |i: int| sep_cell_align(p[i])->0),
        decreases pieces@.len() - k,
    {
        assert(views(pieces@)[k as int] == pieces@[k as int]@);
        match sep_cell(pieces[k].as_slice()) {
            Some(a) => {
                let ghost before = lits(aligns@);
                aligns.push(a);
                assert(lits(aligns@) =~= before.push(a@));
            },
            None => {
                return None;
            },
        }
        k += 1;
    }
    Some(aligns)
}

/// A `---`, `***` or `___` line (after trimming) ends a slide.
pub open spec fn spec_is_slide_separator(line: Seq<char>) -> bool {
    let t = trim(line);
    t.len() == 3 && ((t[0] == '-' && t[1] == '-' && t[2] == '-') || (t[0] == '*' && t[1] == '*'
        && t[2] == '*') || (t[0] == '_' && t[1] == '_' && t[2] == '_'))
}

pub fn is_slide_separator(line: &[char]) -> (res: bool)
    ensures
        res == spec_is_slide_separator(line@),
{
    let t = trim_ws(line);
    t.len() == 3 && ((t[0] == '-' && t[1] == '-' && t[2] == '-') || (t[0] == '*' && t[1] == '*'
        && t[2] == '*') || (t[0] == '_' && t[1] == '_' && t[2] == '_'))
}

} // verus!

verus! {

// ── per-slide parsing ───────────────────────────────────────────────────────

/// Why a slide could not be imported.
#[derive(Debug)]
pub enum SlideError {
    /// A second level-1 heading on a slide that already has a title.
    SecondTitle(String),
    /// A heading after the title and the sub-heading.
    ExtraSubheading(String),
}

pub enum SpecSlideError {
    SecondTitle(Seq<char>),
    ExtraSubheading(Seq<char>),
}

impl View for SlideError {
    type V = SpecSlideError;

    open spec fn view(&self) -> SpecSlideError {
        match self {
            SlideError::SecondTitle(h) => SpecSlideError::SecondTitle(h@),
            SlideError::ExtraSubheading(h) => SpecSlideError::ExtraSubheading(h@),
        }
    }
}

/// Moves a pending paragraph into the content lines, with a blank line
/// between it and earlier content.
pub open spec fn spec_flush(para: Seq<Seq<char>>, out: Seq<Seq<char>>) -> (
    Seq<Seq<char>>,
    Seq<Seq<char>>,
) {
    if para.len() == 0 {
        (para, out)
    } else if out.len() > 0 {
        (Seq::empty(), out.push(Seq::empty()) + para)
    } else {
        (Seq::empty(), out + para)
    }
}

pub fn flush_paragraph(paragraph: &mut Vec<String>, out: &mut Vec<String>)
    ensures
        (strs(final(paragraph)@), strs(final(out)@)) == spec_flush(strs(old(paragraph)@), strs(old(out)@)),
{
    if paragraph.len() == 0 {
        return;
    }
    if out.len() > 0 {
        out.push(String::new());
    }
    let ghost mid = strs(out@);
    let ghost p = strs(paragraph@);
    out.append(paragraph);
    assert(strs(out@) =~= mid + p);
    assert(strs(paragraph@) =~= Seq::<Seq<char>>::empty());
    assert(old(out)@.len() > 0 ==> mid =~= strs(old(out)@).push(Seq::<char>::empty()));
}

/// The parser's state between lines: the slide so far and the paragraph
/// lines not yet moved into the content.
pub struct SlideState {
    pub slide: SpecSlide,
    pub para: Seq<Seq<char>>,
}

pub open spec fn flush_state(st: SlideState) -> SlideState {
    let (p, o) = spec_flush(st.para, st.slide.content_lines);
    SlideState { slide: SpecSlide { content_lines: o, ..st.slide }, para: p }
}

/// First line at or after `j` that closes an HTML comment.
pub open spec fn comment_end(ls: Seq<Seq<char>>, j: int) -> int
    decreases ls.len() - j,
{
    if j < 0 || j >= ls.len() {
        j
    } else if crate::text::contains(ls[j], "-->"@) {
        j
    } else {
        comment_end(ls, j + 1)
    }
}

/// First line at or after `j` that starts (after leading whitespace) with `fence`.
pub open spec fn fence_close(ls: Seq<Seq<char>>, j: int, fence: Seq<char>) -> int
    decreases ls.len() - j,
{
    if j < 0 || j >= ls.len() {
        j
    } else if crate::text::has_prefix(trim_start(ls[j]), fence) {
        j
    } else {
        fence_close(ls, j + 1, fence)
    }
}

/// Lines `a..b`, each followed by a newline.
pub open spec fn join_nl(ls: Seq<Seq<char>>, a: int, b: int) -> Seq<char>
    decreases b - a,
{
    if b <= a {
        Seq::empty()
    } else {
        join_nl(ls, a, b - 1) + ls[b - 1] + seq!['\n']
    }
}

/// A body row of a table with `n` columns.
pub open spec fn row_ok(line: Seq<char>, n: int) -> bool {
    spec_is_table_row(trim(line)) && spec_split_table_row(trim(line)).len() == n
}

/// First line at or after `j` that is not a body row of an `n`-column table.
pub open spec fn rows_end(ls: Seq<Seq<char>>, j: int, n: int) -> int
    decreases ls.len() - j,
{
    if j < 0 || j >= ls.len() {
        j
    } else if row_ok(ls[j], n) {
        rows_end(ls, j + 1, n)
    } else {
        j
    }
}

pub proof fn lemma_comment_end(ls: Seq<Seq<char>>, j: int)
    requires
        0 <= j <= ls.len(),
    ensures
        j <= comment_end(ls, j) <= ls.len(),
    decreases ls.len() - j,
{
    if j < ls.len() && !crate::text::contains(ls[j], "-->"@) {
        lemma_comment_end(ls, j + 1);
    }
}

pub proof fn lemma_fence_close(ls: Seq<Seq<char>>, j: int, fence: Seq<char>)
    requires
        0 <= j <= ls.len(),
    ensures
        j <= fence_close(ls, j, fence) <= ls.len(),
    decreases ls.len() - j,
{
    if j < ls.len() && !crate::text::has_prefix(trim_start(ls[j]), fence) {
        lemma_fence_close(ls, j + 1, fence);
    }
}

pub proof fn lemma_rows_end(ls: Seq<Seq<char>>, j: int, n: int)
    requires
        0 <= j <= ls.len(),
    ensures
        j <= rows_end(ls, j, n) <= ls.len(),
        forall|k: int| j <= k < rows_end(ls, j, n) ==> row_ok(#[trigger] ls[k], n),
    decreases ls.len() - j,
{
    if j < ls.len() && row_ok(ls[j], n) {
        lemma_rows_end(ls, j + 1, n);
    }
}

/// Bullet, image or paragraph line.
pub open spec fn rest_step(i: int, t: Seq<char>, st: SlideState) -> (int, SlideState) {
    if spec_strip_bullet(t) is Some {
        let f = flush_state(st);
        (
            i + 1,
            SlideState {
                slide: SpecSlide {
                    bullets: f.slide.bullets.push(spec_strip_bullet(t)->0),
                    ..f.slide
                },
                para: f.para,
            },
        )
    } else if spec_parse_image(t) is Some && st.slide.image is None {
        let f = flush_state(st);
        (
            i + 1,
            SlideState {
                slide: SpecSlide { image: Some(spec_parse_image(t)->0), ..f.slide },
                para: f.para,
            },
        )
    } else {
        (i + 1, SlideState { slide: st.slide, para: st.para.push(t) })
    }
}

/// A table header row followed by a separator row, or else `rest_step`.
pub open spec fn table_step(ls: Seq<Seq<char>>, i: int, t: Seq<char>, st: SlideState) -> (
    int,
    SlideState,
) {
    if spec_is_table_row(t) && i + 1 < ls.len() && spec_table_separator(trim(ls[i + 1])) is Some {
        let aligns = spec_table_separator(trim(ls[i + 1]))->0;
        let f = flush_state(st);
        let headers = spec_split_table_row(t);
        if headers.len() == aligns.len() && f.slide.table is None {
            let e = rows_end(ls, i + 2, headers.len() as int);
            let rows = Seq::new(
                (e - (i + 2)) as nat,
                |k: int| spec_split_table_row(trim(ls[i + 2 + k])),
            );
            (
                e,
                SlideState {
                    slide: SpecSlide {
                        table: Some(SpecTable { headers, rows, aligns }),
                        ..f.slide
                    },
                    para: f.para,
                },
            )
        } else {
            rest_step(i, t, f)
        }
    } else {
        rest_step(i, t, st)
    }
}

/// A fenced code block opened on line `i` by `t`.
pub open spec fn fence_step(ls: Seq<Seq<char>>, i: int, t: Seq<char>, st: SlideState) -> (
    int,
    SlideState,
) {
    let f = flush_state(st);
    let fence = t.take(3);
    let lang = trim(t.skip(3));
    let language = if lang.len() == 0 {
        None
    } else {
        Some(lang)
    };
    let c = fence_close(ls, i + 1, fence);
    let raw = join_nl(ls, i + 1, c);
    let source = raw.take(crate::text::back_while(raw, eq_char('\n'), raw.len() as int));
    let next = if c < ls.len() {
        c + 1
    } else {
        c
    };
    (
        next,
        SlideState {
            slide: SpecSlide { code: Some(SpecCode { language, source }), ..f.slide },
            para: f.para,
        },
    )
}

pub open spec fn is_fence_open(t: Seq<char>) -> bool {
    crate::text::has_prefix(t, "```"@) || crate::text::has_prefix(t, "~~~"@)
}

/// One parsing step at line `i`: the next line to look at and the new state.
pub open spec fn slide_step(ls: Seq<Seq<char>>, i: int, st: SlideState) -> Result<
    (int, SlideState),
    SpecSlideError,
> {
    let t = trim(ls[i]);
    if t.len() == 0 {
        Ok((i + 1, flush_state(st)))
    } else if crate::text::has_prefix(t, "<!--"@) {
        if !crate::text::contains(t, "-->"@) {
            let ce = comment_end(ls, i + 1);
            Ok((if ce < ls.len() { ce + 1 } else { ce }, st))
        } else {
            Ok((i + 1, st))
        }
    } else if spec_parse_heading(t) is Some {
        let (level, h) = spec_parse_heading(t)->0;
        if st.slide.title is None {
            Ok((i + 1, SlideState { slide: SpecSlide { title: Some(h), ..st.slide }, para: st.para }))
        } else if st.slide.subtitle is None {
            if level < 2 {
                Err(SpecSlideError::SecondTitle(h))
            } else {
                Ok(
                    (
                        i + 1,
                        SlideState {
                            slide: SpecSlide { subtitle: Some((h, level)), ..st.slide },
                            para: st.para,
                        },
                    ),
                )
            }
        } else {
            Err(SpecSlideError::ExtraSubheading(h))
        }
    } else if is_fence_open(t) {
        Ok(fence_step(ls, i, t, st))
    } else {
        Ok(table_step(ls, i, t, st))
    }
}

/// Runs the parser from line `i` to the end.
pub open spec fn slide_run(ls: Seq<Seq<char>>, i: int, st: SlideState) -> Result<
    SlideState,
    SpecSlideError,
>
    decreases ls.len() + 1 - i,
{
    if i < 0 || i >= ls.len() {
        Ok(st)
    } else {
        match slide_step(ls, i, st) {
            Ok((j, st2)) => if i < j <= ls.len() + 1 {
                slide_run(ls, j, st2)
            } else {
                Ok(st2)
            },
            Err(e) => Err(e),
        }
    }
}

pub open spec fn init_state() -> SlideState {
    SlideState { slide: empty_slide(), para: Seq::empty() }
}

/// What one slide's Markdown block parses to.
pub open spec fn spec_parse_slide(block: Seq<char>) -> Result<SpecSlide, SpecSlideError> {
    match slide_run(crate::text::lines(block), 0, init_state()) {
        Ok(st) => Ok(flush_state(st).slide),
        Err(e) => Err(e),
    }
}

} // verus!

verus! {

pub open spec fn st_of(slide: OutSlide, para: Vec<String>) -> SlideState {
    SlideState { slide: slide@, para: strs(para@) }
}

pub fn to_strings(v: &Vec<Vec<char>>) -> (r: Vec<String>)
    ensures
        strs(r@) == vviews(v@),
{
    let mut r: Vec<String> = Vec::new();
    let mut k: usize = 0;
    while k < v.len()
        invariant
            k <= v@.len(),
            strs(r@) =~= vviews(v@).take(k as int),
        decreases v@.len() - k,
    {
        let s = string_of(v[k].as_slice());
        let ghost before = strs(r@);
        r.push(s);
        assert(strs(r@) =~= before.push(s@));
        k += 1;
    }
    assert(vviews(v@).take(v@.len() as int) =~= vviews(v@));
    r
}

fn flush_slide(slide: &mut OutSlide, para: &mut Vec<String>)
    ensures
        st_of(*final(slide), *final(para)) == flush_state(st_of(*old(slide), *old(para))),
{
    flush_paragraph(para, &mut slide.content_lines);
}

/// Index just past the line that closes a comment opened on line `i`.
fn skip_comment(ls: &Vec<Vec<char>>, i: usize, close: &[char]) -> (r: usize)
    requires
        i < ls@.len(),
        close@ == "-->"@,
    ensures
        r == (if comment_end(views(ls@), i + 1) < ls@.len() {
            comment_end(views(ls@), i + 1) + 1
        } else {
            comment_end(views(ls@), i + 1)
        }),
        i < r <= ls@.len(),
{
    let n = ls.len();
    let ghost L = views(ls@);
    proof {
        lemma_comment_end(L, i + 1);
    }
    let mut j = i + 1;
    while j < ls.len() && !contains_seq(ls[j].as_slice(), close)
        invariant
            L == views(ls@),
            i + 1 <= j <= ls@.len(),
            close@ == "-->"@,
            comment_end(L, j as int) == comment_end(L, i + 1),
        decreases ls@.len() - j,
    {
        assert(L[j as int] == ls@[j as int]@);
        j += 1;
    }
    if j < n {
        assert(L[j as int] == ls@[j as int]@);
        j + 1
    } else {
        j
    }
}

/// Reads the fenced code block opened on line `i`.
fn code_block(ls: &Vec<Vec<char>>, i: usize, t: &[char], slide: &mut OutSlide, para: &mut Vec<String>) -> (r: usize)
    requires
        i < ls@.len(),
        is_fence_open(t@),
    ensures
        (r as int, st_of(*final(slide), *final(para))) == fence_step(views(ls@), i as int, t@, st_of(*old(slide), *old(para))),
        i < r <= ls@.len(),
{
    let ghost L = views(ls@);
    let n = ls.len();
    flush_slide(slide, para);
    proof {
        reveal_strlit("```");
        reveal_strlit("~~~");
    }
    assert(t@.len() >= 3);
    let fence = copy_range(t, 0, 3);
    let rest = copy_range(t, 3, t.len());
    let lang = trim_ws(rest.as_slice());
    let language = if lang.len() == 0 {
        None
    } else {
        Some(string_of(lang.as_slice()))
    };
    let mut source: Vec<char> = Vec::new();
    let mut j = i + 1;
    proof {
        lemma_fence_close(L, i + 1, fence@);
    }
    while j < ls.len() && !starts_with(trim_start_ws(ls[j].as_slice()).as_slice(), fence.as_slice())
        invariant
            L == views(ls@),
            i + 1 <= j <= ls@.len(),
            fence_close(L, j as int, fence@) == fence_close(L, i + 1, fence@),
            source@ == join_nl(L, i + 1, j as int),
        decreases ls@.len() - j,
    {
        assert(L[j as int] == ls@[j as int]@);
        push_all(&mut source, ls[j].as_slice());
        source.push('\n');
        j += 1;
    }
    if j < ls.len() {
        assert(L[j as int] == ls@[j as int]@);
    }
    let ghost c = j as int;
    let next = if j < ls.len() {
        j + 1
    } else {
        j
    };
    let end = back_char(source.as_slice(), source.len(), '\n');
    let src = copy_range(source.as_slice(), 0, end);
    slide.code = Some(OutCode { language, source: string_of(src.as_slice()) });
    assert(fence@ =~= t@.take(3));
    assert(rest@ =~= t@.skip(3));
    next
}

/// Does `line` (trimmed) hold a body row with `n` cells?
fn is_body_row(line: &[char], n: usize) -> (res: bool)
    ensures
        res == row_ok(line@, n as int),
{
    let r = trim_ws(line);
    if !is_table_row(r.as_slice()) {
        return false;
    }
    let cells = split_table_row(r.as_slice());
    assert(cells@.len() == vviews(cells@).len());
    cells.len() == n
}

/// Bullet, image or paragraph line.
fn rest_line(i: usize, n: usize, t: &[char], slide: &mut OutSlide, para: &mut Vec<String>) -> (r: usize)
    requires
        i < n,
    ensures
        (r as int, st_of(*final(slide), *final(para))) == rest_step(i as int, t@, st_of(*old(slide), *old(para))),
{
    match strip_bullet(t) {
        Some(b) => {
            flush_slide(slide, para);
            let ghost before = strs(slide.bullets@);
            let s = string_of(b.as_slice());
            slide.bullets.push(s);
            assert(strs(slide.bullets@) =~= before.push(b@));
            return i + 1;
        },
        None => {},
    }
    if slide.image.is_none() {
        match parse_image(t) {
            Some(p) => {
                flush_slide(slide, para);
                slide.image = Some(string_of(p.as_slice()));
                return i + 1;
            },
            None => {},
        }
    }
    let ghost before = strs(para@);
    let s = string_of(t);
    para.push(s);
    assert(strs(para@) =~= before.push(t@));
    i + 1
}

/// A table at line `i` if a separator row follows, else a bullet, image or
/// paragraph line.
fn table_or_rest(ls: &Vec<Vec<char>>, i: usize, t: &[char], slide: &mut OutSlide, para: &mut Vec<String>) -> (r: usize)
    requires
        i < ls@.len(),
    ensures
        (r as int, st_of(*final(slide), *final(para))) == table_step(views(ls@), i as int, t@, st_of(*old(slide), *old(para))),
        i < r <= ls@.len(),
{
    let ghost L = views(ls@);
    let n = ls.len();
    if is_table_row(t) && i + 1 < n {
        assert(L[i + 1] == ls@[i + 1]@);
        let next_line = trim_ws(ls[i + 1].as_slice());
        match parse_table_separator(next_line.as_slice()) {
            Some(aligns) => {
                flush_slide(slide, para);
                let hs = split_table_row(t);
                assert(hs@.len() == vviews(hs@).len());
                assert(aligns@.len() == lits(aligns@).len());
                if hs.len() == aligns.len() && slide.table.is_none() {
                    let n = hs.len();
                    let headers = to_strings(&hs);
                    let mut rows: Vec<Vec<String>> = Vec::new();
                    let mut j = i + 2;
                    proof {
                        lemma_rows_end(L, i + 2, n as int);
                    }
                    while j < ls.len() && is_body_row(ls[j].as_slice(), n)
                        invariant
                            L == views(ls@),
                            i + 2 <= j <= ls@.len(),
                            rows_end(L, j as int, n as int) == rows_end(L, i + 2, n as int),
                            rows@.map_values(|r: Vec<String>| strs(r@)) =~= Seq::new(
                                (j - (i + 2)) as nat,
                                |k: int| spec_split_table_row(trim(L[i + 2 + k])),
                            ),
                        decreases ls@.len() - j,
                    {
                        assert(L[j as int] == ls@[j as int]@);
                        let r = trim_ws(ls[j].as_slice());
                        let cells = split_table_row(r.as_slice());
                        let cs = to_strings(&cells);
                        let ghost before = rows@.map_values(|r: Vec<String>| strs(r@));
                        rows.push(cs);
                        assert(rows@.map_values(|r: Vec<String>| strs(r@)) =~= before.push(
                            spec_split_table_row(trim(L[j as int])),
                        ));
                        j += 1;
                    }
                    if j < ls.len() {
                        assert(L[j as int] == ls@[j as int]@);
                    }
                    slide.table = Some(OutTable { headers, rows, aligns });
                    return j;
                }
                return rest_line(i, n, t, slide, para);
            },
            None => {},
        }
    }
    rest_line(i, n, t, slide, para)
}

} // verus!

verus! {

pub open spec fn slide_result_view(r: Result<OutSlide, SlideError>) -> Result<SpecSlide, SpecSlideError> {
    match r {
        Ok(s) => Ok(s@),
        Err(e) => Err(e@),
    }
}

/// Parses one slide's Markdown block.
pub fn parse_slide(block: &[char]) -> (res: Result<OutSlide, SlideError>)
    ensures
        slide_result_view(res) == spec_parse_slide(block@),
{
    let ls = lines_of(block);
    let ghost L = views(ls@);
    let n = ls.len();
    let close = chars_of("-->");
    let open = chars_of("<!--");
    let backticks = chars_of("```");
    let tildes = chars_of("~~~");
    let mut slide = OutSlide::new();
    let mut paragraph: Vec<String> = Vec::new();
    let mut i: usize = 0;
    assert(strs(paragraph@) =~= Seq::<Seq<char>>::empty());
    while i < n
        invariant
            L == views(ls@),
            L == crate::text::lines(block@),
            n == ls@.len(),
            i <= n,
            close@ == "-->"@,
            open@ == "<!--"@,
            backticks@ == "```"@,
            tildes@ == "~~~"@,
            slide_run(L, i as int, st_of(slide, paragraph)) == slide_run(L, 0, init_state()),
        decreases n - i,
    {
        assert(L[i as int] == ls@[i as int]@);
        let trimmed = trim_ws(ls[i].as_slice());
        if trimmed.len() == 0 {
            flush_slide(&mut slide, &mut paragraph);
            i += 1;
        } else if starts_with(trimmed.as_slice(), open.as_slice()) {
            if !contains_seq(trimmed.as_slice(), close.as_slice()) {
                i = skip_comment(&ls, i, close.as_slice());
            } else {
                i += 1;
            }
        } else {
            match parse_heading(trimmed.as_slice()) {
                Some((level, h)) => {
                    if slide.title.is_none() {
                        slide.title = Some(string_of(h.as_slice()));
                    } else if slide.subtitle.is_none() {
                        if level < 2 {
                            return Err(SlideError::SecondTitle(string_of(h.as_slice())));
                        }
                        slide.subtitle = Some((string_of(h.as_slice()), level));
                    } else {
                        return Err(SlideError::ExtraSubheading(string_of(h.as_slice())));
                    }
                    i += 1;
                },
                None => {
                    if starts_with(trimmed.as_slice(), backticks.as_slice()) || starts_with(
                        trimmed.as_slice(),
                        tildes.as_slice(),
                    ) {
                        i = code_block(&ls, i, trimmed.as_slice(), &mut slide, &mut paragraph);
                    } else {
                        i = table_or_rest(&ls, i, trimmed.as_slice(), &mut slide, &mut paragraph);
                    }
                },
            }
        }
    }
    flush_slide(&mut slide, &mut paragraph);
    Ok(slide)
}

} // verus!

verus! {

// ── front matter ────────────────────────────────────────────────────────────

/// End of the line that starts at `off` (just past its `'\n'`, if any).
pub open spec fn line_end(s: Seq<char>, off: int) -> int {
    match find_char_from(s, '\n', off) {
        Some(k) => k + 1,
        None => s.len() as int,
    }
}

/// A line that closes the front matter: `---`, then any `'\r'`s, then an
/// optional `'\n'`.
pub open spec fn is_close_line(line: Seq<char>) -> bool {
    crate::text::trim_end_by(crate::text::trim_end_by(line, eq_char('\n')), eq_char('\r')) == seq![
        '-',
        '-',
        '-',
    ]
}

/// Start of the first closing line at or after line start `off`.
pub open spec fn fm_close(s: Seq<char>, off: int) -> Option<int>
    decreases s.len() - off,
{
    if off < 0 || off >= s.len() {
        None
    } else {
        let e = line_end(s, off);
        if is_close_line(s.subrange(off, e)) {
            Some(off)
        } else if off < e <= s.len() {
            fm_close(s, e)
        } else {
            None
        }
    }
}

/// Leading byte-order marks are ignored.
pub open spec fn without_bom(input: Seq<char>) -> Seq<char> {
    input.skip(skip_while(input, eq_char('\u{feff}'), 0))
}

/// Length of the opening `---` line, or 0 when there is none.
pub open spec fn open_len(t: Seq<char>) -> int {
    if crate::text::has_prefix(t, seq!['-', '-', '-', '\n']) {
        4
    } else if crate::text::has_prefix(t, seq!['-', '-', '-', '\r', '\n']) {
        5
    } else {
        0
    }
}

/// `(front matter, body)` of a Markdown file.
pub open spec fn spec_split_front_matter(input: Seq<char>) -> (Seq<char>, Seq<char>) {
    let t = without_bom(input);
    let k = open_len(t);
    if k == 0 {
        (Seq::empty(), t)
    } else {
        let rest = t.skip(k);
        match fm_close(rest, 0) {
            Some(o) => (rest.take(o), rest.skip(line_end(rest, o))),
            None => (Seq::empty(), t),
        }
    }
}

proof fn lemma_line_end(s: Seq<char>, off: int)
    requires
        0 <= off < s.len(),
    ensures
        off < line_end(s, off) <= s.len(),
        forall|j: int| off <= j < line_end(s, off) - 1 ==> s[j] != '\n',
        line_end(s, off) < s.len() ==> s[line_end(s, off) - 1] == '\n',
{
    lemma_find_char_from(s, '\n', off);
}

fn is_close(line: &[char]) -> (res: bool)
    ensures
        res == is_close_line(line@),
{
    let a = back_char(line, line.len(), '\n');
    let b = back_char(line, a, '\r');
    let ghost t1 = crate::text::trim_end_by(line@, eq_char('\n'));
    let ghost t2 = crate::text::trim_end_by(t1, eq_char('\r'));
    proof {
        crate::text::lemma_back_while(line@, eq_char('\n'), line@.len() as int);
        assert(t1 =~= line@.take(a as int));
        lemma_back_while_prefix(line@, t1, eq_char('\r'), a as int);
        assert(t2 =~= line@.take(b as int));
    }
    let r = b == 3 && line[0] == '-' && line[1] == '-' && line[2] == '-';
    proof {
        if r {
            assert(t2 =~= seq!['-', '-', '-']);
        }
        if t2 == seq!['-', '-', '-'] {
            assert(t2.len() == 3);
            assert(t2[0] == line@[0] && t2[1] == line@[1] && t2[2] == line@[2]);
        }
    }
    r
}

/// `back_while` only looks at the prefix it scans.
proof fn lemma_back_while_prefix(s: Seq<char>, t: Seq<char>, p: spec_fn(char) -> bool, j: int)
    requires
        0 <= j <= t.len() <= s.len(),
        t == s.take(t.len() as int),
    ensures
        crate::text::back_while(t, p, j) == crate::text::back_while(s, p, j),
    decreases j,
{
    if j > 0 {
        assert(t[j - 1] == s[j - 1]);
        lemma_back_while_prefix(s, t, p, j - 1);
    }
}

/// Splits off a leading `---` … `---` front-matter block.
pub fn split_front_matter(input: &[char]) -> (res: (Vec<char>, Vec<char>))
    ensures
        (res.0@, res.1@) == spec_split_front_matter(input@),
{
    let a = skip_char(input, 0, '\u{feff}');
    let t = copy_range(input, a, input.len());
    let k: usize = if t.len() >= 4 && t[0] == '-' && t[1] == '-' && t[2] == '-' && t[3] == '\n' {
        4
    } else if t.len() >= 5 && t[0] == '-' && t[1] == '-' && t[2] == '-' && t[3] == '\r' && t[4]
        == '\n' {
        5
    } else {
        0
    };
    proof {
        let s4 = seq!['-', '-', '-', '\n'];
        let s5 = seq!['-', '-', '-', '\r', '\n'];
        if t@.len() >= 4 {
            assert(t@.subrange(0, 4) == s4 <==> (t@[0] == '-' && t@[1] == '-' && t@[2] == '-'
                && t@[3] == '\n')) by {
                if t@[0] == '-' && t@[1] == '-' && t@[2] == '-' && t@[3] == '\n' {
                    assert(t@.subrange(0, 4) =~= s4);
                }
            }
        }
        if t@.len() >= 5 {
            assert(t@.subrange(0, 5) == s5 <==> (t@[0] == '-' && t@[1] == '-' && t@[2] == '-'
                && t@[3] == '\r' && t@[4] == '\n')) by {
                if t@[0] == '-' && t@[1] == '-' && t@[2] == '-' && t@[3] == '\r' && t@[4] == '\n' {
                    assert(t@.subrange(0, 5) =~= s5);
                }
            }
        }
        assert(k == open_len(t@));
    }
    if k == 0 {
        return (Vec::new(), t);
    }
    let rest = copy_range(t.as_slice(), k, t.len());
    let mut off: usize = 0;
    while off < rest.len()
        invariant
            t@ == without_bom(input@),
            k == open_len(t@),
            k != 0,
            rest@ == t@.skip(k as int),
            off <= rest@.len(),
            fm_close(rest@, off as int) == fm_close(rest@, 0),
        decreases rest@.len() - off,
    {
        proof {
            lemma_line_end(rest@, off as int);
        }
        let e = match find_char_at(rest.as_slice(), '\n', off) {
            Some(j) => j + 1,
            None => rest.len(),
        };
        assert(e == line_end(rest@, off as int));
        let line = copy_range(rest.as_slice(), off, e);
        if is_close(line.as_slice()) {
            let fm = copy_range(rest.as_slice(), 0, off);
            let body = copy_range(rest.as_slice(), e, rest.len());
            return (fm, body);
        }
        off = e;
    }
    (Vec::new(), t)
}

pub struct FrontMatter {
    pub title: Option<Seq<char>>,
    pub theme: Option<Seq<char>>,
    pub paginate: Option<bool>,
}

/// The value of one `key: value` front-matter line: trimmed, then with
/// surrounding double and then single quotes removed.
pub open spec fn fm_value(v: Seq<char>) -> Seq<char> {
    trim_by(trim_by(trim(v), eq_char('"')), eq_char('\''))
}

/// Applies one front-matter line.
pub open spec fn fm_apply(st: FrontMatter, line: Seq<char>) -> FrontMatter {
    let l = crate::text::trim_end(line);
    if l.len() == 0 || l[0] == '#' {
        st
    } else {
        match find_char(l, ':') {
            None => st,
            Some(c) => {
                let key = trim(l.take(c));
                let value = fm_value(l.skip(c + 1));
                if key == "title"@ {
                    FrontMatter { title: Some(value), ..st }
                } else if key == "theme"@ {
                    FrontMatter { theme: Some(value), ..st }
                } else if key == "paginate"@ {
                    FrontMatter {
                        paginate: if value == "true"@ {
                            Some(true)
                        } else if value == "false"@ {
                            Some(false)
                        } else {
                            None
                        },
                        ..st
                    }
                } else {
                    st
                }
            },
        }
    }
}

pub open spec fn fm_fold(ls: Seq<Seq<char>>) -> FrontMatter
    decreases ls.len(),
{
    if ls.len() == 0 {
        FrontMatter { title: None, theme: None, paginate: None }
    } else {
        fm_apply(fm_fold(ls.drop_last()), ls.last())
    }
}

/// `(title, theme, paginate)` read from the front matter.
pub open spec fn spec_parse_front_matter(fm: Seq<char>) -> FrontMatter {
    fm_fold(crate::text::lines(fm))
}

pub fn parse_front_matter(fm: &[char]) -> (res: (Option<String>, Option<String>, Option<bool>))
    ensures
        spec_parse_front_matter(fm@) == (FrontMatter {
            title: opt_view(res.0),
            theme: opt_view(res.1),
            paginate: res.2,
        }),
{
    let ls = lines_of(fm);
    let ghost L = views(ls@);
    let k_title = chars_of("title");
    let k_theme = chars_of("theme");
    let k_paginate = chars_of("paginate");
    let v_true = chars_of("true");
    let v_false = chars_of("false");
    let mut title: Option<String> = None;
    let mut theme: Option<String> = None;
    let mut paginate: Option<bool> = None;
    let mut i: usize = 0;
    while i < ls.len()
        invariant
            L == views(ls@),
            L == crate::text::lines(fm@),
            i <= ls@.len(),
            k_title@ == "title"@,
            k_theme@ == "theme"@,
            k_paginate@ == "paginate"@,
            v_true@ == "true"@,
            v_false@ == "false"@,
            fm_fold(L.take(i as int)) == (FrontMatter {
                title: opt_view(title),
                theme: opt_view(theme),
                paginate,
            }),
        decreases ls@.len() - i,
    {
        assert(L[i as int] == ls@[i as int]@);
        assert(L.take(i + 1).drop_last() =~= L.take(i as int));
        let l = crate::text::trim_end_ws(ls[i].as_slice());
        if l.len() == 0 || l[0] == '#' {
            i += 1;
            continue;
        }
        let c = match find_char_at(l.as_slice(), ':', 0) {
            Some(c) => c,
            None => {
                i += 1;
                continue;
            },
        };
        proof {
            lemma_find_char_from(l@, ':', 0);
        }
        let key = trim_ws(&l.as_slice()[0..c]);
        let v1 = trim_ws(&l.as_slice()[c + 1..l.len()]);
        let v2 = trim_matches_char(v1.as_slice(), '"');
        let value = trim_matches_char(v2.as_slice(), '\'');
        assert(value@ == fm_value(l@.skip(c + 1)));
        if eq_chars(key.as_slice(), k_title.as_slice()) {
            title = Some(string_of(value.as_slice()));
        } else if eq_chars(key.as_slice(), k_theme.as_slice()) {
            theme = Some(string_of(value.as_slice()));
        } else if eq_chars(key.as_slice(), k_paginate.as_slice()) {
            paginate = if eq_chars(value.as_slice(), v_true.as_slice()) {
                Some(true)
            } else if eq_chars(value.as_slice(), v_false.as_slice()) {
                Some(false)
            } else {
                None
            };
        }
        i += 1;
    }
    assert(L.take(ls@.len() as int) =~= L);
    (title, theme, paginate)
}

} // verus!

verus! {

// ── slide splitting ─────────────────────────────────────────────────────────

pub struct SplitState {
    pub slides: Seq<Seq<char>>,
    pub current: Seq<char>,
    pub in_fence: bool,
    pub marker: Option<Seq<char>>,
}

/// The fence a line opens or closes, if any.
pub open spec fn fence_of(line: Seq<char>) -> Option<Seq<char>> {
    let tr = trim_start(line);
    if crate::text::has_prefix(tr, "```"@) {
        Some("```"@)
    } else if crate::text::has_prefix(tr, "~~~"@) {
        Some("~~~"@)
    } else {
        None
    }
}

/// Applies one body line: fences toggle code mode, a separator line outside
/// code ends the current slide, any other line joins it.
pub open spec fn split_apply(st: SplitState, line: Seq<char>) -> SplitState {
    let appended = st.current + line + seq!['\n'];
    match fence_of(line) {
        Some(f) => {
            if !st.in_fence {
                SplitState { current: appended, in_fence: true, marker: Some(f), ..st }
            } else if st.marker == Some(f) {
                SplitState { current: appended, in_fence: false, marker: None, ..st }
            } else {
                SplitState { current: appended, ..st }
            }
        },
        None => {
            if !st.in_fence && spec_is_slide_separator(line) {
                SplitState { slides: st.slides.push(st.current), current: Seq::empty(), ..st }
            } else {
                SplitState { current: appended, ..st }
            }
        },
    }
}

pub open spec fn split_fold(ls: Seq<Seq<char>>) -> SplitState
    decreases ls.len(),
{
    if ls.len() == 0 {
        SplitState { slides: Seq::empty(), current: Seq::empty(), in_fence: false, marker: None }
    } else {
        split_apply(split_fold(ls.drop_last()), ls.last())
    }
}

/// The Markdown block of each slide, in order.
pub open spec fn spec_split_slides(body: Seq<char>) -> Seq<Seq<char>> {
    let st = split_fold(crate::text::lines(body));
    if trim(st.current).len() != 0 {
        st.slides.push(st.current)
    } else {
        st.slides
    }
}

pub fn split_slides(body: &[char]) -> (res: Vec<Vec<char>>)
    ensures
        vviews(res@) == spec_split_slides(body@),
{
    let ls = lines_of(body);
    let ghost L = views(ls@);
    let backticks = chars_of("```");
    let tildes = chars_of("~~~");
    let mut slides: Vec<Vec<char>> = Vec::new();
    let mut current: Vec<char> = Vec::new();
    let mut in_fence = false;
    // 0: no fence, 1: backticks, 2: tildes
    let mut marker: u8 = 0;
    let mut i: usize = 0;
    assert(vviews(slides@) =~= Seq::<Seq<char>>::empty());
    assert(L.take(0) =~= Seq::<Seq<char>>::empty());
    while i < ls.len()
        invariant
            L == views(ls@),
            L == crate::text::lines(body@),
            i <= ls@.len(),
            backticks@ == "```"@,
            tildes@ == "~~~"@,
            split_fold(L.take(i as int)) == (SplitState {
                slides: vviews(slides@),
                current: current@,
                in_fence,
                marker: if marker == 1 {
                    Some("```"@)
                } else if marker == 2 {
                    Some("~~~"@)
                } else {
                    None
                },
            }),
            marker <= 2,
        decreases ls@.len() - i,
    {
        assert(L[i as int] == ls@[i as int]@);
        assert(L.take(i + 1).drop_last() =~= L.take(i as int));
        let line = ls[i].as_slice();
        let ghost old_current = current@;
        let tr = trim_start_ws(line);
        let f: u8 = if starts_with(tr.as_slice(), backticks.as_slice()) {
            1
        } else if starts_with(tr.as_slice(), tildes.as_slice()) {
            2
        } else {
            0
        };
        if f != 0 {
            if !in_fence {
                in_fence = true;
                marker = f;
            } else if marker == f {
                proof {
                    reveal_strlit("```");
                    reveal_strlit("~~~");
                    assert("```"@ != "~~~"@) by {
                        assert("```"@[0] != "~~~"@[0]);
                    }
                }
                in_fence = false;
                marker = 0;
            } else {
                proof {
                    reveal_strlit("```");
                    reveal_strlit("~~~");
                    assert("```"@[0] != "~~~"@[0]);
                }
            }
            push_all(&mut current, line);
            current.push('\n');
            assert(current@ =~= old_current + line@ + seq!['\n']);
        } else if !in_fence && is_slide_separator(line) {
            let done = current;
            let ghost before = vviews(slides@);
            slides.push(done);
            assert(vviews(slides@) =~= before.push(done@));
            current = Vec::new();
        } else {
            push_all(&mut current, line);
            current.push('\n');
            assert(current@ =~= old_current + line@ + seq!['\n']);
        }
        i += 1;
    }
    assert(L.take(ls@.len() as int) =~= L);
    let t = trim_ws(current.as_slice());
    if t.len() != 0 {
        let ghost before = vviews(slides@);
        let last = current;
        slides.push(last);
        assert(vviews(slides@) =~= before.push(last@));
    }
    slides
}

// ── the whole file ──────────────────────────────────────────────────────────

/// A failed slide: its 1-based number and the reason.
#[derive(Debug)]
pub struct ImportError {
    pub slide: usize,
    pub kind: SlideError,
}

pub struct SpecImportError {
    pub slide: int,
    pub kind: SpecSlideError,
}

impl View for ImportError {
    type V = SpecImportError;

    open spec fn view(&self) -> SpecImportError {
        SpecImportError { slide: self.slide as int, kind: self.kind@ }
    }
}

/// Parses every block; the first block that fails decides the error.
pub open spec fn spec_parse_blocks(blocks: Seq<Seq<char>>) -> Result<Seq<SpecSlide>, SpecImportError>
    decreases blocks.len(),
{
    if blocks.len() == 0 {
        Ok(Seq::empty())
    } else {
        match spec_parse_blocks(blocks.drop_last()) {
            Err(e) => Err(e),
            Ok(v) => match spec_parse_slide(blocks.last()) {
                Ok(s) => Ok(v.push(s)),
                Err(k) => Err(SpecImportError { slide: blocks.len() as int, kind: k }),
            },
        }
    }
}

/// What a Marp Markdown file parses to.
pub open spec fn spec_parse_marp(input: Seq<char>) -> Result<SpecPresentation, SpecImportError> {
    let (fm, body) = spec_split_front_matter(input);
    let meta = spec_parse_front_matter(fm);
    match spec_parse_blocks(spec_split_slides(body)) {
        Ok(slides) => Ok(
            SpecPresentation {
                title: meta.title,
                theme: meta.theme,
                paginate: meta.paginate,
                slides,
            },
        ),
        Err(e) => Err(e),
    }
}

pub open spec fn marp_result_view(r: Result<OutPresentation, ImportError>) -> Result<
    SpecPresentation,
    SpecImportError,
> {
    match r {
        Ok(p) => Ok(p@),
        Err(e) => Err(e@),
    }
}

/// Parses a Marp Markdown file into the intermediate presentation.
pub fn parse_marp(input: &str) -> (res: Result<OutPresentation, ImportError>)
    ensures
        marp_result_view(res) == spec_parse_marp(input@),
{
    let chars = chars_of(input);
    let (front_matter, body) = split_front_matter(chars.as_slice());
    let (fm_title, fm_theme, fm_paginate) = parse_front_matter(front_matter.as_slice());
    let blocks = split_slides(body.as_slice());
    let ghost B = vviews(blocks@);
    let mut slides: Vec<OutSlide> = Vec::new();
    let mut i: usize = 0;
    assert(B.take(0) =~= Seq::<Seq<char>>::empty());
    assert(slides@.map_values(|s: OutSlide| s@) =~= Seq::<SpecSlide>::empty());
    while i < blocks.len()
        invariant
            B == vviews(blocks@),
            B == spec_split_slides(spec_split_front_matter(input@).1),
            i <= blocks@.len(),
            spec_parse_blocks(B.take(i as int)) == Ok::<Seq<SpecSlide>, SpecImportError>(
                slides@.map_values(|s: OutSlide| s@),
            ),
        decreases blocks@.len() - i,
    {
        assert(B[i as int] == blocks@[i as int]@);
        assert(B.take(i + 1).drop_last() =~= B.take(i as int));
        match parse_slide(blocks[i].as_slice()) {
            Ok(s) => {
                let ghost before = slides@.map_values(|s: OutSlide| s@);
                slides.push(s);
                assert(slides@.map_values(|s: OutSlide| s@) =~= before.push(s@));
            },
            Err(e) => {
                let err = ImportError { slide: i + 1, kind: e };
                assert(B.take(i + 1).last() == B[i as int]);
                assert(spec_parse_blocks(B.take(i + 1)) == Err::<Seq<SpecSlide>, SpecImportError>(err@));
                proof {
                    lemma_parse_blocks_err(B, i as int + 1, err@);
                }
                return Err(err);
            },
        }
        i += 1;
    }
    assert(B.take(blocks@.len() as int) =~= B);
    Ok(OutPresentation { title: fm_title, theme: fm_theme, paginate: fm_paginate, slides })
}

/// Once a prefix of the blocks fails, the whole list fails the same way.
proof fn lemma_parse_blocks_err(b: Seq<Seq<char>>, k: int, e: SpecImportError)
    requires
        0 <= k <= b.len(),
        spec_parse_blocks(b.take(k)) == Err::<Seq<SpecSlide>, SpecImportError>(e),
    ensures
        spec_parse_blocks(b) == Err::<Seq<SpecSlide>, SpecImportError>(e),
    decreases b.len() - k,
{
    if k < b.len() {
        assert(b.take(k + 1).drop_last() =~= b.take(k));
        lemma_parse_blocks_err(b, k + 1, e);
    } else {
        assert(b.take(k) =~= b);
    }
}

} // verus!

verus! {

// ── entry point and messages ───────────────────────────────────────────────

/// What importing a Marp file produces: its YAML text, or the first failing slide.
pub open spec fn spec_import(input: Seq<char>) -> Result<Seq<char>, SpecImportError> {
    match spec_parse_marp(input) {
        Ok(p) => Ok(crate::importer::emit::spec_emit_yaml(p)),
        Err(e) => Err(e),
    }
}

pub open spec fn import_result_view(r: Result<String, ImportError>) -> Result<Seq<char>, SpecImportError> {
    match r {
        Ok(s) => Ok(s@),
        Err(e) => Err(e@),
    }
}

/// Converts a Marp Markdown file into the YAML presentation format.
pub fn import(input: &str) -> (res: Result<String, ImportError>)
    ensures
        import_result_view(res) == spec_import(input@),
{
    let pres = parse_marp(input)?;
    Ok(crate::importer::emit::emit_yaml(&pres))
}

pub open spec fn slide_error_text(e: SpecSlideError) -> Seq<char> {
    match e {
        SpecSlideError::SecondTitle(h) => "second `# ` heading "@ + debug_str(h)
            + " on a slide that already has a title \u{2014} only one title is allowed"@,
        SpecSlideError::ExtraSubheading(h) => "more than one sub-heading on a slide; second is "@
            + debug_str(h),
    }
}

pub open spec fn import_error_text(e: SpecImportError) -> Seq<char> {
    "slide "@ + crate::importer::emit::decimal(e.slide as nat) + ": "@ + slide_error_text(e.kind)
}

impl SlideError {
    /// The error as a sentence.
    pub fn message(&self) -> (r: String)
        ensures
            r@ == slide_error_text(self@),
    {
        let mut out: Vec<char> = Vec::new();
        match self {
            SlideError::SecondTitle(h) => {
                push_str(&mut out, "second `# ` heading ");
                let q = debug_quoted(h.as_str());
                push_str(&mut out, q.as_str());
                push_str(&mut out, " on a slide that already has a title \u{2014} only one title is allowed");
            },
            SlideError::ExtraSubheading(h) => {
                push_str(&mut out, "more than one sub-heading on a slide; second is ");
                let q = debug_quoted(h.as_str());
                push_str(&mut out, q.as_str());
            },
        }
        string_of(out.as_slice())
    }
}

impl ImportError {
    /// The error as a sentence naming the slide.
    pub fn message(&self) -> (r: String)
        ensures
            r@ == import_error_text(self@),
    {
        let mut out: Vec<char> = Vec::new();
        push_str(&mut out, "slide ");
        crate::importer::emit::push_decimal(&mut out, self.slide as u64);
        push_str(&mut out, ": ");
        let m = self.kind.message();
        push_str(&mut out, m.as_str());
        string_of(out.as_slice())
    }
}

} // verus!

verus! {

// ── laws ────────────────────────────────────────────────────────────────────

/// An imported table has headers, one alignment per header, each one of
/// left, center or right, and one cell per header in every row.
pub open spec fn table_well_formed(t: SpecTable) -> bool {
    &&& t.headers.len() > 0
    &&& t.aligns.len() == t.headers.len()
    &&& forall|k: int| 0 <= k < t.aligns.len() ==> (#[trigger] t.aligns[k] == "left"@ || t.aligns[k] == "center"@ || t.aligns[k] == "right"@)
    &&& forall|r: int| 0 <= r < t.rows.len() ==> (#[trigger] t.rows[r]).len() == t.headers.len()
}

/// What the YAML schema demands of an imported slide: a valid table and a
/// sub-heading level between 2 and 6.
pub open spec fn slide_valid(s: SpecSlide) -> bool {
    &&& (s.table matches Some(t) ==> table_well_formed(t))
    &&& (s.subtitle matches Some((_, l)) ==> 2 <= l <= 6)
}

proof fn lemma_sep_aligns(line: Seq<char>)
    requires
        spec_table_separator(line) is Some,
    ensures
        forall|k: int| 0 <= k < (spec_table_separator(line)->0).len() ==> {
            let a = #[trigger] (spec_table_separator(line)->0)[k];
            a == "left"@ || a == "center"@ || a == "right"@
        },
{
    let pieces = split_char(row_inner(line), '|');
    assert forall|k: int| 0 <= k < (spec_table_separator(line)->0).len() implies {
        let a = #[trigger] (spec_table_separator(line)->0)[k];
        a == "left"@ || a == "center"@ || a == "right"@
    } by {
        assert(sep_cell_align(pieces[k]) is Some);
    }
}

proof fn lemma_step_valid(ls: Seq<Seq<char>>, i: int, st: SlideState)
    requires
        0 <= i < ls.len(),
        slide_valid(st.slide),
    ensures
        slide_step(ls, i, st) matches Ok((j, st2)) ==> slide_valid(st2.slide),
{
    let t = trim(ls[i]);
    assert(slide_valid(flush_state(st).slide));
    if t.len() == 0 || crate::text::has_prefix(t, "<!--"@) {
    } else if spec_parse_heading(t) is Some {
        crate::text::lemma_skip_while(trim_start(t), eq_char('#'), 0);
    } else if is_fence_open(t) {
    } else {
        let (j2, r) = rest_step(i, t, st);
        assert(slide_valid(r.slide));
        assert(slide_valid(rest_step(i, t, flush_state(st)).1.slide));
        if spec_is_table_row(t) && i + 1 < ls.len() && spec_table_separator(trim(ls[i + 1])) is Some {
            let aligns = spec_table_separator(trim(ls[i + 1]))->0;
            let headers = spec_split_table_row(t);
            lemma_sep_aligns(trim(ls[i + 1]));
            crate::text::lemma_split_char_nonempty(row_inner(t), '|');
            lemma_rows_end(ls, i + 2, headers.len() as int);
            let e = rows_end(ls, i + 2, headers.len() as int);
            let rows = Seq::new(
                (e - (i + 2)) as nat,
                |k: int| spec_split_table_row(trim(ls[i + 2 + k])),
            );
            assert forall|r: int| 0 <= r < rows.len() implies (#[trigger] rows[r]).len()
                == headers.len() by {
                assert(row_ok(ls[i + 2 + r], headers.len() as int));
            }
            if headers.len() == aligns.len() {
                assert(table_well_formed(SpecTable { headers, rows, aligns }));
            }
        }
    }
}

proof fn lemma_run_valid(ls: Seq<Seq<char>>, i: int, st: SlideState)
    requires
        slide_valid(st.slide),
    ensures
        slide_run(ls, i, st) matches Ok(st2) ==> slide_valid(st2.slide),
    decreases ls.len() + 1 - i,
{
    if 0 <= i < ls.len() {
        lemma_step_valid(ls, i, st);
        match slide_step(ls, i, st) {
            Ok((j, st2)) => {
                if i < j <= ls.len() + 1 {
                    lemma_run_valid(ls, j, st2);
                }
            },
            Err(_) => {},
        }
    }
}

/// Every slide the importer accepts satisfies the YAML schema: its table has
/// headers and one cell per header in every row, and its sub-heading level
/// lies in 2..=6.
pub proof fn law_imported_slide_valid(block: Seq<char>)
    ensures
        spec_parse_slide(block) matches Ok(s) ==> slide_valid(s),
{
    lemma_run_valid(crate::text::lines(block), 0, init_state());
}

/// `x` is one of the lines `ls`, trimmed.
pub open spec fn trimmed_line_of(x: Seq<char>, ls: Seq<Seq<char>>) -> bool {
    exists|j: int| 0 <= j < ls.len() && #[trigger] trim(ls[j]) == x
}

/// Paragraph lines waiting to be moved: non-empty trimmed lines of `ls`.
pub open spec fn para_shape(para: Seq<Seq<char>>, ls: Seq<Seq<char>>) -> bool {
    forall|k: int| 0 <= k < para.len() ==> (#[trigger] para[k]).len() > 0 && trimmed_line_of(para[k], ls)
}

/// Content lines: each is empty or a trimmed line of `ls`; the first and
/// the last are not empty; and no two empty lines follow each other.
pub open spec fn content_shape(out: Seq<Seq<char>>, ls: Seq<Seq<char>>) -> bool {
    &&& forall|k: int| 0 <= k < out.len() ==> (#[trigger] out[k]).len() == 0 || trimmed_line_of(out[k], ls)
    &&& out.len() > 0 ==> out[0].len() > 0 && out[out.len() - 1].len() > 0
    &&& forall|k: int| #![trigger out[k]] 0 <= k < out.len() - 1 ==> out[k].len() > 0 || out[k + 1].len() > 0
}

pub open spec fn state_shape(st: SlideState, ls: Seq<Seq<char>>) -> bool {
    content_shape(st.slide.content_lines, ls) && para_shape(st.para, ls)
}

proof fn lemma_flush_shape(st: SlideState, ls: Seq<Seq<char>>)
    requires
        state_shape(st, ls),
    ensures
        state_shape(flush_state(st), ls),
{
    let out = st.slide.content_lines;
    let para = st.para;
    if para.len() > 0 {
        let mid = if out.len() > 0 { out.push(Seq::<char>::empty()) } else { out };
        let o2 = mid + para;
        assert(flush_state(st).slide.content_lines == o2);
        assert(flush_state(st).para =~= Seq::<Seq<char>>::empty());
        assert forall|k: int| 0 <= k < o2.len() implies (#[trigger] o2[k]).len() == 0 || trimmed_line_of(o2[k], ls) by {
            if k < out.len() {
                assert(o2[k] == out[k]);
            } else if k >= mid.len() {
                assert(o2[k] == para[k - mid.len()]);
            }
        }
        assert(o2[o2.len() - 1] == para[para.len() - 1]);
        if out.len() > 0 {
            assert(o2[0] == out[0]);
        } else {
            assert(o2[0] == para[0]);
        }
        assert forall|k: int| #![trigger o2[k]] 0 <= k < o2.len() - 1 implies o2[k].len() > 0 || o2[k + 1].len() > 0 by {
            if k + 1 < out.len() {
                assert(o2[k] == out[k] && o2[k + 1] == out[k + 1]);
            } else if k + 1 == out.len() {
                assert(o2[k] == out[k]);
            } else if k == out.len() {
                assert(o2[k + 1] == para[k + 1 - mid.len()]);
            } else {
                assert(o2[k] == para[k - mid.len()]);
            }
        }
    }
}

proof fn lemma_rest_shape(i: int, t: Seq<char>, st: SlideState, ls: Seq<Seq<char>>)
    requires
        state_shape(st, ls),
        0 <= i < ls.len(),
        t == trim(ls[i]),
        t.len() > 0,
    ensures
        state_shape(rest_step(i, t, st).1, ls),
{
    lemma_flush_shape(st, ls);
    if spec_strip_bullet(t) is None && !(spec_parse_image(t) is Some && st.slide.image is None) {
        let p2 = st.para.push(t);
        assert(trimmed_line_of(t, ls));
        assert forall|k: int| 0 <= k < p2.len() implies (#[trigger] p2[k]).len() > 0 && trimmed_line_of(p2[k], ls) by {
            if k < st.para.len() {
                assert(p2[k] == st.para[k]);
            }
        }
    }
}

proof fn lemma_step_shape(ls: Seq<Seq<char>>, i: int, st: SlideState)
    requires
        state_shape(st, ls),
        0 <= i < ls.len(),
    ensures
        slide_step(ls, i, st) matches Ok((j, st2)) ==> state_shape(st2, ls),
{
    let t = trim(ls[i]);
    let f = flush_state(st);
    lemma_flush_shape(st, ls);
    if t.len() == 0 || crate::text::has_prefix(t, "<!--"@) {
    } else if spec_parse_heading(t) is Some {
        if let Ok((j, st2)) = slide_step(ls, i, st) {
            assert(st2.slide.content_lines == st.slide.content_lines && st2.para == st.para);
        }
    } else if is_fence_open(t) {
        let (j, st2) = fence_step(ls, i, t, st);
        assert(st2.slide.content_lines == f.slide.content_lines && st2.para == f.para);
    } else {
        lemma_rest_shape(i, t, st, ls);
        lemma_rest_shape(i, t, f, ls);
        let (j, st2) = table_step(ls, i, t, st);
        if spec_is_table_row(t) && i + 1 < ls.len() && spec_table_separator(trim(ls[i + 1])) is Some {
            let headers = spec_split_table_row(t);
            let aligns = spec_table_separator(trim(ls[i + 1]))->0;
            if headers.len() == aligns.len() && f.slide.table is None {
                assert(st2.slide.content_lines == f.slide.content_lines && st2.para == f.para);
            } else {
                assert(st2 == rest_step(i, t, f).1);
            }
        } else {
            assert(st2 == rest_step(i, t, st).1);
        }
    }
}

proof fn lemma_run_shape(ls: Seq<Seq<char>>, i: int, st: SlideState)
    requires
        state_shape(st, ls),
    ensures
        slide_run(ls, i, st) matches Ok(st2) ==> state_shape(st2, ls),
    decreases ls.len() + 1 - i,
{
    if 0 <= i < ls.len() {
        lemma_step_shape(ls, i, st);
        match slide_step(ls, i, st) {
            Ok((j, st2)) => {
                if i < j <= ls.len() + 1 {
                    lemma_run_shape(ls, j, st2);
                }
            },
            Err(_) => {},
        }
    }
}

/// The content of an imported slide is its paragraphs, blank-line
/// separated: every content line is empty or a non-empty trimmed line of
/// the slide's text, the first and the last are not empty, and no two empty
/// lines follow each other.
pub proof fn law_imported_content_shape(block: Seq<char>)
    ensures
        spec_parse_slide(block) matches Ok(s) ==> content_shape(s.content_lines, crate::text::lines(block)),
{
    let ls = crate::text::lines(block);
    assert(state_shape(init_state(), ls));
    lemma_run_shape(ls, 0, init_state());
    if let Ok(st) = slide_run(ls, 0, init_state()) {
        lemma_flush_shape(st, ls);
    }
}

proof fn lemma_blocks_valid(blocks: Seq<Seq<char>>)
    ensures
        spec_parse_blocks(blocks) matches Ok(v) ==> forall|k: int| 0 <= k < v.len() ==> slide_valid(#[trigger] v[k]),
    decreases blocks.len(),
{
    if blocks.len() > 0 {
        lemma_blocks_valid(blocks.drop_last());
        law_imported_slide_valid(blocks.last());
        if let Ok(v) = spec_parse_blocks(blocks) {
            let prev = spec_parse_blocks(blocks.drop_last())->Ok_0;
            assert forall|k: int| 0 <= k < v.len() implies slide_valid(#[trigger] v[k]) by {
                if k < prev.len() {
                    assert(v[k] == prev[k]);
                }
            }
        }
    }
}

/// Every presentation the importer accepts satisfies the YAML schema on each slide.
pub proof fn law_imported_presentation_valid(input: Seq<char>)
    ensures
        spec_parse_marp(input) matches Ok(p) ==> forall|k: int| 0 <= k < p.slides.len() ==> slide_valid(#[trigger] p.slides[k]),
{
    let (fm, body) = spec_split_front_matter(input);
    lemma_blocks_valid(spec_split_slides(body));
}

/// When a file opens with a `---` line and a closing `---` line follows, the
/// front matter and the body are exactly the text between and after them.
pub proof fn law_front_matter_partition(input: Seq<char>)
    requires
        open_len(without_bom(input)) != 0,
        fm_close(without_bom(input).skip(open_len(without_bom(input))), 0) is Some,
    ensures
        ({
            let t = without_bom(input);
            let k = open_len(t);
            let (fm, body) = spec_split_front_matter(input);
            exists|close: Seq<char>|
                is_close_line(close) && t == t.take(k) + fm + close + body
        }),
{
    let t = without_bom(input);
    let k = open_len(t);
    let rest = t.skip(k);
    let o = fm_close(rest, 0)->0;
    lemma_fm_close(rest, 0);
    lemma_line_end(rest, o);
    let close = rest.subrange(o, line_end(rest, o));
    let (fm, body) = spec_split_front_matter(input);
    assert(t =~= t.take(k) + fm + close + body);
}

proof fn lemma_fm_close(s: Seq<char>, off: int)
    requires
        0 <= off,
    ensures
        fm_close(s, off) matches Some(o) ==> off <= o < s.len() && is_close_line(
            s.subrange(o, line_end(s, o)),
        ),
    decreases s.len() - off,
{
    if off < s.len() {
        lemma_line_end(s, off);
        let e = line_end(s, off);
        if !is_close_line(s.subrange(off, e)) && off < e <= s.len() {
            lemma_fm_close(s, e);
        }
    }
}

} // verus!
