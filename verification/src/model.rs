//! The presentation model and the checks its fields must pass.
use vstd::prelude::*;

use crate::importer::emit::{decimal, push_decimal};
use crate::importer::marp::{opt_view, strs};
use crate::text::{chars_of, debug_quoted, debug_str, eq_chars, push_str, string_of};

verus! {

#[derive(Debug)]
pub struct Presentation {
    pub title: Option<String>,
    pub theme: Option<String>,
    pub paginate: Option<bool>,
    pub slides: Vec<Slide>,
}

#[derive(Debug)]
pub struct Slide {
    pub title: Option<String>,
    /// Zero or more sub-headings rendered stacked below the title rule, in
    /// declaration order.
    pub subtitles: Vec<Subtitle>,
    pub content: Option<String>,
    pub bullets: Option<Vec<String>>,
    pub code: Option<CodeBlock>,
    /// Path to an SVG (or raster image) file on disk.
    pub image: Option<String>,
    /// Inline SVG content as a string. Takes precedence over `image` if both are set.
    pub svg: Option<String>,
    pub class: Option<String>,
    pub background: Option<String>,
    /// "left" (default) | "center" | "right"; applies to all elements.
    pub align: Option<String>,
    /// Overrides `align` for the title only.
    pub title_align: Option<String>,
    /// Overrides `align` for content text and bullets.
    pub content_align: Option<String>,
    /// "top" (default) | "middle" | "bottom".
    pub valign: Option<String>,
    pub columns: Option<Vec<Column>>,
    /// When true, render bullets before columns instead of after.
    pub bullets_first: bool,
    pub table: Option<Table>,
}

#[derive(Debug)]
pub struct Column {
    pub header: Option<String>,
    pub bullets: Vec<String>,
}

/// A single sub-heading rendered just below the slide title.
/// `level` mirrors markdown heading depth: 2 for `##`, 3 for `###`, etc.
#[derive(Debug)]
pub struct Subtitle {
    pub text: String,
    pub level: u8,
}

/// Per-column horizontal alignment for a table cell.
#[derive(Debug, Clone, Copy, PartialEq, Eq)]
pub enum TableAlign {
    Left,
    Center,
    Right,
}

/// A grid table with a header row, body rows, and per-column alignment.
#[derive(Debug)]
pub struct Table {
    pub headers: Vec<String>,
    pub rows: Vec<Vec<String>>,
    /// Per-column alignment; as many as there are headers.
    pub aligns: Vec<TableAlign>,
}

#[derive(Debug)]
pub struct CodeBlock {
    pub language: Option<String>,
    pub source: String,
    /// When true, trailing newlines and carriage returns are stripped from
    /// `source` before rendering.
    pub trim: bool,
}

/// Why a model value was rejected.
#[derive(Debug)]
pub enum ModelError {
    /// A subtitle level outside 2..=6.
    SubtitleLevel(u8),
    /// A table alignment other than left, center or right.
    UnknownAlign(String),
    /// A table without headers.
    EmptyHeaders,
    /// A body row whose cell count differs from the header count.
    RaggedRow { row: usize, cells: usize, expected: usize },
    /// An alignment list whose length differs from the header count.
    AlignsLength { got: usize, expected: usize },
}

pub enum SpecModelError {
    SubtitleLevel(u8),
    UnknownAlign(Seq<char>),
    EmptyHeaders,
    RaggedRow { row: nat, cells: nat, expected: nat },
    AlignsLength { got: nat, expected: nat },
}

impl View for ModelError {
    type V = SpecModelError;

    open spec fn view(&self) -> SpecModelError {
        match self {
            ModelError::SubtitleLevel(l) => SpecModelError::SubtitleLevel(*l),
            ModelError::UnknownAlign(s) => SpecModelError::UnknownAlign(s@),
            ModelError::EmptyHeaders => SpecModelError::EmptyHeaders,
            ModelError::RaggedRow { row, cells, expected } => SpecModelError::RaggedRow {
                row: *row as nat,
                cells: *cells as nat,
                expected: *expected as nat,
            },
            ModelError::AlignsLength { got, expected } => SpecModelError::AlignsLength {
                got: *got as nat,
                expected: *expected as nat,
            },
        }
    }
}

pub open spec fn model_error_text(e: SpecModelError) -> Seq<char> {
    match e {
        SpecModelError::SubtitleLevel(l) => "subtitle.level must be in 2..=6, got "@ + decimal(
            l as nat,
        ),
        SpecModelError::UnknownAlign(s) => "table align must be one of left|center|right, got "@
            + debug_str(s),
        SpecModelError::EmptyHeaders => "table.headers must be non-empty"@,
        SpecModelError::RaggedRow { row, cells, expected } => "table row "@ + decimal(row)
            + " has "@ + decimal(cells) + " cells but headers has "@ + decimal(expected),
        SpecModelError::AlignsLength { got, expected } => "table.aligns has "@ + decimal(got)
            + " entries but headers has "@ + decimal(expected),
    }
}

impl ModelError {
    /// The error as a sentence.
    pub fn message(&self) -> (r: String)
        ensures
            r@ == model_error_text(self@),
    {
        let mut out: Vec<char> = Vec::new();
        match self {
            ModelError::SubtitleLevel(l) => {
                push_str(&mut out, "subtitle.level must be in 2..=6, got ");
                push_decimal(&mut out, *l as u64);
            },
            ModelError::UnknownAlign(s) => {
                push_str(&mut out, "table align must be one of left|center|right, got ");
                let q = debug_quoted(s.as_str());
                push_str(&mut out, q.as_str());
            },
            ModelError::EmptyHeaders => {
                push_str(&mut out, "table.headers must be non-empty");
            },
            ModelError::RaggedRow { row, cells, expected } => {
                push_str(&mut out, "table row ");
                push_decimal(&mut out, *row as u64);
                push_str(&mut out, " has ");
                push_decimal(&mut out, *cells as u64);
                push_str(&mut out, " cells but headers has ");
                push_decimal(&mut out, *expected as u64);
            },
            ModelError::AlignsLength { got, expected } => {
                push_str(&mut out, "table.aligns has ");
                push_decimal(&mut out, *got as u64);
                push_str(&mut out, " entries but headers has ");
                push_decimal(&mut out, *expected as u64);
            },
        }
        string_of(out.as_slice())
    }
}

// ── subtitles ───────────────────────────────────────────────────────────────

impl Subtitle {
    /// A subtitle at the given heading level; levels 2 to 6 are accepted.
    pub fn new(text: String, level: u8) -> (res: Result<Subtitle, ModelError>)
        ensures
            match res {
                Ok(s) => 2 <= level <= 6 && s.text == text && s.level == level,
                Err(e) => !(2 <= level <= 6) && e@ == SpecModelError::SubtitleLevel(level),
            },
    {
        if !(2 <= level && level <= 6) {
            return Err(ModelError::SubtitleLevel(level));
        }
        Ok(Subtitle { text, level })
    }

    /// A subtitle given as a bare string: level 2.
    pub fn plain(text: String) -> (s: Subtitle)
        ensures
            s.text == text,
            s.level == 2,
    {
        Subtitle { text, level: 2 }
    }
}

// ── tables ──────────────────────────────────────────────────────────────────

impl TableAlign {
    /// `left`, `center` or `right`.
    pub fn parse(s: &str) -> (res: Result<TableAlign, ModelError>)
        ensures
            match res {
                Ok(a) => (s@ == "left"@ && a == TableAlign::Left) || (s@ == "center"@ && a
                    == TableAlign::Center) || (s@ == "right"@ && a == TableAlign::Right),
                Err(e) => s@ != "left"@ && s@ != "center"@ && s@ != "right"@ && e@
                    == SpecModelError::UnknownAlign(s@),
            },
    {
        let cs = chars_of(s);
        if eq_chars(cs.as_slice(), chars_of("left").as_slice()) {
            Ok(TableAlign::Left)
        } else if eq_chars(cs.as_slice(), chars_of("center").as_slice()) {
            Ok(TableAlign::Center)
        } else if eq_chars(cs.as_slice(), chars_of("right").as_slice()) {
            Ok(TableAlign::Right)
        } else {
            Err(ModelError::UnknownAlign(string_of(cs.as_slice())))
        }
    }
}

pub struct SpecTableModel {
    pub headers: Seq<Seq<char>>,
    pub rows: Seq<Seq<Seq<char>>>,
    pub aligns: Seq<TableAlign>,
}

pub open spec fn row_views(rows: Seq<Vec<String>>) -> Seq<Seq<Seq<char>>> {
    rows.map_values(|r: Vec<String>| strs(r@))
}

impl View for Table {
    type V = SpecTableModel;

    open spec fn view(&self) -> SpecTableModel {
        SpecTableModel {
            headers: strs(self.headers@),
            rows: row_views(self.rows@),
            aligns: self.aligns@,
        }
    }
}

/// First row at or after `i` whose length is not `n`, if any.
pub open spec fn ragged_from(rows: Seq<Seq<Seq<char>>>, n: nat, i: int) -> Option<int>
    decreases rows.len() - i,
{
    if i < 0 || i >= rows.len() {
        None
    } else if rows[i].len() != n {
        Some(i)
    } else {
        ragged_from(rows, n, i + 1)
    }
}

pub open spec fn first_ragged(rows: Seq<Seq<Seq<char>>>, n: nat) -> Option<int> {
    ragged_from(rows, n, 0)
}

pub proof fn lemma_ragged_from(rows: Seq<Seq<Seq<char>>>, n: nat, i: int)
    requires
        0 <= i,
    ensures
        ragged_from(rows, n, i) matches Some(k) ==> i <= k < rows.len() && rows[k].len() != n
            && forall|j: int| i <= j < k ==> rows[j].len() == n,
        ragged_from(rows, n, i) is None ==> forall|j: int| i <= j < rows.len() ==> rows[j].len() == n,
    decreases rows.len() - i,
{
    if i < rows.len() && rows[i].len() == n {
        lemma_ragged_from(rows, n, i + 1);
    }
}

/// What building a table from its parts gives: headers must be present, every
/// row must have one cell per header, and alignments, when given, one per
/// header (all left when not given).
pub open spec fn spec_table(
    headers: Seq<Seq<char>>,
    rows: Seq<Seq<Seq<char>>>,
    aligns: Option<Seq<TableAlign>>,
) -> Result<SpecTableModel, SpecModelError> {
    let n = headers.len();
    if n == 0 {
        Err(SpecModelError::EmptyHeaders)
    } else if first_ragged(rows, n) is Some {
        let i = first_ragged(rows, n)->0;
        Err(SpecModelError::RaggedRow { row: i as nat, cells: rows[i].len(), expected: n })
    } else {
        match aligns {
            Some(a) => if a.len() != n {
                Err(SpecModelError::AlignsLength { got: a.len(), expected: n })
            } else {
                Ok(SpecTableModel { headers, rows, aligns: a })
            },
            None => Ok(SpecTableModel { headers, rows, aligns: Seq::new(n, |k: int| TableAlign::Left) }),
        }
    }
}

pub open spec fn table_result_view(r: Result<Table, ModelError>) -> Result<SpecTableModel, SpecModelError> {
    match r {
        Ok(t) => Ok(t@),
        Err(e) => Err(e@),
    }
}

impl Table {
    /// Builds a table, checking that its shape is consistent.
    pub fn new(headers: Vec<String>, rows: Vec<Vec<String>>, aligns: Option<Vec<TableAlign>>) -> (res: Result<
        Table,
        ModelError,
    >)
        ensures
            table_result_view(res) == spec_table(
                strs(headers@),
                row_views(rows@),
                match aligns {
                    Some(a) => Some(a@),
                    None => None,
                },
            ),
    {
        let n = headers.len();
        let ghost H = strs(headers@);
        let ghost R = row_views(rows@);
        assert(H.len() == n);
        if n == 0 {
            return Err(ModelError::EmptyHeaders);
        }
        let mut i: usize = 0;
        while i < rows.len()
            invariant
                i <= rows@.len(),
                R == row_views(rows@),
                H == strs(headers@),
                n == H.len(),
                n > 0,
                ragged_from(R, n as nat, i as int) == first_ragged(R, n as nat),
            decreases rows@.len() - i,
        {
            assert(R[i as int] == strs(rows@[i as int]@));
            assert(R[i as int].len() == rows@[i as int]@.len());
            if rows[i].len() != n {
                return Err(ModelError::RaggedRow { row: i, cells: rows[i].len(), expected: n });
            }
            i += 1;
        }
        let aligns = match aligns {
            Some(a) => {
                if a.len() != n {
                    return Err(ModelError::AlignsLength { got: a.len(), expected: n });
                }
                a
            },
            None => {
                let mut v: Vec<TableAlign> = Vec::new();
                let mut k: usize = 0;
                while k < n
                    invariant
                        k <= n,
                        v@ =~= Seq::new(k as nat, |j: int| TableAlign::Left),
                    decreases n - k,
                {
                    v.push(TableAlign::Left);
                    k += 1;
                }
                v
            },
        };
        Ok(Table { headers, rows, aligns })
    }
}

// ── slide defaults ──────────────────────────────────────────────────────────

/// `a` if present, else `b`, else `dflt`.
pub open spec fn first_of(a: Option<Seq<char>>, b: Option<Seq<char>>, dflt: Seq<char>) -> Seq<char> {
    match a {
        Some(x) => x,
        None => match b {
            Some(y) => y,
            None => dflt,
        },
    }
}

fn first_of_exec(a: &Option<String>, b: &Option<String>, dflt: &str) -> (r: String)
    ensures
        r@ == first_of(opt_view(*a), opt_view(*b), dflt@),
{
    match a {
        Some(x) => x.clone(),
        None => match b {
            Some(y) => y.clone(),
            None => string_of(chars_of(dflt).as_slice()),
        },
    }
}

impl Slide {
    /// Horizontal alignment of the title: `title_align`, else `align`, else "left".
    pub fn title_alignment(&self) -> (r: String)
        ensures
            r@ == first_of(opt_view(self.title_align), opt_view(self.align), "left"@),
    {
        first_of_exec(&self.title_align, &self.align, "left")
    }

    /// Horizontal alignment of content and bullets: `content_align`, else
    /// `align`, else "left".
    pub fn content_alignment(&self) -> (r: String)
        ensures
            r@ == first_of(opt_view(self.content_align), opt_view(self.align), "left"@),
    {
        first_of_exec(&self.content_align, &self.align, "left")
    }

    /// Vertical alignment: `valign`, else "top".
    pub fn vertical_alignment(&self) -> (r: String)
        ensures
            r@ == first_of(opt_view(self.valign), None, "top"@),
    {
        first_of_exec(&self.valign, &None, "top")
    }
}

/// A line ending char: `'\n'` or `'\r'`.
pub open spec fn line_end() -> spec_fn(char) -> bool {
    |c: char| c == '\n' || c == '\r'
}

/// The source to render: with `trim`, every trailing newline and carriage
/// return is stripped.
pub open spec fn spec_display_source(source: Seq<char>, trim: bool) -> Seq<char> {
    if trim {
        crate::text::trim_end_by(source, line_end())
    } else {
        source
    }
}

impl CodeBlock {
    pub fn display_source(&self) -> (r: String)
        ensures
            r@ == spec_display_source(self.source@, self.trim),
    {
        let cs = chars_of(self.source.as_str());
        if !self.trim {
            return string_of(cs.as_slice());
        }
        proof {
            crate::text::lemma_back_while(cs@, line_end(), cs@.len() as int);
        }
        let mut k = cs.len();
        while k > 0 && (cs[k - 1] == '\n' || cs[k - 1] == '\r')
            invariant
                k <= cs@.len(),
                crate::text::back_while(cs@, line_end(), k as int) == crate::text::back_while(
                    cs@,
                    line_end(),
                    cs@.len() as int,
                ),
            decreases k,
        {
            k -= 1;
        }
        let t = crate::text::copy_range(cs.as_slice(), 0, k);
        string_of(t.as_slice())
    }
}

} // verus!

verus! {

/// The alignment an imported `left` / `center` / `right` string names.
pub open spec fn align_named(s: Seq<char>) -> TableAlign {
    if s == "center"@ {
        TableAlign::Center
    } else if s == "right"@ {
        TableAlign::Right
    } else {
        TableAlign::Left
    }
}

/// Whatever the Marp importer accepts, the model accepts too: an imported
/// table passes `Table::new` with its alignments, and an imported sub-heading
/// level passes `Subtitle::new`.
pub proof fn law_imported_slide_fits_model(block: Seq<char>)
    ensures
        crate::importer::marp::spec_parse_slide(block) matches Ok(s) ==> {
            &&& (s.table matches Some(t) ==> spec_table(
                t.headers,
                t.rows,
                Some(t.aligns.map_values(|a: Seq<char>| align_named(a))),
            ) is Ok)
            &&& (s.subtitle matches Some((_, l)) ==> 2 <= l <= 6)
        },
{
    crate::importer::marp::law_imported_slide_valid(block);
    if let Ok(s) = crate::importer::marp::spec_parse_slide(block) {
        if let Some(t) = s.table {
            lemma_ragged_from(t.rows, t.headers.len(), 0);
            if first_ragged(t.rows, t.headers.len()) is Some {
                let k = first_ragged(t.rows, t.headers.len())->0;
                assert(t.rows[k].len() == t.headers.len());
            }
        }
    }
}

/// A table that `Table::new` accepts has one alignment per header and one
/// cell per header in every row.
pub proof fn law_table_shape(
    headers: Seq<Seq<char>>,
    rows: Seq<Seq<Seq<char>>>,
    aligns: Option<Seq<TableAlign>>,
)
    ensures
        spec_table(headers, rows, aligns) matches Ok(t) ==> {
            &&& t.headers.len() > 0
            &&& t.aligns.len() == t.headers.len()
            &&& forall|r: int| 0 <= r < t.rows.len() ==> (#[trigger] t.rows[r]).len() == t.headers.len()
        },
{
    lemma_ragged_from(rows, headers.len(), 0);
}

} // verus!
