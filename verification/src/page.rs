//! Decisions taken while a slide is laid out on its page that involve no
//! measurement: where its picture comes from and what its page number says.
use vstd::prelude::*;

use crate::importer::emit::{decimal, push_decimal};
use crate::importer::marp::opt_view;
use crate::model::{first_of, Slide};
use crate::text::{
    chars_of, debug_quoted, debug_str, ends_with, eq_chars, has_suffix, push_str, string_of,
};

verus! {

/// The lower-case form of a text, as `str::to_lowercase` gives it.
pub uninterp spec fn lowercase(s: Seq<char>) -> Seq<char>;

/// `str::to_lowercase`; the result is `lowercase` of the text.
#[verifier::external_body]
fn to_lowercase(s: &str) -> (r: String)
    ensures
        r@ == lowercase(s@),
{
    s.to_lowercase()
}

/// Where the picture of a slide comes from.
#[derive(Debug)]
pub enum SvgSource {
    /// SVG text written into the slide itself.
    Inline(String),
    /// The path of an SVG file, still to be read.
    File(String),
}

pub enum SpecSvgSource {
    Inline(Seq<char>),
    File(Seq<char>),
}

impl View for SvgSource {
    type V = SpecSvgSource;

    open spec fn view(&self) -> SpecSvgSource {
        match self {
            SvgSource::Inline(s) => SpecSvgSource::Inline(s@),
            SvgSource::File(p) => SpecSvgSource::File(p@),
        }
    }
}

/// The message that refuses an image that is not an SVG file.
pub open spec fn not_svg_message(path: Seq<char>) -> Seq<char> {
    "image path "@ + debug_str(path) + " is not an .svg (raster images not yet supported)"@
}

/// Inline SVG wins over an image path; an image path must name an `.svg`
/// file, in any letter case; a slide with neither has no picture.
pub open spec fn spec_svg_source(svg: Option<Seq<char>>, image: Option<Seq<char>>) -> Result<
    Option<SpecSvgSource>,
    Seq<char>,
> {
    match svg {
        Some(s) => Ok(Some(SpecSvgSource::Inline(s))),
        None => match image {
            Some(p) => if has_suffix(lowercase(p), ".svg"@) {
                Ok(Some(SpecSvgSource::File(p)))
            } else {
                Err(not_svg_message(p))
            },
            None => Ok(None),
        },
    }
}

/// Whether a lower-cased file name ends in `.svg`.
pub fn is_svg_name(lowered: &str) -> (r: bool)
    ensures
        r == has_suffix(lowered@, ".svg"@),
{
    let cs = chars_of(lowered);
    let ext = chars_of(".svg");
    ends_with(cs.as_slice(), ext.as_slice())
}

/// The picture of a slide: its inline SVG, else the SVG file its image path
/// names, else none. An image path that is not an `.svg` is refused.
pub fn svg_source(slide: &Slide) -> (r: Result<Option<SvgSource>, String>)
    ensures
        match r {
            Ok(None) => spec_svg_source(opt_view(slide.svg), opt_view(slide.image)) == Ok::<
                Option<SpecSvgSource>,
                Seq<char>,
            >(None),
            Ok(Some(x)) => spec_svg_source(opt_view(slide.svg), opt_view(slide.image)) == Ok::<
                Option<SpecSvgSource>,
                Seq<char>,
            >(Some(x@)),
            Err(m) => spec_svg_source(opt_view(slide.svg), opt_view(slide.image)) == Err::<
                Option<SpecSvgSource>,
                Seq<char>,
            >(m@),
        },
{
    match &slide.svg {
        Some(s) => Ok(Some(SvgSource::Inline(s.clone()))),
        None => match &slide.image {
            Some(p) => {
                let lowered = to_lowercase(p.as_str());
                if is_svg_name(lowered.as_str()) {
                    Ok(Some(SvgSource::File(p.clone())))
                } else {
                    let mut m: Vec<char> = Vec::new();
                    push_str(&mut m, "image path ");
                    let q = debug_quoted(p.as_str());
                    push_str(&mut m, q.as_str());
                    push_str(&mut m, " is not an .svg (raster images not yet supported)");
                    Err(string_of(m.as_slice()))
                }
            },
            None => Ok(None),
        },
    }
}

/// What a slide draws, one block at a time, top to bottom.
#[derive(Debug, Clone, Copy, PartialEq, Eq)]
pub enum Block {
    Title,
    /// The sub-heading at this index of the slide's list.
    Subtitle(usize),
    Content,
    Bullets,
    Columns,
    Table,
    Code,
    Picture,
    PageNumber,
}

pub open spec fn opt_block(present: bool, b: Block) -> Seq<Block> {
    if present {
        seq![b]
    } else {
        Seq::empty()
    }
}

pub open spec fn subtitle_blocks(n: nat) -> Seq<Block> {
    Seq::new(n, |k: int| Block::Subtitle(k as usize))
}

/// Bullets and columns, bullets first only when the slide asks for it.
pub open spec fn list_blocks(slide: Slide) -> Seq<Block> {
    if slide.bullets_first {
        opt_block(slide.bullets is Some, Block::Bullets) + opt_block(
            slide.columns is Some,
            Block::Columns,
        )
    } else {
        opt_block(slide.columns is Some, Block::Columns) + opt_block(
            slide.bullets is Some,
            Block::Bullets,
        )
    }
}

/// The blocks of a slide in drawing order: title, every sub-heading in
/// order, content, bullets and columns, table, code, picture, and the page
/// number when pages are numbered. A block is drawn only when the slide has it.
pub open spec fn spec_slide_blocks(slide: Slide, paginate: bool) -> Seq<Block> {
    opt_block(slide.title is Some, Block::Title) + subtitle_blocks(slide.subtitles@.len())
        + opt_block(slide.content is Some, Block::Content) + list_blocks(slide) + opt_block(
        slide.table is Some,
        Block::Table,
    ) + opt_block(slide.code is Some, Block::Code) + opt_block(
        slide.svg is Some || slide.image is Some,
        Block::Picture,
    ) + opt_block(paginate, Block::PageNumber)
}

fn push_if(v: &mut Vec<Block>, present: bool, b: Block)
    ensures
        final(v)@ == old(v)@ + opt_block(present, b),
{
    if present {
        v.push(b);
    }
    assert(final(v)@ =~= old(v)@ + opt_block(present, b));
}

/// The blocks a slide draws, in order.
pub fn slide_blocks(slide: &Slide, paginate: bool) -> (r: Vec<Block>)
    ensures
        r@ == spec_slide_blocks(*slide, paginate),
{
    let mut v: Vec<Block> = Vec::new();
    push_if(&mut v, slide.title.is_some(), Block::Title);
    let ghost head = v@;
    let n = slide.subtitles.len();
    let mut k: usize = 0;
    while k < n
        invariant
            k <= n,
            n == slide.subtitles@.len(),
            v@ == head + subtitle_blocks(k as nat),
        decreases n - k,
    {
        v.push(Block::Subtitle(k));
        k += 1;
        assert(v@ =~= head + subtitle_blocks(k as nat));
    }
    push_if(&mut v, slide.content.is_some(), Block::Content);
    let ghost before_lists = v@;
    if slide.bullets_first {
        push_if(&mut v, slide.bullets.is_some(), Block::Bullets);
        push_if(&mut v, slide.columns.is_some(), Block::Columns);
    } else {
        push_if(&mut v, slide.columns.is_some(), Block::Columns);
        push_if(&mut v, slide.bullets.is_some(), Block::Bullets);
    }
    assert(v@ =~= before_lists + list_blocks(*slide));
    push_if(&mut v, slide.table.is_some(), Block::Table);
    push_if(&mut v, slide.code.is_some(), Block::Code);
    push_if(&mut v, slide.svg.is_some() || slide.image.is_some(), Block::Picture);
    push_if(&mut v, paginate, Block::PageNumber);
    v
}

/// Where a block stands in the drawing order: the title, then sub-headings,
/// content, bullets and columns, table, code, picture and page number.
pub open spec fn draw_rank(b: Block) -> int {
    match b {
        Block::Title => 0,
        Block::Subtitle(_) => 1,
        Block::Content => 2,
        Block::Bullets => 3,
        Block::Columns => 3,
        Block::Table => 4,
        Block::Code => 5,
        Block::Picture => 6,
        Block::PageNumber => 7,
    }
}

/// Whether a slide has the part a (non-subtitle) block draws.
pub open spec fn has_part(slide: Slide, paginate: bool, b: Block) -> bool {
    match b {
        Block::Title => slide.title is Some,
        Block::Subtitle(_) => false,
        Block::Content => slide.content is Some,
        Block::Bullets => slide.bullets is Some,
        Block::Columns => slide.columns is Some,
        Block::Table => slide.table is Some,
        Block::Code => slide.code is Some,
        Block::Picture => slide.svg is Some || slide.image is Some,
        Block::PageNumber => paginate,
    }
}

pub open spec fn rank_sorted(s: Seq<Block>) -> bool {
    forall|i: int, j: int| 0 <= i < j < s.len() ==> draw_rank(#[trigger] s[i]) <= draw_rank(#[trigger] s[j])
}

pub open spec fn ranks_at_most(s: Seq<Block>, r: int) -> bool {
    forall|i: int| 0 <= i < s.len() ==> draw_rank(#[trigger] s[i]) <= r
}

pub open spec fn ranks_equal(s: Seq<Block>, r: int) -> bool {
    forall|i: int| 0 <= i < s.len() ==> draw_rank(#[trigger] s[i]) == r
}

proof fn lemma_sorted_extend(a: Seq<Block>, c: Seq<Block>, r: int)
    requires
        rank_sorted(a),
        ranks_at_most(a, r),
        ranks_equal(c, r),
    ensures
        rank_sorted(a + c),
        ranks_at_most(a + c, r),
{
    let x = a + c;
    assert forall|i: int, j: int| 0 <= i < j < x.len() implies draw_rank(#[trigger] x[i]) <= draw_rank(
        #[trigger] x[j],
    ) by {
        if j < a.len() {
            assert(x[i] == a[i] && x[j] == a[j]);
        } else if i < a.len() {
            assert(x[i] == a[i] && x[j] == c[j - a.len()]);
        } else {
            assert(x[i] == c[i - a.len()] && x[j] == c[j - a.len()]);
        }
    }
    assert forall|i: int| 0 <= i < x.len() implies draw_rank(#[trigger] x[i]) <= r by {
        if i < a.len() {
            assert(x[i] == a[i]);
        } else {
            assert(x[i] == c[i - a.len()]);
        }
    }
}

proof fn lemma_contains_concat(a: Seq<Block>, c: Seq<Block>, x: Block)
    ensures
        (a + c).contains(x) == (a.contains(x) || c.contains(x)),
{
    let s = a + c;
    if a.contains(x) {
        let i = choose|i: int| 0 <= i < a.len() && a[i] == x;
        assert(s[i] == x);
    }
    if c.contains(x) {
        let j = choose|j: int| 0 <= j < c.len() && c[j] == x;
        assert(s[a.len() + j] == x);
    }
    if s.contains(x) {
        let k = choose|k: int| 0 <= k < s.len() && s[k] == x;
        if k < a.len() {
            assert(a[k] == x);
        } else {
            assert(c[k - a.len()] == x);
        }
    }
}

proof fn lemma_opt_block(present: bool, b: Block, x: Block)
    ensures
        ranks_equal(opt_block(present, b), draw_rank(b)),
        opt_block(present, b).contains(x) == (present && b == x),
{
    if present {
        assert(opt_block(present, b)[0] == b);
    }
}

proof fn lemma_list_blocks(slide: Slide, x: Block)
    ensures
        ranks_equal(list_blocks(slide), 3),
        list_blocks(slide).contains(x) == ((x == Block::Bullets && slide.bullets is Some) || (x
            == Block::Columns && slide.columns is Some)),
{
    let l = list_blocks(slide);
    let bl = opt_block(slide.bullets is Some, Block::Bullets);
    let cl = opt_block(slide.columns is Some, Block::Columns);
    lemma_opt_block(slide.bullets is Some, Block::Bullets, x);
    lemma_opt_block(slide.columns is Some, Block::Columns, x);
    let (a, c) = if slide.bullets_first { (bl, cl) } else { (cl, bl) };
    assert(l == a + c);
    lemma_contains_concat(a, c, x);
    assert forall|i: int| 0 <= i < l.len() implies draw_rank(#[trigger] l[i]) == 3 by {
        if i < a.len() {
            assert(l[i] == a[i]);
        } else {
            assert(l[i] == c[i - a.len()]);
        }
    }
}

proof fn lemma_blocks_sorted(slide: Slide, paginate: bool)
    ensures
        rank_sorted(spec_slide_blocks(slide, paginate)),
{
    let x = Block::Title;
    let t = opt_block(slide.title is Some, Block::Title);
    let sub = subtitle_blocks(slide.subtitles@.len());
    let c = opt_block(slide.content is Some, Block::Content);
    let l = list_blocks(slide);
    let tb = opt_block(slide.table is Some, Block::Table);
    let co = opt_block(slide.code is Some, Block::Code);
    let pic = opt_block(slide.svg is Some || slide.image is Some, Block::Picture);
    let pn = opt_block(paginate, Block::PageNumber);
    lemma_opt_block(slide.title is Some, Block::Title, x);
    lemma_opt_block(slide.content is Some, Block::Content, x);
    lemma_opt_block(slide.table is Some, Block::Table, x);
    lemma_opt_block(slide.code is Some, Block::Code, x);
    lemma_opt_block(slide.svg is Some || slide.image is Some, Block::Picture, x);
    lemma_opt_block(paginate, Block::PageNumber, x);
    lemma_list_blocks(slide, x);
    assert(ranks_equal(sub, 1));
    assert(rank_sorted(t));
    lemma_sorted_extend(t, sub, 1);
    lemma_sorted_extend(t + sub, c, 2);
    lemma_sorted_extend(t + sub + c, l, 3);
    lemma_sorted_extend(t + sub + c + l, tb, 4);
    lemma_sorted_extend(t + sub + c + l + tb, co, 5);
    lemma_sorted_extend(t + sub + c + l + tb + co, pic, 6);
    lemma_sorted_extend(t + sub + c + l + tb + co + pic, pn, 7);
}

proof fn lemma_blocks_contain(slide: Slide, paginate: bool, x: Block)
    requires
        !(x is Subtitle),
    ensures
        spec_slide_blocks(slide, paginate).contains(x) == has_part(slide, paginate, x),
{
    let t = opt_block(slide.title is Some, Block::Title);
    let sub = subtitle_blocks(slide.subtitles@.len());
    let c = opt_block(slide.content is Some, Block::Content);
    let l = list_blocks(slide);
    let tb = opt_block(slide.table is Some, Block::Table);
    let co = opt_block(slide.code is Some, Block::Code);
    let pic = opt_block(slide.svg is Some || slide.image is Some, Block::Picture);
    let pn = opt_block(paginate, Block::PageNumber);
    lemma_opt_block(slide.title is Some, Block::Title, x);
    lemma_opt_block(slide.content is Some, Block::Content, x);
    lemma_opt_block(slide.table is Some, Block::Table, x);
    lemma_opt_block(slide.code is Some, Block::Code, x);
    lemma_opt_block(slide.svg is Some || slide.image is Some, Block::Picture, x);
    lemma_opt_block(paginate, Block::PageNumber, x);
    lemma_list_blocks(slide, x);
    assert(!sub.contains(x)) by {
        if sub.contains(x) {
            let k = choose|k: int| 0 <= k < sub.len() && sub[k] == x;
            assert(sub[k] == Block::Subtitle(k as usize));
        }
    }
    lemma_contains_concat(t, sub, x);
    lemma_contains_concat(t + sub, c, x);
    lemma_contains_concat(t + sub + c, l, x);
    lemma_contains_concat(t + sub + c + l, tb, x);
    lemma_contains_concat(t + sub + c + l + tb, co, x);
    lemma_contains_concat(t + sub + c + l + tb + co, pic, x);
    lemma_contains_concat(t + sub + c + l + tb + co + pic, pn, x);
}

/// A slide draws its blocks in a fixed order (title, sub-headings,
/// content, bullets and columns, table, code, picture, page number), and
/// draws each other block exactly when it has the part the block shows.
pub proof fn law_blocks_in_order(slide: Slide, paginate: bool, x: Block)
    ensures
        rank_sorted(spec_slide_blocks(slide, paginate)),
        !(x is Subtitle) ==> (spec_slide_blocks(slide, paginate).contains(x) <==> has_part(
            slide,
            paginate,
            x,
        )),
{
    lemma_blocks_sorted(slide, paginate);
    if !(x is Subtitle) {
        lemma_blocks_contain(slide, paginate, x);
    }
}

/// A slide that has both bullets and columns draws its bullets first
/// exactly when it sets `bullets_first`.
pub proof fn law_bullets_first(slide: Slide, paginate: bool)
    requires
        slide.bullets is Some,
        slide.columns is Some,
    ensures
        ({
            let b = spec_slide_blocks(slide, paginate);
            exists|i: int, j: int|
                0 <= i < b.len() && 0 <= j < b.len() && #[trigger] b[i] == Block::Bullets
                    && #[trigger] b[j] == Block::Columns && (i < j <==> slide.bullets_first)
        }),
{
    let b = spec_slide_blocks(slide, paginate);
    let pre = opt_block(slide.title is Some, Block::Title) + subtitle_blocks(slide.subtitles@.len())
        + opt_block(slide.content is Some, Block::Content);
    let l = list_blocks(slide);
    let x1 = pre + l;
    let x2 = x1 + opt_block(slide.table is Some, Block::Table);
    let x3 = x2 + opt_block(slide.code is Some, Block::Code);
    let x4 = x3 + opt_block(slide.svg is Some || slide.image is Some, Block::Picture);
    assert(b == x4 + opt_block(paginate, Block::PageNumber));
    let p = pre.len() as int;
    assert(l.len() == 2);
    assert(x1[p] == l[0] && x1[p + 1] == l[1]);
    assert(x2[p] == l[0] && x2[p + 1] == l[1]);
    assert(x3[p] == l[0] && x3[p + 1] == l[1]);
    assert(x4[p] == l[0] && x4[p + 1] == l[1]);
    assert(b[p] == l[0] && b[p + 1] == l[1]);
    if slide.bullets_first {
        assert(b[p] == Block::Bullets && b[p + 1] == Block::Columns);
    } else {
        assert(b[p + 1] == Block::Bullets && b[p] == Block::Columns);
    }
}

/// Whether the rule under the title is drawn: for any title alignment but
/// `center`.
pub fn title_rule(slide: &Slide) -> (r: bool)
    ensures
        r == (first_of(opt_view(slide.title_align), opt_view(slide.align), "left"@) != "center"@),
{
    let a = slide.title_alignment();
    let ca = chars_of(a.as_str());
    let center = chars_of("center");
    !eq_chars(ca.as_slice(), center.as_slice())
}

/// The page number shown in the corner of a slide, as `page / total`.
pub open spec fn spec_page_label(page: nat, total: nat) -> Seq<char> {
    decimal(page) + " / "@ + decimal(total)
}

pub fn page_label(page: usize, total: usize) -> (r: String)
    ensures
        r@ == spec_page_label(page as nat, total as nat),
{
    let mut v: Vec<char> = Vec::new();
    push_decimal(&mut v, page as u64);
    push_str(&mut v, " / ");
    push_decimal(&mut v, total as u64);
    string_of(v.as_slice())
}

} // verus!
