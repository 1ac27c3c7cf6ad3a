//! Syntax highlighting of code blocks: each line of a block becomes a row of
//! colored runs, each run placed at a character column.
use vstd::prelude::*;

use syntect::easy::HighlightLines;
use syntect::highlighting::{Theme, ThemeSet};
use syntect::parsing::{SyntaxReference, SyntaxSet};

use crate::config::Color;
use crate::model::{spec_display_source, CodeBlock};
use crate::text::{back_char, chars_of, copy_range, eq_char, has_prefix, string_of, trim_end_by, views};

verus! {

#[verifier::external_type_specification]
#[verifier::external_body]
pub struct ExSyntaxSet(SyntaxSet);

#[verifier::external_type_specification]
#[verifier::external_body]
pub struct ExSyntaxReference(SyntaxReference);

#[verifier::external_type_specification]
#[verifier::external_body]
pub struct ExTheme(Theme);

#[verifier::external_type_specification]
#[verifier::external_body]
pub struct ExThemeSet(ThemeSet);

#[verifier::external_type_specification]
#[verifier::external_body]
pub struct ExHighlightLines<'a>(HighlightLines<'a>);

#[verifier::external_type_specification]
#[verifier::external_body]
pub struct ExSyntectError(syntect::Error);

/// `SyntaxSet::load_defaults_newlines`: the grammars bundled with syntect,
/// for lines that keep their newline. Nothing is stated of the set.
#[verifier::external_body]
fn bundled_syntaxes() -> SyntaxSet {
    SyntaxSet::load_defaults_newlines()
}

/// `ThemeSet::load_defaults`: the themes bundled with syntect, by name.
/// Nothing is stated of the set.
#[verifier::external_body]
fn bundled_themes() -> ThemeSet {
    ThemeSet::load_defaults()
}

/// The theme a set holds under a name (`ThemeSet::themes`, a `BTreeMap`,
/// read with `get`), if any. Nothing is stated of which one.
#[verifier::external_body]
fn theme_in<'a>(themes: &'a ThemeSet, name: &str) -> Option<&'a Theme> {
    themes.themes.get(name)
}

/// `SyntaxSet::find_syntax_by_token`: the grammar a language token (a file
/// extension or a grammar name) selects, if any. Which one is not stated.
#[verifier::external_body]
fn syntax_by_token<'a>(syntaxes: &'a SyntaxSet, token: &str) -> Option<&'a SyntaxReference> {
    syntaxes.find_syntax_by_token(token)
}

/// `SyntaxSet::find_syntax_by_name`: the grammar of that name, if the set
/// holds one. Which one is not stated.
#[verifier::external_body]
fn syntax_by_name<'a>(syntaxes: &'a SyntaxSet, name: &str) -> Option<&'a SyntaxReference> {
    syntaxes.find_syntax_by_name(name)
}

/// `HighlightLines::new`: a highlighter for one text in one grammar and theme.
#[verifier::external_body]
fn new_highlighter<'a>(syntax: &SyntaxReference, theme: &'a Theme) -> HighlightLines<'a> {
    HighlightLines::new(syntax, theme)
}

/// `HighlightLines::highlight_line`: styles the next line of the text, each
/// piece with the foreground color of its style. The pieces are consecutive
/// slices of the line from its start; syntect stops them early, and still
/// answers `Ok`, when a scope operation fails, so what is stated is that
/// they spell out a prefix of the line. Their colors and where the line is
/// cut depend on the grammar, the theme and the highlighter's state (the
/// lines highlighted before), and are not stated. A grammar set other than
/// the highlighter's own makes syntect answer an error (a missing context)
/// or other pieces, still a prefix of the line.
#[verifier::external_body]
fn highlight_line(h: &mut HighlightLines, line: &str, syntaxes: &SyntaxSet) -> (r: Result<
    Vec<(Color, String)>,
    syntect::Error,
>)
    ensures
        r matches Ok(v) ==> has_prefix(line@, concat(token_views(v@))),
{
    match h.highlight_line(line, syntaxes) {
        Ok(v) => Ok(
            v.into_iter().map(
                |(s, t)| (Color(s.foreground.r, s.foreground.g, s.foreground.b), t.to_string()),
            ).collect(),
        ),
        Err(e) => Err(e),
    }
}

// ── lines ───────────────────────────────────────────────────────────────────

/// The lines of `s` as `syntect::util::LinesWithEndings` yields them: each
/// line runs up to and including a `'\n'`, the last one may lack it, and no
/// empty line follows a final `'\n'`.
pub open spec fn lines_with_endings(s: Seq<char>) -> Seq<Seq<char>>
    decreases s.len(),
{
    if s.len() == 0 {
        Seq::empty()
    } else {
        let p = lines_with_endings(s.drop_last());
        if p.len() > 0 && p.last().last() != '\n' {
            p.update(p.len() - 1, p.last().push(s.last()))
        } else {
            p.push(seq![s.last()])
        }
    }
}

/// The lines of a text, one after another, spell out the text; no line is
/// empty, a `'\n'` can only be the last char of a line, and every line but
/// the last ends with one.
pub proof fn law_lines_with_endings(s: Seq<char>)
    ensures
        lines_with_endings(s).flatten() == s,
        forall|k: int| 0 <= k < lines_with_endings(s).len() ==> (#[trigger] lines_with_endings(s)[k]).len() > 0,
        forall|k: int, j: int|
            0 <= k < lines_with_endings(s).len() && 0 <= j < lines_with_endings(s)[k].len() - 1
                ==> #[trigger] lines_with_endings(s)[k][j] != '\n',
        forall|k: int|
            0 <= k < lines_with_endings(s).len() - 1 ==> (#[trigger] lines_with_endings(s)[k]).last()
                == '\n',
    decreases s.len(),
{
    let l = lines_with_endings(s);
    l.lemma_flatten_and_flatten_alt_are_equivalent();
    if s.len() > 0 {
        let p = lines_with_endings(s.drop_last());
        law_lines_with_endings(s.drop_last());
        p.lemma_flatten_and_flatten_alt_are_equivalent();
        if p.len() > 0 && p.last().last() != '\n' {
            assert(l.drop_last() =~= p.drop_last());
            assert(p.flatten_alt() =~= p.drop_last().flatten_alt() + p.last());
            assert(l.last() == p.last().push(s.last()));
            assert(l.flatten_alt() == l.drop_last().flatten_alt() + l.last());
            assert(p.drop_last().flatten_alt() + p.last().push(s.last()) =~= (
            p.drop_last().flatten_alt() + p.last()).push(s.last()));
            assert(s.drop_last().push(s.last()) =~= s);
            assert(l.flatten_alt() =~= s);
            assert forall|k: int, j: int|
                0 <= k < l.len() && 0 <= j < l[k].len() - 1 implies #[trigger] l[k][j] != '\n' by {
                if k < l.len() - 1 {
                    assert(l[k] == p[k]);
                } else {
                    assert(l[k] == p.last().push(s.last()));
                    if j < p.last().len() - 1 {
                        assert(p[p.len() - 1][j] != '\n');
                    }
                }
            }
        } else {
            assert(l.drop_last() =~= p);
            assert(l.last() == seq![s.last()]);
            assert(l.flatten_alt() == l.drop_last().flatten_alt() + l.last());
            assert(s.drop_last() + seq![s.last()] =~= s);
            assert(l.flatten_alt() =~= s);
            assert forall|k: int, j: int|
                0 <= k < l.len() && 0 <= j < l[k].len() - 1 implies #[trigger] l[k][j] != '\n' by {
                if k < l.len() - 1 {
                    assert(l[k] == p[k]);
                }
            }
            assert forall|k: int| 0 <= k < l.len() - 1 implies (#[trigger] l[k]).last() == '\n' by {
                assert(l[k] == p[k]);
                if k == p.len() - 1 {
                    assert(p[k].len() > 0);
                }
            }
        }
    }
}

/// Splits `s` into lines that keep their `'\n'`.
pub fn split_lines_with_endings(s: &[char]) -> (res: Vec<Vec<char>>)
    ensures
        views(res@) == lines_with_endings(s@),
{
    let mut done: Vec<Vec<char>> = Vec::new();
    let mut cur: Vec<char> = Vec::new();
    let mut i: usize = 0;
    while i < s.len()
        invariant
            i <= s@.len(),
            lines_with_endings(s@.take(i as int)) == (if cur@.len() > 0 {
                views(done@).push(cur@)
            } else {
                views(done@)
            }),
            forall|k: int|
                0 <= k < done@.len() ==> (#[trigger] done@[k])@.len() > 0 && done@[k]@.last()
                    == '\n',
            forall|j: int| 0 <= j < cur@.len() ==> cur@[j] != '\n',
        decreases s@.len() - i,
    {
        let ghost pre = s@.take(i as int);
        let ghost old_done = views(done@);
        let ghost old_cur = cur@;
        assert(s@.take(i + 1).drop_last() =~= pre);
        assert(s@.take(i + 1).last() == s@[i as int]);
        let c = s[i];
        cur.push(c);
        if c == '\n' {
            let line = cur;
            done.push(line);
            cur = Vec::new();
            assert(views(done@) =~= old_done.push(old_cur.push(c)));
            proof {
                if old_cur.len() > 0 {
                    assert(old_done.push(old_cur).update(old_done.len() as int, old_cur.push(c))
                        =~= old_done.push(old_cur.push(c)));
                } else {
                    assert(old_cur.push(c) =~= seq![c]);
                }
            }
        } else {
            assert(views(done@) =~= old_done);
            proof {
                if old_cur.len() > 0 {
                    assert(old_done.push(old_cur).update(old_done.len() as int, old_cur.push(c))
                        =~= old_done.push(cur@));
                } else {
                    assert(cur@ =~= seq![c]);
                }
            }
        }
        i += 1;
    }
    assert(s@.take(s@.len() as int) =~= s@);
    if cur.len() > 0 {
        let ghost old_done = views(done@);
        let last = cur;
        done.push(last);
        assert(views(done@) =~= old_done.push(last@));
    }
    done
}

// ── runs ────────────────────────────────────────────────────────────────────

/// Highlighted text: its color, its chars, and the column (counted in
/// chars from the start of the line) at which it is drawn.
#[derive(Debug)]
pub struct Run {
    pub color: Color,
    pub text: String,
    pub column: usize,
}

pub struct SpecRun {
    pub color: Color,
    pub text: Seq<char>,
    pub column: nat,
}

impl View for Run {
    type V = SpecRun;

    open spec fn view(&self) -> SpecRun {
        SpecRun { color: self.color, text: self.text@, column: self.column as nat }
    }
}

pub open spec fn run_views(v: Seq<Run>) -> Seq<SpecRun> {
    v.map_values(|r: Run| r@)
}

pub open spec fn token_views(v: Seq<(Color, String)>) -> Seq<(Color, Seq<char>)> {
    v.map_values(|t: (Color, String)| (t.0, t.1@))
}

/// The texts of the pieces, one after another.
pub open spec fn concat(tokens: Seq<(Color, Seq<char>)>) -> Seq<char>
    decreases tokens.len(),
{
    if tokens.len() == 0 {
        Seq::empty()
    } else {
        tokens[0].1 + concat(tokens.drop_first())
    }
}

/// A piece without its trailing newlines, then without its trailing
/// carriage returns.
pub open spec fn token_text(t: Seq<char>) -> Seq<char> {
    trim_end_by(trim_end_by(t, eq_char('\n')), eq_char('\r'))
}

/// The runs drawn for `tokens` when the first one starts at `column`: line
/// endings are cut off each piece, pieces left empty are skipped, and each
/// run starts where the text of the one before ends.
pub open spec fn runs_from(tokens: Seq<(Color, Seq<char>)>, column: nat) -> Seq<SpecRun>
    decreases tokens.len(),
{
    if tokens.len() == 0 {
        Seq::empty()
    } else {
        let t = token_text(tokens[0].1);
        if t.len() == 0 {
            runs_from(tokens.drop_first(), column)
        } else {
            seq![SpecRun { color: tokens[0].0, text: t, column }] + runs_from(
                tokens.drop_first(),
                column + t.len(),
            )
        }
    }
}

/// Runs follow each other along the line: the first starts at the given
/// column, none is empty, and each starts where the text of the one before
/// ends.
pub proof fn law_runs_follow_each_other(tokens: Seq<(Color, Seq<char>)>, column: nat)
    ensures
        runs_from(tokens, column).len() > 0 ==> runs_from(tokens, column)[0].column == column,
        forall|k: int|
            0 <= k < runs_from(tokens, column).len() ==> (#[trigger] runs_from(
                tokens,
                column,
            )[k]).text.len() > 0,
        forall|k: int|
            0 < k < runs_from(tokens, column).len() ==> (#[trigger] runs_from(
                tokens,
                column,
            )[k]).column == runs_from(tokens, column)[k - 1].column + runs_from(
                tokens,
                column,
            )[k - 1].text.len(),
    decreases tokens.len(),
{
    if tokens.len() > 0 {
        let t = token_text(tokens[0].1);
        let rest = tokens.drop_first();
        if t.len() == 0 {
            law_runs_follow_each_other(rest, column);
        } else {
            let r = runs_from(tokens, column);
            let tail = runs_from(rest, column + t.len());
            law_runs_follow_each_other(rest, column + t.len());
            assert forall|k: int| 0 < k < r.len() implies #[trigger] r[k] == tail[k - 1] by {}
            assert forall|k: int| 0 <= k < r.len() implies (#[trigger] r[k]).text.len() > 0 by {
                if k > 0 {
                    assert(r[k] == tail[k - 1]);
                }
            }
            assert forall|k: int| 0 < k < r.len() implies (#[trigger] r[k]).column == r[k
                - 1].column + r[k - 1].text.len() by {
                assert(r[k] == tail[k - 1]);
                if k > 1 {
                    assert(r[k - 1] == tail[k - 2]);
                } else {
                    assert(r[0] == SpecRun { color: tokens[0].0, text: t, column });
                    assert(tail.len() > 0);
                }
            }
        }
    }
}

/// The runs drawn for the highlighted pieces of one line.
pub fn line_runs(tokens: &[(Color, String)]) -> (res: Vec<Run>)
    requires
        concat(token_views(tokens@)).len() <= usize::MAX,
    ensures
        run_views(res@) == runs_from(token_views(tokens@), 0),
{
    let ghost tv = token_views(tokens@);
    let mut out: Vec<Run> = Vec::new();
    let mut col: usize = 0;
    let mut i: usize = 0;
    assert(tv.skip(0) =~= tv);
    assert(run_views(out@) + runs_from(tv, 0) =~= runs_from(tv, 0));
    while i < tokens.len()
        invariant
            i <= tokens@.len(),
            tv == token_views(tokens@),
            tv.len() == tokens@.len(),
            run_views(out@) + runs_from(tv.skip(i as int), col as nat) == runs_from(tv, 0),
            col + concat(tv.skip(i as int)).len() <= concat(tv).len(),
            concat(tv).len() <= usize::MAX,
        decreases tokens@.len() - i,
    {
        let ghost rest = tv.skip(i as int);
        assert(rest.drop_first() =~= tv.skip(i + 1));
        assert(rest[0] == tv[i as int]);
        let color = tokens[i].0;
        let cs = chars_of(tokens[i].1.as_str());
        let a = back_char(cs.as_slice(), cs.len(), '\n');
        let t1 = copy_range(cs.as_slice(), 0, a);
        let b = back_char(t1.as_slice(), t1.len(), '\r');
        let t2 = copy_range(t1.as_slice(), 0, b);
        assert(t2@ == token_text(tv[i as int].1));
        if t2.len() > 0 {
            let ghost before = run_views(out@);
            let run = Run { color, text: string_of(t2.as_slice()), column: col };
            out.push(run);
            assert(run_views(out@) =~= before.push(run@));
            assert(before.push(run@) + runs_from(tv.skip(i + 1), (col + t2@.len()) as nat) =~= before
                + runs_from(rest, col as nat));
            col = col + t2.len();
        }
        i += 1;
    }
    assert(tv.skip(tokens@.len() as int) =~= Seq::<(Color, Seq<char>)>::empty());
    assert(run_views(out@) + Seq::<SpecRun>::empty() =~= run_views(out@));
    out
}

// ── highlighting a code block ───────────────────────────────────────────────

/// `runs` are the runs of some colored pieces that spell out a prefix of
/// `line`; the empty list of runs is one such. Which pieces and colors
/// syntect gives is not stated.
pub open spec fn runs_of_a_prefix(line: Seq<char>, runs: Seq<SpecRun>) -> bool {
    exists|tokens: Seq<(Color, Seq<char>)>|
        has_prefix(line, concat(tokens)) && #[trigger] runs_from(tokens, 0) == runs
}

/// The lines of a code block as they are drawn.
pub open spec fn code_lines(code: CodeBlock) -> Seq<Seq<char>> {
    lines_with_endings(spec_display_source(code.source@, code.trim))
}

/// How many lines a code block shows.
pub fn code_line_count(code: &CodeBlock) -> (n: usize)
    ensures
        n == code_lines(*code).len(),
{
    let source = code.display_source();
    let cs = chars_of(source.as_str());
    let lines = split_lines_with_endings(cs.as_slice());
    lines.len()
}

/// One row without runs per line, for a block drawn without highlighting.
fn unhighlighted_rows(lines: &Vec<Vec<char>>, Ghost(expected): Ghost<Seq<Seq<char>>>) -> (res: Vec<
    Vec<Run>,
>)
    requires
        views(lines@) == expected,
    ensures
        res@.len() == expected.len(),
        forall|i: int|
            0 <= i < res@.len() ==> runs_of_a_prefix(expected[i], run_views((#[trigger] res@[i])@)),
{
    let mut res: Vec<Vec<Run>> = Vec::new();
    let mut i: usize = 0;
    while i < lines.len()
        invariant
            i <= lines@.len(),
            views(lines@) == expected,
            res@.len() == i,
            forall|k: int|
                0 <= k < i ==> runs_of_a_prefix(expected[k], run_views((#[trigger] res@[k])@)),
        decreases lines@.len() - i,
    {
        let none: Vec<Run> = Vec::new();
        let ghost empty = Seq::<(Color, Seq<char>)>::empty();
        assert(run_views(none@) =~= runs_from(empty, 0));
        assert(concat(empty) =~= Seq::<char>::empty());
        assert(expected[i as int].subrange(0, 0) =~= Seq::<char>::empty());
        assert(runs_of_a_prefix(expected[i as int], run_views(none@)));
        let ghost before = res@;
        res.push(none);
        assert(forall|k: int| 0 <= k < i ==> res@[k] == before[k]);
        i += 1;
    }
    res
}

/// The bundled grammars and themes, and the name of the theme code blocks
/// are drawn in.
pub struct Highlighting {
    syntaxes: SyntaxSet,
    themes: ThemeSet,
    theme_name: String,
}

impl Highlighting {
    /// The name of the theme code blocks are drawn in.
    pub closed spec fn theme_name(&self) -> Seq<char> {
        self.theme_name@
    }

    /// The grammars and themes bundled with syntect; code is drawn in the
    /// `InspiredGitHub` theme.
    pub fn new() -> (r: Highlighting)
        ensures
            r.theme_name() == "InspiredGitHub"@,
    {
        let name = string_of(chars_of("InspiredGitHub").as_slice());
        Highlighting { syntaxes: bundled_syntaxes(), themes: bundled_themes(), theme_name: name }
    }

    /// Highlights a code block line by line, in the grammar its language
    /// selects, else in the plain-text grammar, and in the theme named by
    /// `theme_name`: one row of runs per line. Which grammar and theme are
    /// found, and so which colors come out, is syntect's; without either,
    /// the lines are drawn without highlighting.
    pub fn highlight(&self, code: &CodeBlock) -> (res: Vec<Vec<Run>>)
        ensures
            res@.len() == code_lines(*code).len(),
            forall|i: int|
                0 <= i < res@.len() ==> runs_of_a_prefix(
                    code_lines(*code)[i],
                    run_views((#[trigger] res@[i])@),
                ),
    {
        let source = code.display_source();
        let cs = chars_of(source.as_str());
        let lines = split_lines_with_endings(cs.as_slice());
        let found = match &code.language {
            Some(l) => syntax_by_token(&self.syntaxes, l.as_str()),
            None => None,
        };
        let chosen = match found {
            Some(s) => Some(s),
            None => syntax_by_name(&self.syntaxes, "Plain Text"),
        };
        let theme = theme_in(&self.themes, self.theme_name.as_str());
        let (syntax, theme) = match (chosen, theme) {
            (Some(s), Some(t)) => (s, t),
            _ => {
                return unhighlighted_rows(&lines, Ghost(code_lines(*code)));
            },
        };
        let mut res: Vec<Vec<Run>> = Vec::new();
        let mut h = new_highlighter(syntax, theme);
        let mut i: usize = 0;
        while i < lines.len()
            invariant
                i <= lines@.len(),
                views(lines@) == code_lines(*code),
                res@.len() == i,
                forall|k: int|
                    0 <= k < i ==> runs_of_a_prefix(
                        code_lines(*code)[k],
                        run_views((#[trigger] res@[k])@),
                    ),
            decreases lines@.len() - i,
        {
            let line = string_of(lines[i].as_slice());
            let n = lines[i].len();
            assert(line@.len() == n);
            assert(views(lines@)[i as int] == lines@[i as int]@);
            let tokens: Vec<(Color, String)> = match highlight_line(
                &mut h,
                line.as_str(),
                &self.syntaxes,
            ) {
                Ok(t) => t,
                Err(_) => Vec::new(),
            };
            let ghost tv = token_views(tokens@);
            proof {
                if tv.len() == 0 {
                    assert(concat(tv) =~= Seq::<char>::empty());
                    assert(line@.subrange(0, 0) =~= Seq::<char>::empty());
                }
            }
            assert(has_prefix(line@, concat(tv)));
            let runs = line_runs(tokens.as_slice());
            assert(runs_of_a_prefix(code_lines(*code)[i as int], run_views(runs@)));
            let ghost before = res@;
            res.push(runs);
            assert(forall|k: int| 0 <= k < i ==> res@[k] == before[k]);
            i += 1;
        }
        res
    }
}

} // verus!
