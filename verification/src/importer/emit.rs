//! YAML emitter for the imported presentation.
use vstd::prelude::*;

use crate::importer::marp::{
    lits, strs, OutCode, OutPresentation, OutSlide, OutTable, SpecCode, SpecPresentation, SpecSlide,
    SpecTable,
};
use crate::text::{
    chars_of, contains, contains_seq, copy_all, eq_chars, lines, lines_of, push_all, push_str,
    skip_while, string_of, trim_end, trim_end_ws, views,
};

verus! {

// ── numbers ─────────────────────────────────────────────────────────────────

pub open spec fn digit_char(d: int) -> char {
    seq!['0', '1', '2', '3', '4', '5', '6', '7', '8', '9'][d]
}

/// Decimal digits of `n`, as `Display` writes them.
pub open spec fn decimal(n: nat) -> Seq<char>
    decreases n,
{
    if n < 10 {
        seq![digit_char(n as int)]
    } else {
        decimal(n / 10) + seq![digit_char((n % 10) as int)]
    }
}

fn digit(d: u64) -> (c: char)
    requires
        d < 10,
    ensures
        c == digit_char(d as int),
{
    if d == 0 {
        '0'
    } else if d == 1 {
        '1'
    } else if d == 2 {
        '2'
    } else if d == 3 {
        '3'
    } else if d == 4 {
        '4'
    } else if d == 5 {
        '5'
    } else if d == 6 {
        '6'
    } else if d == 7 {
        '7'
    } else if d == 8 {
        '8'
    } else {
        '9'
    }
}

/// Appends the decimal digits of `n`.
pub fn push_decimal(out: &mut Vec<char>, n: u64)
    ensures
        final(out)@ == old(out)@ + decimal(n as nat),
    decreases n,
{
    if n < 10 {
        out.push(digit(n));
        assert(out@ =~= old(out)@ + decimal(n as nat));
    } else {
        push_decimal(out, n / 10);
        out.push(digit(n % 10));
        assert(out@ =~= old(out)@ + decimal(n as nat));
    }
}

// ── lengths in bytes ────────────────────────────────────────────────────────

/// Bytes of `c` in UTF-8 (`char::len_utf8`).
pub open spec fn utf8_width(c: char) -> nat {
    if (c as u32) < 0x80 {
        1
    } else if (c as u32) < 0x800 {
        2
    } else if (c as u32) < 0x10000 {
        3
    } else {
        4
    }
}

/// Bytes of `s` in UTF-8 (`str::len`).
pub open spec fn utf8_len(s: Seq<char>) -> nat
    decreases s.len(),
{
    if s.len() == 0 {
        0
    } else {
        utf8_len(s.drop_last()) + utf8_width(s.last())
    }
}

pub fn char_width(c: char) -> (w: usize)
    ensures
        w == utf8_width(c),
{
    let v = c as u32;
    if v < 0x80 {
        1
    } else if v < 0x800 {
        2
    } else if v < 0x10000 {
        3
    } else {
        4
    }
}

pub proof fn lemma_utf8_len_prefix(s: Seq<char>, i: int)
    requires
        0 <= i <= s.len(),
    ensures
        utf8_len(s.take(i)) <= utf8_len(s),
    decreases s.len() - i,
{
    if i < s.len() {
        assert(s.take(i + 1).drop_last() =~= s.take(i));
        lemma_utf8_len_prefix(s, i + 1);
    } else {
        assert(s.take(i) =~= s);
    }
}

/// Is the UTF-8 length of `s` above `limit`?
pub fn utf8_len_exceeds(s: &[char], limit: usize) -> (res: bool)
    requires
        limit < usize::MAX - 4,
    ensures
        res == (utf8_len(s@) > limit),
{
    let mut acc: usize = 0;
    let mut i: usize = 0;
    while i < s.len()
        invariant
            i <= s@.len(),
            limit < usize::MAX - 4,
            acc == utf8_len(s@.take(i as int)),
            acc <= limit,
        decreases s@.len() - i,
    {
        assert(s@.take(i + 1).drop_last() =~= s@.take(i as int));
        acc = acc + char_width(s[i]);
        i += 1;
        if acc > limit {
            proof {
                lemma_utf8_len_prefix(s@, i as int);
            }
            return true;
        }
    }
    assert(s@.take(s@.len() as int) =~= s@);
    false
}

// ── scalars ─────────────────────────────────────────────────────────────────

/// Characters that YAML gives a meaning at the start of a plain scalar.
pub open spec fn is_indicator(c: char) -> bool {
    c == '-' || c == '?' || c == ':' || c == ',' || c == '[' || c == ']' || c == '{' || c == '}'
        || c == '#' || c == '&' || c == '*' || c == '!' || c == '|' || c == '>' || c == '\''
        || c == '"' || c == '%' || c == '@' || c == '`'
}

pub open spec fn is_digit(c: char) -> bool {
    '0' <= c && c <= '9'
}

pub open spec fn digits() -> spec_fn(char) -> bool {
    |c: char| is_digit(c)
}

/// `a` is `b` up to ASCII case, where `b` is lower-case.
pub open spec fn ci_eq(a: Seq<char>, b: Seq<char>) -> bool {
    a.len() == b.len() && forall|j: int|
        0 <= j < a.len() ==> a[j] == b[j] || (a[j] as u32) + 32 == (b[j] as u32)
}

/// One or more decimal digits.
pub open spec fn all_digits(r: Seq<char>) -> bool {
    r.len() > 0 && forall|j: int| 0 <= j < r.len() ==> is_digit(#[trigger] r[j])
}

/// An exponent part: `e` or `E`, an optional sign, and one or more digits.
pub open spec fn is_exponent(e: Seq<char>) -> bool {
    e.len() >= 2 && (e[0] == 'e' || e[0] == 'E') && if e[1] == '+' || e[1] == '-' {
        all_digits(e.skip(2))
    } else {
        all_digits(e.skip(1))
    }
}

/// `Digit+ | Digit+ '.' Digit* | Digit* '.' Digit+`, then an optional exponent.
pub open spec fn is_number(t: Seq<char>) -> bool {
    let a = skip_while(t, digits(), 0);
    if a < t.len() && t[a] == '.' {
        let b = skip_while(t, digits(), a + 1);
        (a > 0 || b > a + 1) && (b == t.len() || is_exponent(t.skip(b)))
    } else {
        a > 0 && (a == t.len() || is_exponent(t.skip(a)))
    }
}

/// The texts that `f64::from_str` accepts: an optional sign, then `inf`,
/// `infinity`, `nan` (any case) or a decimal number.
pub open spec fn is_float_text(s: Seq<char>) -> bool {
    let t = if s.len() > 0 && (s[0] == '+' || s[0] == '-') {
        s.skip(1)
    } else {
        s
    };
    ci_eq(t, seq!['i', 'n', 'f']) || ci_eq(t, seq!['i', 'n', 'f', 'i', 'n', 'i', 't', 'y']) || ci_eq(
        t,
        seq!['n', 'a', 'n'],
    ) || is_number(t)
}

/// Plain text that a YAML reader would take for something else.
pub open spec fn needs_quote(s: Seq<char>) -> bool {
    ||| (s.len() > 0 && is_indicator(s[0]))
    ||| contains(s, seq![':', ' '])
    ||| contains(s, seq![' ', '#'])
    ||| (s.len() > 0 && s.last() == ':')
    ||| s == "true"@
    ||| s == "false"@
    ||| s == "null"@
    ||| s == "yes"@
    ||| s == "no"@
    ||| is_float_text(s)
}

/// Doubles every single quote.
pub open spec fn escape_quotes(s: Seq<char>) -> Seq<char>
    decreases s.len(),
{
    if s.len() == 0 {
        Seq::empty()
    } else {
        escape_quotes(s.drop_last()) + if s.last() == '\'' {
            seq!['\'', '\'']
        } else {
            seq![s.last()]
        }
    }
}

/// A YAML scalar for `s`: `''` when empty, single-quoted when the plain
/// form would be misread, `s` itself otherwise.
pub open spec fn spec_scalar(s: Seq<char>) -> Seq<char> {
    if s.len() == 0 {
        seq!['\'', '\'']
    } else if needs_quote(s) {
        seq!['\''] + escape_quotes(s) + seq!['\'']
    } else {
        s
    }
}

fn is_indicator_char(c: char) -> (res: bool)
    ensures
        res == is_indicator(c),
{
    c == '-' || c == '?' || c == ':' || c == ',' || c == '[' || c == ']' || c == '{' || c == '}'
        || c == '#' || c == '&' || c == '*' || c == '!' || c == '|' || c == '>' || c == '\''
        || c == '"' || c == '%' || c == '@' || c == '`'
}

fn skip_digits(t: &[char], i: usize) -> (r: usize)
    requires
        i <= t@.len(),
    ensures
        r == skip_while(t@, digits(), i as int),
        i <= r <= t@.len(),
{
    proof {
        crate::text::lemma_skip_while(t@, digits(), i as int);
    }
    let mut k = i;
    while k < t.len() && '0' <= t[k] && t[k] <= '9'
        invariant
            i <= k <= t@.len(),
            skip_while(t@, digits(), k as int) == skip_while(t@, digits(), i as int),
        decreases t@.len() - k,
    {
        k += 1;
    }
    k
}

fn exponent_at(t: &[char], b: usize) -> (res: bool)
    requires
        b <= t@.len(),
    ensures
        res == is_exponent(t@.skip(b as int)),
{
    let e = &t[b..t.len()];
    assert(e@ =~= t@.skip(b as int));
    if !(e.len() >= 2 && (e[0] == 'e' || e[0] == 'E')) {
        return false;
    }
    let start: usize = if e[1] == '+' || e[1] == '-' {
        2
    } else {
        1
    };
    let r = &e[start..e.len()];
    assert(r@ =~= e@.skip(start as int));
    let d = skip_digits(r, 0);
    let res = r.len() > 0 && d == r.len();
    proof {
        crate::text::lemma_skip_while(r@, digits(), 0);
        if d < r@.len() {
            assert(!is_digit(r@[d as int]));
        } else {
            assert forall|j: int| 0 <= j < r@.len() implies is_digit(r@[j]) by {
                assert(digits()(r@[j]));
            }
        }
    }
    res
}

fn ci_matches(a: &[char], b: &[char]) -> (res: bool)
    ensures
        res == ci_eq(a@, b@),
{
    if a.len() != b.len() {
        return false;
    }
    let mut j: usize = 0;
    while j < a.len()
        invariant
            a@.len() == b@.len(),
            j <= a@.len(),
            forall|i: int| 0 <= i < j ==> a@[i] == b@[i] || (a@[i] as u32) + 32 == (b@[i] as u32),
        decreases a@.len() - j,
    {
        let x = a[j] as u32 as u64;
        let y = b[j] as u32 as u64;
        if !(a[j] == b[j] || x + 32 == y) {
            return false;
        }
        j += 1;
    }
    true
}

/// Would `f64::from_str` accept `s`?
pub fn is_float_literal(s: &[char]) -> (res: bool)
    ensures
        res == is_float_text(s@),
{
    let start: usize = if s.len() > 0 && (s[0] == '+' || s[0] == '-') {
        1
    } else {
        0
    };
    let t = &s[start..s.len()];
    assert(start == 1 ==> t@ =~= s@.skip(1));
    assert(start == 0 ==> t@ =~= s@);
    let mut inf: Vec<char> = Vec::new();
    inf.push('i');
    inf.push('n');
    inf.push('f');
    let mut infinity: Vec<char> = Vec::new();
    infinity.push('i');
    infinity.push('n');
    infinity.push('f');
    infinity.push('i');
    infinity.push('n');
    infinity.push('i');
    infinity.push('t');
    infinity.push('y');
    let mut nan: Vec<char> = Vec::new();
    nan.push('n');
    nan.push('a');
    nan.push('n');
    assert(inf@ =~= seq!['i', 'n', 'f']);
    assert(infinity@ =~= seq!['i', 'n', 'f', 'i', 'n', 'i', 't', 'y']);
    assert(nan@ =~= seq!['n', 'a', 'n']);
    if ci_matches(t, inf.as_slice()) || ci_matches(t, infinity.as_slice()) || ci_matches(
        t,
        nan.as_slice(),
    ) {
        return true;
    }
    let a = skip_digits(t, 0);
    if a < t.len() && t[a] == '.' {
        let b = skip_digits(t, a + 1);
        (a > 0 || b > a + 1) && (b == t.len() || exponent_at(t, b))
    } else {
        a > 0 && (a == t.len() || exponent_at(t, a))
    }
}

pub fn needs_quoting(s: &[char]) -> (res: bool)
    ensures
        res == needs_quote(s@),
{
    let mut colon_space: Vec<char> = Vec::new();
    colon_space.push(':');
    colon_space.push(' ');
    let mut space_hash: Vec<char> = Vec::new();
    space_hash.push(' ');
    space_hash.push('#');
    assert(colon_space@ =~= seq![':', ' ']);
    assert(space_hash@ =~= seq![' ', '#']);
    (s.len() > 0 && is_indicator_char(s[0])) || contains_seq(s, colon_space.as_slice())
        || contains_seq(s, space_hash.as_slice()) || (s.len() > 0 && s[s.len() - 1] == ':')
        || eq_chars(s, chars_of("true").as_slice()) || eq_chars(s, chars_of("false").as_slice())
        || eq_chars(s, chars_of("null").as_slice()) || eq_chars(s, chars_of("yes").as_slice())
        || eq_chars(s, chars_of("no").as_slice()) || is_float_literal(s)
}

/// A YAML scalar for `s`.
pub fn scalar(s: &[char]) -> (r: Vec<char>)
    ensures
        r@ == spec_scalar(s@),
{
    let mut r: Vec<char> = Vec::new();
    if s.len() == 0 {
        r.push('\'');
        r.push('\'');
        assert(r@ =~= seq!['\'', '\'']);
        return r;
    }
    if !needs_quoting(s) {
        return copy_all(s);
    }
    r.push('\'');
    let mut i: usize = 0;
    while i < s.len()
        invariant
            i <= s@.len(),
            r@ == seq!['\''] + escape_quotes(s@.take(i as int)),
        decreases s@.len() - i,
    {
        assert(s@.take(i + 1).drop_last() =~= s@.take(i as int));
        if s[i] == '\'' {
            r.push('\'');
            r.push('\'');
        } else {
            r.push(s[i]);
        }
        i += 1;
        assert(r@ =~= seq!['\''] + escape_quotes(s@.take(i as int)));
    }
    assert(s@.take(s@.len() as int) =~= s@);
    r.push('\'');
    assert(r@ =~= seq!['\''] + escape_quotes(s@) + seq!['\'']);
    r
}

/// Pushes the YAML scalar for `s`.
pub fn push_scalar(out: &mut Vec<char>, s: &String)
    ensures
        final(out)@ == old(out)@ + spec_scalar(s@),
{
    let cs = chars_of(s.as_str());
    let v = scalar(cs.as_slice());
    push_all(out, v.as_slice());
}

} // verus!

verus! {

// ── layout pieces ───────────────────────────────────────────────────────────

pub open spec fn nl() -> Seq<char> {
    seq!['\n']
}

/// `prefix` + scalar + newline for each item.
pub open spec fn items(prefix: Seq<char>, xs: Seq<Seq<char>>) -> Seq<char>
    decreases xs.len(),
{
    if xs.len() == 0 {
        Seq::empty()
    } else {
        items(prefix, xs.drop_last()) + prefix + spec_scalar(xs.last()) + nl()
    }
}

/// `prefix` + item + newline for each item, written as is.
pub open spec fn raw_items(prefix: Seq<char>, xs: Seq<Seq<char>>) -> Seq<char>
    decreases xs.len(),
{
    if xs.len() == 0 {
        Seq::empty()
    } else {
        raw_items(prefix, xs.drop_last()) + prefix + xs.last() + nl()
    }
}

/// One line of a `|-` block: trailing whitespace dropped, blank lines left empty.
pub open spec fn block_line(indent: Seq<char>, l: Seq<char>) -> Seq<char> {
    let t = trim_end(l);
    if t.len() == 0 {
        nl()
    } else {
        indent + t + nl()
    }
}

pub open spec fn block_lines(indent: Seq<char>, xs: Seq<Seq<char>>) -> Seq<char>
    decreases xs.len(),
{
    if xs.len() == 0 {
        Seq::empty()
    } else {
        block_lines(indent, xs.drop_last()) + block_line(indent, xs.last())
    }
}

/// Text too long or multi-line for a plain one-line scalar.
pub open spec fn needs_block(s: Seq<char>) -> bool {
    utf8_len(s) > 70 || crate::text::find_char(s, '\n') is Some
}

pub open spec fn spec_emit_content(ls: Seq<Seq<char>>) -> Seq<char> {
    if ls.len() == 1 && !needs_block(ls[0]) {
        "content: "@ + spec_scalar(ls[0]) + nl()
    } else {
        "content: |-\n"@ + block_lines("      "@, ls)
    }
}

pub open spec fn title_section(s: SpecSlide) -> Option<Seq<char>> {
    match s.title {
        Some(t) => Some("title: "@ + spec_scalar(t) + nl()),
        None => None,
    }
}

pub open spec fn subtitle_section(s: SpecSlide) -> Option<Seq<char>> {
    match s.subtitle {
        Some((text, level)) => Some(
            if level == 2 {
                "subtitle: "@ + spec_scalar(text) + nl()
            } else {
                "subtitle:\n"@ + "      text: "@ + spec_scalar(text) + nl() + "      level: "@
                    + decimal(level as nat) + nl()
            },
        ),
        None => None,
    }
}

pub open spec fn content_section(s: SpecSlide) -> Option<Seq<char>> {
    if s.content_lines.len() > 0 {
        Some(spec_emit_content(s.content_lines))
    } else {
        None
    }
}

pub open spec fn bullets_section(s: SpecSlide) -> Option<Seq<char>> {
    if s.bullets.len() > 0 {
        Some("bullets:\n"@ + items("      - "@, s.bullets))
    } else {
        None
    }
}

pub open spec fn code_text(c: SpecCode) -> Seq<char> {
    "code:\n"@ + match c.language {
        Some(l) => "      language: "@ + spec_scalar(l) + nl(),
        None => Seq::empty(),
    } + "      source: |-\n"@ + block_lines("        "@, lines(c.source))
}

pub open spec fn code_section(s: SpecSlide) -> Option<Seq<char>> {
    match s.code {
        Some(c) => Some(code_text(c)),
        None => None,
    }
}

pub open spec fn image_section(s: SpecSlide) -> Option<Seq<char>> {
    match s.image {
        Some(i) => Some("image: "@ + spec_scalar(i) + nl()),
        None => None,
    }
}

pub open spec fn rows_text(rows: Seq<Seq<Seq<char>>>) -> Seq<char>
    decreases rows.len(),
{
    if rows.len() == 0 {
        Seq::empty()
    } else {
        rows_text(rows.drop_last()) + "        -\n"@ + items("          - "@, rows.last())
    }
}

/// Some column is not left-aligned.
pub open spec fn any_non_left(aligns: Seq<Seq<char>>) -> bool {
    exists|j: int| 0 <= j < aligns.len() && aligns[j] != "left"@
}

pub open spec fn table_text(t: SpecTable) -> Seq<char> {
    "table:\n"@ + "      headers:\n"@ + items("        - "@, t.headers) + (if any_non_left(t.aligns) {
        "      aligns:\n"@ + raw_items("        - "@, t.aligns)
    } else {
        Seq::empty()
    }) + "      rows:\n"@ + rows_text(t.rows)
}

pub open spec fn table_section(s: SpecSlide) -> Option<Seq<char>> {
    match s.table {
        Some(t) => Some(table_text(t)),
        None => None,
    }
}

pub open spec fn opt_push(v: Seq<Seq<char>>, o: Option<Seq<char>>) -> Seq<Seq<char>> {
    match o {
        Some(x) => v.push(x),
        None => v,
    }
}

/// The keys a slide writes, in order.
pub open spec fn slide_sections(s: SpecSlide) -> Seq<Seq<char>> {
    opt_push(
        opt_push(
            opt_push(
                opt_push(
                    opt_push(
                        opt_push(opt_push(Seq::empty(), title_section(s)), subtitle_section(s)),
                        content_section(s),
                    ),
                    bullets_section(s),
                ),
                code_section(s),
            ),
            image_section(s),
        ),
        table_section(s),
    )
}

/// The list-item marker before the first key, indentation before the rest.
pub open spec fn sec_prefix(k: int) -> Seq<char> {
    if k == 0 {
        "  - "@
    } else {
        "    "@
    }
}

pub open spec fn joined(secs: Seq<Seq<char>>) -> Seq<char>
    decreases secs.len(),
{
    if secs.len() == 0 {
        Seq::empty()
    } else {
        joined(secs.drop_last()) + sec_prefix(secs.len() - 1) + secs.last()
    }
}

/// One slide as an item of the `slides:` list.
pub open spec fn spec_emit_slide(s: SpecSlide) -> Seq<char> {
    let secs = slide_sections(s);
    if secs.len() == 0 {
        "  - {}\n"@
    } else {
        joined(secs)
    }
}

pub open spec fn slides_text(ss: Seq<SpecSlide>) -> Seq<char>
    decreases ss.len(),
{
    if ss.len() == 0 {
        Seq::empty()
    } else {
        slides_text(ss.drop_last()) + (if ss.len() > 1 {
            nl()
        } else {
            Seq::empty()
        }) + spec_emit_slide(ss.last())
    }
}

/// The YAML document for a presentation.
pub open spec fn spec_emit_yaml(p: SpecPresentation) -> Seq<char> {
    head_text(p) + slides_text(p.slides)
}

} // verus!

verus! {

fn push_items(out: &mut Vec<char>, prefix: &str, xs: &Vec<String>)
    ensures
        final(out)@ == old(out)@ + items(prefix@, strs(xs@)),
{
    let mut i: usize = 0;
    while i < xs.len()
        invariant
            i <= xs@.len(),
            out@ == old(out)@ + items(prefix@, strs(xs@).take(i as int)),
        decreases xs@.len() - i,
    {
        assert(strs(xs@).take(i + 1).drop_last() =~= strs(xs@).take(i as int));
        assert(strs(xs@).take(i + 1).last() == xs@[i as int]@);
        push_str(out, prefix);
        push_scalar(out, &xs[i]);
        out.push('\n');
        i += 1;
        assert(out@ =~= old(out)@ + items(prefix@, strs(xs@).take(i as int)));
    }
    assert(strs(xs@).take(xs@.len() as int) =~= strs(xs@));
}

fn push_raw_items(out: &mut Vec<char>, prefix: &str, xs: &Vec<&'static str>)
    ensures
        final(out)@ == old(out)@ + raw_items(prefix@, lits(xs@)),
{
    let mut i: usize = 0;
    while i < xs.len()
        invariant
            i <= xs@.len(),
            out@ == old(out)@ + raw_items(prefix@, lits(xs@).take(i as int)),
        decreases xs@.len() - i,
    {
        assert(lits(xs@).take(i + 1).drop_last() =~= lits(xs@).take(i as int));
        assert(lits(xs@).take(i + 1).last() == xs@[i as int]@);
        push_str(out, prefix);
        push_str(out, xs[i]);
        out.push('\n');
        i += 1;
        assert(out@ =~= old(out)@ + raw_items(prefix@, lits(xs@).take(i as int)));
    }
    assert(lits(xs@).take(xs@.len() as int) =~= lits(xs@));
}

fn push_block_line(out: &mut Vec<char>, indent: &str, line: &[char])
    ensures
        final(out)@ == old(out)@ + block_line(indent@, line@),
{
    let t = trim_end_ws(line);
    if t.len() == 0 {
        out.push('\n');
        assert(out@ =~= old(out)@ + nl());
    } else {
        push_str(out, indent);
        push_all(out, t.as_slice());
        out.push('\n');
        assert(out@ =~= old(out)@ + indent@ + t@ + nl());
    }
}

/// The lines of a `content: |-` block, indented by six spaces.
pub fn push_block_lines(out: &mut Vec<char>, lines: &Vec<String>)
    ensures
        final(out)@ == old(out)@ + block_lines("      "@, strs(lines@)),
{
    let mut i: usize = 0;
    while i < lines.len()
        invariant
            i <= lines@.len(),
            out@ == old(out)@ + block_lines("      "@, strs(lines@).take(i as int)),
        decreases lines@.len() - i,
    {
        assert(strs(lines@).take(i + 1).drop_last() =~= strs(lines@).take(i as int));
        assert(strs(lines@).take(i + 1).last() == lines@[i as int]@);
        let cs = chars_of(lines[i].as_str());
        push_block_line(out, "      ", cs.as_slice());
        i += 1;
        assert(out@ =~= old(out)@ + block_lines("      "@, strs(lines@).take(i as int)));
    }
    assert(strs(lines@).take(lines@.len() as int) =~= strs(lines@));
}

/// Long or multi-line text goes in a block scalar.
pub fn needs_block_scalar(s: &[char]) -> (res: bool)
    ensures
        res == needs_block(s@),
{
    utf8_len_exceeds(s, 70) || crate::text::find_char_at(s, '\n', 0).is_some()
}

/// The `content` key for the given paragraph lines.
pub fn emit_content(out: &mut Vec<char>, lines: &Vec<String>)
    ensures
        final(out)@ == old(out)@ + spec_emit_content(strs(lines@)),
{
    if lines.len() == 1 {
        let cs = chars_of(lines[0].as_str());
        assert(strs(lines@)[0] == lines@[0]@);
        if !needs_block_scalar(cs.as_slice()) {
            push_str(out, "content: ");
            push_scalar(out, &lines[0]);
            out.push('\n');
            assert(out@ =~= old(out)@ + spec_emit_content(strs(lines@)));
            return;
        }
    }
    push_str(out, "content: |-\n");
    push_block_lines(out, lines);
    assert(out@ =~= old(out)@ + spec_emit_content(strs(lines@)));
}

/// Pushes one key of a slide, with the item marker if it is the first.
fn push_section(out: &mut Vec<char>, first: &mut bool, sec: &[char])
    ensures
        final(out)@ == old(out)@ + (if *old(first) {
            "  - "@
        } else {
            "    "@
        }) + sec@,
        !*final(first),
{
    if *first {
        push_str(out, "  - ");
        *first = false;
    } else {
        push_str(out, "    ");
    }
    push_all(out, sec);
}

fn subtitle_part(slide: &OutSlide) -> (r: Option<Vec<char>>)
    ensures
        opt_view(r) == subtitle_section(slide@),
{
    match &slide.subtitle {
        Some((text, level)) => {
            let mut v: Vec<char> = Vec::new();
            if *level == 2 {
                push_str(&mut v, "subtitle: ");
                push_scalar(&mut v, text);
                v.push('\n');
            } else {
                push_str(&mut v, "subtitle:\n");
                push_str(&mut v, "      text: ");
                push_scalar(&mut v, text);
                v.push('\n');
                push_str(&mut v, "      level: ");
                push_decimal(&mut v, *level as u64);
                v.push('\n');
            }
            assert(subtitle_section(slide@) == Some(v@));
            Some(v)
        },
        None => None,
    }
}

fn code_part(code: &OutCode) -> (r: Vec<char>)
    ensures
        r@ == code_text(code@),
{
    let mut v: Vec<char> = Vec::new();
    push_str(&mut v, "code:\n");
    let ghost after_head = v@;
    match &code.language {
        Some(lang) => {
            push_str(&mut v, "      language: ");
            push_scalar(&mut v, lang);
            v.push('\n');
        },
        None => {},
    }
    let ghost lang_part = match code@.language {
        Some(l) => "      language: "@ + spec_scalar(l) + nl(),
        None => Seq::<char>::empty(),
    };
    assert(v@ =~= after_head + lang_part);
    push_str(&mut v, "      source: |-\n");
    let src = chars_of(code.source.as_str());
    let ls = lines_of(src.as_slice());
    let ghost before = v@;
    let mut i: usize = 0;
    while i < ls.len()
        invariant
            i <= ls@.len(),
            views(ls@) == lines(code@.source),
            v@ == before + block_lines("        "@, views(ls@).take(i as int)),
        decreases ls@.len() - i,
    {
        assert(views(ls@).take(i + 1).drop_last() =~= views(ls@).take(i as int));
        assert(views(ls@).take(i + 1).last() == ls@[i as int]@);
        push_block_line(&mut v, "        ", ls[i].as_slice());
        i += 1;
        assert(v@ =~= before + block_lines("        "@, views(ls@).take(i as int)));
    }
    assert(views(ls@).take(ls@.len() as int) =~= views(ls@));
    assert(v@ =~= code_text(code@));
    v
}

fn table_part(t: &OutTable) -> (r: Vec<char>)
    ensures
        r@ == table_text(t@),
{
    let mut v: Vec<char> = Vec::new();
    push_str(&mut v, "table:\n");
    push_str(&mut v, "      headers:\n");
    push_items(&mut v, "        - ", &t.headers);
    let ghost head = v@;
    let left = chars_of("left");
    let mut any = false;
    let mut k: usize = 0;
    while k < t.aligns.len()
        invariant
            k <= t.aligns@.len(),
            left@ == "left"@,
            any == exists|j: int| 0 <= j < k && lits(t.aligns@)[j] != "left"@,
        decreases t.aligns@.len() - k,
    {
        let a = chars_of(t.aligns[k]);
        assert(lits(t.aligns@)[k as int] == t.aligns@[k as int]@);
        if !eq_chars(a.as_slice(), left.as_slice()) {
            any = true;
        }
        k += 1;
    }
    if any {
        push_str(&mut v, "      aligns:\n");
        push_raw_items(&mut v, "        - ", &t.aligns);
    }
    let ghost mid = if any_non_left(t@.aligns) {
        "      aligns:\n"@ + raw_items("        - "@, t@.aligns)
    } else {
        Seq::<char>::empty()
    };
    assert(v@ =~= head + mid);
    push_str(&mut v, "      rows:\n");
    let ghost before = v@;
    let ghost R = t.rows@.map_values(|r: Vec<String>| strs(r@));
    let mut i: usize = 0;
    while i < t.rows.len()
        invariant
            i <= t.rows@.len(),
            R == t.rows@.map_values(|r: Vec<String>| strs(r@)),
            v@ == before + rows_text(R.take(i as int)),
        decreases t.rows@.len() - i,
    {
        assert(R.take(i + 1).drop_last() =~= R.take(i as int));
        assert(R.take(i + 1).last() == strs(t.rows@[i as int]@));
        push_str(&mut v, "        -\n");
        push_items(&mut v, "          - ", &t.rows[i]);
        i += 1;
        assert(v@ =~= before + rows_text(R.take(i as int)));
    }
    assert(R.take(t.rows@.len() as int) =~= R);
    assert(v@ =~= table_text(t@));
    v
}

pub open spec fn opt_view(o: Option<Vec<char>>) -> Option<Seq<char>> {
    match o {
        Some(v) => Some(v@),
        None => None,
    }
}

/// Writes a key if there is one, and records it among those written.
fn add_part(
    out: &mut Vec<char>,
    first: &mut bool,
    part: Option<Vec<char>>,
    Ghost(base): Ghost<Seq<char>>,
    Ghost(secs): Ghost<Seq<Seq<char>>>,
) -> (r: Ghost<Seq<Seq<char>>>)
    requires
        old(out)@ == base + joined(secs),
        *old(first) == (secs.len() == 0),
    ensures
        r@ == opt_push(secs, opt_view(part)),
        final(out)@ == base + joined(r@),
        *final(first) == (r@.len() == 0),
{
    match part {
        Some(v) => {
            push_section(out, first, v.as_slice());
            assert(secs.push(v@).drop_last() =~= secs);
            assert(out@ =~= base + joined(secs.push(v@)));
            Ghost(secs.push(v@))
        },
        None => Ghost(secs),
    }
}

fn title_part(slide: &OutSlide) -> (r: Option<Vec<char>>)
    ensures
        opt_view(r) == title_section(slide@),
{
    match &slide.title {
        Some(title) => {
            let mut v: Vec<char> = Vec::new();
            push_str(&mut v, "title: ");
            push_scalar(&mut v, title);
            v.push('\n');
            Some(v)
        },
        None => None,
    }
}

fn content_part(slide: &OutSlide) -> (r: Option<Vec<char>>)
    ensures
        opt_view(r) == content_section(slide@),
{
    if slide.content_lines.len() > 0 {
        let mut v: Vec<char> = Vec::new();
        emit_content(&mut v, &slide.content_lines);
        assert(v@ =~= spec_emit_content(strs(slide.content_lines@)));
        Some(v)
    } else {
        None
    }
}

fn bullets_part(slide: &OutSlide) -> (r: Option<Vec<char>>)
    ensures
        opt_view(r) == bullets_section(slide@),
{
    if slide.bullets.len() > 0 {
        let mut v: Vec<char> = Vec::new();
        push_str(&mut v, "bullets:\n");
        push_items(&mut v, "      - ", &slide.bullets);
        Some(v)
    } else {
        None
    }
}

fn code_part_opt(slide: &OutSlide) -> (r: Option<Vec<char>>)
    ensures
        opt_view(r) == code_section(slide@),
{
    match &slide.code {
        Some(code) => Some(code_part(code)),
        None => None,
    }
}

fn image_part(slide: &OutSlide) -> (r: Option<Vec<char>>)
    ensures
        opt_view(r) == image_section(slide@),
{
    match &slide.image {
        Some(image) => {
            let mut v: Vec<char> = Vec::new();
            push_str(&mut v, "image: ");
            push_scalar(&mut v, image);
            v.push('\n');
            Some(v)
        },
        None => None,
    }
}

fn table_part_opt(slide: &OutSlide) -> (r: Option<Vec<char>>)
    ensures
        opt_view(r) == table_section(slide@),
{
    match &slide.table {
        Some(t) => Some(table_part(t)),
        None => None,
    }
}

/// Writes one slide as an item of the `slides:` list.
pub fn emit_slide(out: &mut Vec<char>, slide: &OutSlide)
    ensures
        final(out)@ == old(out)@ + spec_emit_slide(slide@),
{
    let ghost base = old(out)@;
    let mut first = true;
    assert(out@ =~= base + joined(Seq::<Seq<char>>::empty()));
    let g = add_part(out, &mut first, title_part(slide), Ghost(base), Ghost(Seq::empty()));
    let g = add_part(out, &mut first, subtitle_part(slide), Ghost(base), g);
    let g = add_part(out, &mut first, content_part(slide), Ghost(base), g);
    let g = add_part(out, &mut first, bullets_part(slide), Ghost(base), g);
    let g = add_part(out, &mut first, code_part_opt(slide), Ghost(base), g);
    let g = add_part(out, &mut first, image_part(slide), Ghost(base), g);
    let g = add_part(out, &mut first, table_part_opt(slide), Ghost(base), g);
    assert(g@ == slide_sections(slide@));
    if first {
        push_str(out, "  - {}\n");
    } else {
        assert(out@ =~= old(out)@ + spec_emit_slide(slide@));
    }
}

pub open spec fn head_text(p: SpecPresentation) -> Seq<char> {
    "---\n"@ + match p.title {
        Some(t) => "title: "@ + spec_scalar(t) + nl(),
        None => Seq::empty(),
    } + match p.theme {
        Some(t) => "theme: "@ + spec_scalar(t) + nl(),
        None => Seq::empty(),
    } + match p.paginate {
        Some(true) => "paginate: true\n"@,
        Some(false) => "paginate: false\n"@,
        None => Seq::empty(),
    } + nl() + "slides:\n"@
}

fn emit_head(pres: &OutPresentation) -> (out: Vec<char>)
    ensures
        out@ == head_text(pres@),
{
    let mut out: Vec<char> = Vec::new();
    push_str(&mut out, "---\n");
    let ghost a = out@;
    match &pres.title {
        Some(title) => {
            push_str(&mut out, "title: ");
            push_scalar(&mut out, title);
            out.push('\n');
        },
        None => {},
    }
    let ghost b = out@;
    match &pres.theme {
        Some(theme) => {
            push_str(&mut out, "theme: ");
            push_scalar(&mut out, theme);
            out.push('\n');
        },
        None => {},
    }
    let ghost c = out@;
    match pres.paginate {
        Some(true) => push_str(&mut out, "paginate: true\n"),
        Some(false) => push_str(&mut out, "paginate: false\n"),
        None => {},
    }
    out.push('\n');
    push_str(&mut out, "slides:\n");
    assert(out@ =~= head_text(pres@));
    out
}

/// The YAML document for an imported presentation.
pub fn emit_yaml(pres: &OutPresentation) -> (res: String)
    ensures
        res@ == spec_emit_yaml(pres@),
{
    let ghost p = pres@;
    let mut out = emit_head(pres);
    let ghost head = out@;
    let ghost S = pres.slides@.map_values(|s: OutSlide| s@);
    let mut i: usize = 0;
    while i < pres.slides.len()
        invariant
            i <= pres.slides@.len(),
            S == pres.slides@.map_values(|s: OutSlide| s@),
            out@ == head + slides_text(S.take(i as int)),
        decreases pres.slides@.len() - i,
    {
        assert(S.take(i + 1).drop_last() =~= S.take(i as int));
        assert(S.take(i + 1).last() == pres.slides@[i as int]@);
        if i > 0 {
            out.push('\n');
        }
        emit_slide(&mut out, &pres.slides[i]);
        i += 1;
        assert(out@ =~= head + slides_text(S.take(i as int)));
    }
    assert(S.take(pres.slides@.len() as int) =~= S);
    assert(out@ =~= spec_emit_yaml(p));
    string_of(out.as_slice())
}

} // verus!

verus! {

// ── laws ────────────────────────────────────────────────────────────────────

/// Reads the inside of a single-quoted YAML scalar, where `''` stands for one quote.
pub open spec fn unquote_body(q: Seq<char>) -> Seq<char>
    decreases q.len(),
{
    if q.len() == 0 {
        Seq::empty()
    } else if q.len() >= 2 && q[0] == '\'' && q[1] == '\'' {
        seq!['\''] + unquote_body(q.skip(2))
    } else {
        seq![q[0]] + unquote_body(q.skip(1))
    }
}

/// The string a YAML scalar denotes: the inside of a single-quoted scalar
/// with its quotes undoubled, or the plain text itself.
pub open spec fn scalar_value(q: Seq<char>) -> Seq<char> {
    if q.len() >= 2 && q[0] == '\'' && q.last() == '\'' {
        unquote_body(q.subrange(1, q.len() - 1))
    } else {
        q
    }
}

proof fn lemma_escape_concat(a: Seq<char>, b: Seq<char>)
    ensures
        escape_quotes(a + b) == escape_quotes(a) + escape_quotes(b),
    decreases b.len(),
{
    if b.len() == 0 {
        assert(a + b =~= a);
        assert(escape_quotes(a) + escape_quotes(b) =~= escape_quotes(a));
    } else {
        lemma_escape_concat(a, b.drop_last());
        assert((a + b).drop_last() =~= a + b.drop_last());
        assert((a + b).last() == b.last());
        let piece = if b.last() == '\'' {
            seq!['\'', '\'']
        } else {
            seq![b.last()]
        };
        assert(escape_quotes(a + b) == escape_quotes(a + b.drop_last()) + piece);
        assert(escape_quotes(b) == escape_quotes(b.drop_last()) + piece);
        assert(escape_quotes(a + b) =~= escape_quotes(a) + escape_quotes(b));
    }
}

proof fn lemma_unquote_escape(s: Seq<char>)
    ensures
        unquote_body(escape_quotes(s)) == s,
    decreases s.len(),
{
    if s.len() > 0 {
        let c = s[0];
        let rest = s.skip(1);
        assert(s =~= seq![c] + rest);
        lemma_escape_concat(seq![c], rest);
        assert(seq![c].drop_last() =~= Seq::<char>::empty());
        assert(escape_quotes(Seq::<char>::empty()) == Seq::<char>::empty());
        assert(seq![c].last() == c);
        lemma_unquote_escape(rest);
        let e = escape_quotes(s);
        if c == '\'' {
            assert(escape_quotes(seq![c]) == escape_quotes(seq![c].drop_last()) + seq!['\'', '\'']);
            assert(escape_quotes(seq![c]) =~= seq!['\'', '\'']);
            assert(e.skip(2) =~= escape_quotes(rest));
            assert(unquote_body(e) =~= s);
        } else {
            assert(escape_quotes(seq![c]) == escape_quotes(seq![c].drop_last()) + seq![c]);
            assert(escape_quotes(seq![c]) =~= seq![c]);
            assert(e.skip(1) =~= escape_quotes(rest));
            assert(unquote_body(e) =~= s);
        }
    } else {
        assert(escape_quotes(s) =~= Seq::<char>::empty());
    }
}

/// Every scalar the emitter writes denotes the string it was given.
pub proof fn law_scalar_value(s: Seq<char>)
    ensures
        scalar_value(spec_scalar(s)) == s,
{
    if s.len() == 0 {
        assert(seq!['\'', '\''].subrange(1, 1) =~= Seq::<char>::empty());
    } else if needs_quote(s) {
        let q = seq!['\''] + escape_quotes(s) + seq!['\''];
        assert(q.subrange(1, q.len() - 1) =~= escape_quotes(s));
        lemma_unquote_escape(s);
    } else {
        assert(!is_indicator(s[0]));
    }
}

proof fn lemma_joined_start(secs: Seq<Seq<char>>)
    requires
        secs.len() > 0,
    ensures
        crate::text::has_prefix(joined(secs), "  - "@),
    decreases secs.len(),
{
    if secs.len() == 1 {
        assert(secs.drop_last() =~= Seq::<Seq<char>>::empty());
        assert(joined(Seq::<Seq<char>>::empty()) == Seq::<char>::empty());
        assert(joined(secs) == joined(secs.drop_last()) + sec_prefix(0) + secs.last());
        assert(joined(secs) =~= "  - "@ + secs[0]);
        assert(joined(secs).subrange(0, "  - "@.len() as int) =~= "  - "@);
    } else {
        lemma_joined_start(secs.drop_last());
        let j = joined(secs.drop_last());
        assert(joined(secs) == j + sec_prefix(secs.len() - 1) + secs.last());
        assert(joined(secs).subrange(0, "  - "@.len() as int) =~= j.subrange(0, "  - "@.len() as int));
    }
}

/// A table keeps its alignments: when some column, at any index, is not
/// left-aligned, the table text holds an `aligns:` list of every column's
/// alignment in order; when all are, it holds headers and rows only.
pub proof fn law_table_aligns_kept(t: SpecTable)
    ensures
        (exists|j: int| 0 <= j < t.aligns.len() && t.aligns[j] != "left"@) ==> exists|k: int|
            crate::text::occurs_at(
                table_text(t),
                "      aligns:\n"@ + raw_items("        - "@, t.aligns),
                k,
            ),
        (forall|j: int| 0 <= j < t.aligns.len() ==> t.aligns[j] == "left"@) ==> table_text(t)
            == "table:\n"@ + "      headers:\n"@ + items("        - "@, t.headers) + "      rows:\n"@
            + rows_text(t.rows),
{
    let a = "table:\n"@ + "      headers:\n"@ + items("        - "@, t.headers);
    let m = "      aligns:\n"@ + raw_items("        - "@, t.aligns);
    let z = "      rows:\n"@ + rows_text(t.rows);
    if exists|j: int| 0 <= j < t.aligns.len() && t.aligns[j] != "left"@ {
        assert(any_non_left(t.aligns));
        assert(table_text(t) =~= a + m + z);
        assert((a + m + z).subrange(a.len() as int, (a.len() + m.len()) as int) =~= m);
        assert(crate::text::occurs_at(table_text(t), m, a.len() as int));
    }
    if forall|j: int| 0 <= j < t.aligns.len() ==> t.aligns[j] == "left"@ {
        assert(!any_non_left(t.aligns));
        assert(table_text(t) =~= a + Seq::<char>::empty() + z);
    }
}

/// Sections, each after four spaces of indentation.
pub open spec fn indented(secs: Seq<Seq<char>>) -> Seq<char>
    decreases secs.len(),
{
    if secs.len() == 0 {
        Seq::empty()
    } else {
        "    "@ + secs[0] + indented(secs.drop_first())
    }
}

proof fn lemma_indented_push(secs: Seq<Seq<char>>, x: Seq<char>)
    ensures
        indented(secs.push(x)) == indented(secs) + "    "@ + x,
    decreases secs.len(),
{
    if secs.len() == 0 {
        let t = secs.push(x);
        assert(t.drop_first() =~= Seq::<Seq<char>>::empty());
        assert(indented(t.drop_first()) == Seq::<char>::empty());
        assert(indented(secs) == Seq::<char>::empty());
        assert(t[0] == x);
        assert(indented(t) == "    "@ + x + indented(t.drop_first()));
        assert(indented(t) =~= indented(secs) + "    "@ + x);
    } else {
        lemma_indented_push(secs.drop_first(), x);
        let t = secs.push(x);
        assert(t.drop_first() =~= secs.drop_first().push(x));
        assert(t[0] == secs[0]);
        assert(indented(t) == "    "@ + secs[0] + indented(secs.drop_first().push(x)));
        assert(indented(secs) == "    "@ + secs[0] + indented(secs.drop_first()));
        assert(indented(t) =~= indented(secs) + "    "@ + x);
    }
}

proof fn lemma_joined_front(secs: Seq<Seq<char>>)
    requires
        secs.len() > 0,
    ensures
        joined(secs) == "  - "@ + secs[0] + indented(secs.drop_first()),
    decreases secs.len(),
{
    if secs.len() == 1 {
        assert(secs.drop_last() =~= Seq::<Seq<char>>::empty());
        assert(secs.drop_first() =~= Seq::<Seq<char>>::empty());
        assert(joined(secs.drop_last()) == Seq::<char>::empty());
        assert(indented(secs.drop_first()) == Seq::<char>::empty());
        assert(joined(secs) == joined(secs.drop_last()) + sec_prefix(0) + secs.last());
        assert(secs.last() == secs[0]);
        assert(joined(secs) =~= "  - "@ + secs[0] + indented(secs.drop_first()));
    } else {
        let p = secs.drop_last();
        lemma_joined_front(p);
        assert(p.drop_first().push(secs.last()) =~= secs.drop_first());
        lemma_indented_push(p.drop_first(), secs.last());
        assert(joined(secs) == joined(p) + "    "@ + secs.last());
        assert(p[0] == secs[0]);
        assert(joined(secs) =~= "  - "@ + secs[0] + indented(secs.drop_first()));
    }
}

/// The document opens with `---`, and every slide is an item of the
/// `slides:` list: `  - {}` for a slide with nothing to write, else its
/// first section after `  - ` and every further section after four spaces.
pub proof fn law_emit_shape(p: SpecPresentation, s: SpecSlide)
    ensures
        crate::text::has_prefix(spec_emit_yaml(p), "---\n"@),
        crate::text::has_prefix(spec_emit_slide(s), "  - "@),
        slide_sections(s).len() == 0 ==> spec_emit_slide(s) == "  - {}\n"@,
        slide_sections(s).len() > 0 ==> spec_emit_slide(s) == "  - "@ + slide_sections(s)[0]
            + indented(slide_sections(s).drop_first()),
{
    if slide_sections(s).len() > 0 {
        lemma_joined_front(slide_sections(s));
    }
    let y = spec_emit_yaml(p);
    assert(y.subrange(0, "---\n"@.len() as int) =~= "---\n"@);
    let secs = slide_sections(s);
    if secs.len() > 0 {
        lemma_joined_start(secs);
    } else {
        reveal_strlit("  - {}\n");
        reveal_strlit("  - ");
        assert(spec_emit_slide(s).subrange(0, 4) =~= "  - "@);
    }
}

} // verus!
