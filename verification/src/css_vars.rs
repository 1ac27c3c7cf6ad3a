//! Pre-resolve `var(--name)` references in an SVG string.
//!
//! `--name: value;` declarations are read from every `<style>` block (any
//! selector), and each `var(--name)` / `var(--name, fallback)` occurrence is
//! replaced by the declared value, or by the fallback when the name is not
//! declared. The first declaration of a name wins. Cascade by element,
//! `@supports`, `calc()` and nested variables are out of scope.
use vstd::prelude::*;

use crate::text::{
    chars_of, copy_range, find_char, find_char_at, find_char_from, find_from, find_seq_from,
    lemma_find_char_from, lemma_find_from, lemma_skip_while, matches_at, occurs_at, push_all,
    skip_while, string_of, trim, trim_ws,
};

verus! {

pub type Decl = (Seq<char>, Seq<char>);

pub open spec fn is_ident(c: char) -> bool {
    ('a' <= c && c <= 'z') || ('A' <= c && c <= 'Z') || ('0' <= c && c <= '9') || c == '-' || c
        == '_'
}

pub open spec fn ident() -> spec_fn(char) -> bool {
    |c: char| is_ident(c)
}

pub open spec fn ascii_ws() -> spec_fn(char) -> bool {
    |c: char| crate::text::is_ascii_ws(c)
}

pub open spec fn value_char() -> spec_fn(char) -> bool {
    |c: char| c != ';' && c != '}'
}

/// ASCII letters, digits, `-` and `_`.
pub fn is_ident_byte(c: char) -> (res: bool)
    ensures
        res == is_ident(c),
{
    ('a' <= c && c <= 'z') || ('A' <= c && c <= 'Z') || ('0' <= c && c <= '9') || c == '-' || c
        == '_'
}

// ── declarations ────────────────────────────────────────────────────────────

/// One scanning step of the declaration reader at `i`: where it continues
/// and the declaration it found there, if any.
pub open spec fn decl_step(css: Seq<char>, i: int) -> (int, Option<Decl>) {
    if css[i] == '-' && i + 1 < css.len() && css[i + 1] == '-' {
        let e1 = skip_while(css, ident(), i);
        let name = css.subrange(i, e1);
        let e2 = skip_while(css, ascii_ws(), e1);
        if e2 < css.len() && css[e2] == ':' {
            let e3 = skip_while(css, ascii_ws(), e2 + 1);
            let e4 = skip_while(css, value_char(), e3);
            let value = trim(css.subrange(e3, e4));
            (e4, if value.len() > 0 { Some((name, value)) } else { None })
        } else {
            (e2, None)
        }
    } else {
        (i + 1, None)
    }
}

/// The `--name: value` declarations of `css` from index `i` on, in order.
pub open spec fn decls_from(css: Seq<char>, i: int) -> Seq<Decl>
    decreases css.len() - i,
{
    if i < 0 || i >= css.len() {
        Seq::empty()
    } else {
        let (j, d) = decl_step(css, i);
        if i < j <= css.len() {
            match d {
                Some(x) => seq![x] + decls_from(css, j),
                None => decls_from(css, j),
            }
        } else {
            Seq::empty()
        }
    }
}

pub open spec fn spec_parse_decls(css: Seq<char>) -> Seq<Decl> {
    decls_from(css, 0)
}

pub open spec fn decl_views(v: Seq<(Vec<char>, Vec<char>)>) -> Seq<Decl> {
    v.map_values(|p: (Vec<char>, Vec<char>)| (p.0@, p.1@))
}

proof fn lemma_decl_step(css: Seq<char>, i: int)
    requires
        0 <= i < css.len(),
    ensures
        i < decl_step(css, i).0 <= css.len(),
{
    if css[i] == '-' && i + 1 < css.len() && css[i + 1] == '-' {
        lemma_skip_while(css, ident(), i);
        let e1 = skip_while(css, ident(), i);
        assert(ident()(css[i]));
        lemma_skip_while(css, ascii_ws(), e1);
        let e2 = skip_while(css, ascii_ws(), e1);
        if e2 < css.len() && css[e2] == ':' {
            lemma_skip_while(css, ascii_ws(), e2 + 1);
            let e3 = skip_while(css, ascii_ws(), e2 + 1);
            lemma_skip_while(css, value_char(), e3);
        }
    }
}

fn class_holds(c: char, kind: u8) -> (res: bool)
    ensures
        res == (if kind == 0 {
            ident()
        } else if kind == 1 {
            ascii_ws()
        } else {
            value_char()
        })(c),
{
    if kind == 0 {
        is_ident_byte(c)
    } else if kind == 1 {
        c == ' ' || c == '\t' || c == '\n' || c == '\x0C' || c == '\r'
    } else {
        c != ';' && c != '}'
    }
}

fn skip_by(css: &[char], i: usize, kind: u8) -> (r: usize)
    requires
        i <= css@.len(),
        kind <= 2,
    ensures
        r == skip_while(
            css@,
            if kind == 0 {
                ident()
            } else if kind == 1 {
                ascii_ws()
            } else {
                value_char()
            },
            i as int,
        ),
        i <= r <= css@.len(),
{
    let ghost p = if kind == 0 {
        ident()
    } else if kind == 1 {
        ascii_ws()
    } else {
        value_char()
    };
    proof {
        lemma_skip_while(css@, p, i as int);
    }
    let mut k = i;
    while k < css.len() && class_holds(css[k], kind)
        invariant
            i <= k <= css@.len(),
            kind <= 2,
            p == (if kind == 0 {
                ident()
            } else if kind == 1 {
                ascii_ws()
            } else {
                value_char()
            }),
            skip_while(css@, p, k as int) == skip_while(css@, p, i as int),
        decreases css@.len() - k,
    {
        k += 1;
    }
    k
}

/// All `--name: value` declarations of a CSS text, in order.
pub fn parse_decls(css: &[char]) -> (res: Vec<(Vec<char>, Vec<char>)>)
    ensures
        decl_views(res@) == spec_parse_decls(css@),
{
    let mut out: Vec<(Vec<char>, Vec<char>)> = Vec::new();
    let n = css.len();
    let mut i: usize = 0;
    while i < n
        invariant
            n == css@.len(),
            i <= n,
            decl_views(out@) + decls_from(css@, i as int) == spec_parse_decls(css@),
        decreases n - i,
    {
        proof {
            lemma_decl_step(css@, i as int);
        }
        let ghost before = decl_views(out@);
        let ghost step = decl_step(css@, i as int);
        if css[i] == '-' && i + 1 < n && css[i + 1] == '-' {
            let e1 = skip_by(css, i, 0);
            let e2 = skip_by(css, e1, 1);
            if e2 < n && css[e2] == ':' {
                let e3 = skip_by(css, e2 + 1, 1);
                let e4 = skip_by(css, e3, 2);
                let value = trim_ws(&css[e3..e4]);
                if value.len() > 0 {
                    let name = copy_range(css, i, e1);
                    out.push((name, value));
                    assert(decl_views(out@) =~= before.push(step.1->0));
                    assert(decls_from(css@, i as int) == seq![step.1->0] + decls_from(css@, e4 as int));
                    assert(decl_views(out@) + decls_from(css@, e4 as int) =~= before + decls_from(css@, i as int));
                }
                i = e4;
            } else {
                i = e2;
            }
        } else {
            i += 1;
        }
    }
    assert(decl_views(out@) + decls_from(css@, n as int) =~= decl_views(out@));
    out
}

// ── the declaration table ──────────────────────────────────────────────────

/// The value of the first declaration of `name`.
pub open spec fn lookup(ds: Seq<Decl>, name: Seq<char>) -> Option<Seq<char>>
    decreases ds.len(),
{
    if ds.len() == 0 {
        None
    } else {
        match lookup(ds.drop_last(), name) {
            Some(v) => Some(v),
            None => if ds.last().0 == name {
                Some(ds.last().1)
            } else {
                None
            },
        }
    }
}

/// Each name occurs at most once.
pub open spec fn unique_names(ds: Seq<Decl>) -> bool {
    forall|i: int, j: int| 0 <= i < j < ds.len() ==> ds[i].0 != ds[j].0
}

proof fn lemma_lookup_prefix(ds: Seq<Decl>, k: int, name: Seq<char>)
    requires
        0 <= k <= ds.len(),
        lookup(ds.take(k), name) is Some,
    ensures
        lookup(ds, name) == lookup(ds.take(k), name),
    decreases ds.len() - k,
{
    if k < ds.len() {
        assert(ds.take(k + 1).drop_last() =~= ds.take(k));
        lemma_lookup_prefix(ds, k + 1, name);
    } else {
        assert(ds.take(k) =~= ds);
    }
}

proof fn lemma_lookup_none(ds: Seq<Decl>, name: Seq<char>)
    requires
        forall|j: int| 0 <= j < ds.len() ==> (#[trigger] ds[j]).0 != name,
    ensures
        lookup(ds, name) is None,
    decreases ds.len(),
{
    if ds.len() > 0 {
        lemma_lookup_none(ds.drop_last(), name);
    }
}

/// Looks `name` up in a declaration table.
pub fn table_get(ds: &Vec<(Vec<char>, Vec<char>)>, name: &[char]) -> (res: Option<Vec<char>>)
    ensures
        match res {
            Some(v) => lookup(decl_views(ds@), name@) == Some(v@),
            None => lookup(decl_views(ds@), name@) is None,
        },
{
    let ghost D = decl_views(ds@);
    let mut i: usize = 0;
    while i < ds.len()
        invariant
            D == decl_views(ds@),
            i <= ds@.len(),
            forall|j: int| 0 <= j < i ==> (#[trigger] D[j]).0 != name@,
        decreases ds@.len() - i,
    {
        assert(D[i as int] == (ds@[i as int].0@, ds@[i as int].1@));
        if crate::text::eq_chars(ds[i].0.as_slice(), name) {
            proof {
                assert(D.take(i as int) =~= D.take(i + 1).drop_last());
                assert forall|j: int| 0 <= j < D.take(i as int).len() implies (#[trigger] D.take(
                    i as int,
                )[j]).0 != name@ by {
                    assert(D.take(i as int)[j] == D[j]);
                }
                lemma_lookup_none(D.take(i as int), name@);
                lemma_lookup_prefix(D, i + 1, name@);
            }
            return Some(crate::text::copy_all(ds[i].1.as_slice()));
        }
        i += 1;
    }
    proof {
        lemma_lookup_none(D, name@);
    }
    None
}

/// Adds a declaration unless its name is already in the table.
fn table_add(ds: &mut Vec<(Vec<char>, Vec<char>)>, name: Vec<char>, value: Vec<char>, Ghost(all): Ghost<Seq<Decl>>)
    requires
        unique_names(decl_views(old(ds)@)),
        forall|n: Seq<char>| lookup(decl_views(old(ds)@), n) == lookup(all, n),
    ensures
        unique_names(decl_views(final(ds)@)),
        decl_views(final(ds)@).len() > 0,
        forall|n: Seq<char>| #[trigger] lookup(decl_views(final(ds)@), n) == lookup(all.push((name@, value@)), n),
{
    let ghost D = decl_views(ds@);
    let ghost p = (name@, value@);
    assert(all.push(p).drop_last() =~= all);
    match table_get(ds, name.as_slice()) {
        Some(_) => {
            assert forall|n: Seq<char>| #[trigger] lookup(decl_views(ds@), n) == lookup(all.push(p), n) by {
                assert(lookup(D, n) == lookup(all, n));
            }
        },
        None => {
            ds.push((name, value));
            assert(decl_views(ds@) =~= D.push(p));
            assert(decl_views(ds@).drop_last() =~= D);
            assert forall|n: Seq<char>| #[trigger] lookup(decl_views(ds@), n) == lookup(all.push(p), n) by {
                assert(lookup(D, n) == lookup(all, n));
            }
            assert forall|i: int, j: int| 0 <= i < j < decl_views(ds@).len() implies decl_views(ds@)[i].0
                != decl_views(ds@)[j].0 by {
                if j == D.len() {
                    assert(decl_views(ds@)[i] == D[i]);
                    if D[i].0 == name@ {
                        lemma_lookup_has(D, i, name@);
                    }
                } else {
                    assert(decl_views(ds@)[i] == D[i]);
                    assert(decl_views(ds@)[j] == D[j]);
                }
            }
        },
    }
}

proof fn lemma_lookup_has(ds: Seq<Decl>, i: int, name: Seq<char>)
    requires
        0 <= i < ds.len(),
        ds[i].0 == name,
    ensures
        lookup(ds, name) is Some,
    decreases ds.len(),
{
    if i < ds.len() - 1 {
        assert(ds.drop_last()[i] == ds[i]);
        lemma_lookup_has(ds.drop_last(), i, name);
    }
}

// ── style blocks ────────────────────────────────────────────────────────────

/// The bodies of the `<style ...>` … `</style>` blocks from `cursor` on.
pub open spec fn style_bodies(s: Seq<char>, cursor: int) -> Seq<Seq<char>>
    decreases s.len() + 1 - cursor,
{
    match find_from(s, "<style"@, cursor) {
        None => Seq::empty(),
        Some(open) => match find_char_from(s, '>', open) {
            None => Seq::empty(),
            Some(gt) => match find_from(s, "</style>"@, gt + 1) {
                None => Seq::empty(),
                Some(be) => {
                    let next = be + "</style>"@.len();
                    if cursor < next <= s.len() {
                        seq![s.subrange(gt + 1, be)] + style_bodies(s, next)
                    } else {
                        Seq::empty()
                    }
                },
            },
        },
    }
}

/// Every declaration of every style block, in document order.
pub open spec fn all_decls(bodies: Seq<Seq<char>>) -> Seq<Decl>
    decreases bodies.len(),
{
    if bodies.len() == 0 {
        Seq::empty()
    } else {
        all_decls(bodies.drop_last()) + spec_parse_decls(bodies.last())
    }
}

pub open spec fn svg_decls(s: Seq<char>) -> Seq<Decl> {
    all_decls(style_bodies(s, 0))
}

/// The declaration table of an SVG: one entry per declared name, holding the
/// value of its first declaration.
pub fn collect_declarations(svg: &[char]) -> (res: Vec<(Vec<char>, Vec<char>)>)
    ensures
        unique_names(decl_views(res@)),
        forall|n: Seq<char>| #[trigger] lookup(decl_views(res@), n) == lookup(svg_decls(svg@), n),
        (decl_views(res@).len() == 0) == (svg_decls(svg@).len() == 0),
{
    let open_tag = chars_of("<style");
    let close_tag = chars_of("</style>");
    let mut out: Vec<(Vec<char>, Vec<char>)> = Vec::new();
    let ghost mut seen: Seq<Seq<char>> = Seq::empty();
    let mut cursor: usize = 0;
    let n = svg.len();
    loop
        invariant
            n == svg@.len(),
            cursor <= n,
            open_tag@ == "<style"@,
            close_tag@ == "</style>"@,
            seen + style_bodies(svg@, cursor as int) == style_bodies(svg@, 0),
            unique_names(decl_views(out@)),
            forall|nm: Seq<char>| #[trigger] lookup(decl_views(out@), nm) == lookup(all_decls(seen), nm),
            (decl_views(out@).len() == 0) == (all_decls(seen).len() == 0),
        ensures
            style_bodies(svg@, cursor as int) =~= Seq::<Seq<char>>::empty(),
            seen + style_bodies(svg@, cursor as int) == style_bodies(svg@, 0),
            unique_names(decl_views(out@)),
            forall|nm: Seq<char>| #[trigger] lookup(decl_views(out@), nm) == lookup(all_decls(seen), nm),
            (decl_views(out@).len() == 0) == (all_decls(seen).len() == 0),
        decreases n + 1 - cursor,
    {
        let open = match find_seq_from(svg, open_tag.as_slice(), cursor) {
            Some(o) => o,
            None => break,
        };
        proof {
            lemma_find_from(svg@, "<style"@, cursor as int);
        }
        let gt = match find_char_at(svg, '>', open) {
            Some(g) => g,
            None => break,
        };
        proof {
            lemma_find_char_from(svg@, '>', open as int);
        }
        let close = match find_seq_from(svg, close_tag.as_slice(), gt + 1) {
            Some(c) => c,
            None => break,
        };
        proof {
            lemma_find_from(svg@, "</style>"@, gt + 1);
        }
        let next = close + close_tag.len();
        let body = copy_range(svg, gt + 1, close);
        let ds = parse_decls(body.as_slice());
        let ghost seen2 = seen.push(body@);
        assert(seen2.drop_last() =~= seen);
        assert(all_decls(seen2) == all_decls(seen) + decl_views(ds@));
        let mut k: usize = 0;
        while k < ds.len()
            invariant
                k <= ds@.len(),
                unique_names(decl_views(out@)),
                forall|nm: Seq<char>| #[trigger] lookup(decl_views(out@), nm) == lookup(
                    all_decls(seen) + decl_views(ds@).take(k as int),
                    nm,
                ),
                (decl_views(out@).len() == 0) == ((all_decls(seen) + decl_views(ds@).take(k as int)).len() == 0),
            decreases ds@.len() - k,
        {
            let ghost prev = all_decls(seen) + decl_views(ds@).take(k as int);
            assert((all_decls(seen) + decl_views(ds@).take(k + 1)) =~= prev.push(
                (ds@[k as int].0@, ds@[k as int].1@),
            ));
            let name = crate::text::copy_all(ds[k].0.as_slice());
            let value = crate::text::copy_all(ds[k].1.as_slice());
            table_add(&mut out, name, value, Ghost(prev));
            k += 1;
        }
        assert(all_decls(seen) + decl_views(ds@).take(ds@.len() as int) =~= all_decls(seen2));
        proof {
            seen = seen2;
        }
        assert(style_bodies(svg@, cursor as int) =~= seq![body@] + style_bodies(svg@, next as int));
        assert(seen + style_bodies(svg@, next as int) =~= style_bodies(svg@, 0));
        cursor = next;
    }
    assert(seen =~= style_bodies(svg@, 0));
    out
}

} // verus!

verus! {

// ── substitution ────────────────────────────────────────────────────────────

/// Index of the `)` that closes a `(` already open before `s`, scanning from
/// `i` with `depth` nested parentheses open.
pub open spec fn close_paren_from(s: Seq<char>, i: int, depth: nat) -> Option<int>
    decreases s.len() - i,
{
    if i < 0 || i >= s.len() {
        None
    } else if s[i] == '(' {
        close_paren_from(s, i + 1, depth + 1)
    } else if s[i] == ')' {
        if depth == 0 {
            Some(i)
        } else {
            close_paren_from(s, i + 1, (depth - 1) as nat)
        }
    } else {
        close_paren_from(s, i + 1, depth)
    }
}

pub open spec fn matching_close(s: Seq<char>) -> Option<int> {
    close_paren_from(s, 0, 0)
}

proof fn lemma_close_paren(s: Seq<char>, i: int, depth: nat)
    requires
        0 <= i,
    ensures
        close_paren_from(s, i, depth) matches Some(k) ==> i <= k < s.len(),
    decreases s.len() - i,
{
    if i < s.len() {
        if s[i] == '(' {
            lemma_close_paren(s, i + 1, depth + 1);
        } else if s[i] == ')' {
            if depth > 0 {
                lemma_close_paren(s, i + 1, (depth - 1) as nat);
            }
        } else {
            lemma_close_paren(s, i + 1, depth);
        }
    }
}

/// Index of the `)` that closes the `(` just before `s`.
pub fn find_matching_close_paren(s: &[char]) -> (res: Option<usize>)
    ensures
        match res {
            Some(k) => matching_close(s@) == Some(k as int) && k < s@.len(),
            None => matching_close(s@) is None,
        },
{
    proof {
        lemma_close_paren(s@, 0, 0);
    }
    let mut depth: usize = 0;
    let mut i: usize = 0;
    while i < s.len()
        invariant
            i <= s@.len(),
            depth <= i,
            close_paren_from(s@, i as int, depth as nat) == matching_close(s@),
        decreases s@.len() - i,
    {
        if s[i] == '(' {
            depth += 1;
        } else if s[i] == ')' {
            if depth == 0 {
                return Some(i);
            }
            depth -= 1;
        }
        i += 1;
    }
    None
}

/// The name of `var(name)` / `var(name, fallback)` and its fallback.
pub open spec fn var_parts(inner: Seq<char>) -> (Seq<char>, Option<Seq<char>>) {
    let t = trim(inner);
    match find_char(t, ',') {
        Some(idx) => (trim(t.take(idx)), Some(trim(t.skip(idx + 1)))),
        None => (t, None),
    }
}

/// What a `var(...)` with the given inside resolves to: the declared value,
/// else the fallback, else nothing.
pub open spec fn spec_resolve_var(inner: Seq<char>, ds: Seq<Decl>) -> Option<Seq<char>> {
    let (name, fallback) = var_parts(inner);
    match lookup(ds, name) {
        Some(v) => Some(v),
        None => fallback,
    }
}

pub fn resolve_var(inner: &[char], decls: &Vec<(Vec<char>, Vec<char>)>) -> (res: Option<Vec<char>>)
    ensures
        match res {
            Some(v) => spec_resolve_var(inner@, decl_views(decls@)) == Some(v@),
            None => spec_resolve_var(inner@, decl_views(decls@)) is None,
        },
{
    let t = trim_ws(inner);
    let tl = t.len();
    let (name, fallback) = match find_char_at(t.as_slice(), ',', 0) {
        Some(idx) => {
            proof {
                lemma_find_char_from(t@, ',', 0);
            }
            let name = trim_ws(&t.as_slice()[0..idx]);
            let fb = trim_ws(&t.as_slice()[idx + 1..tl]);
            (name, Some(fb))
        },
        None => (t, None),
    };
    match table_get(decls, name.as_slice()) {
        Some(v) => Some(v),
        None => fallback,
    }
}

pub open spec fn var_open() -> Seq<char> {
    seq!['v', 'a', 'r', '(']
}

/// The text from `i` on with every resolvable `var(...)` replaced.
pub open spec fn repl_from(s: Seq<char>, ds: Seq<Decl>, i: int) -> Seq<char>
    decreases s.len() - i,
{
    if i < 0 || i >= s.len() {
        Seq::empty()
    } else if occurs_at(s, var_open(), i) {
        match matching_close(s.skip(i + 4)) {
            None => s.skip(i),
            Some(c) => {
                let next = i + 4 + c + 1;
                let piece = match spec_resolve_var(s.subrange(i + 4, i + 4 + c), ds) {
                    Some(r) => r,
                    None => s.subrange(i, next),
                };
                if i < next <= s.len() {
                    piece + repl_from(s, ds, next)
                } else {
                    piece
                }
            },
        }
    } else {
        seq![s[i]] + repl_from(s, ds, i + 1)
    }
}

/// Replaces every `var(...)` that resolves against `decls`.
pub fn replace_vars(svg: &[char], decls: &Vec<(Vec<char>, Vec<char>)>) -> (res: Vec<char>)
    ensures
        res@ == repl_from(svg@, decl_views(decls@), 0),
{
    let ghost D = decl_views(decls@);
    let mut var: Vec<char> = Vec::new();
    var.push('v');
    var.push('a');
    var.push('r');
    var.push('(');
    assert(var@ =~= var_open());
    let n = svg.len();
    let mut out: Vec<char> = Vec::new();
    let mut i: usize = 0;
    while i < n
        invariant
            n == svg@.len(),
            i <= n,
            var@ == var_open(),
            D == decl_views(decls@),
            out@ + repl_from(svg@, D, i as int) == repl_from(svg@, D, 0),
        decreases n - i,
    {
        let ghost before = out@;
        if matches_at(svg, var.as_slice(), i) {
            let rest = &svg[i + 4..n];
            assert(rest@ =~= svg@.skip(i + 4));
            match find_matching_close_paren(rest) {
                None => {
                    push_all(&mut out, &svg[i..n]);
                    assert(svg@.subrange(i as int, n as int) =~= svg@.skip(i as int));
                    assert(repl_from(svg@, D, n as int) =~= Seq::<char>::empty());
                    assert(out@ =~= before + repl_from(svg@, D, i as int));
                    return out;
                },
                Some(c) => {
                    let inner = &svg[i + 4..i + 4 + c];
                    match resolve_var(inner, decls) {
                        Some(r) => push_all(&mut out, r.as_slice()),
                        None => push_all(&mut out, &svg[i..i + 4 + c + 1]),
                    }
                    i = i + 4 + c + 1;
                    assert(out@ + repl_from(svg@, D, i as int) =~= before + repl_from(
                        svg@,
                        D,
                        (i - (4 + c + 1)) as int,
                    ));
                },
            }
        } else {
            out.push(svg[i]);
            i += 1;
            assert(out@ + repl_from(svg@, D, i as int) =~= before + repl_from(svg@, D, i - 1));
        }
    }
    assert(repl_from(svg@, D, n as int) =~= Seq::<char>::empty());
    assert(out@ =~= repl_from(svg@, D, 0));
    out
}

/// `repl_from` only sees the table through its lookups.
proof fn lemma_repl_lookup(s: Seq<char>, d1: Seq<Decl>, d2: Seq<Decl>, i: int)
    requires
        forall|n: Seq<char>| #[trigger] lookup(d1, n) == lookup(d2, n),
    ensures
        repl_from(s, d1, i) == repl_from(s, d2, i),
    decreases s.len() - i,
{
    if 0 <= i < s.len() {
        if occurs_at(s, var_open(), i) {
            match matching_close(s.skip(i + 4)) {
                None => {},
                Some(c) => {
                    let next = i + 4 + c + 1;
                    let inner = s.subrange(i + 4, i + 4 + c);
                    assert(lookup(d1, var_parts(inner).0) == lookup(d2, var_parts(inner).0));
                    if i < next <= s.len() {
                        lemma_repl_lookup(s, d1, d2, next);
                    }
                },
            }
        } else {
            lemma_repl_lookup(s, d1, d2, i + 1);
        }
    }
}

/// The SVG with its CSS variables resolved.
pub open spec fn spec_flatten(s: Seq<char>) -> Seq<char> {
    if svg_decls(s).len() == 0 && !crate::text::contains(s, "var("@) {
        s
    } else {
        repl_from(s, svg_decls(s), 0)
    }
}

/// Resolve CSS variables in the given SVG source. Returns the SVG with
/// every recognised `var(--name)` replaced by its literal value.
pub fn flatten(svg: &str) -> (res: String)
    ensures
        res@ == spec_flatten(svg@),
{
    let s = chars_of(svg);
    let decls = collect_declarations(s.as_slice());
    let var = chars_of("var(");
    // Even with no declarations, `var(--x, fb)` can resolve to its fallback.
    if decls.len() == 0 && !crate::text::contains_seq(s.as_slice(), var.as_slice()) {
        assert(decl_views(decls@).len() == 0);
        return string_of(s.as_slice());
    }
    assert(decls@.len() == 0 ==> decl_views(decls@).len() == 0);
    let r = replace_vars(s.as_slice(), &decls);
    proof {
        lemma_repl_lookup(s@, decl_views(decls@), svg_decls(s@), 0);
    }
    string_of(r.as_slice())
}

} // verus!

verus! {

proof fn lemma_repl_plain(s: Seq<char>, ds: Seq<Decl>, i: int)
    requires
        0 <= i <= s.len(),
        forall|j: int| i <= j ==> !occurs_at(s, var_open(), j),
    ensures
        repl_from(s, ds, i) == s.skip(i),
    decreases s.len() - i,
{
    if i < s.len() {
        lemma_repl_plain(s, ds, i + 1);
        assert(s.skip(i) =~= seq![s[i]] + s.skip(i + 1));
    } else {
        assert(s.skip(i) =~= Seq::<char>::empty());
    }
}

/// A custom property name: `--` then ASCII letters, digits, `-` and `_`.
pub open spec fn custom_name(n: Seq<char>) -> bool {
    &&& n.len() >= 2
    &&& n[0] == '-'
    &&& n[1] == '-'
    &&& forall|j: int|
        0 <= j < n.len() ==> {
            let c = #[trigger] n[j];
            ('a' <= c <= 'z') || ('A' <= c <= 'Z') || ('0' <= c <= '9') || c == '-' || c == '_'
        }
}

/// A declared value: not empty, no `;` or `}` in it, and no whitespace at
/// either end.
pub open spec fn plain_value(v: Seq<char>) -> bool {
    &&& v.len() > 0
    &&& forall|j: int| 0 <= j < v.len() ==> #[trigger] v[j] != ';' && v[j] != '}'
    &&& !crate::text::is_ws(v[0])
    &&& !crate::text::is_ws(v[v.len() - 1])
}

/// A declaration `name:value;` is read as that name with that value, for
/// every custom property name and plain value.
pub proof fn law_declaration_read(n: Seq<char>, v: Seq<char>)
    requires
        custom_name(n),
        plain_value(v),
    ensures
        spec_parse_decls(n + seq![':'] + v + seq![';']) == seq![(n, v)],
{
    let css = n + seq![':'] + v + seq![';'];
    let nl = n.len() as int;
    let e4 = nl + 1 + v.len();
    assert(css.len() == e4 + 1);
    assert forall|j: int| 0 <= j < nl implies #[trigger] css[j] == n[j] by {}
    assert(css[nl] == ':');
    assert forall|j: int| 0 <= j < v.len() implies #[trigger] css[nl + 1 + j] == v[j] by {}
    assert(css[e4] == ';');
    // the name runs up to the colon
    lemma_skip_while(css, ident(), 0);
    let e1 = skip_while(css, ident(), 0);
    if e1 < nl {
        assert(css[e1] == n[e1]);
        assert(ident()(css[e1]));
    }
    if e1 > nl {
        assert(ident()(css[nl]));
    }
    assert(e1 == nl);
    assert(css.subrange(0, e1) =~= n);
    lemma_skip_while(css, ascii_ws(), e1);
    assert(!ascii_ws()(css[nl]));
    assert(skip_while(css, ascii_ws(), e1) == nl);
    // the value starts right after the colon and runs up to the `;`
    lemma_skip_while(css, ascii_ws(), nl + 1);
    let e3 = skip_while(css, ascii_ws(), nl + 1);
    assert(css[nl + 1] == v[0]);
    assert(!ascii_ws()(css[nl + 1]));
    assert(e3 == nl + 1);
    lemma_skip_while(css, value_char(), e3);
    let f = skip_while(css, value_char(), e3);
    if f < e4 {
        assert(css[f] == v[f - nl - 1]);
        assert(value_char()(css[f]));
    }
    if f > e4 {
        assert(value_char()(css[e4]));
    }
    assert(f == e4);
    assert(css.subrange(e3, f) =~= v);
    // `v` is already trimmed
    let ws = crate::text::ws();
    assert(skip_while(v, ws, 0) == 0);
    assert(v.skip(0) =~= v);
    assert(crate::text::back_while(v, ws, v.len() as int) == v.len());
    assert(v.take(v.len() as int) =~= v);
    assert(trim(v) == v);
    assert(decl_step(css, 0) == (e4, Some((n, v))));
    // the `;` starts no declaration and ends the text
    assert(decl_step(css, e4) == (e4 + 1, None::<Decl>));
    assert(decls_from(css, e4 + 1) == Seq::<Decl>::empty());
    assert(decls_from(css, e4) == Seq::<Decl>::empty());
    assert(decls_from(css, 0) == seq![(n, v)] + Seq::<Decl>::empty());
    assert(seq![(n, v)] + Seq::<Decl>::empty() =~= seq![(n, v)]);
}

/// An SVG without any `var(` comes back unchanged.
pub proof fn law_flatten_without_vars(s: Seq<char>)
    requires
        !crate::text::contains(s, "var("@),
    ensures
        spec_flatten(s) == s,
{
    reveal_strlit("var(");
    assert("var("@ =~= var_open());
    lemma_find_from(s, var_open(), 0);
    lemma_repl_plain(s, svg_decls(s), 0);
    assert(s.skip(0) =~= s);
}

} // verus!
