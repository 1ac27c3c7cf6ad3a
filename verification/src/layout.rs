//! Greedy word wrapping of slide body text.
use vstd::prelude::*;

use crate::importer::emit::{char_width, lemma_utf8_len_prefix, utf8_len, utf8_width};
use crate::importer::marp::vviews;
use crate::text::{chars_of, is_whitespace, is_ws, lines, lines_of, string_of, views};

verus! {

/// `str::split_whitespace`: the maximal runs of non-whitespace chars.
pub open spec fn words(s: Seq<char>) -> Seq<Seq<char>>
    decreases s.len(),
{
    if s.len() == 0 {
        Seq::empty()
    } else {
        let w = words(s.drop_last());
        let c = s.last();
        if is_ws(c) {
            w
        } else if s.len() >= 2 && !is_ws(s[s.len() - 2]) {
            w.update(w.len() - 1, w.last().push(c))
        } else {
            w.push(seq![c])
        }
    }
}

pub proof fn lemma_words_nonempty(s: Seq<char>)
    requires
        s.len() > 0,
        !is_ws(s.last()),
    ensures
        words(s).len() > 0,
    decreases s.len(),
{
    if s.len() >= 2 && !is_ws(s[s.len() - 2]) {
        assert(s.drop_last().last() == s[s.len() - 2]);
        lemma_words_nonempty(s.drop_last());
    }
}

/// The words of a char slice.
pub fn split_ws(s: &[char]) -> (res: Vec<Vec<char>>)
    ensures
        vviews(res@) == words(s@),
{
    let mut done: Vec<Vec<char>> = Vec::new();
    let mut cur: Vec<char> = Vec::new();
    let mut i: usize = 0;
    assert(vviews(done@) =~= Seq::<Seq<char>>::empty());
    while i < s.len()
        invariant
            i <= s@.len(),
            (if cur@.len() > 0 {
                vviews(done@).push(cur@)
            } else {
                vviews(done@)
            }) == words(s@.take(i as int)),
            cur@.len() > 0 <==> (i > 0 && !is_ws(s@[i - 1])),
        decreases s@.len() - i,
    {
        let ghost pre = s@.take(i as int);
        assert(s@.take(i + 1).drop_last() =~= pre);
        assert(s@.take(i + 1).last() == s@[i as int]);
        if i > 0 {
            assert(s@.take(i + 1)[i - 1] == s@[i - 1]);
        }
        let ghost before = vviews(done@);
        if is_whitespace(s[i]) {
            if cur.len() > 0 {
                let w = cur;
                done.push(w);
                assert(vviews(done@) =~= before.push(w@));
                cur = Vec::new();
            }
        } else {
            let ghost old_cur = cur@;
            let ghost t = s@.take(i + 1);
            if cur.len() > 0 {
                proof {
                    lemma_words_nonempty(pre);
                    assert(words(pre) == before.push(old_cur));
                    let w = words(pre);
                    assert(t.len() >= 2 && !is_ws(t[t.len() - 2]));
                    assert(words(t) == w.update(w.len() - 1, w.last().push(t.last())));
                    assert(w.update(w.len() - 1, w.last().push(s@[i as int])) =~= before.push(
                        old_cur.push(s@[i as int]),
                    ));
                }
            } else {
                assert(words(pre) == before);
                assert(!(t.len() >= 2 && !is_ws(t[t.len() - 2])));
                assert(words(t) == words(pre).push(seq![t.last()]));
                assert(old_cur.push(s@[i as int]) =~= seq![s@[i as int]]);
            }
            cur.push(s[i]);
            assert(cur@ == old_cur.push(s@[i as int]));
            assert(vviews(done@) == before);
            assert(words(t) == before.push(old_cur.push(s@[i as int])));
            assert((if cur@.len() > 0 {
                vviews(done@).push(cur@)
            } else {
                vviews(done@)
            }) =~= words(s@.take(i + 1)));
        }
        i += 1;
    }
    assert(s@.take(s@.len() as int) =~= s@);
    if cur.len() > 0 {
        let ghost before = vviews(done@);
        let w = cur;
        done.push(w);
        assert(vviews(done@) =~= before.push(w@));
    }
    done
}

pub struct WrapState {
    pub done: Seq<Seq<char>>,
    pub cur: Seq<char>,
}

/// Appending `w` after a space keeps the line within `max` bytes.
pub open spec fn fits(cur: Seq<char>, w: Seq<char>, max: int) -> bool {
    utf8_len(cur) + 1 + utf8_len(w) <= max
}

/// Places one word: on the current line if it fits, else on a new line.
pub open spec fn wrap_apply(st: WrapState, w: Seq<char>, max: int) -> WrapState {
    if st.cur.len() == 0 {
        WrapState { done: st.done, cur: w }
    } else if fits(st.cur, w, max) {
        WrapState { done: st.done, cur: st.cur + seq![' '] + w }
    } else {
        WrapState { done: st.done.push(st.cur), cur: w }
    }
}

pub open spec fn wrap_fold(ws: Seq<Seq<char>>, max: int) -> WrapState
    decreases ws.len(),
{
    if ws.len() == 0 {
        WrapState { done: Seq::empty(), cur: Seq::empty() }
    } else {
        wrap_apply(wrap_fold(ws.drop_last(), max), ws.last(), max)
    }
}

/// The lines one paragraph's words wrap into.
pub open spec fn wrap_para(ws: Seq<Seq<char>>, max: int) -> Seq<Seq<char>> {
    let st = wrap_fold(ws, max);
    if st.cur.len() > 0 {
        st.done.push(st.cur)
    } else {
        st.done
    }
}

pub open spec fn wrap_all(ls: Seq<Seq<char>>, max: int) -> Seq<Seq<char>>
    decreases ls.len(),
{
    if ls.len() == 0 {
        Seq::empty()
    } else {
        wrap_all(ls.drop_last(), max) + wrap_para(words(ls.last()), max)
    }
}

/// Each input line wrapped on its own, at most `max` bytes per line where
/// words allow.
pub open spec fn spec_wrap_text(text: Seq<char>, max: int) -> Seq<Seq<char>> {
    wrap_all(lines(text), max)
}

/// `utf8_len(s)` when it is at most `cap`, else some number above `cap`.
fn utf8_len_capped(s: &[char], cap: usize) -> (r: u128)
    ensures
        r <= cap ==> r == utf8_len(s@),
        r > cap ==> utf8_len(s@) > cap,
        r <= cap + 4,
{
    let mut acc: u128 = 0;
    let mut i: usize = 0;
    while i < s.len()
        invariant
            i <= s@.len(),
            acc == utf8_len(s@.take(i as int)),
            acc <= cap,
        decreases s@.len() - i,
    {
        assert(s@.take(i + 1).drop_last() =~= s@.take(i as int));
        acc = acc + char_width(s[i]) as u128;
        i += 1;
        if acc > cap as u128 {
            proof {
                lemma_utf8_len_prefix(s@, i as int);
            }
            return acc;
        }
    }
    assert(s@.take(s@.len() as int) =~= s@);
    acc
}

fn fits_exec(cur: &[char], w: &[char], max: usize) -> (res: bool)
    ensures
        res == fits(cur@, w@, max as int),
{
    let a = utf8_len_capped(cur, max);
    let b = utf8_len_capped(w, max);
    a + 1 + b <= max as u128
}

/// Wraps text greedily at `max_chars` bytes per line. Line breaks in the
/// input are kept; a word longer than the limit stands on its own line.
pub fn wrap_text(text: &str, max_chars: usize) -> (res: Vec<String>)
    ensures
        res@.map_values(|s: String| s@) == spec_wrap_text(text@, max_chars as int),
{
    let cs = chars_of(text);
    let ls = lines_of(cs.as_slice());
    let ghost L = views(ls@);
    let ghost max = max_chars as int;
    let mut out: Vec<String> = Vec::new();
    let mut k: usize = 0;
    assert(out@.map_values(|s: String| s@) =~= Seq::<Seq<char>>::empty());
    while k < ls.len()
        invariant
            L == views(ls@),
            L == lines(text@),
            max == max_chars as int,
            k <= ls@.len(),
            out@.map_values(|s: String| s@) == wrap_all(L.take(k as int), max),
        decreases ls@.len() - k,
    {
        assert(L.take(k + 1).drop_last() =~= L.take(k as int));
        assert(L.take(k + 1).last() == ls@[k as int]@);
        let ws = split_ws(ls[k].as_slice());
        let ghost W = vviews(ws@);
        let ghost base = out@.map_values(|s: String| s@);
        let mut done_n: usize = 0;
        let mut cur: Vec<char> = Vec::new();
        let mut j: usize = 0;
        assert(W.take(0) =~= Seq::<Seq<char>>::empty());
        while j < ws.len()
            invariant
                W == vviews(ws@),
                W == words(ls@[k as int]@),
                max == max_chars as int,
                j <= ws@.len(),
                out@.map_values(|s: String| s@) == base + wrap_fold(W.take(j as int), max).done,
                cur@ == wrap_fold(W.take(j as int), max).cur,
            decreases ws@.len() - j,
        {
            assert(W.take(j + 1).drop_last() =~= W.take(j as int));
            assert(W.take(j + 1).last() == ws@[j as int]@);
            let ghost before = out@.map_values(|s: String| s@);
            if cur.len() == 0 {
                cur = crate::text::copy_all(ws[j].as_slice());
            } else if fits_exec(cur.as_slice(), ws[j].as_slice(), max_chars) {
                cur.push(' ');
                crate::text::push_all(&mut cur, ws[j].as_slice());
                assert(cur@ =~= wrap_fold(W.take(j + 1), max).cur);
            } else {
                let line = string_of(cur.as_slice());
                out.push(line);
                assert(out@.map_values(|s: String| s@) =~= before.push(line@));
                cur = crate::text::copy_all(ws[j].as_slice());
            }
            j += 1;
        }
        assert(W.take(ws@.len() as int) =~= W);
        if cur.len() > 0 {
            let ghost before = out@.map_values(|s: String| s@);
            let line = string_of(cur.as_slice());
            out.push(line);
            assert(out@.map_values(|s: String| s@) =~= before.push(line@));
        }
        assert(out@.map_values(|s: String| s@) =~= wrap_all(L.take(k + 1), max));
        k += 1;
    }
    assert(L.take(ls@.len() as int) =~= L);
    out
}

} // verus!

verus! {

// ── laws ────────────────────────────────────────────────────────────────────

/// No char of `s` is whitespace.
pub open spec fn no_ws(s: Seq<char>) -> bool {
    forall|j: int| 0 <= j < s.len() ==> !is_ws(#[trigger] s[j])
}

/// Words joined by single spaces.
pub open spec fn joined(ws: Seq<Seq<char>>) -> Seq<char>
    decreases ws.len(),
{
    if ws.len() == 0 {
        Seq::empty()
    } else if ws.len() == 1 {
        ws[0]
    } else {
        joined(ws.drop_last()) + seq![' '] + ws.last()
    }
}

/// A wrapped line: not empty, its words joined by single spaces, and within
/// `max` bytes unless it is a single word.
pub open spec fn line_ok(l: Seq<char>, max: int) -> bool {
    l.len() > 0 && l == joined(words(l)) && (utf8_len(l) <= max || no_ws(l))
}

/// The words of every line, in order.
pub open spec fn all_words(ls: Seq<Seq<char>>) -> Seq<Seq<char>>
    decreases ls.len(),
{
    if ls.len() == 0 {
        Seq::empty()
    } else {
        all_words(ls.drop_last()) + words(ls.last())
    }
}

proof fn lemma_utf8_concat(a: Seq<char>, b: Seq<char>)
    ensures
        utf8_len(a + b) == utf8_len(a) + utf8_len(b),
    decreases b.len(),
{
    if b.len() == 0 {
        assert(a + b =~= a);
    } else {
        lemma_utf8_concat(a, b.drop_last());
        assert((a + b).drop_last() =~= a + b.drop_last());
        assert((a + b).last() == b.last());
    }
}

proof fn lemma_words_elems(s: Seq<char>)
    ensures
        forall|k: int| 0 <= k < words(s).len() ==> (#[trigger] words(s)[k]).len() > 0 && no_ws(words(s)[k]),
    decreases s.len(),
{
    if s.len() > 0 {
        lemma_words_elems(s.drop_last());
        let w = words(s.drop_last());
        let c = s.last();
        if !is_ws(c) && s.len() >= 2 && !is_ws(s[s.len() - 2]) {
            assert(s.drop_last().last() == s[s.len() - 2]);
            lemma_words_nonempty(s.drop_last());
            let u = w.update(w.len() - 1, w.last().push(c));
            assert forall|k: int| 0 <= k < u.len() implies (#[trigger] u[k]).len() > 0 && no_ws(u[k]) by {
                if k == w.len() - 1 {
                    assert(u[k] == w.last().push(c));
                    assert forall|j: int| 0 <= j < u[k].len() implies !is_ws(#[trigger] u[k][j]) by {
                        if j < w.last().len() {
                            assert(u[k][j] == w.last()[j]);
                        }
                    }
                } else {
                    assert(u[k] == w[k]);
                }
            }
        } else if !is_ws(c) {
            let u = w.push(seq![c]);
            assert forall|k: int| 0 <= k < u.len() implies (#[trigger] u[k]).len() > 0 && no_ws(u[k]) by {
                if k < w.len() {
                    assert(u[k] == w[k]);
                }
            }
        }
    }
}

proof fn lemma_words_single(w: Seq<char>)
    requires
        no_ws(w),
    ensures
        w.len() > 0 ==> words(w) == seq![w],
        w.len() == 0 ==> words(w) == Seq::<Seq<char>>::empty(),
    decreases w.len(),
{
    if w.len() > 1 {
        let p = w.drop_last();
        assert(no_ws(p)) by {
            assert forall|j: int| 0 <= j < p.len() implies !is_ws(#[trigger] p[j]) by {
                assert(p[j] == w[j]);
            }
        }
        lemma_words_single(p);
        assert(!is_ws(w.last()));
        assert(!is_ws(w[w.len() - 2]));
        assert(words(w) =~= seq![w]) by {
            assert(seq![p].update(0, p.push(w.last()))[0] =~= w);
        }
    } else if w.len() == 1 {
        assert(w.drop_last() =~= Seq::<char>::empty());
        assert(words(w.drop_last()) == Seq::<Seq<char>>::empty());
        assert(!is_ws(w.last()));
        assert(words(w) == words(w.drop_last()).push(seq![w.last()]));
        assert(seq![w.last()] =~= w);
        assert(words(w) =~= seq![w]);
    }
}

/// Splitting after a whitespace char keeps the words on each side apart.
proof fn lemma_words_concat(x: Seq<char>, y: Seq<char>)
    requires
        x.len() > 0,
        is_ws(x.last()),
    ensures
        words(x + y) == words(x) + words(y),
    decreases y.len(),
{
    if y.len() == 0 {
        assert(x + y =~= x);
        assert(words(x) + words(y) =~= words(x));
    } else {
        let yp = y.drop_last();
        let c = y.last();
        lemma_words_concat(x, yp);
        let xy = x + y;
        assert(xy.drop_last() =~= x + yp);
        assert(xy.last() == c);
        assert(xy[xy.len() - 2] == (if yp.len() > 0 { yp.last() } else { x.last() }));
        if yp.len() > 0 {
            assert(y[y.len() - 2] == yp.last());
        }
        if !is_ws(c) && yp.len() > 0 && !is_ws(yp.last()) {
            lemma_words_nonempty(yp);
            let a = words(x);
            let b = words(yp);
            assert((a + b).update((a + b).len() - 1, (a + b).last().push(c)) =~= a + b.update(
                b.len() - 1,
                b.last().push(c),
            ));
        } else if !is_ws(c) {
            assert((words(x) + words(yp)).push(seq![c]) =~= words(x) + words(yp).push(seq![c]));
        }
    }
}

/// The words of `a`, a space and one more word.
proof fn lemma_words_append(a: Seq<char>, w: Seq<char>)
    requires
        w.len() > 0,
        no_ws(w),
    ensures
        words(a + seq![' '] + w) == words(a).push(w),
{
    let x = a + seq![' '];
    assert(x.drop_last() =~= a);
    assert(is_ws(x.last()));
    assert(words(x) == words(a));
    lemma_words_concat(x, w);
    lemma_words_single(w);
    assert(words(a) + seq![w] =~= words(a).push(w));
}

proof fn lemma_all_words_concat(a: Seq<Seq<char>>, b: Seq<Seq<char>>)
    ensures
        all_words(a + b) == all_words(a) + all_words(b),
    decreases b.len(),
{
    if b.len() == 0 {
        assert(a + b =~= a);
        assert(all_words(a) + all_words(b) =~= all_words(a));
    } else {
        lemma_all_words_concat(a, b.drop_last());
        assert((a + b).drop_last() =~= a + b.drop_last());
        assert((a + b).last() == b.last());
        assert(all_words(a + b) =~= all_words(a) + all_words(b));
    }
}

proof fn lemma_wrap_fold(ws: Seq<Seq<char>>, max: int)
    requires
        forall|k: int| 0 <= k < ws.len() ==> (#[trigger] ws[k]).len() > 0 && no_ws(ws[k]),
    ensures
        ({
            let st = wrap_fold(ws, max);
            &&& all_words(st.done) + words(st.cur) == ws
            &&& forall|k: int| 0 <= k < st.done.len() ==> line_ok(#[trigger] st.done[k], max)
            &&& (st.cur.len() > 0 ==> line_ok(st.cur, max))
            &&& (st.cur.len() == 0 ==> ws.len() == 0)
        }),
    decreases ws.len(),
{
    if ws.len() == 0 {
        assert(words(Seq::<char>::empty()) =~= Seq::<Seq<char>>::empty());
        assert(all_words(Seq::<Seq<char>>::empty()) + words(Seq::<char>::empty()) =~= ws);
    } else {
        let p = ws.drop_last();
        assert forall|k: int| 0 <= k < p.len() implies (#[trigger] p[k]).len() > 0 && no_ws(p[k]) by {
            assert(p[k] == ws[k]);
        }
        lemma_wrap_fold(p, max);
        let st = wrap_fold(p, max);
        let w = ws.last();
        assert(w == ws[ws.len() - 1]);
        lemma_words_single(w);
        assert(ws =~= p.push(w));
        if st.cur.len() == 0 {
            assert(words(st.cur) =~= Seq::<Seq<char>>::empty());
            assert(all_words(st.done) =~= p);
            assert(all_words(st.done) + words(w) =~= ws);
        } else if fits(st.cur, w, max) {
            lemma_words_append(st.cur, w);
            lemma_utf8_concat(st.cur + seq![' '], w);
            lemma_utf8_concat(st.cur, seq![' ']);
            assert(seq![' '].drop_last() =~= Seq::<char>::empty());
            assert((' ' as u32) == 32);
            assert(utf8_width(' ') == 1);
            assert(utf8_len(Seq::<char>::empty()) == 0);
            assert(utf8_len(seq![' ']) == 1);
            assert(all_words(st.done) + words(st.cur + seq![' '] + w) =~= ws);
            let ws2 = words(st.cur).push(w);
            assert(words(st.cur).len() > 0);
            assert(ws2.drop_last() =~= words(st.cur));
            assert(joined(ws2) == joined(words(st.cur)) + seq![' '] + w);
        } else {
            let d = st.done.push(st.cur);
            assert(d.drop_last() =~= st.done);
            assert(all_words(d) == all_words(st.done) + words(st.cur));
            assert(all_words(d) + words(w) =~= ws);
            assert forall|k: int| 0 <= k < d.len() implies line_ok(#[trigger] d[k], max) by {
                if k < st.done.len() {
                    assert(d[k] == st.done[k]);
                }
            }
        }
    }
}

/// The wrapped lines of each input line on its own.
pub open spec fn per_line(ls: Seq<Seq<char>>, max: int) -> Seq<Seq<Seq<char>>> {
    Seq::new(ls.len(), |k: int| wrap_para(words(ls[k]), max))
}

proof fn lemma_wrap_all_per_line(ls: Seq<Seq<char>>, max: int)
    ensures
        wrap_all(ls, max) == per_line(ls, max).flatten_alt(),
    decreases ls.len(),
{
    if ls.len() > 0 {
        lemma_wrap_all_per_line(ls.drop_last(), max);
        assert(per_line(ls, max).drop_last() =~= per_line(ls.drop_last(), max));
        assert(per_line(ls, max).last() == wrap_para(words(ls.last()), max));
    }
}

/// Wrapping keeps every word, in order; no wrapped line is empty; each is
/// its words joined by single spaces; a line exceeds `max` bytes only when
/// it is a single word too long to fit; and the wrapped lines are those of
/// each input line in turn, so no line takes words from two input lines.
pub proof fn law_wrap_text(text: Seq<char>, max: int)
    ensures
        all_words(spec_wrap_text(text, max)) == all_words(lines(text)),
        forall|k: int| 0 <= k < spec_wrap_text(text, max).len() ==> line_ok(
            #[trigger] spec_wrap_text(text, max)[k],
            max,
        ),
        spec_wrap_text(text, max) == per_line(lines(text), max).flatten(),
{
    lemma_wrap_all(lines(text), max);
    lemma_wrap_all_per_line(lines(text), max);
    per_line(lines(text), max).lemma_flatten_and_flatten_alt_are_equivalent();
}

proof fn lemma_wrap_all(ls: Seq<Seq<char>>, max: int)
    ensures
        all_words(wrap_all(ls, max)) == all_words(ls),
        forall|k: int| 0 <= k < wrap_all(ls, max).len() ==> line_ok(#[trigger] wrap_all(ls, max)[k], max),
    decreases ls.len(),
{
    if ls.len() > 0 {
        lemma_wrap_all(ls.drop_last(), max);
        let ws = words(ls.last());
        lemma_words_elems(ls.last());
        lemma_wrap_fold(ws, max);
        let st = wrap_fold(ws, max);
        let para = wrap_para(ws, max);
        if st.cur.len() > 0 {
            let d = st.done.push(st.cur);
            assert(d.drop_last() =~= st.done);
            assert(all_words(para) == all_words(st.done) + words(st.cur));
        } else {
            assert(words(st.cur) =~= Seq::<Seq<char>>::empty());
            assert(all_words(para) =~= all_words(st.done) + words(st.cur));
        }
        assert forall|k: int| 0 <= k < para.len() implies line_ok(#[trigger] para[k], max) by {
            if k < st.done.len() {
                assert(para[k] == st.done[k]);
            }
        }
        let prev = wrap_all(ls.drop_last(), max);
        lemma_all_words_concat(prev, para);
        let all = wrap_all(ls, max);
        assert(all == prev + para);
        assert forall|k: int| 0 <= k < all.len() implies line_ok(#[trigger] all[k], max) by {
            if k < prev.len() {
                assert(all[k] == prev[k]);
            } else {
                assert(all[k] == para[k - prev.len()]);
            }
        }
    }
}

} // verus!
