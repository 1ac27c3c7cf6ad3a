//! Character-level text primitives shared by the importer, the emitter and
//! the CSS pass. Every operation works on `Seq<char>` in specifications and
//! on `&[char]` / `Vec<char>` at run time.
use vstd::prelude::*;

verus! {

// ── characters ──────────────────────────────────────────────────────────────

/// Unicode `White_Space`, the property that `char::is_whitespace` tests.
pub open spec fn is_ws(c: char) -> bool {
    ||| ('\t' <= c && c <= '\r')
    ||| c == ' '
    ||| c == '\u{85}'
    ||| c == '\u{a0}'
    ||| c == '\u{1680}'
    ||| ('\u{2000}' <= c && c <= '\u{200a}')
    ||| c == '\u{2028}'
    ||| c == '\u{2029}'
    ||| c == '\u{202f}'
    ||| c == '\u{205f}'
    ||| c == '\u{3000}'
}

pub fn is_whitespace(c: char) -> (res: bool)
    ensures
        res == is_ws(c),
{
    ('\t' <= c && c <= '\r') || c == ' ' || c == '\u{85}' || c == '\u{a0}' || c == '\u{1680}' || (
    '\u{2000}' <= c && c <= '\u{200a}') || c == '\u{2028}' || c == '\u{2029}' || c == '\u{202f}'
        || c == '\u{205f}' || c == '\u{3000}'
}

/// ASCII whitespace as `u8::is_ascii_whitespace` defines it.
pub open spec fn is_ascii_ws(c: char) -> bool {
    c == ' ' || c == '\t' || c == '\n' || c == '\x0C' || c == '\r'
}

pub open spec fn ws() -> spec_fn(char) -> bool {
    |c: char| is_ws(c)
}

pub open spec fn eq_char(c: char) -> spec_fn(char) -> bool {
    |d: char| d == c
}

// ── trimming ────────────────────────────────────────────────────────────────

/// Index of the first position at or after `i` whose char does not satisfy `p`.
pub open spec fn skip_while(s: Seq<char>, p: spec_fn(char) -> bool, i: int) -> int
    decreases s.len() - i,
{
    if 0 <= i < s.len() && p(s[i]) {
        skip_while(s, p, i + 1)
    } else {
        i
    }
}

/// End of `s.take(j)` once trailing chars satisfying `p` are dropped.
pub open spec fn back_while(s: Seq<char>, p: spec_fn(char) -> bool, j: int) -> int
    decreases j,
{
    if 0 < j <= s.len() && p(s[j - 1]) {
        back_while(s, p, j - 1)
    } else {
        j
    }
}

pub open spec fn trim_start_by(s: Seq<char>, p: spec_fn(char) -> bool) -> Seq<char> {
    s.skip(skip_while(s, p, 0))
}

pub open spec fn trim_end_by(s: Seq<char>, p: spec_fn(char) -> bool) -> Seq<char> {
    s.take(back_while(s, p, s.len() as int))
}

pub open spec fn trim_by(s: Seq<char>, p: spec_fn(char) -> bool) -> Seq<char> {
    trim_end_by(trim_start_by(s, p), p)
}

/// `str::trim_start`.
pub open spec fn trim_start(s: Seq<char>) -> Seq<char> {
    trim_start_by(s, ws())
}

/// `str::trim_end`.
pub open spec fn trim_end(s: Seq<char>) -> Seq<char> {
    trim_end_by(s, ws())
}

/// `str::trim`.
pub open spec fn trim(s: Seq<char>) -> Seq<char> {
    trim_by(s, ws())
}

pub proof fn lemma_skip_while(s: Seq<char>, p: spec_fn(char) -> bool, i: int)
    requires
        0 <= i <= s.len(),
    ensures
        i <= skip_while(s, p, i) <= s.len(),
        forall|k: int| i <= k < skip_while(s, p, i) ==> p(#[trigger] s[k]),
        skip_while(s, p, i) < s.len() ==> !p(s[skip_while(s, p, i)]),
    decreases s.len() - i,
{
    if i < s.len() && p(s[i]) {
        lemma_skip_while(s, p, i + 1);
    }
}

pub proof fn lemma_back_while(s: Seq<char>, p: spec_fn(char) -> bool, j: int)
    requires
        0 <= j <= s.len(),
    ensures
        0 <= back_while(s, p, j) <= j,
        forall|k: int| back_while(s, p, j) <= k < j ==> p(#[trigger] s[k]),
        back_while(s, p, j) > 0 ==> !p(s[back_while(s, p, j) - 1]),
    decreases j,
{
    if j > 0 && p(s[j - 1]) {
        lemma_back_while(s, p, j - 1);
    }
}

/// Position of the first non-whitespace char at or after `i`.
pub fn skip_ws(s: &[char], i: usize) -> (r: usize)
    requires
        i <= s@.len(),
    ensures
        r == skip_while(s@, ws(), i as int),
        i <= r <= s@.len(),
{
    proof {
        lemma_skip_while(s@, ws(), i as int);
    }
    let mut k = i;
    while k < s.len() && is_whitespace(s[k])
        invariant
            i <= k <= s@.len(),
            skip_while(s@, ws(), k as int) == skip_while(s@, ws(), i as int),
        decreases s@.len() - k,
    {
        k += 1;
    }
    k
}

/// End of `s[..j]` with trailing whitespace dropped.
pub fn back_ws(s: &[char], j: usize) -> (r: usize)
    requires
        j <= s@.len(),
    ensures
        r == back_while(s@, ws(), j as int),
        r <= j,
{
    proof {
        lemma_back_while(s@, ws(), j as int);
    }
    let mut k = j;
    while k > 0 && is_whitespace(s[k - 1])
        invariant
            k <= j <= s@.len(),
            back_while(s@, ws(), k as int) == back_while(s@, ws(), j as int),
        decreases k,
    {
        k -= 1;
    }
    k
}

/// Position of the first char at or after `i` that is not `c`.
pub fn skip_char(s: &[char], i: usize, c: char) -> (r: usize)
    requires
        i <= s@.len(),
    ensures
        r == skip_while(s@, eq_char(c), i as int),
        i <= r <= s@.len(),
{
    proof {
        lemma_skip_while(s@, eq_char(c), i as int);
    }
    let mut k = i;
    while k < s.len() && s[k] == c
        invariant
            i <= k <= s@.len(),
            skip_while(s@, eq_char(c), k as int) == skip_while(s@, eq_char(c), i as int),
        decreases s@.len() - k,
    {
        k += 1;
    }
    k
}

/// End of `s[..j]` with trailing copies of `c` dropped.
pub fn back_char(s: &[char], j: usize, c: char) -> (r: usize)
    requires
        j <= s@.len(),
    ensures
        r == back_while(s@, eq_char(c), j as int),
        r <= j,
{
    proof {
        lemma_back_while(s@, eq_char(c), j as int);
    }
    let mut k = j;
    while k > 0 && s[k - 1] == c
        invariant
            k <= j <= s@.len(),
            back_while(s@, eq_char(c), k as int) == back_while(s@, eq_char(c), j as int),
        decreases k,
    {
        k -= 1;
    }
    k
}

/// A fresh vector holding `s[lo..hi]`.
pub fn copy_range(s: &[char], lo: usize, hi: usize) -> (r: Vec<char>)
    requires
        lo <= hi <= s@.len(),
    ensures
        r@ == s@.subrange(lo as int, hi as int),
{
    let mut r: Vec<char> = Vec::new();
    let mut k = lo;
    while k < hi
        invariant
            lo <= k <= hi <= s@.len(),
            r@ == s@.subrange(lo as int, k as int),
        decreases hi - k,
    {
        r.push(s[k]);
        k += 1;
        assert(r@ =~= s@.subrange(lo as int, k as int));
    }
    r
}

pub fn copy_all(s: &[char]) -> (r: Vec<char>)
    ensures
        r@ == s@,
{
    let r = copy_range(s, 0, s.len());
    assert(s@.subrange(0, s@.len() as int) =~= s@);
    r
}

/// `str::trim`.
pub fn trim_ws(s: &[char]) -> (r: Vec<char>)
    ensures
        r@ == trim(s@),
{
    let a = skip_ws(s, 0);
    let b = back_ws(&s[a..s.len()], s.len() - a);
    assert(s@.subrange(a as int, s@.len() as int) =~= trim_start(s@));
    let r = copy_range(s, a, a + b);
    assert(r@ =~= trim(s@));
    r
}

/// `str::trim_start`.
pub fn trim_start_ws(s: &[char]) -> (r: Vec<char>)
    ensures
        r@ == trim_start(s@),
{
    let a = skip_ws(s, 0);
    copy_range(s, a, s.len())
}

/// `str::trim_end`.
pub fn trim_end_ws(s: &[char]) -> (r: Vec<char>)
    ensures
        r@ == trim_end(s@),
{
    let b = back_ws(s, s.len());
    copy_range(s, 0, b)
}

/// `str::trim_matches(c)`.
pub fn trim_matches_char(s: &[char], c: char) -> (r: Vec<char>)
    ensures
        r@ == trim_by(s@, eq_char(c)),
{
    let a = skip_char(s, 0, c);
    let b = back_char(&s[a..s.len()], s.len() - a, c);
    assert(s@.subrange(a as int, s@.len() as int) =~= trim_start_by(s@, eq_char(c)));
    let r = copy_range(s, a, a + b);
    assert(r@ =~= trim_by(s@, eq_char(c)));
    r
}

// ── prefixes, suffixes, search ──────────────────────────────────────────────

pub open spec fn has_prefix(s: Seq<char>, p: Seq<char>) -> bool {
    p.len() <= s.len() && s.subrange(0, p.len() as int) == p
}

pub open spec fn has_suffix(s: Seq<char>, p: Seq<char>) -> bool {
    p.len() <= s.len() && s.subrange(s.len() - p.len(), s.len() as int) == p
}

/// `p` occurs in `s` starting at index `i`.
pub open spec fn occurs_at(s: Seq<char>, p: Seq<char>, i: int) -> bool {
    0 <= i && i + p.len() <= s.len() && s.subrange(i, i + p.len()) == p
}

/// First occurrence of `p` in `s` at or after `i`.
pub open spec fn find_from(s: Seq<char>, p: Seq<char>, i: int) -> Option<int>
    decreases s.len() + 1 - i,
{
    if i < 0 || i + p.len() > s.len() {
        None
    } else if occurs_at(s, p, i) {
        Some(i)
    } else {
        find_from(s, p, i + 1)
    }
}

/// `str::find` with a string pattern, counted in chars.
pub open spec fn find(s: Seq<char>, p: Seq<char>) -> Option<int> {
    find_from(s, p, 0)
}

/// `str::contains` with a string pattern.
pub open spec fn contains(s: Seq<char>, p: Seq<char>) -> bool {
    find(s, p) is Some
}

/// First index at or after `i` holding `c`.
pub open spec fn find_char_from(s: Seq<char>, c: char, i: int) -> Option<int>
    decreases s.len() - i,
{
    if i < 0 || i >= s.len() {
        None
    } else if s[i] == c {
        Some(i)
    } else {
        find_char_from(s, c, i + 1)
    }
}

pub open spec fn find_char(s: Seq<char>, c: char) -> Option<int> {
    find_char_from(s, c, 0)
}

pub proof fn lemma_find_from(s: Seq<char>, p: Seq<char>, i: int)
    requires
        0 <= i,
    ensures
        find_from(s, p, i) matches Some(k) ==> i <= k && occurs_at(s, p, k) && forall|j: int|
            i <= j < k ==> !occurs_at(s, p, j),
        find_from(s, p, i) is None ==> forall|j: int| i <= j ==> !occurs_at(s, p, j),
    decreases s.len() + 1 - i,
{
    if i + p.len() <= s.len() && !occurs_at(s, p, i) {
        lemma_find_from(s, p, i + 1);
    }
}

pub proof fn lemma_find_char_from(s: Seq<char>, c: char, i: int)
    requires
        0 <= i,
    ensures
        find_char_from(s, c, i) matches Some(k) ==> i <= k < s.len() && s[k] == c && forall|j: int|
            i <= j < k ==> s[j] != c,
        find_char_from(s, c, i) is None ==> forall|j: int| i <= j < s.len() ==> s[j] != c,
    decreases s.len() - i,
{
    if i < s.len() && s[i] != c {
        lemma_find_char_from(s, c, i + 1);
    }
}

/// Does `p` occur in `s` at `i`?
pub fn matches_at(s: &[char], p: &[char], i: usize) -> (res: bool)
    ensures
        res == occurs_at(s@, p@, i as int),
{
    if i > s.len() || p.len() > s.len() - i {
        return false;
    }
    let slen = s.len();
    let mut k: usize = 0;
    while k < p.len()
        invariant
            slen == s@.len(),
            i + p@.len() <= s@.len(),
            k <= p@.len(),
            forall|j: int| 0 <= j < k ==> s@[i + j] == p@[j],
        decreases p@.len() - k,
    {
        assert(i + k < s@.len());
        if s[i + k] != p[k] {
            assert(s@.subrange(i as int, i + p@.len())[k as int] != p@[k as int]);
            return false;
        }
        k += 1;
    }
    assert(s@.subrange(i as int, i + p@.len()) =~= p@);
    true
}

/// Equality of two char slices.
pub fn eq_chars(a: &[char], b: &[char]) -> (res: bool)
    ensures
        res == (a@ == b@),
{
    if a.len() != b.len() {
        return false;
    }
    let r = matches_at(a, b, 0);
    assert(r ==> a@.subrange(0, b@.len() as int) =~= a@);
    assert(a@ == b@ ==> a@.subrange(0, b@.len() as int) =~= a@);
    r
}

pub fn starts_with(s: &[char], p: &[char]) -> (res: bool)
    ensures
        res == has_prefix(s@, p@),
{
    matches_at(s, p, 0)
}

pub fn ends_with(s: &[char], p: &[char]) -> (res: bool)
    ensures
        res == has_suffix(s@, p@),
{
    if p.len() > s.len() {
        false
    } else {
        matches_at(s, p, s.len() - p.len())
    }
}

/// First occurrence of `p` in `s` at or after `i`.
pub fn find_seq_from(s: &[char], p: &[char], i: usize) -> (res: Option<usize>)
    ensures
        res matches Some(k) ==> find_from(s@, p@, i as int) == Some(k as int),
        res is None ==> find_from(s@, p@, i as int) is None,
{
    if p.len() == 0 {
        if i <= s.len() {
            assert(occurs_at(s@, p@, i as int)) by {
                assert(s@.subrange(i as int, i as int) =~= p@);
            }
            return Some(i);
        } else {
            return None;
        }
    }
    let mut k = i;
    while k <= s.len() && p.len() <= s.len() - k
        invariant
            i <= k,
            p@.len() >= 1,
            find_from(s@, p@, k as int) == find_from(s@, p@, i as int),
        decreases s@.len() + 1 - k,
    {
        if matches_at(s, p, k) {
            return Some(k);
        }
        k += 1;
    }
    None
}

pub fn find_seq(s: &[char], p: &[char]) -> (res: Option<usize>)
    ensures
        res matches Some(k) ==> find(s@, p@) == Some(k as int),
        res is None ==> find(s@, p@) is None,
{
    find_seq_from(s, p, 0)
}

pub fn contains_seq(s: &[char], p: &[char]) -> (res: bool)
    ensures
        res == contains(s@, p@),
{
    find_seq(s, p).is_some()
}

/// First index at or after `i` that holds `c`.
pub fn find_char_at(s: &[char], c: char, i: usize) -> (res: Option<usize>)
    ensures
        res matches Some(k) ==> find_char_from(s@, c, i as int) == Some(k as int),
        res is None ==> find_char_from(s@, c, i as int) is None,
{
    let mut k = i;
    while k < s.len()
        invariant
            i <= k,
            find_char_from(s@, c, k as int) == find_char_from(s@, c, i as int),
        decreases s@.len() - k,
    {
        if s[k] == c {
            return Some(k);
        }
        k += 1;
    }
    None
}

// ── splitting ───────────────────────────────────────────────────────────────

/// `str::split(c)`: the pieces between occurrences of `c` (at least one).
pub open spec fn split_char(s: Seq<char>, c: char) -> Seq<Seq<char>>
    decreases s.len(),
{
    if s.len() == 0 {
        seq![Seq::<char>::empty()]
    } else {
        let prev = split_char(s.drop_last(), c);
        if s.last() == c {
            prev.push(Seq::<char>::empty())
        } else {
            prev.update(prev.len() - 1, prev.last().push(s.last()))
        }
    }
}

pub proof fn lemma_split_char_nonempty(s: Seq<char>, c: char)
    ensures
        split_char(s, c).len() >= 1,
    decreases s.len(),
{
    if s.len() > 0 {
        lemma_split_char_nonempty(s.drop_last(), c);
    }
}

/// Drops one trailing `'\r'`.
pub open spec fn strip_cr(s: Seq<char>) -> Seq<char> {
    if s.len() > 0 && s.last() == '\r' {
        s.drop_last()
    } else {
        s
    }
}

/// `str::lines`: split at `'\n'`, drop a `'\r'` just before each `'\n'`, and
/// yield no empty line after a final `'\n'`.
pub open spec fn lines(s: Seq<char>) -> Seq<Seq<char>> {
    let p = split_char(s, '\n');
    let n = if p.last().len() == 0 {
        p.len() - 1
    } else {
        p.len() as int
    };
    Seq::new(
        n as nat,
        |k: int|
            if k < p.len() - 1 {
                strip_cr(p[k])
            } else {
                p[k]
            },
    )
}

pub proof fn lemma_lines_index(s: Seq<char>, k: int)
    requires
        0 <= k < lines(s).len(),
    ensures
        lines(s)[k] == (if k < split_char(s, '\n').len() - 1 {
            strip_cr(split_char(s, '\n')[k])
        } else {
            split_char(s, '\n')[k]
        }),
{
}

pub open spec fn views(v: Seq<Vec<char>>) -> Seq<Seq<char>> {
    v.map_values(|x: Vec<char>| x@)
}

/// `str::split(c)` on a char slice.
pub fn split_on(s: &[char], c: char) -> (res: Vec<Vec<char>>)
    ensures
        views(res@) == split_char(s@, c),
{
    let mut done: Vec<Vec<char>> = Vec::new();
    let mut cur: Vec<char> = Vec::new();
    let mut i: usize = 0;
    while i < s.len()
        invariant
            i <= s@.len(),
            views(done@).push(cur@) == split_char(s@.take(i as int), c),
        decreases s@.len() - i,
    {
        let ghost pre = s@.take(i as int);
        assert(s@.take(i + 1).drop_last() =~= pre);
        proof {
            lemma_split_char_nonempty(pre, c);
        }
        if s[i] == c {
            let full = cur;
            done.push(full);
            cur = Vec::new();
            assert(views(done@) =~= views(done@.drop_last()).push(full@));
            assert(views(done@).push(cur@) =~= split_char(s@.take(i + 1), c));
        } else {
            let ghost old_done = done@;
            cur.push(s[i]);
            assert(views(done@).push(cur@) =~= split_char(s@.take(i + 1), c));
        }
        i += 1;
    }
    assert(s@.take(s@.len() as int) =~= s@);
    let last = cur;
    done.push(last);
    assert(views(done@) =~= views(done@.drop_last()).push(last@));
    done
}

pub fn strip_cr_vec(v: Vec<char>) -> (r: Vec<char>)
    ensures
        r@ == strip_cr(v@),
{
    let mut v = v;
    if v.len() > 0 && v[v.len() - 1] == '\r' {
        v.pop();
    }
    v
}

/// `str::lines` on a char slice.
pub fn lines_of(s: &[char]) -> (res: Vec<Vec<char>>)
    ensures
        views(res@) == lines(s@),
{
    let pieces = split_on(s, '\n');
    let ghost p = split_char(s@, '\n');
    proof {
        lemma_split_char_nonempty(s@, '\n');
    }
    let np = pieces.len();
    let n = if pieces[np - 1].len() == 0 {
        np - 1
    } else {
        np
    };
    let mut res: Vec<Vec<char>> = Vec::new();
    let mut k: usize = 0;
    while k < n
        invariant
            p == split_char(s@, '\n'),
            np == p.len(),
            n <= np,
            k <= n,
            views(pieces@) == p,
            views(res@) =~= lines(s@).take(k as int),
            n == lines(s@).len(),
        decreases n - k,
    {
        assert(pieces@[k as int]@ == p[k as int]);
        let line = if k + 1 < np {
            strip_cr_vec(copy_all(pieces[k].as_slice()))
        } else {
            copy_all(pieces[k].as_slice())
        };
        assert(views(pieces@)[k as int] == pieces@[k as int]@);
        proof {
            lemma_lines_index(s@, k as int);
        }
        assert(line@ == lines(s@)[k as int]);
        let ghost before = views(res@);
        res.push(line);
        assert(views(res@) =~= before.push(line@));
        k += 1;
    }
    res
}

// ── conversion between `str`/`String` and char vectors ─────────────────────

/// The characters of `s`, in order.
pub fn chars_of(s: &str) -> (res: Vec<char>)
    ensures
        res@ == s@,
{
    let mut res: Vec<char> = Vec::new();
    for c in it: s.chars()
        invariant
            res@ == it.seq().take(it.index() as int),
            it.seq() == s@,
    {
        res.push(c);
    }
    res
}

/// `String::push`: appends one char.
#[verifier::external_body]
fn push_char(s: &mut String, c: char)
    ensures
        final(s)@ == old(s)@.push(c),
{
    s.push(c);
}

/// A `String` holding exactly the chars of `v`.
pub fn string_of(v: &[char]) -> (res: String)
    ensures
        res@ == v@,
{
    let mut res = String::new();
    let mut i: usize = 0;
    while i < v.len()
        invariant
            i <= v@.len(),
            res@ == v@.take(i as int),
        decreases v@.len() - i,
    {
        push_char(&mut res, v[i]);
        i += 1;
        assert(res@ =~= v@.take(i as int));
    }
    assert(v@.take(v@.len() as int) =~= v@);
    res
}

/// Appends all chars of `p` to `out`.
pub fn push_all(out: &mut Vec<char>, p: &[char])
    ensures
        final(out)@ == old(out)@ + p@,
{
    let mut i: usize = 0;
    while i < p.len()
        invariant
            i <= p@.len(),
            out@ == old(out)@ + p@.take(i as int),
        decreases p@.len() - i,
    {
        out.push(p[i]);
        i += 1;
        assert(out@ =~= old(out)@ + p@.take(i as int));
    }
    assert(p@.take(p@.len() as int) =~= p@);
}

/// The text `{:?}` writes for a string: quoted, with escapes.
pub uninterp spec fn debug_str(s: Seq<char>) -> Seq<char>;

/// Formats `s` with `<str as Debug>::fmt`; the result is `debug_str` of `s`.
#[verifier::external_body]
pub(crate) fn debug_quoted(s: &str) -> (r: String)
    ensures
        r@ == debug_str(s@),
{
    format!("{:?}", s)
}

/// Appends the chars of a string slice to `out`.
pub fn push_str(out: &mut Vec<char>, s: &str)
    ensures
        final(out)@ == old(out)@ + s@,
{
    let v = chars_of(s);
    push_all(out, v.as_slice());
}

} // verus!
