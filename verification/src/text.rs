//! A model of the `str` operations that the report's parsers rely on
//! (`lines`, `trim`, `split`, `split_whitespace`, `find`, prefix and suffix
//! matching), stated over `Seq<char>`, together with verified executable
//! versions that work on a character vector and return index spans.
use vstd::prelude::*;

verus! {

/// `String::push` from std: the string afterwards holds its old contents
/// followed by `ch`.
pub assume_specification[ String::push ](s: &mut String, ch: char)
    ensures
        final(s)@ == old(s)@.push(ch),
;

// ------------------------------------------------------------------ spec

/// Unicode `White_Space`, the set that `char::is_whitespace` tests.
pub open spec fn is_ws(c: char) -> bool {
    ||| ('\u{9}' <= c && c <= '\u{d}')
    ||| c == ' '
    ||| c == '\u{85}'
    ||| c == '\u{a0}'
    ||| c == '\u{1680}'
    ||| ('\u{2000}' <= c && c <= '\u{200a}')
    ||| c == '\u{2028}'
    ||| c == '\u{2029}'
    ||| c == '\u{202f}'
    ||| c == '\u{205f}'
    ||| c == '\u{3000}'
}

/// `s.trim_start()`
pub open spec fn trim_start(s: Seq<char>) -> Seq<char>
    decreases s.len(),
{
    if s.len() > 0 && is_ws(s[0]) {
        trim_start(s.drop_first())
    } else {
        s
    }
}

/// `s.trim_end()`
pub open spec fn trim_end(s: Seq<char>) -> Seq<char>
    decreases s.len(),
{
    if s.len() > 0 && is_ws(s.last()) {
        trim_end(s.drop_last())
    } else {
        s
    }
}

/// `s.trim()`
pub open spec fn trim(s: Seq<char>) -> Seq<char> {
    trim_end(trim_start(s))
}

/// `s.starts_with(p)`
pub open spec fn starts_with(s: Seq<char>, p: Seq<char>) -> bool {
    p.len() <= s.len() && s.subrange(0, p.len() as int) == p
}

/// `s.ends_with(p)`
pub open spec fn ends_with(s: Seq<char>, p: Seq<char>) -> bool {
    p.len() <= s.len() && s.subrange(s.len() - p.len(), s.len() as int) == p
}

/// `s.strip_prefix(p)`
pub open spec fn strip_prefix(s: Seq<char>, p: Seq<char>) -> Option<Seq<char>> {
    if starts_with(s, p) {
        Some(s.skip(p.len() as int))
    } else {
        None
    }
}

/// `s.trim_start_matches(p)` for a non-empty pattern `p`.
pub open spec fn trim_start_matches(s: Seq<char>, p: Seq<char>) -> Seq<char>
    decreases s.len(),
{
    if p.len() > 0 && starts_with(s, p) {
        trim_start_matches(s.skip(p.len() as int), p)
    } else {
        s
    }
}

/// `s.trim_end_matches(p)` for a non-empty pattern `p`.
pub open spec fn trim_end_matches(s: Seq<char>, p: Seq<char>) -> Seq<char>
    decreases s.len(),
{
    if p.len() > 0 && ends_with(s, p) {
        trim_end_matches(s.take(s.len() - p.len()), p)
    } else {
        s
    }
}

/// `p` occurs in `s` at index `i`.
pub open spec fn matches_at(s: Seq<char>, p: Seq<char>, i: int) -> bool {
    0 <= i && i + p.len() <= s.len() && s.subrange(i, i + p.len()) == p
}

/// The first index at or after `i` where `p` occurs in `s`.
pub open spec fn find_from(s: Seq<char>, p: Seq<char>, i: nat) -> Option<nat>
    decreases s.len() + 1 - i,
{
    if i + p.len() > s.len() {
        None
    } else if matches_at(s, p, i as int) {
        Some(i)
    } else {
        find_from(s, p, i + 1)
    }
}

/// `s.find(p)`: the index of the first occurrence of `p` in `s`.
pub open spec fn find(s: Seq<char>, p: Seq<char>) -> Option<nat> {
    find_from(s, p, 0)
}

/// `s.contains(p)`
pub open spec fn contains(s: Seq<char>, p: Seq<char>) -> bool {
    find(s, p) is Some
}

/// `s.split_once(c)`
pub open spec fn split_once(s: Seq<char>, c: char) -> Option<(Seq<char>, Seq<char>)> {
    match find(s, seq![c]) {
        Some(i) => Some((s.take(i as int), s.skip(i as int + 1))),
        None => None,
    }
}

/// A field separator: one character, or any whitespace character.
pub enum Sep {
    Char(char),
    Space,
}

pub open spec fn sep_hit(sep: Sep, c: char) -> bool {
    match sep {
        Sep::Char(d) => c == d,
        Sep::Space => is_ws(c),
    }
}

/// `s.split(c)` (or the pieces between single whitespace characters),
/// empty pieces included.
pub open spec fn split(s: Seq<char>, sep: Sep) -> Seq<Seq<char>>
    decreases s.len(),
{
    if s.len() == 0 {
        seq![Seq::<char>::empty()]
    } else {
        let prev = split(s.drop_last(), sep);
        if sep_hit(sep, s.last()) {
            prev.push(Seq::<char>::empty())
        } else {
            prev.update(prev.len() - 1, prev.last().push(s.last()))
        }
    }
}

/// The non-empty members of `ps`, in order.
pub open spec fn nonempty(ps: Seq<Seq<char>>) -> Seq<Seq<char>>
    decreases ps.len(),
{
    if ps.len() == 0 {
        ps
    } else {
        let r = nonempty(ps.drop_last());
        if ps.last().len() > 0 {
            r.push(ps.last())
        } else {
            r
        }
    }
}

/// `s.split_whitespace()`
pub open spec fn words(s: Seq<char>) -> Seq<Seq<char>> {
    nonempty(split(s, Sep::Space))
}

/// A line that was followed by `\n` loses one trailing `\r`.
pub open spec fn strip_cr(s: Seq<char>) -> Seq<char> {
    if s.len() > 0 && s.last() == '\r' {
        s.drop_last()
    } else {
        s
    }
}

/// `s.lines()`: split at `\n`, a final empty piece dropped, `\r\n` endings
/// taken as a whole.
pub open spec fn lines(s: Seq<char>) -> Seq<Seq<char>> {
    let parts = split(s, Sep::Char('\n'));
    let n = parts.len();
    let k: int = if parts[n - 1].len() == 0 {
        n - 1
    } else {
        n as int
    };
    Seq::new(k as nat, |i: int| if i < n - 1 { strip_cr(parts[i]) } else { parts[i] })
}

/// The text of each span of `s`.
pub open spec fn span_views(s: Seq<char>, sp: Seq<(usize, usize)>) -> Seq<Seq<char>> {
    Seq::new(sp.len(), |i: int| s.subrange(sp[i].0 as int, sp[i].1 as int))
}

/// Every span lies within `lo..hi`.
pub open spec fn spans_within(sp: Seq<(usize, usize)>, lo: int, hi: int) -> bool {
    forall|i: int| 0 <= i < sp.len() ==> lo <= #[trigger] sp[i].0 <= sp[i].1 <= hi
}

/// The contents of a list of strings.
pub open spec fn views(v: Seq<String>) -> Seq<Seq<char>> {
    Seq::new(v.len(), |i: int| v[i]@)
}

/// `ps.join(sep)`
pub open spec fn join(ps: Seq<Seq<char>>, sep: Seq<char>) -> Seq<char>
    decreases ps.len(),
{
    if ps.len() == 0 {
        Seq::empty()
    } else if ps.len() == 1 {
        ps[0]
    } else {
        join(ps.drop_last(), sep) + sep + ps.last()
    }
}

/// `s.replace(p, "")` for a non-empty `p`: every occurrence, found left to
/// right without overlap, removed.
pub open spec fn remove_all(s: Seq<char>, p: Seq<char>) -> Seq<char>
    decreases s.len(),
{
    if p.len() == 0 {
        s
    } else {
        match find(s, p) {
            Some(i) => if i + p.len() <= s.len() {
                s.take(i as int) + remove_all(s.skip((i + p.len()) as int), p)
            } else {
                s
            },
            None => s,
        }
    }
}

/// The contents of an optional string.
pub open spec fn opt_view(o: Option<String>) -> Option<Seq<char>> {
    match o {
        Some(s) => Some(s@),
        None => None,
    }
}

// ---------------------------------------------------------------- lemmas

/// What `find_from` returns is an occurrence, and the first one from `i`.
pub proof fn lemma_find_from(s: Seq<char>, p: Seq<char>, i: nat)
    ensures
        find_from(s, p, i) matches Some(k) ==> i <= k && k + p.len() <= s.len() && matches_at(
            s,
            p,
            k as int,
        ) && forall|j: int| i <= j < k ==> !matches_at(s, p, j),
        find_from(s, p, i) is None ==> forall|j: int| i <= j ==> !matches_at(s, p, j),
    decreases s.len() + 1 - i,
{
    if i + p.len() > s.len() {
    } else if matches_at(s, p, i as int) {
    } else {
        lemma_find_from(s, p, i + 1);
    }
}

pub proof fn lemma_split_len(s: Seq<char>, sep: Sep)
    ensures
        split(s, sep).len() >= 1,
    decreases s.len(),
{
    if s.len() > 0 {
        lemma_split_len(s.drop_last(), sep);
    }
}

// ------------------------------------------------------------------ exec

pub fn is_whitespace(c: char) -> (r: bool)
    ensures
        r == is_ws(c),
{
    ('\u{9}' <= c && c <= '\u{d}') || c == ' ' || c == '\u{85}' || c == '\u{a0}' || c
        == '\u{1680}' || ('\u{2000}' <= c && c <= '\u{200a}') || c == '\u{2028}' || c
        == '\u{2029}' || c == '\u{202f}' || c == '\u{205f}' || c == '\u{3000}'
}

/// The characters of `s`.
pub fn to_chars(s: &str) -> (r: Vec<char>)
    ensures
        r@ == s@,
{
    let mut r: Vec<char> = Vec::new();
    for c in it: s.chars()
        invariant
            r@ == it.seq().take(it.index() as int),
    {
        r.push(c);
    }
    r
}

/// A `String` holding `v[lo..hi]`.
pub fn from_chars(v: &Vec<char>, lo: usize, hi: usize) -> (r: String)
    requires
        lo <= hi <= v.len(),
    ensures
        r@ == v@.subrange(lo as int, hi as int),
{
    let mut r = String::new();
    let mut i = lo;
    while i < hi
        invariant
            lo <= i <= hi <= v.len(),
            r@ == v@.subrange(lo as int, i as int),
        decreases hi - i,
    {
        r.push(v[i]);
        i += 1;
    }
    r
}

/// Start of `trim_start(v[lo..hi])`.
pub fn trim_start_at(v: &Vec<char>, lo: usize, hi: usize) -> (a: usize)
    requires
        lo <= hi <= v.len(),
    ensures
        lo <= a <= hi,
        v@.subrange(a as int, hi as int) == trim_start(v@.subrange(lo as int, hi as int)),
{
    let mut a = lo;
    while a < hi && is_whitespace(v[a])
        invariant
            lo <= a <= hi <= v.len(),
            trim_start(v@.subrange(a as int, hi as int)) == trim_start(
                v@.subrange(lo as int, hi as int),
            ),
        decreases hi - a,
    {
        assert(v@.subrange(a as int, hi as int).drop_first() =~= v@.subrange(
            a + 1,
            hi as int,
        ));
        a += 1;
    }
    a
}

/// End of `trim_end(v[lo..hi])`.
pub fn trim_end_at(v: &Vec<char>, lo: usize, hi: usize) -> (b: usize)
    requires
        lo <= hi <= v.len(),
    ensures
        lo <= b <= hi,
        v@.subrange(lo as int, b as int) == trim_end(v@.subrange(lo as int, hi as int)),
{
    let mut b = hi;
    while b > lo && is_whitespace(v[b - 1])
        invariant
            lo <= b <= hi <= v.len(),
            trim_end(v@.subrange(lo as int, b as int)) == trim_end(
                v@.subrange(lo as int, hi as int),
            ),
        decreases b - lo,
    {
        assert(v@.subrange(lo as int, b as int).drop_last() =~= v@.subrange(
            lo as int,
            b - 1,
        ));
        b -= 1;
    }
    b
}

/// Span of `trim(v[lo..hi])`.
pub fn trim_at(v: &Vec<char>, lo: usize, hi: usize) -> (r: (usize, usize))
    requires
        lo <= hi <= v.len(),
    ensures
        lo <= r.0 <= r.1 <= hi,
        v@.subrange(r.0 as int, r.1 as int) == trim(v@.subrange(lo as int, hi as int)),
{
    let a = trim_start_at(v, lo, hi);
    let b = trim_end_at(v, a, hi);
    (a, b)
}

/// The spans of `split(v[lo..hi], sep)`.
pub fn split_at(v: &Vec<char>, lo: usize, hi: usize, sep: &Sep) -> (r: Vec<(usize, usize)>)
    requires
        lo <= hi <= v.len(),
    ensures
        spans_within(r@, lo as int, hi as int),
        span_views(v@, r@) == split(v@.subrange(lo as int, hi as int), *sep),
{
    let mut r: Vec<(usize, usize)> = Vec::new();
    let mut start = lo;
    let mut i = lo;
    assert(v@.subrange(lo as int, lo as int) =~= Seq::<char>::empty());
    assert(span_views(v@, r@).push(v@.subrange(start as int, i as int)) =~= split(
        v@.subrange(lo as int, i as int),
        *sep,
    ));
    while i < hi
        invariant
            lo <= start <= i <= hi <= v.len(),
            spans_within(r@, lo as int, start as int),
            span_views(v@, r@).push(v@.subrange(start as int, i as int)) == split(
                v@.subrange(lo as int, i as int),
                *sep,
            ),
        decreases hi - i,
    {
        let hit = match sep {
            Sep::Char(d) => v[i] == *d,
            Sep::Space => is_whitespace(v[i]),
        };
        let ghost old_r = r@;
        let ghost pre = v@.subrange(lo as int, i as int);
        let ghost cur = v@.subrange(lo as int, i + 1);
        assert(cur.drop_last() =~= pre);
        assert(cur.last() == v@[i as int]);
        proof {
            lemma_split_len(pre, *sep);
        }
        if hit {
            assert(sep_hit(*sep, cur.last()));
            assert(split(cur, *sep) == split(pre, *sep).push(Seq::<char>::empty()));
            r.push((start, i));
            assert(span_views(v@, r@) =~= span_views(v@, old_r).push(
                v@.subrange(start as int, i as int),
            ));
            assert(span_views(v@, r@) == split(pre, *sep));
            start = i + 1;
            assert(v@.subrange(start as int, i + 1) =~= Seq::<char>::empty());
            assert(span_views(v@, r@).push(v@.subrange(start as int, i + 1)) =~= split(
                cur,
                *sep,
            ));
        } else {
            assert(!sep_hit(*sep, cur.last()));
            assert(v@.subrange(start as int, i + 1) =~= v@.subrange(start as int, i as int).push(
                v@[i as int],
            ));
            assert(span_views(v@, r@).push(v@.subrange(start as int, i + 1)) =~= split(
                cur,
                *sep,
            ));
        }
        i += 1;
    }
    let ghost old_r = r@;
    r.push((start, hi));
    assert(span_views(v@, r@) =~= span_views(v@, old_r).push(
        v@.subrange(start as int, hi as int),
    ));
    r
}

/// The spans of `words(v[lo..hi])`.
pub fn words_at(v: &Vec<char>, lo: usize, hi: usize) -> (r: Vec<(usize, usize)>)
    requires
        lo <= hi <= v.len(),
    ensures
        spans_within(r@, lo as int, hi as int),
        span_views(v@, r@) == words(v@.subrange(lo as int, hi as int)),
{
    let pieces = split_at(v, lo, hi, &Sep::Space);
    let mut r: Vec<(usize, usize)> = Vec::new();
    let mut k: usize = 0;
    let ghost all = span_views(v@, pieces@);
    assert(all.take(0) =~= Seq::<Seq<char>>::empty());
    while k < pieces.len()
        invariant
            lo <= hi <= v.len(),
            k <= pieces.len(),
            all == span_views(v@, pieces@),
            spans_within(pieces@, lo as int, hi as int),
            spans_within(r@, lo as int, hi as int),
            span_views(v@, r@) == nonempty(all.take(k as int)),
        decreases pieces.len() - k,
    {
        let (a, b) = pieces[k];
        assert(pieces@[k as int] == (a, b));
        let ghost old_r = r@;
        assert(all.take(k + 1).drop_last() =~= all.take(k as int));
        assert(all.take(k + 1).last() == v@.subrange(a as int, b as int));
        if a < b {
            r.push((a, b));
            assert(span_views(v@, r@) =~= span_views(v@, old_r).push(
                v@.subrange(a as int, b as int),
            ));
        }
        k += 1;
    }
    assert(all.take(pieces.len() as int) =~= all);
    r
}

/// The spans of `lines(v)`.
pub fn lines_of(v: &Vec<char>) -> (r: Vec<(usize, usize)>)
    ensures
        spans_within(r@, 0, v.len() as int),
        span_views(v@, r@) == lines(v@),
{
    let parts = split_at(v, 0, v.len(), &Sep::Char('\n'));
    assert(v@.subrange(0, v.len() as int) =~= v@);
    let ghost ps = split(v@, Sep::Char('\n'));
    proof {
        lemma_split_len(v@, Sep::Char('\n'));
    }
    let n = parts.len();
    let (la, lb) = parts[n - 1];
    let k = if la == lb {
        n - 1
    } else {
        n
    };
    let mut r: Vec<(usize, usize)> = Vec::new();
    let mut i: usize = 0;
    while i < k
        invariant
            n == parts.len(),
            ps == span_views(v@, parts@),
            ps.len() == n,
            k <= n,
            i <= k,
            spans_within(parts@, 0, v.len() as int),
            spans_within(r@, 0, v.len() as int),
            r.len() == i,
            forall|j: int|
                0 <= j < i ==> #[trigger] span_views(v@, r@)[j] == (if j < n - 1 {
                    strip_cr(ps[j])
                } else {
                    ps[j]
                }),
        decreases k - i,
    {
        let (a, b) = parts[i];
        assert(parts@[i as int] == (a, b));
        assert(ps[i as int] == v@.subrange(a as int, b as int));
        let ghost old_r = r@;
        if i < n - 1 && a < b && v[b - 1] == '\r' {
            r.push((a, b - 1));
            assert(v@.subrange(a as int, b - 1) =~= v@.subrange(a as int, b as int).drop_last());
        } else {
            r.push((a, b));
        }
        assert forall|j: int| 0 <= j < i + 1 implies #[trigger] span_views(v@, r@)[j] == (if j
            < n - 1 {
            strip_cr(ps[j])
        } else {
            ps[j]
        }) by {
            if j < i {
                assert(r@[j] == old_r[j]);
                assert(span_views(v@, old_r)[j] == span_views(v@, r@)[j]);
            } else {
                assert(j == i);
                assert(r@[j] == r@[i as int]);
                if i < n - 1 && a < b {
                    assert(ps[j].last() == v@[b - 1]);
                }
                if i < n - 1 && a < b && v@[b - 1] == '\r' {
                    assert(r@[j] == (a, (b - 1) as usize));
                    assert(span_views(v@, r@)[j] == v@.subrange(a as int, b - 1));
                } else {
                    assert(r@[j] == (a, b));
                    assert(span_views(v@, r@)[j] == v@.subrange(a as int, b as int));
                }
            }
        }
        i += 1;
    }
    assert(span_views(v@, r@) =~= lines(v@));
    r
}

/// Whether `p` occurs in `v` at `pos`, within `..hi`.
pub fn match_at(v: &Vec<char>, pos: usize, hi: usize, p: &Vec<char>) -> (r: bool)
    requires
        pos <= hi <= v.len(),
    ensures
        r == (pos + p.len() <= hi && v@.subrange(pos as int, pos + p.len()) == p@),
{
    if p.len() > hi - pos {
        return false;
    }
    let mut j: usize = 0;
    while j < p.len()
        invariant
            pos + p.len() <= hi <= v.len(),
            j <= p.len(),
            v@.subrange(pos as int, pos + j) == p@.take(j as int),
        decreases p.len() - j,
    {
        if v[pos + j] != p[j] {
            assert(v@.subrange(pos as int, pos + p.len())[j as int] != p@[j as int]);
            return false;
        }
        assert(v@.subrange(pos as int, pos + j + 1) =~= p@.take(j + 1));
        j += 1;
    }
    assert(p@.take(p.len() as int) =~= p@);
    true
}

/// `starts_with(v[lo..hi], p)`
pub fn starts_with_at(v: &Vec<char>, lo: usize, hi: usize, p: &Vec<char>) -> (r: bool)
    requires
        lo <= hi <= v.len(),
    ensures
        r == starts_with(v@.subrange(lo as int, hi as int), p@),
{
    let r = match_at(v, lo, hi, p);
    assert(r ==> v@.subrange(lo as int, hi as int).subrange(0, p.len() as int) =~= v@.subrange(
        lo as int,
        lo + p.len(),
    ));
    assert(starts_with(v@.subrange(lo as int, hi as int), p@) ==> v@.subrange(
        lo as int,
        hi as int,
    ).subrange(0, p.len() as int) =~= v@.subrange(lo as int, lo + p.len()));
    r
}

/// `ends_with(v[lo..hi], p)`
pub fn ends_with_at(v: &Vec<char>, lo: usize, hi: usize, p: &Vec<char>) -> (r: bool)
    requires
        lo <= hi <= v.len(),
    ensures
        r == ends_with(v@.subrange(lo as int, hi as int), p@),
{
    if p.len() > hi - lo {
        return false;
    }
    let r = match_at(v, hi - p.len(), hi, p);
    assert(v@.subrange(lo as int, hi as int).subrange(hi - lo - p.len(), hi - lo) =~= v@.subrange(
        hi - p.len(),
        hi as int,
    ));
    r
}

/// `v[lo..hi] == p`
pub fn eq_at(v: &Vec<char>, lo: usize, hi: usize, p: &Vec<char>) -> (r: bool)
    requires
        lo <= hi <= v.len(),
    ensures
        r == (v@.subrange(lo as int, hi as int) == p@),
{
    if hi - lo != p.len() {
        assert(v@.subrange(lo as int, hi as int).len() != p@.len());
        return false;
    }
    match_at(v, lo, hi, p)
}

/// `find(v[lo..hi], p)`, as an offset from `lo`.
pub fn find_at(v: &Vec<char>, lo: usize, hi: usize, p: &Vec<char>) -> (r: Option<usize>)
    requires
        lo <= hi <= v.len(),
    ensures
        r is Some <==> find(v@.subrange(lo as int, hi as int), p@) is Some,
        r matches Some(k) ==> find(v@.subrange(lo as int, hi as int), p@) == Some(k as nat),
{
    let ghost s = v@.subrange(lo as int, hi as int);
    let mut i = lo;
    while p.len() <= hi - i
        invariant
            lo <= i <= hi <= v.len(),
            s == v@.subrange(lo as int, hi as int),
            find(s, p@) == find_from(s, p@, (i - lo) as nat),
        decreases hi - i,
    {
        if match_at(v, i, hi, p) {
            assert(s.subrange(i - lo, i - lo + p.len()) =~= v@.subrange(i as int, i + p.len()));
            return Some(i - lo);
        }
        assert(s.subrange(i - lo, i - lo + p.len()) =~= v@.subrange(i as int, i + p.len()));
        if i == hi {
            assert(p.len() == 0);
            assert(v@.subrange(i as int, i + p.len()) =~= p@);
        }
        i += 1;
    }
    None
}

/// `trim_start_matches(v[lo..hi], p)`, its start.
pub fn trim_start_matches_at(v: &Vec<char>, lo: usize, hi: usize, p: &Vec<char>) -> (a: usize)
    requires
        lo <= hi <= v.len(),
    ensures
        lo <= a <= hi,
        v@.subrange(a as int, hi as int) == trim_start_matches(
            v@.subrange(lo as int, hi as int),
            p@,
        ),
{
    if p.len() == 0 {
        return lo;
    }
    let mut a = lo;
    while starts_with_at(v, a, hi, p)
        invariant
            lo <= a <= hi <= v.len(),
            p.len() > 0,
            trim_start_matches(v@.subrange(a as int, hi as int), p@) == trim_start_matches(
                v@.subrange(lo as int, hi as int),
                p@,
            ),
        decreases hi - a,
    {
        assert(v@.subrange(a as int, hi as int).skip(p.len() as int) =~= v@.subrange(
            a + p.len(),
            hi as int,
        ));
        a = a + p.len();
    }
    a
}

/// `trim_end_matches(v[lo..hi], p)`, its end.
pub fn trim_end_matches_at(v: &Vec<char>, lo: usize, hi: usize, p: &Vec<char>) -> (b: usize)
    requires
        lo <= hi <= v.len(),
    ensures
        lo <= b <= hi,
        v@.subrange(lo as int, b as int) == trim_end_matches(
            v@.subrange(lo as int, hi as int),
            p@,
        ),
{
    if p.len() == 0 {
        return hi;
    }
    let mut b = hi;
    while ends_with_at(v, lo, b, p)
        invariant
            lo <= b <= hi <= v.len(),
            p.len() > 0,
            trim_end_matches(v@.subrange(lo as int, b as int), p@) == trim_end_matches(
                v@.subrange(lo as int, hi as int),
                p@,
            ),
        decreases b - lo,
    {
        assert(v@.subrange(lo as int, b as int).take(b - lo - p.len()) =~= v@.subrange(
            lo as int,
            b - p.len(),
        ));
        b = b - p.len();
    }
    b
}

/// `parts.join(sep)`
pub fn join_strings(parts: &Vec<String>, sep: &str) -> (r: String)
    ensures
        r@ == join(views(parts@), sep@),
{
    let mut r = String::new();
    let mut i: usize = 0;
    let ghost ps = views(parts@);
    assert(ps.take(0) =~= Seq::<Seq<char>>::empty());
    while i < parts.len()
        invariant
            i <= parts.len(),
            ps == views(parts@),
            r@ == join(ps.take(i as int), sep@),
        decreases parts.len() - i,
    {
        assert(ps.take(i + 1).drop_last() =~= ps.take(i as int));
        assert(ps.take(i + 1).last() == parts@[i as int]@);
        if i > 0 {
            r.append(sep);
        } else {
            assert(ps.take(1) =~= seq![parts@[0]@]);
            assert(r@ =~= Seq::<char>::empty());
        }
        r.append(parts[i].as_str());
        i += 1;
    }
    assert(ps.take(parts.len() as int) =~= ps);
    r
}

/// `v[lo..hi].replace(p, "")` as a `String`.
pub fn remove_all_at(v: &Vec<char>, lo: usize, hi: usize, p: &Vec<char>) -> (r: String)
    requires
        lo <= hi <= v.len(),
    ensures
        r@ == remove_all(v@.subrange(lo as int, hi as int), p@),
{
    if p.len() == 0 {
        return from_chars(v, lo, hi);
    }
    let mut r = String::new();
    let mut pos = lo;
    let ghost whole = remove_all(v@.subrange(lo as int, hi as int), p@);
    while pos <= hi
        invariant
            lo <= pos <= hi <= v.len(),
            p.len() > 0,
            whole == remove_all(v@.subrange(lo as int, hi as int), p@),
            whole == r@ + remove_all(v@.subrange(pos as int, hi as int), p@),
        decreases hi - pos,
    {
        let ghost s = v@.subrange(pos as int, hi as int);
        match find_at(v, pos, hi, p) {
            Some(i) => {
                proof {
                    lemma_find_from(s, p@, 0);
                }
                let piece = from_chars(v, pos, pos + i);
                r.append(piece.as_str());
                assert(s.take(i as int) =~= v@.subrange(pos as int, pos + i));
                assert(s.skip(i + p.len()) =~= v@.subrange(pos + i + p.len(), hi as int));
                pos = pos + i + p.len();
                assert(whole == r@ + remove_all(v@.subrange(pos as int, hi as int), p@));
            },
            None => {
                let piece = from_chars(v, pos, hi);
                r.append(piece.as_str());
                return r;
            },
        }
    }
    r
}

} // verus!
