//! `key: value` lines: the value after a prefix, and the bracketed part of
//! a SMART counter.
use vstd::prelude::*;
use crate::text::{
    find, lemma_find_from, lines, lines_of, opt_view, span_views, spans_within, starts_with_at,
    strip_prefix, to_chars, trim, trim_at, trim_start_matches, trim_start_matches_at, find_at,
    from_chars,
};

verus! {

/// The value that `line` gives for `prefix`: the trimmed line must start
/// with `prefix`; the rest is trimmed, loses its leading colons, and is
/// trimmed again.
pub open spec fn field_of_line(line: Seq<char>, prefix: Seq<char>) -> Option<Seq<char>> {
    match strip_prefix(trim(line), prefix) {
        Some(rest) => Some(trim(trim_start_matches(trim(rest), seq![':']))),
        None => None,
    }
}

/// The value from the first of `ls` that has one for `prefix`.
pub open spec fn field_in(ls: Seq<Seq<char>>, prefix: Seq<char>) -> Option<Seq<char>>
    decreases ls.len(),
{
    if ls.len() == 0 {
        None
    } else if field_of_line(ls[0], prefix) is Some {
        field_of_line(ls[0], prefix)
    } else {
        field_in(ls.drop_first(), prefix)
    }
}

/// `field(output, prefix)`: the value of the first line of `output` that
/// starts (once trimmed) with `prefix`.
pub open spec fn field_spec(output: Seq<char>, prefix: Seq<char>) -> Option<Seq<char>> {
    field_in(lines(output), prefix)
}

/// A line that, once trimmed, starts with `prefix`.
pub open spec fn has_prefix(line: Seq<char>, prefix: Seq<char>) -> bool {
    prefix.len() <= trim(line).len() && trim(line).subrange(0, prefix.len() as int) == prefix
}

/// Law: lines give a value for `prefix` exactly when one of them starts
/// (once trimmed) with it; the value comes from the first such line, and is
/// what follows the prefix there, trimmed, without its leading colons, and
/// trimmed again.
pub proof fn lemma_field_first_line(ls: Seq<Seq<char>>, prefix: Seq<char>)
    ensures
        field_in(ls, prefix) is Some <==> exists|i: int|
            0 <= i < ls.len() && #[trigger] has_prefix(ls[i], prefix),
        field_in(ls, prefix) is Some ==> exists|i: int|
            0 <= i < ls.len() && #[trigger] has_prefix(ls[i], prefix) && (forall|j: int|
                0 <= j < i ==> !has_prefix(#[trigger] ls[j], prefix)) && field_in(ls, prefix)
                == Some(
                trim(
                    trim_start_matches(trim(trim(ls[i]).skip(prefix.len() as int)), seq![':']),
                ),
            ),
    decreases ls.len(),
{
    if ls.len() > 0 {
        lemma_field_first_line(ls.drop_first(), prefix);
        if has_prefix(ls[0], prefix) {
            assert(field_of_line(ls[0], prefix) is Some);
            assert(has_prefix(ls[0], prefix));
        } else {
            assert(field_of_line(ls[0], prefix) is None);
            assert(field_in(ls, prefix) == field_in(ls.drop_first(), prefix));
            if exists|i: int| 0 <= i < ls.len() && #[trigger] has_prefix(ls[i], prefix) {
                let i = choose|i: int| 0 <= i < ls.len() && #[trigger] has_prefix(ls[i], prefix);
                assert(ls.drop_first()[i - 1] == ls[i]);
                assert(has_prefix(ls.drop_first()[i - 1], prefix));
            }
            if field_in(ls, prefix) is Some {
                let i = choose|i: int|
                    0 <= i < ls.drop_first().len() && #[trigger] has_prefix(
                        ls.drop_first()[i],
                        prefix,
                    ) && (forall|j: int|
                        0 <= j < i ==> !has_prefix(#[trigger] ls.drop_first()[j], prefix))
                        && field_in(ls.drop_first(), prefix) == Some(
                        trim(
                            trim_start_matches(
                                trim(trim(ls.drop_first()[i]).skip(prefix.len() as int)),
                                seq![':'],
                            ),
                        ),
                    );
                assert(ls[i + 1] == ls.drop_first()[i]);
                assert forall|j: int| 0 <= j < i + 1 implies !has_prefix(#[trigger] ls[j], prefix) by {
                    if j > 0 {
                        assert(ls[j] == ls.drop_first()[j - 1]);
                    }
                }
                assert(has_prefix(ls[i + 1], prefix));
            }
        }
    }
}

/// `tb_value(s)`: the trimmed text between the first `[` and the first `]`
/// after it; `s` itself when there is no such pair.
pub open spec fn tb_text(s: Seq<char>) -> Seq<char> {
    match find(s, seq!['[']) {
        Some(a) => match find(s.skip(a as int), seq![']']) {
            Some(e) => trim(s.subrange(a + 1int, (a + e) as int)),
            None => s,
        },
        None => s,
    }
}

/// The span of `field_of_line(v[a..b], p)`.
pub fn field_of_line_at(v: &Vec<char>, a: usize, b: usize, p: &Vec<char>) -> (r: Option<
    (usize, usize),
>)
    requires
        a <= b <= v.len(),
    ensures
        r is Some <==> field_of_line(v@.subrange(a as int, b as int), p@) is Some,
        r matches Some(sp) ==> sp.0 <= sp.1 <= v.len() && field_of_line(
            v@.subrange(a as int, b as int),
            p@,
        ) == Some(v@.subrange(sp.0 as int, sp.1 as int)),
{
    let (ta, tb) = trim_at(v, a, b);
    if !starts_with_at(v, ta, tb, p) {
        return None;
    }
    assert(v@.subrange(ta as int, tb as int).skip(p.len() as int) =~= v@.subrange(
        ta + p.len(),
        tb as int,
    ));
    let (ra, rb) = trim_at(v, ta + p.len(), tb);
    let colon = vec![':'];
    assert(colon@ =~= seq![':']);
    let c = trim_start_matches_at(v, ra, rb, &colon);
    let (fa, fb) = trim_at(v, c, rb);
    Some((fa, fb))
}

/// Value of the first line starting with `prefix` (e.g. "SMART Status:").
pub fn field(output: &str, prefix: &str) -> (r: Option<String>)
    ensures
        opt_view(r) == field_spec(output@, prefix@),
{
    let v = to_chars(output);
    let p = to_chars(prefix);
    let ls = lines_of(&v);
    let ghost all = lines(v@);
    let mut i: usize = 0;
    assert(all.skip(0) =~= all);
    assert(field_spec(output@, prefix@) == field_in(all, p@));
    while i < ls.len()
        invariant
            i <= ls.len(),
            all == span_views(v@, ls@),
            spans_within(ls@, 0, v.len() as int),
            field_in(all, p@) == field_in(all.skip(i as int), p@),
            field_spec(output@, prefix@) == field_in(all, p@),
        decreases ls.len() - i,
    {
        let (a, b) = ls[i];
        assert(ls@[i as int] == (a, b));
        assert(all.skip(i as int)[0] == v@.subrange(a as int, b as int));
        assert(all.skip(i as int).drop_first() =~= all.skip(i + 1));
        match field_of_line_at(&v, a, b, &p) {
            Some((fa, fb)) => {
                assert(all.skip(i as int).len() > 0);
                assert(field_in(all.skip(i as int), p@) == Some(v@.subrange(fa as int, fb as int)));
                let r = from_chars(&v, fa, fb);
                assert(opt_view(Some(r)) == Some(r@));
                return Some(r);
            },
            None => {},
        }
        i += 1;
    }
    None
}

/// "428,083,309 [219 TB]" -> "219 TB" (prefer the human-friendly bracketed part).
pub fn tb_value(s: &str) -> (r: String)
    ensures
        r@ == tb_text(s@),
{
    let v = to_chars(s);
    let n = v.len();
    assert(v@.subrange(0, n as int) =~= v@);
    let open = vec!['['];
    let close = vec![']'];
    assert(open@ =~= seq!['[']);
    assert(close@ =~= seq![']']);
    if let Some(a) = find_at(&v, 0, n, &open) {
        proof {
            lemma_find_from(v@, seq!['['], 0);
        }
        assert(v@.skip(a as int) =~= v@.subrange(a as int, n as int));
        if let Some(e) = find_at(&v, a, n, &close) {
            proof {
                lemma_find_from(v@.skip(a as int), seq![']'], 0);
                assert(v@.subrange(a as int, a + 1) =~= seq![v@[a as int]]);
                assert(v@[a as int] == '[');
                assert(v@.skip(a as int).subrange(0, 1) =~= seq![v@[a as int]]);
                assert(e != 0);
            }
            let (x, y) = trim_at(&v, a + 1, a + e);
            return from_chars(&v, x, y);
        }
    }
    from_chars(&v, 0, n)
}

} // verus!
