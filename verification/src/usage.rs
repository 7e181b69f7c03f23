//! CPU and memory: the numbers' text in `top` and `vm_stat` output, and
//! whole counts from `sysctl`.
use vstd::prelude::*;
use crate::text::{
    from_chars, lemma_split_len, lines, lines_of, opt_view, span_views, spans_within, split,
    split_at, starts_with_at, strip_prefix, to_chars, trim, trim_at, trim_end_matches,
    trim_end_matches_at, trim_start_matches, trim_start_matches_at, views, words, words_at, Sep,
};
use crate::number::{parse_u64, parse_u64_at};
use crate::power::first_containing;
use crate::number::{dec, push_dec};
use crate::size::{gb, gb_text};

verus! {

// ------------------------------------------------------------------ spec

/// The number's text in one comma-separated part of `top`'s "CPU usage:"
/// line: the last word before the part's first `%`.
pub open spec fn usage_token(p: Seq<char>) -> Option<Seq<char>> {
    let w = words(split(p, Sep::Char('%'))[0]);
    if w.len() > 0 {
        Some(w.last())
    } else {
        None
    }
}

pub open spec fn opts_view(v: Seq<Option<String>>) -> Seq<Option<Seq<char>>> {
    Seq::new(v.len(), |i: int| opt_view(v[i]))
}

/// The number texts of `top`'s "CPU usage:" line (user, system, idle).
pub open spec fn cpu_usage_spec(top: Seq<char>) -> Option<Seq<Option<Seq<char>>>> {
    let ls = lines(top);
    match first_containing(ls, "CPU usage:"@, 0) {
        Some(k) => {
            let ps = split(ls[k as int], Sep::Char(','));
            Some(Seq::new(ps.len(), |i: int| usage_token(ps[i])))
        },
        None => None,
    }
}

/// The number texts of `top`'s "Load Avg:" line: what follows its first
/// colon (up to any second one), split at commas and trimmed.
pub open spec fn load_avg_spec(top: Seq<char>) -> Option<Seq<Seq<char>>> {
    let ls = lines(top);
    match first_containing(ls, "Load Avg:"@, 0) {
        Some(k) => {
            let ps = split(ls[k as int], Sep::Char(':'));
            let second = if ps.len() >= 2 {
                ps[1]
            } else {
                Seq::empty()
            };
            let qs = split(second, Sep::Char(','));
            Some(Seq::new(qs.len(), |i: int| trim(qs[i])))
        },
        None => None,
    }
}

/// What follows `key` on the first line that starts with it (once trimmed).
pub open spec fn after_prefix(ls: Seq<Seq<char>>, key: Seq<char>) -> Option<Seq<char>>
    decreases ls.len(),
{
    if ls.len() == 0 {
        None
    } else {
        match strip_prefix(trim(ls[0]), key) {
            Some(rest) => Some(rest),
            None => after_prefix(ls.drop_first(), key),
        }
    }
}

/// The page size's text in `vm_stat`'s "page size of N bytes." line.
pub open spec fn page_size_spec(vm: Seq<char>) -> Option<Seq<char>> {
    match after_prefix(lines(vm), "page size of "@) {
        Some(rest) => Some(trim_end_matches(trim(rest), " bytes."@)),
        None => None,
    }
}

/// The count's text on `vm_stat`'s first line that starts with `key`.
pub open spec fn pages_spec(vm: Seq<char>, key: Seq<char>) -> Option<Seq<char>> {
    match after_prefix(lines(vm), key) {
        Some(rest) => Some(trim_end_matches(trim(trim_start_matches(trim(rest), seq![':'])), seq!['.'])),
        None => None,
    }
}

/// The chip's name: the CPU brand, or the model when the brand is empty.
pub open spec fn chip_spec(brand: Seq<char>, model: Seq<char>) -> Seq<char> {
    if trim(brand).len() == 0 {
        trim(model)
    } else {
        trim(brand)
    }
}

/// The report's opening lines: host and system, then chip, cores and RAM.
pub open spec fn header_spec(
    host: Seq<char>,
    os: Seq<char>,
    arch: Seq<char>,
    chip: Seq<char>,
    cores: u64,
    ram_bytes: u64,
) -> Seq<Seq<char>> {
    seq![
        "  "@ + trim(host) + " · macOS "@ + trim(os) + " ("@ + trim(arch) + ")"@,
        "  "@ + chip + " · "@ + dec(cores as nat) + " cores · "@ + gb_text(ram_bytes as nat)
            + " RAM"@,
    ]
}

// ------------------------------------------------------------------ exec

/// The first of `v`'s lines `ls` that contains `p`.
fn line_with(v: &Vec<char>, ls: &Vec<(usize, usize)>, p: &str) -> (r: Option<(usize, usize)>)
    requires
        spans_within(ls@, 0, v.len() as int),
    ensures
        r matches Some(sp) ==> sp.0 <= sp.1 <= v.len() && (first_containing(
            span_views(v@, ls@),
            p@,
            0,
        ) matches Some(k) && k < ls.len() && span_views(v@, ls@)[k as int] == v@.subrange(
            sp.0 as int,
            sp.1 as int,
        )),
        r is None ==> first_containing(span_views(v@, ls@), p@, 0) is None,
{
    let pc = to_chars(p);
    let ghost all = span_views(v@, ls@);
    let mut k: usize = 0;
    while k < ls.len()
        invariant
            k <= ls.len(),
            all == span_views(v@, ls@),
            spans_within(ls@, 0, v.len() as int),
            pc@ == p@,
            first_containing(all, p@, 0) == first_containing(all, p@, k as nat),
        decreases ls.len() - k,
    {
        let (a, b) = ls[k];
        assert(ls@[k as int] == (a, b));
        if crate::text::find_at(v, a, b, &pc).is_some() {
            return Some((a, b));
        }
        k += 1;
    }
    None
}

/// The number texts of `top`'s "CPU usage:" line, one per comma-separated
/// part (`None` for a part with no word before its `%`).
pub fn cpu_usage_fields(top: &str) -> (r: Option<Vec<Option<String>>>)
    ensures
        match r {
            Some(f) => cpu_usage_spec(top@) == Some(opts_view(f@)),
            None => cpu_usage_spec(top@) is None,
        },
{
    let v = to_chars(top);
    let ls = lines_of(&v);
    let (a, b) = match line_with(&v, &ls, "CPU usage:") {
        Some(sp) => sp,
        None => {
            return None;
        },
    };
    let ps = split_at(&v, a, b, &Sep::Char(','));
    let ghost pv = span_views(v@, ps@);
    let ghost want = Seq::new(pv.len(), |i: int| usage_token(pv[i]));
    let mut out: Vec<Option<String>> = Vec::new();
    let mut i: usize = 0;
    assert(opts_view(out@) =~= want.take(0));
    while i < ps.len()
        invariant
            i <= ps.len(),
            pv == span_views(v@, ps@),
            want == Seq::new(pv.len(), |i: int| usage_token(pv[i])),
            spans_within(ps@, a as int, b as int),
            b <= v.len(),
            opts_view(out@) == want.take(i as int),
        decreases ps.len() - i,
    {
        let (x, y) = ps[i];
        assert(ps@[i as int] == (x, y));
        let qs = split_at(&v, x, y, &Sep::Char('%'));
        proof {
            lemma_split_len(v@.subrange(x as int, y as int), Sep::Char('%'));
        }
        let (qa, qb) = qs[0];
        assert(qs@[0] == (qa, qb));
        let ws = words_at(&v, qa, qb);
        let tok = if ws.len() > 0 {
            let (wa, wb) = ws[ws.len() - 1];
            assert(ws@[ws.len() - 1] == (wa, wb));
            Some(from_chars(&v, wa, wb))
        } else {
            None
        };
        assert(opt_view(tok) == usage_token(pv[i as int]));
        let ghost old_out = out@;
        out.push(tok);
        assert(opts_view(out@) =~= want.take(i + 1)) by {
            assert(opts_view(out@) =~= opts_view(old_out).push(opt_view(tok)));
        }
        i += 1;
    }
    assert(want.take(ps.len() as int) =~= want);
    Some(out)
}

/// The number texts of `top`'s "Load Avg:" line.
pub fn load_avg_fields(top: &str) -> (r: Option<Vec<String>>)
    ensures
        match r {
            Some(f) => load_avg_spec(top@) == Some(views(f@)),
            None => load_avg_spec(top@) is None,
        },
{
    let v = to_chars(top);
    let ls = lines_of(&v);
    let (a, b) = match line_with(&v, &ls, "Load Avg:") {
        Some(sp) => sp,
        None => {
            return None;
        },
    };
    let ps = split_at(&v, a, b, &Sep::Char(':'));
    let (sa, sb) = if ps.len() >= 2 {
        let (x, y) = ps[1];
        assert(ps@[1] == (x, y));
        (x, y)
    } else {
        (a, a)
    };
    assert(v@.subrange(a as int, a as int) =~= Seq::<char>::empty());
    let qs = split_at(&v, sa, sb, &Sep::Char(','));
    let ghost qv = span_views(v@, qs@);
    let ghost want = Seq::new(qv.len(), |i: int| trim(qv[i]));
    let mut out: Vec<String> = Vec::new();
    let mut i: usize = 0;
    assert(views(out@) =~= want.take(0));
    while i < qs.len()
        invariant
            i <= qs.len(),
            qv == span_views(v@, qs@),
            want == Seq::new(qv.len(), |i: int| trim(qv[i])),
            spans_within(qs@, sa as int, sb as int),
            sb <= v.len(),
            views(out@) == want.take(i as int),
        decreases qs.len() - i,
    {
        let (x, y) = qs[i];
        assert(qs@[i as int] == (x, y));
        let (ta, tb) = trim_at(&v, x, y);
        let ghost old_out = out@;
        out.push(from_chars(&v, ta, tb));
        assert(views(out@) =~= want.take(i + 1)) by {
            assert(views(out@) =~= views(old_out).push(v@.subrange(ta as int, tb as int)));
        }
        i += 1;
    }
    assert(want.take(qs.len() as int) =~= want);
    Some(out)
}

/// The span of what follows `key` on the first line starting with it.
fn after_prefix_at(v: &Vec<char>, key: &Vec<char>) -> (r: Option<(usize, usize)>)
    ensures
        r matches Some(sp) ==> sp.0 <= sp.1 <= v.len() && after_prefix(lines(v@), key@) == Some(
            v@.subrange(sp.0 as int, sp.1 as int),
        ),
        r is None ==> after_prefix(lines(v@), key@) is None,
{
    let ls = lines_of(v);
    let ghost all = lines(v@);
    let mut i: usize = 0;
    assert(all.skip(0) =~= all);
    while i < ls.len()
        invariant
            i <= ls.len(),
            all == span_views(v@, ls@),
            all == lines(v@),
            spans_within(ls@, 0, v.len() as int),
            after_prefix(all, key@) == after_prefix(all.skip(i as int), key@),
        decreases ls.len() - i,
    {
        let (a, b) = ls[i];
        assert(ls@[i as int] == (a, b));
        assert(all.skip(i as int)[0] == v@.subrange(a as int, b as int));
        assert(all.skip(i as int).drop_first() =~= all.skip(i + 1));
        let (ta, tb) = trim_at(v, a, b);
        if starts_with_at(v, ta, tb, key) {
            assert(v@.subrange(ta as int, tb as int).skip(key.len() as int) =~= v@.subrange(
                ta + key.len(),
                tb as int,
            ));
            return Some((ta + key.len(), tb));
        }
        i += 1;
    }
    None
}

/// The page size's text in `vm_stat`'s output.
pub fn vm_page_size(vm: &str) -> (r: Option<String>)
    ensures
        opt_view(r) == page_size_spec(vm@),
{
    let v = to_chars(vm);
    let key = to_chars("page size of ");
    let tail = to_chars(" bytes.");
    match after_prefix_at(&v, &key) {
        Some((a, b)) => {
            let (ta, tb) = trim_at(&v, a, b);
            let e = trim_end_matches_at(&v, ta, tb, &tail);
            Some(from_chars(&v, ta, e))
        },
        None => None,
    }
}

/// The count's text on `vm_stat`'s first line starting with `key`
/// (e.g. "Pages free").
pub fn vm_pages(vm: &str, key: &str) -> (r: Option<String>)
    ensures
        opt_view(r) == pages_spec(vm@, key@),
{
    let v = to_chars(vm);
    let k = to_chars(key);
    let colon = vec![':'];
    let dot = vec!['.'];
    assert(colon@ =~= seq![':']);
    assert(dot@ =~= seq!['.']);
    match after_prefix_at(&v, &k) {
        Some((a, b)) => {
            let (ta, tb) = trim_at(&v, a, b);
            let c = trim_start_matches_at(&v, ta, tb, &colon);
            let (xa, xb) = trim_at(&v, c, tb);
            let e = trim_end_matches_at(&v, xa, xb, &dot);
            Some(from_chars(&v, xa, e))
        },
        None => None,
    }
}

/// `s.trim().parse::<u64>().ok()`: a count printed by `sysctl -n`.
pub fn parse_count(s: &str) -> (r: Option<u64>)
    ensures
        r == parse_u64(trim(s@)),
{
    let v = to_chars(s);
    assert(v@.subrange(0, v.len() as int) =~= v@);
    let (a, b) = trim_at(&v, 0, v.len());
    parse_u64_at(&v, a, b)
}

/// A `String` holding `s` trimmed.
fn trimmed(s: &str) -> (r: String)
    ensures
        r@ == trim(s@),
{
    let v = to_chars(s);
    assert(v@.subrange(0, v.len() as int) =~= v@);
    let (a, b) = trim_at(&v, 0, v.len());
    from_chars(&v, a, b)
}

/// The chip's name from `sysctl`'s CPU brand and hardware model.
pub fn chip_name(brand: &str, model: &str) -> (r: String)
    ensures
        r@ == chip_spec(brand@, model@),
{
    let b = trimmed(brand);
    if b.as_str().is_empty() {
        trimmed(model)
    } else {
        b
    }
}

/// The report's opening lines.
pub fn header_lines(
    host: &str,
    os: &str,
    arch: &str,
    chip: &str,
    cores: u64,
    ram_bytes: u64,
) -> (out: Vec<String>)
    ensures
        views(out@) == header_spec(host@, os@, arch@, chip@, cores, ram_bytes),
{
    let mut l1 = String::new();
    l1.append("  ");
    l1.append(trimmed(host).as_str());
    l1.append(" · macOS ");
    l1.append(trimmed(os).as_str());
    l1.append(" (");
    l1.append(trimmed(arch).as_str());
    l1.append(")");
    let mut l2 = String::new();
    l2.append("  ");
    l2.append(chip);
    l2.append(" · ");
    push_dec(&mut l2, cores as u128);
    l2.append(" cores · ");
    l2.append(gb(ram_bytes).as_str());
    l2.append(" RAM");
    let mut out: Vec<String> = Vec::new();
    out.push(l1);
    out.push(l2);
    assert(views(out@) =~= header_spec(host@, os@, arch@, chip@, cores, ram_bytes));
    out
}

/// The CPU section's first line: `"  {chip} — {cores} cores"`.
pub fn cpu_line(chip: &str, cores: u64) -> (s: String)
    ensures
        s@ == "  "@ + chip@ + " — "@ + dec(cores as nat) + " cores"@,
{
    let mut l = String::new();
    l.append("  ");
    l.append(chip);
    l.append(" — ");
    push_dec(&mut l, cores as u128);
    l.append(" cores");
    l
}

/// The memory section's line when the total is unknown (0 bytes).
pub fn unknown_memory_line(total_bytes: u64) -> (r: Option<String>)
    ensures
        opt_view(r) == (if total_bytes == 0 {
            Some("  (unknown)"@)
        } else {
            None
        }),
{
    if total_bytes == 0 {
        let mut l = String::new();
        l.append("  (unknown)");
        Some(l)
    } else {
        None
    }
}

} // verus!
