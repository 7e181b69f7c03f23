//! Power: the power source, the battery line of `pmset -g batt`, battery
//! health, and the sleep settings of `pmset -g`.
use vstd::prelude::*;
use crate::text::{
    contains, eq_at, find_at, from_chars, join, join_strings, lines, lines_of, nonempty,
    opt_view, remove_all, remove_all_at, span_views, spans_within, split, split_at, starts_with_at,
    strip_prefix, to_chars, trim, trim_at, trim_end_matches, trim_end_matches_at, views, words,
    words_at, Sep,
};
use crate::fields::{field, field_spec};
use crate::report::Report;
use crate::number::{dec, push_dec};

verus! {

// ------------------------------------------------------------------ spec

/// The source named on the first `Now drawing from '...'` line.
pub open spec fn source_in(ls: Seq<Seq<char>>) -> Option<Seq<char>>
    decreases ls.len(),
{
    if ls.len() == 0 {
        None
    } else {
        match strip_prefix(trim(ls[0]), "Now drawing from '"@) {
            Some(s) => Some(trim_end_matches(s, seq!['\''])),
            None => source_in(ls.drop_first()),
        }
    }
}

pub open spec fn power_source_spec(batt: Seq<char>) -> Option<Seq<char>> {
    source_in(lines(batt))
}

/// A line that, once trimmed, says where the power comes from.
pub open spec fn is_source_line(l: Seq<char>) -> bool {
    strip_prefix(trim(l), "Now drawing from '"@) is Some
}

/// Law: a power source is named exactly when some line says where the
/// power comes from; it is read from the first such line, as the text
/// after the opening quote without the closing quotes.
pub proof fn lemma_source_first_line(ls: Seq<Seq<char>>)
    ensures
        source_in(ls) is Some <==> exists|i: int|
            0 <= i < ls.len() && #[trigger] is_source_line(ls[i]),
        source_in(ls) is Some ==> exists|i: int|
            0 <= i < ls.len() && #[trigger] is_source_line(ls[i]) && (forall|j: int|
                0 <= j < i ==> !#[trigger] is_source_line(ls[j])) && source_in(ls) == Some(
                trim_end_matches(trim(ls[i]).skip(18), seq!['\'']),
            ),
    decreases ls.len(),
{
    reveal_strlit("Now drawing from '");
    if ls.len() > 0 {
        let rest = ls.drop_first();
        lemma_source_first_line(rest);
        if !is_source_line(ls[0]) {
            if exists|i: int| 0 <= i < ls.len() && #[trigger] is_source_line(ls[i]) {
                let i = choose|i: int| 0 <= i < ls.len() && #[trigger] is_source_line(ls[i]);
                assert(rest[i - 1] == ls[i]);
                assert(is_source_line(rest[i - 1]));
            }
            if source_in(ls) is Some {
                let i = choose|i: int|
                    0 <= i < rest.len() && #[trigger] is_source_line(rest[i]) && (forall|j: int|
                        0 <= j < i ==> !#[trigger] is_source_line(rest[j])) && source_in(rest)
                        == Some(trim_end_matches(trim(rest[i]).skip(18), seq!['\'']));
                assert(ls[i + 1] == rest[i]);
                assert(is_source_line(ls[i + 1]));
                assert forall|j: int| 0 <= j < i + 1 implies !#[trigger] is_source_line(ls[j]) by {
                    if j > 0 {
                        assert(ls[j] == rest[j - 1]);
                    }
                }
            }
        } else {
            assert(is_source_line(ls[0]));
        }
    }
}

/// The line for the power source, for the two sources it names.
pub open spec fn source_line_spec(src: Option<Seq<char>>) -> Option<Seq<char>> {
    match src {
        Some(s) => if s == "AC Power"@ {
            Some("  Plugged in — AC power"@)
        } else if s == "Battery Power"@ {
            Some("  Running on battery"@)
        } else {
            None
        },
        None => None,
    }
}

/// Index of the first of `ls` from `i` on that contains `p`.
pub open spec fn first_containing(ls: Seq<Seq<char>>, p: Seq<char>, i: nat) -> Option<nat>
    decreases ls.len() + 1 - i,
{
    if i >= ls.len() {
        None
    } else if contains(ls[i as int], p) {
        Some(i)
    } else {
        first_containing(ls, p, i + 1)
    }
}

/// Law: the search from `i` finds a line exactly when a line at or after
/// `i` contains `p`, and then it finds the first of them.
pub proof fn lemma_first_containing(ls: Seq<Seq<char>>, p: Seq<char>, i: nat)
    ensures
        first_containing(ls, p, i) is Some <==> exists|k: int|
            i <= k < ls.len() && contains(#[trigger] ls[k], p),
        first_containing(ls, p, i) matches Some(k) ==> i <= k < ls.len() && contains(
            ls[k as int],
            p,
        ) && forall|j: int| i <= j < k ==> !contains(#[trigger] ls[j], p),
    decreases ls.len() + 1 - i,
{
    if i < ls.len() {
        lemma_first_containing(ls, p, i + 1);
        if !contains(ls[i as int], p) {
            if exists|k: int| i <= k < ls.len() && contains(#[trigger] ls[k], p) {
                let k = choose|k: int| i <= k < ls.len() && contains(#[trigger] ls[k], p);
                assert(k != i);
            }
        }
    }
}

/// Law: `pmset -g batt` describes a battery exactly when one of its lines
/// names `InternalBattery`, and the charge and state are read from the
/// first such line.
pub proof fn lemma_battery_line_found(batt: Seq<char>)
    ensures
        battery_status_spec(batt) is Some <==> exists|k: int|
            0 <= k < lines(batt).len() && contains(#[trigger] lines(batt)[k], "InternalBattery"@),
        battery_status_spec(batt) matches Some((_, state)) ==> exists|k: int|
            0 <= k < lines(batt).len() && contains(#[trigger] lines(batt)[k], "InternalBattery"@)
                && (forall|j: int|
                0 <= j < k ==> !contains(#[trigger] lines(batt)[j], "InternalBattery"@))
                && state == join(
                state_parts(split(lines(batt)[k], Sep::Char(';')).skip(1)),
                "; "@,
            ),
{
    lemma_first_containing(lines(batt), "InternalBattery"@, 0);
}

/// One `;`-separated part of the battery line, without its `present:` flag.
pub open spec fn state_part(p: Seq<char>) -> Seq<char> {
    trim(remove_all(remove_all(trim(p), "present: true"@), "present: false"@))
}

/// The non-empty state parts.
pub open spec fn state_parts(ps: Seq<Seq<char>>) -> Seq<Seq<char>> {
    nonempty(Seq::new(ps.len(), |i: int| state_part(ps[i])))
}

/// The battery line of `pmset -g batt`: the text of its charge (its first
/// part's last word without `%`) and its state (the other parts joined by
/// `"; "`).
pub open spec fn battery_status_spec(batt: Seq<char>) -> Option<(Option<Seq<char>>, Seq<char>)> {
    let ls = lines(batt);
    match first_containing(ls, "InternalBattery"@, 0) {
        Some(k) => {
            let parts = split(ls[k as int], Sep::Char(';'));
            let w = words(parts[0]);
            let pct = if w.len() > 0 {
                Some(trim_end_matches(w.last(), seq!['%']))
            } else {
                None
            };
            Some((pct, join(state_parts(parts.skip(1)), "; "@)))
        },
        None => None,
    }
}

/// A sleep timer: `never` for 0 minutes, else `"{after} {v} min"`.
pub open spec fn timer_part(v: Seq<char>, never: Seq<char>, after: Seq<char>) -> Seq<char> {
    if v == "0"@ {
        never
    } else {
        after + v + " min"@
    }
}

/// The system sleep setting: its first word is the timer, and `prevented`
/// in it tells why sleep is off.
pub open spec fn system_sleep_part(v: Seq<char>) -> Seq<char> {
    let num = if words(v).len() > 0 {
        words(v)[0]
    } else {
        "0"@
    };
    if num == "0"@ {
        if contains(v, "prevented"@) {
            "system sleep off (something is preventing it)"@
        } else {
            "system sleep off"@
        }
    } else {
        "system sleeps after "@ + num + " min"@
    }
}

/// The system sleep setting turns sleep off: its first word is `0`, or it
/// has no word at all.
pub open spec fn sleep_is_off(v: Seq<char>) -> bool {
    words(v).len() == 0 || words(v)[0] == "0"@
}

/// What the system-sleep part says of a setting `v`: it blames something
/// for keeping the Mac awake only when `v` says `prevented`; a setting
/// that turns sleep off without saying so gives exactly "system sleep off";
/// any other setting gives its first word as the timer in minutes.
pub proof fn lemma_system_sleep_part(v: Seq<char>)
    ensures
        system_sleep_part(v) == "system sleep off (something is preventing it)"@
            <==> sleep_is_off(v) && contains(v, "prevented"@),
        system_sleep_part(v) == "system sleep off"@
            <==> sleep_is_off(v) && !contains(v, "prevented"@),
        !sleep_is_off(v) ==> system_sleep_part(v) == "system sleeps after "@ + words(v)[0]
            + " min"@,
{
    reveal_strlit("system sleep off (something is preventing it)");
    reveal_strlit("system sleep off");
    reveal_strlit("system sleeps after ");
    let a = "system sleep off (something is preventing it)"@;
    let b = "system sleep off"@;
    assert(a.len() != b.len());
    assert(a != b);
    if !sleep_is_off(v) {
        let r = "system sleeps after "@ + words(v)[0] + " min"@;
        assert(system_sleep_part(v) == r);
        assert(r[12] == 's');
        assert(a[12] == ' ');
        assert(b[12] == ' ');
        assert(r != a);
        assert(r != b);
    }
}

/// The sleep settings that `pmset -g` shows, in the order display, system,
/// disks.
pub open spec fn sleep_parts(g: Seq<char>) -> Seq<Seq<char>> {
    (match field_spec(g, "displaysleep"@) {
        Some(v) => seq![timer_part(v, "display never sleeps"@, "display sleeps after "@)],
        None => Seq::empty(),
    }) + (match field_spec(g, "sleep"@) {
        Some(v) => seq![system_sleep_part(v)],
        None => Seq::empty(),
    }) + (match field_spec(g, "disksleep"@) {
        Some(v) => seq![timer_part(v, "disks never sleep"@, "disks sleep after "@)],
        None => Seq::empty(),
    })
}

/// Of the parts of the sleep line, only the one for the system setting can
/// blame something for keeping the Mac awake, and it does so exactly when
/// that setting turns sleep off and says `prevented`; a setting that turns
/// sleep off without saying so shows as "system sleep off".
pub proof fn lemma_sleep_parts_blame(g: Seq<char>)
    ensures
        sleep_parts(g).contains("system sleep off (something is preventing it)"@) <==> (
        field_spec(g, "sleep"@) matches Some(v) && sleep_is_off(v) && contains(v, "prevented"@)),
        (field_spec(g, "sleep"@) matches Some(v) && sleep_is_off(v) && !contains(
            v,
            "prevented"@,
        )) ==> sleep_parts(g).contains("system sleep off"@),
{
    reveal_strlit("system sleep off (something is preventing it)");
    reveal_strlit("display never sleeps");
    reveal_strlit("display sleeps after ");
    reveal_strlit("disks never sleep");
    reveal_strlit("disks sleep after ");
    let a = "system sleep off (something is preventing it)"@;
    let d = match field_spec(g, "displaysleep"@) {
        Some(v) => seq![timer_part(v, "display never sleeps"@, "display sleeps after "@)],
        None => Seq::<Seq<char>>::empty(),
    };
    let s = match field_spec(g, "sleep"@) {
        Some(v) => seq![system_sleep_part(v)],
        None => Seq::<Seq<char>>::empty(),
    };
    let k = match field_spec(g, "disksleep"@) {
        Some(v) => seq![timer_part(v, "disks never sleep"@, "disks sleep after "@)],
        None => Seq::<Seq<char>>::empty(),
    };
    let ps = sleep_parts(g);
    assert(ps == d + s + k);
    assert(a[0] == 's');
    assert forall|j: int| 0 <= j < d.len() implies d[j].len() > 0 && d[j][0] == 'd' by {
        let v = field_spec(g, "displaysleep"@)->0;
        if v != "0"@ {
            assert(("display sleeps after "@ + v + " min"@)[0] == 'd');
        }
    }
    assert forall|j: int| 0 <= j < k.len() implies k[j].len() > 0 && k[j][0] == 'd' by {
        let v = field_spec(g, "disksleep"@)->0;
        if v != "0"@ {
            assert(("disks sleep after "@ + v + " min"@)[0] == 'd');
        }
    }
    if ps.contains(a) {
        let j = choose|j: int| 0 <= j < ps.len() && ps[j] == a;
        if j < d.len() {
            assert(ps[j] == d[j]);
        } else if j < d.len() + s.len() {
            assert(ps[j] == s[j - d.len()]);
            let v = field_spec(g, "sleep"@)->0;
            lemma_system_sleep_part(v);
        } else {
            assert(ps[j] == k[j - d.len() - s.len()]);
        }
    }
    match field_spec(g, "sleep"@) {
        Some(v) => {
            lemma_system_sleep_part(v);
            assert(ps[d.len() as int] == system_sleep_part(v));
        },
        None => {},
    }
}

/// The sleep line is shown exactly when `pmset -g` gives one of the three
/// settings. The display's part comes first and the disks' part last; each
/// says "never" exactly for a setting of `0`, and otherwise gives the
/// setting in minutes.
pub proof fn lemma_sleep_timers(g: Seq<char>)
    ensures
        sleep_line_spec(g) is None <==> field_spec(g, "displaysleep"@) is None && field_spec(
            g,
            "sleep"@,
        ) is None && field_spec(g, "disksleep"@) is None,
        field_spec(g, "displaysleep"@) matches Some(v) ==> (sleep_parts(g)[0]
            == "display never sleeps"@ <==> v == "0"@) && (v != "0"@ ==> sleep_parts(g)[0]
            == "display sleeps after "@ + v + " min"@),
        field_spec(g, "disksleep"@) matches Some(v) ==> (sleep_parts(g).last()
            == "disks never sleep"@ <==> v == "0"@) && (v != "0"@ ==> sleep_parts(g).last()
            == "disks sleep after "@ + v + " min"@),
{
    reveal_strlit("display never sleeps");
    reveal_strlit("display sleeps after ");
    reveal_strlit("disks never sleep");
    reveal_strlit("disks sleep after ");
    let d = match field_spec(g, "displaysleep"@) {
        Some(v) => seq![timer_part(v, "display never sleeps"@, "display sleeps after "@)],
        None => Seq::<Seq<char>>::empty(),
    };
    let s = match field_spec(g, "sleep"@) {
        Some(v) => seq![system_sleep_part(v)],
        None => Seq::<Seq<char>>::empty(),
    };
    let k = match field_spec(g, "disksleep"@) {
        Some(v) => seq![timer_part(v, "disks never sleep"@, "disks sleep after "@)],
        None => Seq::<Seq<char>>::empty(),
    };
    let ps = sleep_parts(g);
    assert(ps == d + s + k);
    match field_spec(g, "displaysleep"@) {
        Some(v) => {
            assert(ps[0] == d[0]);
            if v != "0"@ {
                let l = "display sleeps after "@ + v + " min"@;
                assert(l[8] == 's');
                assert("display never sleeps"@[8] == 'n');
            }
        },
        None => {},
    }
    match field_spec(g, "disksleep"@) {
        Some(v) => {
            assert(ps.last() == k[0]);
            if v != "0"@ {
                let l = "disks sleep after "@ + v + " min"@;
                assert(l[6] == 's');
                assert("disks never sleep"@[6] == 'n');
            }
        },
        None => {},
    }
}

/// The sleep line, when there is a setting to show.
pub open spec fn sleep_line_spec(g: Seq<char>) -> Option<Seq<char>> {
    if sleep_parts(g).len() > 0 {
        Some("  "@ + join(sleep_parts(g), " · "@))
    } else {
        None
    }
}

/// The battery health lines.
pub open spec fn health_lines(
    cycles: Seq<char>,
    condition: Seq<char>,
    capacity: Option<Seq<char>>,
) -> Seq<Seq<char>> {
    seq![
        "  Battery health: "@ + condition + (match capacity {
            Some(c) => " — "@ + c + " of design capacity"@,
            None => Seq::empty(),
        }),
        "  Cycle count: "@ + cycles + " (typical Mac batteries are rated for ~1000 cycles)"@,
    ]
}

/// A battery whose condition is not "Normal" gets a warning.
pub open spec fn health_warnings(condition: Seq<char>) -> Seq<Seq<char>> {
    if condition != "Normal"@ {
        seq!["Battery condition is '"@ + condition + "'"@]
    } else {
        seq![]
    }
}

/// The battery line: its charge (`percent`, the charge rounded to a whole
/// number) and state, or that there is no battery.
pub open spec fn battery_line_spec(batt: Seq<char>, percent: u64) -> Seq<char> {
    match battery_status_spec(batt) {
        Some((_, state)) => "  Battery: "@ + dec(percent as nat) + "% — "@ + state,
        None => "  No battery (desktop Mac)"@,
    }
}

// ------------------------------------------------------------------ exec

/// The power source `pmset -g batt` names ("AC Power", "Battery Power").
pub fn power_source(batt: &str) -> (r: Option<String>)
    ensures
        opt_view(r) == power_source_spec(batt@),
{
    let v = to_chars(batt);
    let ls = lines_of(&v);
    let ghost all = lines(v@);
    let pre = to_chars("Now drawing from '");
    let quote = vec!['\''];
    assert(quote@ =~= seq!['\'']);
    let mut i: usize = 0;
    assert(all.skip(0) =~= all);
    while i < ls.len()
        invariant
            i <= ls.len(),
            all == span_views(v@, ls@),
            all == lines(batt@),
            spans_within(ls@, 0, v.len() as int),
            pre@ == "Now drawing from '"@,
            quote@ == seq!['\''],
            source_in(all) == source_in(all.skip(i as int)),
        decreases ls.len() - i,
    {
        let (a, b) = ls[i];
        assert(ls@[i as int] == (a, b));
        assert(all.skip(i as int)[0] == v@.subrange(a as int, b as int));
        assert(all.skip(i as int).drop_first() =~= all.skip(i + 1));
        let (ta, tb) = trim_at(&v, a, b);
        if starts_with_at(&v, ta, tb, &pre) {
            assert(v@.subrange(ta as int, tb as int).skip(pre.len() as int) =~= v@.subrange(
                ta + pre.len(),
                tb as int,
            ));
            let e = trim_end_matches_at(&v, ta + pre.len(), tb, &quote);
            return Some(from_chars(&v, ta + pre.len(), e));
        }
        i += 1;
    }
    None
}

/// The line for the power source: plugged in, or on battery.
pub fn source_line(src: Option<&str>) -> (r: Option<String>)
    ensures
        opt_view(r) == source_line_spec(
            match src {
                Some(s) => Some(s@),
                None => None,
            },
        ),
{
    match src {
        Some(s) => {
            let v = to_chars(s);
            let ac = to_chars("AC Power");
            let bat = to_chars("Battery Power");
            assert(v@.subrange(0, v.len() as int) =~= v@);
            if eq_at(&v, 0, v.len(), &ac) {
                let mut l = String::new();
                l.append("  Plugged in — AC power");
                Some(l)
            } else if eq_at(&v, 0, v.len(), &bat) {
                let mut l = String::new();
                l.append("  Running on battery");
                Some(l)
            } else {
                None
            }
        },
        None => None,
    }
}

/// The state parts of the battery line's parts `parts[1..]`.
fn state_parts_exec(v: &Vec<char>, parts: &Vec<(usize, usize)>) -> (r: Vec<String>)
    requires
        spans_within(parts@, 0, v.len() as int),
        parts.len() >= 1,
    ensures
        views(r@) == state_parts(span_views(v@, parts@).skip(1)),
{
    let ghost ps = span_views(v@, parts@).skip(1);
    let ghost mapped = Seq::new(ps.len(), |i: int| state_part(ps[i]));
    let pt = to_chars("present: true");
    let pf = to_chars("present: false");
    let mut r: Vec<String> = Vec::new();
    let mut i: usize = 1;
    assert(mapped.take(0) =~= Seq::<Seq<char>>::empty());
    assert(views(r@) =~= Seq::<Seq<char>>::empty());
    while i < parts.len()
        invariant
            1 <= i <= parts.len(),
            spans_within(parts@, 0, v.len() as int),
            ps == span_views(v@, parts@).skip(1),
            mapped == Seq::new(ps.len(), |i: int| state_part(ps[i])),
            pt@ == "present: true"@,
            pf@ == "present: false"@,
            views(r@) == nonempty(mapped.take(i - 1)),
        decreases parts.len() - i,
    {
        let (a, b) = parts[i];
        assert(parts@[i as int] == (a, b));
        assert(ps[i - 1] == v@.subrange(a as int, b as int));
        let (ta, tb) = trim_at(v, a, b);
        let once = remove_all_at(v, ta, tb, &pt);
        let w = to_chars(once.as_str());
        assert(w@.subrange(0, w.len() as int) =~= w@);
        let twice = remove_all_at(&w, 0, w.len(), &pf);
        let u = to_chars(twice.as_str());
        assert(u@.subrange(0, u.len() as int) =~= u@);
        let (xa, xb) = trim_at(&u, 0, u.len());
        assert(u@.subrange(xa as int, xb as int) == mapped[i - 1]);
        assert(mapped.take(i as int).drop_last() =~= mapped.take(i - 1));
        if xa < xb {
            let part = from_chars(&u, xa, xb);
            let ghost old_r = r@;
            r.push(part);
            assert(views(r@) =~= views(old_r).push(part@));
        }
        i += 1;
    }
    assert(mapped.take(parts.len() - 1) =~= mapped);
    r
}

/// The first line of `v`'s lines from `ls` that contains `p`.
fn line_containing(v: &Vec<char>, ls: &Vec<(usize, usize)>, p: &Vec<char>) -> (r: Option<usize>)
    requires
        spans_within(ls@, 0, v.len() as int),
    ensures
        r matches Some(k) ==> k < ls.len() && first_containing(span_views(v@, ls@), p@, 0)
            == Some(k as nat),
        r is None ==> first_containing(span_views(v@, ls@), p@, 0) is None,
{
    let ghost all = span_views(v@, ls@);
    let mut k: usize = 0;
    while k < ls.len()
        invariant
            k <= ls.len(),
            all == span_views(v@, ls@),
            spans_within(ls@, 0, v.len() as int),
            first_containing(all, p@, 0) == first_containing(all, p@, k as nat),
        decreases ls.len() - k,
    {
        let (a, b) = ls[k];
        assert(ls@[k as int] == (a, b));
        if find_at(v, a, b, p).is_some() {
            return Some(k);
        }
        k += 1;
    }
    None
}

/// The battery line of `pmset -g batt`: the text of the charge, and the
/// state.
pub fn battery_status(batt: &str) -> (r: Option<(Option<String>, String)>)
    ensures
        match (r, battery_status_spec(batt@)) {
            (Some((p, st)), Some((sp, sst))) => opt_view(p) == sp && st@ == sst,
            (None, None) => true,
            _ => false,
        },
{
    let v = to_chars(batt);
    let ls = lines_of(&v);
    let ghost all = lines(v@);
    let ib = to_chars("InternalBattery");
    let k = match line_containing(&v, &ls, &ib) {
        Some(k) => k,
        None => {
            return None;
        },
    };
    let (a, b) = ls[k];
    assert(ls@[k as int] == (a, b));
    let parts = split_at(&v, a, b, &Sep::Char(';'));
    proof {
        crate::text::lemma_split_len(v@.subrange(a as int, b as int), Sep::Char(';'));
    }
    let (pa, pb) = parts[0];
    assert(parts@[0] == (pa, pb));
    let ws = words_at(&v, pa, pb);
    let pct = if ws.len() > 0 {
        let (wa, wb) = ws[ws.len() - 1];
        assert(ws@[ws.len() - 1] == (wa, wb));
        let percent = vec!['%'];
        assert(percent@ =~= seq!['%']);
        let e = trim_end_matches_at(&v, wa, wb, &percent);
        Some(from_chars(&v, wa, e))
    } else {
        None
    };
    let st = state_parts_exec(&v, &parts);
    let state = join_strings(&st, "; ");
    Some((pct, state))
}

/// `"{never}"` or `"{after}{v} min"`.
fn timer_part_exec(v: &str, never: &str, after: &str) -> (s: String)
    ensures
        s@ == timer_part(v@, never@, after@),
{
    let c = to_chars(v);
    let zero = to_chars("0");
    assert(c@.subrange(0, c.len() as int) =~= c@);
    let mut s = String::new();
    if eq_at(&c, 0, c.len(), &zero) {
        s.append(never);
    } else {
        s.append(after);
        s.append(v);
        s.append(" min");
    }
    s
}

fn system_sleep_exec(v: &str) -> (s: String)
    ensures
        s@ == system_sleep_part(v@),
{
    let c = to_chars(v);
    assert(c@.subrange(0, c.len() as int) =~= c@);
    let ws = words_at(&c, 0, c.len());
    let zero = to_chars("0");
    let num = if ws.len() > 0 {
        let (a, b) = ws[0];
        assert(ws@[0] == (a, b));
        from_chars(&c, a, b)
    } else {
        let mut z = String::new();
        z.append("0");
        z
    };
    let n = to_chars(num.as_str());
    assert(n@.subrange(0, n.len() as int) =~= n@);
    let mut s = String::new();
    if eq_at(&n, 0, n.len(), &zero) {
        let prev = to_chars("prevented");
        if find_at(&c, 0, c.len(), &prev).is_some() {
            s.append("system sleep off (something is preventing it)");
        } else {
            s.append("system sleep off");
        }
    } else {
        s.append("system sleeps after ");
        s.append(num.as_str());
        s.append(" min");
    }
    s
}

/// The sleep settings of `pmset -g` as one line, when it shows any.
pub fn sleep_line(g: &str) -> (r: Option<String>)
    ensures
        opt_view(r) == sleep_line_spec(g@),
{
    let mut parts: Vec<String> = Vec::new();
    match field(g, "displaysleep") {
        Some(v) => parts.push(timer_part_exec(v.as_str(), "display never sleeps", "display sleeps after ")),
        None => {},
    }
    let ghost p1 = views(parts@);
    match field(g, "sleep") {
        Some(v) => parts.push(system_sleep_exec(v.as_str())),
        None => {},
    }
    let ghost p2 = views(parts@);
    match field(g, "disksleep") {
        Some(v) => parts.push(timer_part_exec(v.as_str(), "disks never sleep", "disks sleep after ")),
        None => {},
    }
    assert(views(parts@) =~= sleep_parts(g@));
    if parts.len() == 0 {
        return None;
    }
    let mut s = String::new();
    s.append("  ");
    let joined = join_strings(&parts, " · ");
    s.append(joined.as_str());
    Some(s)
}

/// The battery health lines from system_profiler's cycle count, condition
/// and maximum capacity; a condition other than "Normal" adds a warning.
pub fn battery_health(cycles: &str, condition: &str, capacity: Option<&str>, r: &mut Report) -> (out:
    Vec<String>)
    ensures
        views(out@) == health_lines(
            cycles@,
            condition@,
            match capacity {
                Some(c) => Some(c@),
                None => None,
            },
        ),
        views(final(r).warnings@) == views(old(r).warnings@) + health_warnings(condition@),
        final(r).wifi_connected == old(r).wifi_connected,
        final(r).eth_active == old(r).eth_active,
{
    let mut l1 = String::new();
    l1.append("  Battery health: ");
    l1.append(condition);
    match capacity {
        Some(c) => {
            l1.append(" — ");
            l1.append(c);
            l1.append(" of design capacity");
            assert(l1@ =~= "  Battery health: "@ + condition@ + (" — "@ + c@
                + " of design capacity"@));
        },
        None => {
            assert(l1@ =~= l1@ + Seq::<char>::empty());
        },
    }
    let mut l2 = String::new();
    l2.append("  Cycle count: ");
    l2.append(cycles);
    l2.append(" (typical Mac batteries are rated for ~1000 cycles)");
    let mut out: Vec<String> = Vec::new();
    out.push(l1);
    out.push(l2);
    let c = to_chars(condition);
    let normal = to_chars("Normal");
    assert(c@.subrange(0, c.len() as int) =~= c@);
    let ghost old_w = r.warnings@;
    if !eq_at(&c, 0, c.len(), &normal) {
        let mut w = String::new();
        w.append("Battery condition is '");
        w.append(condition);
        w.append("'");
        r.warnings.push(w);
        assert(views(r.warnings@) =~= views(old_w).push(w@));
    } else {
        assert(views(r.warnings@) =~= views(old_w) + seq![]);
    }
    assert(views(out@) =~= health_lines(
        cycles@,
        condition@,
        match capacity {
            Some(c) => Some(c@),
            None => None,
        },
    ));
    out
}

/// The battery line of `pmset -g batt`, with the charge rounded to
/// `percent`.
pub fn battery_line(batt: &str, percent: u64) -> (s: String)
    ensures
        s@ == battery_line_spec(batt@, percent),
{
    let mut l = String::new();
    match battery_status(batt) {
        Some((_, state)) => {
            l.append("  Battery: ");
            push_dec(&mut l, percent as u128);
            l.append("% — ");
            l.append(state.as_str());
        },
        None => {
            l.append("  No battery (desktop Mac)");
        },
    }
    l
}

} // verus!
