//! Storage: the internal disk from `diskutil info`, its SMART counters,
//! the reboot log, boot time, uptime, and the boot volume's usage.
use vstd::prelude::*;
use crate::text::{
    contains, eq_at, find, find_at, from_chars, join, join_strings, lemma_find_from, lemma_split_len,
    lines, lines_of, opt_view, span_views, spans_within, split, split_at, starts_with, to_chars,
    trim, trim_at, views, words, words_at, Sep,
};
use crate::fields::{field, field_spec, tb_text, tb_value};
use crate::report::Report;
use crate::number::{dec, push_dec};

verus! {

// ------------------------------------------------------------------ spec

/// A field of `diskutil info`, or `default` when it is missing.
pub open spec fn field_or(info: Seq<char>, key: Seq<char>, default: Seq<char>) -> Seq<char> {
    match field_spec(info, key) {
        Some(v) => v,
        None => default,
    }
}

/// The disk's size without the byte count in brackets.
pub open spec fn disk_size(info: Seq<char>) -> Seq<char> {
    match field_spec(info, "Disk Size:"@) {
        Some(v) => trim(split(v, Sep::Char('('))[0]),
        None => Seq::empty(),
    }
}

/// `"  {name} — {size} internal {SSD|disk} ({protocol})"`
pub open spec fn disk_line(info: Seq<char>) -> Seq<char> {
    "  "@ + field_or(info, "Device / Media Name:"@, "disk0"@) + " — "@ + disk_size(info)
        + " internal "@ + (if field_spec(info, "Solid State:"@) == Some("Yes"@) {
        "SSD"@
    } else {
        "disk"@
    }) + " ("@ + field_or(info, "Protocol:"@, Seq::empty()) + ")"@
}

/// The disk line up to the word that says what kind of disk it is.
pub open spec fn disk_line_head(info: Seq<char>) -> Seq<char> {
    "  "@ + field_or(info, "Device / Media Name:"@, "disk0"@) + " — "@ + disk_size(info)
        + " internal "@
}

/// The disk section's first line calls the disk an "SSD" exactly when
/// diskutil's "Solid State:" field is "Yes", and a "disk" for any other
/// value or when the field is missing.
pub proof fn lemma_disk_kind(info: Seq<char>)
    ensures
        disk_lines_spec(info).len() >= 1,
        starts_with(disk_lines_spec(info)[0], disk_line_head(info)),
        starts_with(disk_lines_spec(info)[0].skip(disk_line_head(info).len() as int), "SSD ("@)
            <==> field_spec(info, "Solid State:"@) == Some("Yes"@),
        starts_with(disk_lines_spec(info)[0].skip(disk_line_head(info).len() as int), "disk ("@)
            <==> field_spec(info, "Solid State:"@) != Some("Yes"@),
{
    reveal_strlit("SSD");
    reveal_strlit("disk");
    reveal_strlit(" (");
    reveal_strlit("SSD (");
    reveal_strlit("disk (");
    let l = disk_lines_spec(info)[0];
    assert(l == disk_line(info));
    let head = disk_line_head(info);
    let w = if field_spec(info, "Solid State:"@) == Some("Yes"@) {
        "SSD"@
    } else {
        "disk"@
    };
    let tail = " ("@ + field_or(info, "Protocol:"@, Seq::empty()) + ")"@;
    assert(l =~= head + (w + tail));
    assert(l.subrange(0, head.len() as int) =~= head);
    let rest = l.skip(head.len() as int);
    assert(rest =~= w + tail);
    if w == "SSD"@ {
        assert(rest.subrange(0, 5) =~= "SSD ("@);
        assert(rest[0] == 'S');
    } else {
        assert(rest.subrange(0, 6) =~= "disk ("@);
        assert(rest[0] == 'd');
    }
    assert("SSD ("@[0] == 'S');
    assert("disk ("@[0] == 'd');
    if starts_with(rest, "SSD ("@) {
        assert(rest.subrange(0, 5)[0] == rest[0]);
    }
    if starts_with(rest, "disk ("@) {
        assert(rest.subrange(0, 6)[0] == rest[0]);
    }
}

/// Below the disk line comes a health line exactly when diskutil gives a
/// SMART status: "SMART verified ✓" for "Verified", else the status itself;
/// a status other than "Verified" also gives a warning that names it.
pub proof fn lemma_disk_health(info: Seq<char>)
    ensures
        ({
            let smart = field_or(info, "SMART Status:"@, Seq::empty());
            let out = disk_lines_spec(info);
            &&& out.len() == (if smart.len() > 0 {
                2int
            } else {
                1int
            })
            &&& smart == "Verified"@ ==> out[1] == "  Health: SMART verified ✓"@
                && disk_warnings(info).len() == 0
            &&& (smart.len() > 0 && smart != "Verified"@) ==> out[1] == "  Health: "@ + smart
                && disk_warnings(info) == seq!["SSD SMART status is '"@ + smart + "'"@]
            &&& smart.len() == 0 ==> disk_warnings(info).len() == 0
        }),
{
    reveal_strlit("Verified");
    let smart = field_or(info, "SMART Status:"@, Seq::empty());
    assert("Verified"@.len() > 0);
    let out = disk_lines_spec(info);
    assert(out == seq![disk_line(info)] + health_line(smart));
    if smart.len() > 0 {
        assert(out[1] == health_line(smart)[0]);
    }
}

/// The SMART health line, when there is a status.
pub open spec fn health_line(smart: Seq<char>) -> Seq<Seq<char>> {
    if smart == "Verified"@ {
        seq!["  Health: SMART verified ✓"@]
    } else if smart.len() > 0 {
        seq!["  Health: "@ + smart]
    } else {
        Seq::empty()
    }
}

/// The disk section's lines.
pub open spec fn disk_lines_spec(info: Seq<char>) -> Seq<Seq<char>> {
    seq![disk_line(info)] + health_line(field_or(info, "SMART Status:"@, Seq::empty()))
}

/// A SMART status other than "Verified" gets a warning.
pub open spec fn disk_warnings(info: Seq<char>) -> Seq<Seq<char>> {
    let smart = field_or(info, "SMART Status:"@, Seq::empty());
    if smart != "Verified"@ && smart.len() > 0 {
        seq!["SSD SMART status is '"@ + smart + "'"@]
    } else {
        seq![]
    }
}

/// What smartctl reports, each field empty when it is missing.
pub struct SmartInfo {
    pub power_on_hours: String,
    pub power_cycles: String,
    pub percentage_used: String,
    pub available_spare: String,
    pub data_read: String,
    pub data_written: String,
    pub unsafe_shutdowns: String,
}

/// smartctl's report holds the counters when it names "Power On Hours";
/// the data counters keep their bracketed part.
pub open spec fn smart_spec(out: Seq<char>) -> Option<Seq<Seq<char>>> {
    if contains(out, "Power On Hours"@) {
        Some(
            seq![
                field_or(out, "Power On Hours:"@, Seq::empty()),
                field_or(out, "Power Cycles:"@, Seq::empty()),
                field_or(out, "Percentage Used:"@, Seq::empty()),
                field_or(out, "Available Spare:"@, Seq::empty()),
                match field_spec(out, "Data Units Read:"@) {
                    Some(v) => tb_text(v),
                    None => Seq::empty(),
                },
                match field_spec(out, "Data Units Written:"@) {
                    Some(v) => tb_text(v),
                    None => Seq::empty(),
                },
                field_or(out, "Unsafe Shutdowns:"@, Seq::empty()),
            ],
        )
    } else {
        None
    }
}

pub open spec fn smart_view(s: SmartInfo) -> Seq<Seq<char>> {
    seq![
        s.power_on_hours@,
        s.power_cycles@,
        s.percentage_used@,
        s.available_spare@,
        s.data_read@,
        s.data_written@,
        s.unsafe_shutdowns@,
    ]
}

/// The lines of `last reboot` that record a reboot, in order.
pub open spec fn reboot_lines(ls: Seq<Seq<char>>) -> Seq<Seq<char>>
    decreases ls.len(),
{
    if ls.len() == 0 {
        Seq::empty()
    } else {
        let prev = reboot_lines(ls.drop_last());
        if contains(ls.last(), "reboot time"@) {
            prev.push(ls.last())
        } else {
            prev
        }
    }
}

/// A line of `last reboot` that records a reboot.
pub open spec fn is_reboot_line(l: Seq<char>) -> bool {
    contains(l, "reboot time"@)
}

/// Law: the reboot lines are the lines that record a reboot, in order,
/// and none else; there are some exactly when some line records one, and
/// then the first of them is the first such line.
pub proof fn lemma_reboot_lines(ls: Seq<Seq<char>>)
    ensures
        reboot_lines(ls) == ls.filter(|l: Seq<char>| is_reboot_line(l)),
        reboot_lines(ls).len() > 0 <==> exists|i: int|
            0 <= i < ls.len() && #[trigger] is_reboot_line(ls[i]),
        reboot_lines(ls).len() > 0 ==> exists|i: int|
            0 <= i < ls.len() && #[trigger] is_reboot_line(ls[i]) && (forall|j: int|
                0 <= j < i ==> !#[trigger] is_reboot_line(ls[j])) && reboot_lines(ls)[0] == ls[i],
    decreases ls.len(),
{
    reveal_with_fuel(Seq::filter, 1);
    if ls.len() > 0 {
        let init = ls.drop_last();
        let k = ls.len() - 1;
        lemma_reboot_lines(init);
        assert(ls.filter(|l: Seq<char>| is_reboot_line(l)) == {
            let sub = init.filter(|l: Seq<char>| is_reboot_line(l));
            if is_reboot_line(ls.last()) {
                sub.push(ls.last())
            } else {
                sub
            }
        });
        if exists|i: int| 0 <= i < init.len() && #[trigger] is_reboot_line(init[i]) {
            let i = choose|i: int|
                0 <= i < init.len() && #[trigger] is_reboot_line(init[i]) && (forall|j: int|
                    0 <= j < i ==> !#[trigger] is_reboot_line(init[j])) && reboot_lines(init)[0]
                    == init[i];
            assert(ls[i] == init[i]);
            assert(is_reboot_line(ls[i]));
            assert forall|j: int| 0 <= j < i implies !#[trigger] is_reboot_line(ls[j]) by {
                assert(ls[j] == init[j]);
            }
            assert(reboot_lines(ls)[0] == reboot_lines(init)[0]);
        } else {
            assert forall|j: int| 0 <= j < k implies !#[trigger] is_reboot_line(ls[j]) by {
                assert(ls[j] == init[j]);
                assert(!is_reboot_line(init[j]));
            }
            if is_reboot_line(ls[k]) {
                assert(reboot_lines(ls)[0] == ls[k]);
            } else {
                assert forall|j: int| 0 <= j < ls.len() implies !#[trigger] is_reboot_line(ls[j]) by {
                    if j < k {
                        assert(ls[j] == init[j]);
                    }
                }
            }
        }
    }
}

/// Law: `last reboot` gives a reboot count exactly when some line records a
/// reboot; the count is the number of such lines, and the date is read
/// from the first of them.
pub proof fn lemma_reboot_history(last: Seq<char>)
    ensures
        ({
            let ls = lines(last);
            &&& reboot_spec(last) is Some <==> exists|i: int|
                0 <= i < ls.len() && #[trigger] is_reboot_line(ls[i])
            &&& reboot_spec(last) matches Some((n, d)) ==> n == ls.filter(
                |l: Seq<char>| is_reboot_line(l),
            ).len() && exists|i: int|
                0 <= i < ls.len() && #[trigger] is_reboot_line(ls[i]) && (forall|j: int|
                    0 <= j < i ==> !#[trigger] is_reboot_line(ls[j])) && d == reboot_date(ls[i])
        }),
{
    lemma_reboot_lines(lines(last));
}

/// The 3rd to 6th words of a reboot line: its date.
pub open spec fn reboot_date(l: Seq<char>) -> Seq<char> {
    let w = words(trim(l));
    let rest = if w.len() >= 2 {
        w.skip(2)
    } else {
        Seq::empty()
    };
    join(
        if rest.len() <= 4 {
            rest
        } else {
            rest.take(4)
        },
        " "@,
    )
}

/// How many reboots are on record, and the date of the latest.
pub open spec fn reboot_spec(last: Seq<char>) -> Option<(nat, Seq<char>)> {
    let rs = reboot_lines(lines(last));
    if rs.len() > 0 {
        Some((rs.len(), reboot_date(rs[0])))
    } else {
        None
    }
}

/// The readable boot time after `}` in `sysctl -n kern.boottime`.
pub open spec fn boot_time_spec(bt: Seq<char>) -> Option<Seq<char>> {
    let ps = split(bt, Sep::Char('}'));
    if ps.len() >= 2 {
        Some(trim(ps[1]))
    } else {
        None
    }
}

/// The uptime in `uptime`'s output: the text after the first `up ` (up to
/// any next `up `), to its second comma, trimmed.
pub open spec fn uptime_spec(up: Seq<char>) -> Option<Seq<char>> {
    match find(up, "up "@) {
        Some(i) => {
            let rest = up.skip(i + 3int);
            let piece = match find(rest, "up "@) {
                Some(j) => rest.take(j as int),
                None => rest,
            };
            let ps = split(piece, Sep::Char(','));
            Some(
                trim(
                    join(
                        if ps.len() <= 2 {
                            ps
                        } else {
                            ps.take(2)
                        },
                        ","@,
                    ),
                ),
            )
        },
        None => None,
    }
}

/// The columns of `df -H /`'s second line, when it has at least five.
pub open spec fn df_spec(df: Seq<char>) -> Option<Seq<Seq<char>>> {
    let ls = lines(df);
    let cols = words(
        if ls.len() >= 2 {
            ls[1]
        } else {
            Seq::empty()
        },
    );
    if cols.len() >= 5 {
        Some(cols)
    } else {
        None
    }
}

/// The SMART lines: power-on time (with `days`, the hours in whole days),
/// wear, and data moved; without counters, how to get them.
pub open spec fn smart_lines_spec(info: Option<Seq<Seq<char>>>, days: u64) -> Seq<Seq<char>> {
    match info {
        Some(f) => seq![
            "  Power on: "@ + f[0] + " hours (~"@ + dec(days as nat) + " days) · Power cycles: "@ + f[1],
            "  Wear: "@ + f[2] + " of rated life used · Spare capacity "@ + f[3],
            "  Data moved: "@ + f[4] + " read · "@ + f[5] + " written · Unsafe shutdowns: "@ + f[6],
        ],
        None => seq!["  (Power-on hours & wear: install smartmontools — brew install smartmontools)"@],
    }
}

/// `"  Reboots: {n} on record (last: {date})"`, when reboots are on record.
pub open spec fn reboot_line_spec(last: Seq<char>) -> Option<Seq<char>> {
    match reboot_spec(last) {
        Some((n, d)) => Some("  Reboots: "@ + dec(n) + " on record (last: "@ + d + ")"@),
        None => None,
    }
}

/// `"  Current boot: {time}"`
pub open spec fn boot_line_spec(bt: Seq<char>) -> Option<Seq<char>> {
    match boot_time_spec(bt) {
        Some(t) => Some("  Current boot: "@ + t),
        None => None,
    }
}

/// `"  Up for {uptime}"`
pub open spec fn uptime_line_spec(up: Seq<char>) -> Option<Seq<char>> {
    match uptime_spec(up) {
        Some(t) => Some("  Up for "@ + t),
        None => None,
    }
}

/// `"  Boot volume: {used} used of {size} — {avail} free"`
pub open spec fn boot_volume_line_spec(df: Seq<char>) -> Option<Seq<char>> {
    match df_spec(df) {
        Some(c) => Some("  Boot volume: "@ + c[2] + " used of "@ + c[1] + " — "@ + c[3] + " free"@),
        None => None,
    }
}

// ------------------------------------------------------------------ exec

fn field_or_exec(info: &str, key: &str, default: &str) -> (r: String)
    ensures
        r@ == field_or(info@, key@, default@),
{
    match field(info, key) {
        Some(v) => v,
        None => {
            let mut d = String::new();
            d.append(default);
            d
        },
    }
}

/// The disk section from `diskutil info disk0`: the disk and its SMART
/// health; a status other than "Verified" adds a warning.
pub fn disk_lines(info: &str, r: &mut Report) -> (out: Vec<String>)
    ensures
        views(out@) == disk_lines_spec(info@),
        views(final(r).warnings@) == views(old(r).warnings@) + disk_warnings(info@),
        final(r).wifi_connected == old(r).wifi_connected,
        final(r).eth_active == old(r).eth_active,
{
    let name = field_or_exec(info, "Device / Media Name:", "disk0");
    let size = match field(info, "Disk Size:") {
        Some(v) => {
            let c = to_chars(v.as_str());
            let ps = split_at(&c, 0, c.len(), &Sep::Char('('));
            assert(c@.subrange(0, c.len() as int) =~= c@);
            proof {
                lemma_split_len(c@, Sep::Char('('));
            }
            let (a, b) = ps[0];
            assert(ps@[0] == (a, b));
            let (x, y) = trim_at(&c, a, b);
            from_chars(&c, x, y)
        },
        None => String::new(),
    };
    let smart = field_or_exec(info, "SMART Status:", "");
    let ssd = match field(info, "Solid State:") {
        Some(v) => {
            let c = to_chars(v.as_str());
            let yes = to_chars("Yes");
            assert(c@.subrange(0, c.len() as int) =~= c@);
            eq_at(&c, 0, c.len(), &yes)
        },
        None => false,
    };
    let proto = field_or_exec(info, "Protocol:", "");
    proof {
        assert(""@ =~= Seq::<char>::empty()) by {
            reveal_strlit("");
        }
    }
    let mut l = String::new();
    l.append("  ");
    l.append(name.as_str());
    l.append(" — ");
    l.append(size.as_str());
    l.append(" internal ");
    if ssd {
        l.append("SSD");
    } else {
        l.append("disk");
    }
    l.append(" (");
    l.append(proto.as_str());
    l.append(")");
    let mut out: Vec<String> = Vec::new();
    out.push(l);
    let sc = to_chars(smart.as_str());
    let verified = to_chars("Verified");
    assert(sc@.subrange(0, sc.len() as int) =~= sc@);
    let ghost old_w = r.warnings@;
    if eq_at(&sc, 0, sc.len(), &verified) {
        let mut h = String::new();
        h.append("  Health: SMART verified ✓");
        out.push(h);
        assert(views(r.warnings@) =~= views(old_w) + disk_warnings(info@));
    } else if sc.len() > 0 {
        let mut h = String::new();
        h.append("  Health: ");
        h.append(smart.as_str());
        out.push(h);
        let mut w = String::new();
        w.append("SSD SMART status is '");
        w.append(smart.as_str());
        w.append("'");
        r.warnings.push(w);
        assert(views(r.warnings@) =~= views(old_w) + disk_warnings(info@));
    } else {
        assert(views(r.warnings@) =~= views(old_w) + disk_warnings(info@));
    }
    assert(views(out@) =~= disk_lines_spec(info@));
    out
}

/// A field of smartctl's report with its bracketed part, empty when missing.
fn tb_field(out: &str, key: &str) -> (r: String)
    ensures
        r@ == match field_spec(out@, key@) {
            Some(v) => tb_text(v),
            None => Seq::empty(),
        },
{
    match field(out, key) {
        Some(v) => tb_value(v.as_str()),
        None => String::new(),
    }
}

/// The counters of `smartctl -a`, when its report has them.
pub fn smart_info(out: &str) -> (r: Option<SmartInfo>)
    ensures
        match r {
            Some(s) => smart_spec(out@) == Some(smart_view(s)),
            None => smart_spec(out@) is None,
        },
{
    let v = to_chars(out);
    let poh = to_chars("Power On Hours");
    assert(v@.subrange(0, v.len() as int) =~= v@);
    if find_at(&v, 0, v.len(), &poh).is_none() {
        return None;
    }
    proof {
        assert(Seq::<char>::empty() =~= ""@) by {
            reveal_strlit("");
        }
    }
    let s = SmartInfo {
        power_on_hours: field_or_exec(out, "Power On Hours:", ""),
        power_cycles: field_or_exec(out, "Power Cycles:", ""),
        percentage_used: field_or_exec(out, "Percentage Used:", ""),
        available_spare: field_or_exec(out, "Available Spare:", ""),
        data_read: tb_field(out, "Data Units Read:"),
        data_written: tb_field(out, "Data Units Written:"),
        unsafe_shutdowns: field_or_exec(out, "Unsafe Shutdowns:", ""),
    };
    assert(smart_view(s) =~= smart_spec(out@).unwrap());
    Some(s)
}

/// The date of a reboot line, `v[a..b]`.
fn reboot_date_exec(v: &Vec<char>, a: usize, b: usize) -> (r: String)
    requires
        a <= b <= v.len(),
    ensures
        r@ == reboot_date(v@.subrange(a as int, b as int)),
{
    let (ta, tb) = trim_at(v, a, b);
    let ws = words_at(v, ta, tb);
    let ghost w = words(trim(v@.subrange(a as int, b as int)));
    assert(span_views(v@, ws@) == w);
    let mut shown: Vec<String> = Vec::new();
    let mut i: usize = 2;
    let end = if ws.len() < 2 {
        2
    } else if ws.len() - 2 <= 4 {
        ws.len()
    } else {
        6
    };
    let ghost rest = if w.len() >= 2 {
        w.skip(2)
    } else {
        Seq::<Seq<char>>::empty()
    };
    let ghost sh = if rest.len() <= 4 {
        rest
    } else {
        rest.take(4)
    };
    assert(sh.len() == end - 2);
    assert(views(shown@) =~= sh.take(0));
    while i < end
        invariant
            2 <= i <= end <= ws.len() || (i == end && end == 2),
            end - 2 == sh.len(),
            span_views(v@, ws@) == w,
            spans_within(ws@, ta as int, tb as int),
            tb <= v.len(),
            w.len() >= 2 ==> rest == w.skip(2),
            sh == (if rest.len() <= 4 {
                rest
            } else {
                rest.take(4)
            }),
            views(shown@) == sh.take(i - 2),
        decreases end - i,
    {
        let (x, y) = ws[i];
        assert(ws@[i as int] == (x, y));
        assert(sh[i - 2] == v@.subrange(x as int, y as int));
        let ghost old_s = shown@;
        shown.push(from_chars(v, x, y));
        assert(views(shown@) =~= sh.take(i - 1)) by {
            assert(views(shown@) =~= views(old_s).push(v@.subrange(x as int, y as int)));
        }
        i += 1;
    }
    assert(sh.take(end - 2) =~= sh);
    join_strings(&shown, " ")
}

/// How many reboots `last reboot` records, and the date of the latest.
pub fn reboot_history(last: &str) -> (r: Option<(usize, String)>)
    ensures
        match (r, reboot_spec(last@)) {
            (Some((n, d)), Some((sn, sd))) => n == sn && d@ == sd,
            (None, None) => true,
            _ => false,
        },
{
    let v = to_chars(last);
    let ls = lines_of(&v);
    let ghost all = lines(v@);
    let rt = to_chars("reboot time");
    let mut count: usize = 0;
    let mut first: Option<(usize, usize)> = None;
    let mut i: usize = 0;
    assert(all.take(0) =~= Seq::<Seq<char>>::empty());
    while i < ls.len()
        invariant
            i <= ls.len(),
            all == span_views(v@, ls@),
            all == lines(last@),
            spans_within(ls@, 0, v.len() as int),
            rt@ == "reboot time"@,
            count == reboot_lines(all.take(i as int)).len(),
            count <= i,
            count == 0 <==> first is None,
            first matches Some(sp) ==> sp.0 <= sp.1 <= v.len() && reboot_lines(
                all.take(i as int),
            )[0] == v@.subrange(sp.0 as int, sp.1 as int),
        decreases ls.len() - i,
    {
        let (a, b) = ls[i];
        assert(ls@[i as int] == (a, b));
        assert(all.take(i + 1).drop_last() =~= all.take(i as int));
        assert(all.take(i + 1).last() == v@.subrange(a as int, b as int));
        if find_at(&v, a, b, &rt).is_some() {
            if count == 0 {
                first = Some((a, b));
            }
            count += 1;
        }
        i += 1;
    }
    assert(all.take(ls.len() as int) =~= all);
    match first {
        Some((a, b)) => Some((count, reboot_date_exec(&v, a, b))),
        None => None,
    }
}

/// The readable boot time from `sysctl -n kern.boottime`.
pub fn boot_time(bt: &str) -> (r: Option<String>)
    ensures
        opt_view(r) == boot_time_spec(bt@),
{
    let v = to_chars(bt);
    assert(v@.subrange(0, v.len() as int) =~= v@);
    let ps = split_at(&v, 0, v.len(), &Sep::Char('}'));
    if ps.len() >= 2 {
        let (a, b) = ps[1];
        assert(ps@[1] == (a, b));
        let (x, y) = trim_at(&v, a, b);
        Some(from_chars(&v, x, y))
    } else {
        None
    }
}

/// How long the system has been up, from `uptime`.
pub fn uptime_since(up: &str) -> (r: Option<String>)
    ensures
        opt_view(r) == uptime_spec(up@),
{
    let v = to_chars(up);
    let n = v.len();
    assert(v@.subrange(0, n as int) =~= v@);
    let pat = to_chars("up ");
    let i = match find_at(&v, 0, n, &pat) {
        Some(i) => i,
        None => {
            return None;
        },
    };
    proof {
        lemma_find_from(v@, "up "@, 0);
    }
    let start = i + pat.len();
    assert(v@.skip(i + 3) =~= v@.subrange(start as int, n as int)) by {
        assert(pat@ == "up "@);
        assert(pat.len() == 3) by {
            reveal_strlit("up ");
        }
    }
    let end = match find_at(&v, start, n, &pat) {
        Some(j) => {
            proof {
                lemma_find_from(v@.subrange(start as int, n as int), "up "@, 0);
            }
            assert(v@.subrange(start as int, n as int).take(j as int) =~= v@.subrange(
                start as int,
                start + j,
            ));
            start + j
        },
        None => n,
    };
    let ps = split_at(&v, start, end, &Sep::Char(','));
    let ghost pv = split(v@.subrange(start as int, end as int), Sep::Char(','));
    let take = if ps.len() <= 2 {
        ps.len()
    } else {
        2
    };
    let mut parts: Vec<String> = Vec::new();
    let mut k: usize = 0;
    let ghost shown = if pv.len() <= 2 {
        pv
    } else {
        pv.take(2)
    };
    assert(views(parts@) =~= shown.take(0));
    while k < take
        invariant
            k <= take <= ps.len(),
            take == shown.len(),
            pv == span_views(v@, ps@),
            spans_within(ps@, start as int, end as int),
            end <= v.len(),
            shown == (if pv.len() <= 2 {
                pv
            } else {
                pv.take(2)
            }),
            views(parts@) == shown.take(k as int),
        decreases take - k,
    {
        let (a, b) = ps[k];
        assert(ps@[k as int] == (a, b));
        let ghost old_p = parts@;
        parts.push(from_chars(&v, a, b));
        assert(views(parts@) =~= shown.take(k + 1)) by {
            assert(views(parts@) =~= views(old_p).push(v@.subrange(a as int, b as int)));
        }
        k += 1;
    }
    assert(shown.take(take as int) =~= shown);
    let joined = join_strings(&parts, ",");
    let c = to_chars(joined.as_str());
    assert(c@.subrange(0, c.len() as int) =~= c@);
    let (x, y) = trim_at(&c, 0, c.len());
    Some(from_chars(&c, x, y))
}

/// The columns of the boot volume's line in `df -H /`, when there are at
/// least five.
pub fn df_columns(df: &str) -> (r: Option<Vec<String>>)
    ensures
        match r {
            Some(cols) => df_spec(df@) == Some(views(cols@)),
            None => df_spec(df@) is None,
        },
{
    let v = to_chars(df);
    let ls = lines_of(&v);
    let (a, b) = if ls.len() >= 2 {
        let (a, b) = ls[1];
        assert(ls@[1] == (a, b));
        (a, b)
    } else {
        (0, 0)
    };
    assert(v@.subrange(0, 0) =~= Seq::<char>::empty());
    let ws = words_at(&v, a, b);
    if ws.len() < 5 {
        return None;
    }
    let mut cols: Vec<String> = Vec::new();
    let mut k: usize = 0;
    let ghost w = span_views(v@, ws@);
    assert(views(cols@) =~= w.take(0));
    while k < ws.len()
        invariant
            k <= ws.len(),
            w == span_views(v@, ws@),
            spans_within(ws@, a as int, b as int),
            b <= v.len(),
            views(cols@) == w.take(k as int),
        decreases ws.len() - k,
    {
        let (x, y) = ws[k];
        assert(ws@[k as int] == (x, y));
        let ghost old_c = cols@;
        cols.push(from_chars(&v, x, y));
        assert(views(cols@) =~= w.take(k + 1)) by {
            assert(views(cols@) =~= views(old_c).push(v@.subrange(x as int, y as int)));
        }
        k += 1;
    }
    assert(w.take(ws.len() as int) =~= w);
    Some(cols)
}

/// The SMART lines for what `smart_info` found; `days` is the power-on
/// time in whole days.
pub fn smart_lines(info: &Option<SmartInfo>, days: u64) -> (out: Vec<String>)
    ensures
        views(out@) == smart_lines_spec(
            match info {
                Some(s) => Some(smart_view(*s)),
                None => None,
            },
            days,
        ),
{
    let mut out: Vec<String> = Vec::new();
    match info {
        Some(s) => {
            let mut l1 = String::new();
            l1.append("  Power on: ");
            l1.append(s.power_on_hours.as_str());
            l1.append(" hours (~");
            push_dec(&mut l1, days as u128);
            l1.append(" days) · Power cycles: ");
            l1.append(s.power_cycles.as_str());
            let mut l2 = String::new();
            l2.append("  Wear: ");
            l2.append(s.percentage_used.as_str());
            l2.append(" of rated life used · Spare capacity ");
            l2.append(s.available_spare.as_str());
            let mut l3 = String::new();
            l3.append("  Data moved: ");
            l3.append(s.data_read.as_str());
            l3.append(" read · ");
            l3.append(s.data_written.as_str());
            l3.append(" written · Unsafe shutdowns: ");
            l3.append(s.unsafe_shutdowns.as_str());
            out.push(l1);
            out.push(l2);
            out.push(l3);
        },
        None => {
            let mut l = String::new();
            l.append("  (Power-on hours & wear: install smartmontools — brew install smartmontools)");
            out.push(l);
        },
    }
    assert(views(out@) =~= smart_lines_spec(
        match info {
            Some(s) => Some(smart_view(*s)),
            None => None,
        },
        days,
    ));
    out
}

/// The reboot line from `last reboot`.
pub fn reboot_line(last: &str) -> (r: Option<String>)
    ensures
        opt_view(r) == reboot_line_spec(last@),
{
    match reboot_history(last) {
        Some((n, d)) => {
            let mut l = String::new();
            l.append("  Reboots: ");
            push_dec(&mut l, n as u128);
            l.append(" on record (last: ");
            l.append(d.as_str());
            l.append(")");
            Some(l)
        },
        None => None,
    }
}

/// The boot time line from `sysctl -n kern.boottime`.
pub fn boot_line(bt: &str) -> (r: Option<String>)
    ensures
        opt_view(r) == boot_line_spec(bt@),
{
    match boot_time(bt) {
        Some(t) => {
            let mut l = String::new();
            l.append("  Current boot: ");
            l.append(t.as_str());
            Some(l)
        },
        None => None,
    }
}

/// The uptime line from `uptime`.
pub fn uptime_line(up: &str) -> (r: Option<String>)
    ensures
        opt_view(r) == uptime_line_spec(up@),
{
    match uptime_since(up) {
        Some(t) => {
            let mut l = String::new();
            l.append("  Up for ");
            l.append(t.as_str());
            Some(l)
        },
        None => None,
    }
}

/// The boot volume's usage line from `df -H /`.
pub fn boot_volume_line(df: &str) -> (r: Option<String>)
    ensures
        opt_view(r) == boot_volume_line_spec(df@),
{
    match df_columns(df) {
        Some(c) => {
            let mut l = String::new();
            l.append("  Boot volume: ");
            l.append(c[2].as_str());
            l.append(" used of ");
            l.append(c[1].as_str());
            l.append(" — ");
            l.append(c[3].as_str());
            l.append(" free");
            Some(l)
        },
        None => None,
    }
}

} // verus!
