//! Ethernet: the wired hardware ports, which of them are up, their link
//! speed, and the default route.
use vstd::prelude::*;
use crate::text::{
    contains, ends_with, ends_with_at, eq_at, find_at, from_chars, lines, lines_of, opt_view,
    span_views, spans_within, starts_with, starts_with_at, strip_prefix, to_chars, trim, trim_at,
    trim_start_matches, trim_start_matches_at, views, join, join_strings,
};
use crate::number::{dec, push_dec};
use crate::fields::{field, field_spec};
use crate::wifi::{ethernet_ip, first_trimmed, inet_in};
use crate::report::Report;

verus! {

// ------------------------------------------------------------------ spec

/// Reading system_profiler's Ethernet report for `dev`: a `BSD Device
/// Name:` line opens (or closes) the device's block; inside it the first
/// `Maximum Link Speed:` line answers; a 4-space-indented heading ends it.
pub open spec fn link_speed_scan(ls: Seq<Seq<char>>, dev: Seq<char>, in_block: bool) -> Option<
    Seq<char>,
>
    decreases ls.len(),
{
    if ls.len() == 0 {
        None
    } else {
        let l = ls[0];
        let t = trim(l);
        if starts_with(t, "BSD Device Name:"@) {
            link_speed_scan(
                ls.drop_first(),
                dev,
                trim(trim_start_matches(t, "BSD Device Name:"@)) == dev,
            )
        } else if in_block {
            match strip_prefix(t, "Maximum Link Speed:"@) {
                Some(v) => Some(trim(v)),
                None => if starts_with(l, "    "@) && !starts_with(l, "      "@) && ends_with(
                    t,
                    seq![':'],
                ) {
                    link_speed_scan(ls.drop_first(), dev, false)
                } else {
                    link_speed_scan(ls.drop_first(), dev, true)
                },
            }
        } else {
            link_speed_scan(ls.drop_first(), dev, false)
        }
    }
}

pub open spec fn link_speed_spec(prof: Seq<char>, dev: Seq<char>) -> Option<Seq<char>> {
    link_speed_scan(lines(prof), dev, false)
}

/// The (port name, device) pairs of the port list that are not Wi-Fi.
pub open spec fn ports_scan(
    ls: Seq<Seq<char>>,
    name: Seq<char>,
    acc: Seq<(Seq<char>, Seq<char>)>,
) -> Seq<(Seq<char>, Seq<char>)>
    decreases ls.len(),
{
    if ls.len() == 0 {
        acc
    } else {
        let t = trim(ls[0]);
        if starts_with(t, "Hardware Port:"@) {
            ports_scan(ls.drop_first(), trim_start_matches(t, "Hardware Port: "@), acc)
        } else if starts_with(t, "Device: "@) {
            let d = trim_start_matches(t, "Device: "@);
            if !contains(name, "Wi-Fi"@) {
                ports_scan(ls.drop_first(), name, acc.push((name, d)))
            } else {
                ports_scan(ls.drop_first(), name, acc)
            }
        } else {
            ports_scan(ls.drop_first(), name, acc)
        }
    }
}

pub open spec fn ethernet_ports_spec(ports: Seq<char>) -> Seq<(Seq<char>, Seq<char>)> {
    ports_scan(lines(ports), Seq::empty(), Seq::empty())
}

pub open spec fn pairs_view(v: Seq<(String, String)>) -> Seq<(Seq<char>, Seq<char>)> {
    Seq::new(v.len(), |i: int| (v[i].0@, v[i].1@))
}

/// ifconfig reports the interface as active.
pub open spec fn is_active(ifc: Seq<char>) -> bool {
    first_trimmed(lines(ifc), "status: active"@, 0) is Some
}

/// `"  {name} ({dev}) — active, IP {ip}{, up to speed}"`
pub open spec fn active_line(
    name: Seq<char>,
    dev: Seq<char>,
    ifc: Seq<char>,
    prof: Seq<char>,
) -> Seq<char> {
    let ip = match inet_in(lines(ifc), true) {
        Some(a) => a,
        None => "n/a"@,
    };
    let speed = match link_speed_spec(prof, dev) {
        Some(s) => s,
        None => Seq::empty(),
    };
    "  "@ + name + " ("@ + dev + ") — active, IP "@ + ip + (if speed.len() == 0 {
        Seq::empty()
    } else {
        ", up to "@ + speed
    })
}

/// The lines of the ports that are up, in order.
pub open spec fn active_lines(
    devs: Seq<(Seq<char>, Seq<char>)>,
    ifcs: Seq<Seq<char>>,
    prof: Seq<char>,
) -> Seq<Seq<char>>
    decreases devs.len(),
{
    if devs.len() == 0 {
        Seq::empty()
    } else {
        let k = devs.len() - 1;
        let prev = active_lines(devs.drop_last(), ifcs, prof);
        if is_active(ifcs[k]) {
            prev.push(active_line(devs[k].0, devs[k].1, ifcs[k], prof))
        } else {
            prev
        }
    }
}

/// The devices of the ports that are down, in order.
pub open spec fn down_devices(devs: Seq<(Seq<char>, Seq<char>)>, ifcs: Seq<Seq<char>>) -> Seq<
    Seq<char>,
>
    decreases devs.len(),
{
    if devs.len() == 0 {
        Seq::empty()
    } else {
        let k = devs.len() - 1;
        let prev = down_devices(devs.drop_last(), ifcs);
        if is_active(ifcs[k]) {
            prev
        } else {
            prev.push(devs[k].1)
        }
    }
}

/// Some port is up.
pub open spec fn any_active(n: int, ifcs: Seq<Seq<char>>) -> bool {
    exists|k: int| 0 <= k < n && is_active(#[trigger] ifcs[k])
}

/// The default route's line, when route printed a gateway.
pub open spec fn route_lines(route: Option<Seq<char>>) -> Seq<Seq<char>> {
    match route {
        Some(rt) => match field_spec(rt, "gateway"@) {
            Some(gw) => seq![
                "  Internet goes out via "@ + gw + " ("@ + (match field_spec(rt, "interface"@) {
                    Some(i) => i,
                    None => Seq::empty(),
                }) + ")"@,
            ],
            None => Seq::empty(),
        },
        None => Seq::empty(),
    }
}

/// The Ethernet section's lines.
pub open spec fn ethernet_lines(
    devs: Seq<(Seq<char>, Seq<char>)>,
    ifcs: Seq<Seq<char>>,
    prof: Seq<char>,
    route: Option<Seq<char>>,
    was_active: bool,
) -> Seq<Seq<char>> {
    if devs.len() == 0 {
        seq!["  No Ethernet hardware ports found"@]
    } else {
        let down = down_devices(devs, ifcs);
        active_lines(devs, ifcs, prof) + (if !(was_active || any_active(devs.len() as int, ifcs)) {
            seq!["  No active Ethernet connections"@] + (if down.len() > 0 {
                seq!["  "@ + dec(down.len()) + " ports available but down: "@ + join(down, ", "@)]
            } else {
                Seq::empty()
            })
        } else {
            Seq::empty()
        }) + route_lines(route)
    }
}

/// Law: every port is shown once, as up (with its line) or as down; and
/// some port is up exactly when some port's line is shown.
pub proof fn lemma_ports_partitioned(
    devs: Seq<(Seq<char>, Seq<char>)>,
    ifcs: Seq<Seq<char>>,
    prof: Seq<char>,
)
    requires
        devs.len() <= ifcs.len(),
    ensures
        active_lines(devs, ifcs, prof).len() + down_devices(devs, ifcs).len() == devs.len(),
        any_active(devs.len() as int, ifcs) <==> active_lines(devs, ifcs, prof).len() > 0,
    decreases devs.len(),
{
    if devs.len() > 0 {
        let k = devs.len() - 1;
        lemma_ports_partitioned(devs.drop_last(), ifcs, prof);
        if is_active(ifcs[k]) {
            assert(any_active(devs.len() as int, ifcs));
        } else {
            if any_active(devs.len() as int, ifcs) {
                let j = choose|j: int| 0 <= j < devs.len() && is_active(#[trigger] ifcs[j]);
                assert(j != k);
                assert(any_active(devs.drop_last().len() as int, ifcs));
            }
        }
    }
}

/// How many of the first `n` ports are up.
pub open spec fn count_active(ifcs: Seq<Seq<char>>, n: int) -> nat
    decreases n,
{
    if n <= 0 {
        0
    } else {
        count_active(ifcs, n - 1) + (if is_active(ifcs[n - 1]) {
            1nat
        } else {
            0nat
        })
    }
}

/// Law: the lines of the ports that are up come in the ports' order, one
/// per such port, each naming that port and its device: the port at index
/// `k` that is up has the line at index (number of ports up before `k`).
/// Likewise the ports that are down are listed in order by their device.
pub proof fn lemma_active_lines_positions(
    devs: Seq<(Seq<char>, Seq<char>)>,
    ifcs: Seq<Seq<char>>,
    prof: Seq<char>,
)
    requires
        devs.len() <= ifcs.len(),
    ensures
        active_lines(devs, ifcs, prof).len() == count_active(ifcs, devs.len() as int),
        down_devices(devs, ifcs).len() == devs.len() - count_active(ifcs, devs.len() as int),
        forall|k: int|
            0 <= k < devs.len() && is_active(ifcs[k]) ==> #[trigger] active_lines(
                devs,
                ifcs,
                prof,
            )[count_active(ifcs, k) as int] == active_line(devs[k].0, devs[k].1, ifcs[k], prof),
        forall|k: int|
            0 <= k < devs.len() && !is_active(ifcs[k]) ==> #[trigger] down_devices(devs, ifcs)[k
                - count_active(ifcs, k)] == devs[k].1,
    decreases devs.len(),
{
    if devs.len() > 0 {
        let n = devs.len() - 1;
        let pre = devs.drop_last();
        lemma_active_lines_positions(pre, ifcs, prof);
        lemma_count_active_le(ifcs, n);
        assert forall|k: int|
            0 <= k < devs.len() && is_active(ifcs[k]) implies #[trigger] active_lines(
            devs,
            ifcs,
            prof,
        )[count_active(ifcs, k) as int] == active_line(devs[k].0, devs[k].1, ifcs[k], prof) by {
            if k < n {
                assert(pre[k] == devs[k]);
                lemma_count_active_le(ifcs, k);
                lemma_count_active_mono(ifcs, k + 1, n);
                assert(active_lines(pre, ifcs, prof)[count_active(ifcs, k) as int]
                    == active_line(pre[k].0, pre[k].1, ifcs[k], prof));
            }
        }
        assert forall|k: int|
            0 <= k < devs.len() && !is_active(ifcs[k]) implies #[trigger] down_devices(devs, ifcs)[k
            - count_active(ifcs, k)] == devs[k].1 by {
            if k < n {
                assert(pre[k] == devs[k]);
                lemma_count_active_le(ifcs, k);
                lemma_count_active_mono(ifcs, k + 1, n);
                assert(down_devices(pre, ifcs)[k - count_active(ifcs, k)] == pre[k].1);
            }
        }
    }
}

proof fn lemma_count_active_le(ifcs: Seq<Seq<char>>, n: int)
    requires
        0 <= n,
    ensures
        count_active(ifcs, n) <= n,
    decreases n,
{
    if n > 0 {
        lemma_count_active_le(ifcs, n - 1);
    }
}

proof fn lemma_count_active_mono(ifcs: Seq<Seq<char>>, a: int, b: int)
    requires
        0 <= a <= b,
    ensures
        count_active(ifcs, a) <= count_active(ifcs, b),
        b - count_active(ifcs, b) >= a - count_active(ifcs, a),
    decreases b - a,
{
    if a < b {
        lemma_count_active_mono(ifcs, a, b - 1);
    }
}

/// Law: a port's line starts with its own name and device.
pub proof fn lemma_active_line_names_port(
    name: Seq<char>,
    dev: Seq<char>,
    ifc: Seq<char>,
    prof: Seq<char>,
)
    ensures
        ({
            let head = "  "@ + name + " ("@ + dev + ") — active, IP "@;
            starts_with(active_line(name, dev, ifc, prof), head)
        }),
{
    let head = "  "@ + name + " ("@ + dev + ") — active, IP "@;
    let l = active_line(name, dev, ifc, prof);
    assert(l.subrange(0, head.len() as int) =~= head);
}

/// Law: the Ethernet section begins with the lines of the ports that are
/// up, in the ports' order.
pub proof fn lemma_ethernet_lines_name_ports(
    devs: Seq<(Seq<char>, Seq<char>)>,
    ifcs: Seq<Seq<char>>,
    prof: Seq<char>,
    route: Option<Seq<char>>,
    was_active: bool,
)
    requires
        devs.len() <= ifcs.len(),
        devs.len() > 0,
    ensures
        forall|k: int|
            0 <= k < devs.len() && is_active(ifcs[k]) ==> #[trigger] ethernet_lines(
                devs,
                ifcs,
                prof,
                route,
                was_active,
            )[count_active(ifcs, k) as int] == active_line(devs[k].0, devs[k].1, ifcs[k], prof),
{
    lemma_active_lines_positions(devs, ifcs, prof);
    assert forall|k: int| 0 <= k < devs.len() && is_active(ifcs[k]) implies #[trigger] ethernet_lines(
        devs,
        ifcs,
        prof,
        route,
        was_active,
    )[count_active(ifcs, k) as int] == active_line(devs[k].0, devs[k].1, ifcs[k], prof) by {
        lemma_count_active_mono(ifcs, k + 1, devs.len() as int);
        assert(active_lines(devs, ifcs, prof)[count_active(ifcs, k) as int] == active_line(
            devs[k].0,
            devs[k].1,
            ifcs[k],
            prof,
        ));
    }
}

proof fn lemma_down_all(devs: Seq<(Seq<char>, Seq<char>)>, ifcs: Seq<Seq<char>>)
    requires
        devs.len() <= ifcs.len(),
        !any_active(devs.len() as int, ifcs),
    ensures
        down_devices(devs, ifcs) =~= Seq::new(devs.len(), |k: int| devs[k].1),
    decreases devs.len(),
{
    if devs.len() > 0 {
        let k = devs.len() - 1;
        if any_active(k, ifcs) {
            let j = choose|j: int| 0 <= j < k && is_active(#[trigger] ifcs[j]);
            assert(any_active(devs.len() as int, ifcs));
        }
        assert(!is_active(ifcs[k]));
        lemma_down_all(devs.drop_last(), ifcs);
    }
}

/// Law: when no port is up, and none was before, the section says so and
/// then lists every port's device as down, in the ports' order, with their
/// number; the default route's line comes last.
pub proof fn lemma_ethernet_all_down(
    devs: Seq<(Seq<char>, Seq<char>)>,
    ifcs: Seq<Seq<char>>,
    prof: Seq<char>,
    route: Option<Seq<char>>,
)
    requires
        devs.len() <= ifcs.len(),
        devs.len() > 0,
        !any_active(devs.len() as int, ifcs),
    ensures
        ethernet_lines(devs, ifcs, prof, route, false) == seq![
            "  No active Ethernet connections"@,
            "  "@ + dec(devs.len()) + " ports available but down: "@ + join(
                Seq::new(devs.len(), |k: int| devs[k].1),
                ", "@,
            ),
        ] + route_lines(route),
{
    lemma_ports_partitioned(devs, ifcs, prof);
    lemma_down_all(devs, ifcs);
    let down = down_devices(devs, ifcs);
    assert(active_lines(devs, ifcs, prof) =~= Seq::<Seq<char>>::empty());
    assert(down.len() == devs.len());
    assert(ethernet_lines(devs, ifcs, prof, route, false) =~= seq![
        "  No active Ethernet connections"@,
        "  "@ + dec(down.len()) + " ports available but down: "@ + join(down, ", "@),
    ] + route_lines(route));
}

/// Law: when some port is up, or one was before, the section is the lines
/// of the ports that are up followed by the default route's line: no port
/// is listed as down.
pub proof fn lemma_ethernet_some_up(
    devs: Seq<(Seq<char>, Seq<char>)>,
    ifcs: Seq<Seq<char>>,
    prof: Seq<char>,
    route: Option<Seq<char>>,
    was_active: bool,
)
    requires
        devs.len() > 0,
        was_active || any_active(devs.len() as int, ifcs),
    ensures
        ethernet_lines(devs, ifcs, prof, route, was_active) == active_lines(devs, ifcs, prof)
            + route_lines(route),
{
    assert(ethernet_lines(devs, ifcs, prof, route, was_active) =~= active_lines(devs, ifcs, prof)
        + route_lines(route));
}

// ------------------------------------------------------------------ exec

/// "Maximum Link Speed" from the SPEthernetDataType block whose
/// "BSD Device Name" matches `dev`.
pub fn max_link_speed(prof: &str, dev: &str) -> (r: Option<String>)
    ensures
        opt_view(r) == link_speed_spec(prof@, dev@),
{
    let v = to_chars(prof);
    let d = to_chars(dev);
    let ls = lines_of(&v);
    let ghost all = lines(v@);
    let bsd = to_chars("BSD Device Name:");
    let mls = to_chars("Maximum Link Speed:");
    let four = to_chars("    ");
    let six = to_chars("      ");
    let colon = vec![':'];
    assert(colon@ =~= seq![':']);
    let mut in_block = false;
    let mut i: usize = 0;
    assert(all.skip(0) =~= all);
    while i < ls.len()
        invariant
            i <= ls.len(),
            all == span_views(v@, ls@),
            all == lines(prof@),
            d@ == dev@,
            spans_within(ls@, 0, v.len() as int),
            bsd@ == "BSD Device Name:"@,
            mls@ == "Maximum Link Speed:"@,
            four@ == "    "@,
            six@ == "      "@,
            colon@ == seq![':'],
            link_speed_scan(all, dev@, false) == link_speed_scan(
                all.skip(i as int),
                dev@,
                in_block,
            ),
        decreases ls.len() - i,
    {
        let (a, b) = ls[i];
        assert(ls@[i as int] == (a, b));
        assert(all.skip(i as int)[0] == v@.subrange(a as int, b as int));
        assert(all.skip(i as int).drop_first() =~= all.skip(i + 1));
        let (ta, tb) = trim_at(&v, a, b);
        if starts_with_at(&v, ta, tb, &bsd) {
            let c = trim_start_matches_at(&v, ta, tb, &bsd);
            let (xa, xb) = trim_at(&v, c, tb);
            in_block = eq_at(&v, xa, xb, &d);
        } else if in_block {
            if starts_with_at(&v, ta, tb, &mls) {
                assert(v@.subrange(ta as int, tb as int).skip(mls.len() as int) =~= v@.subrange(
                    ta + mls.len(),
                    tb as int,
                ));
                let (xa, xb) = trim_at(&v, ta + mls.len(), tb);
                return Some(from_chars(&v, xa, xb));
            }
            if starts_with_at(&v, a, b, &four) && !starts_with_at(&v, a, b, &six) && ends_with_at(
                &v,
                ta,
                tb,
                &colon,
            ) {
                in_block = false;
            }
        }
        i += 1;
    }
    None
}

/// The hardware ports that are not Wi-Fi, as (port name, device).
pub fn ethernet_ports(ports: &str) -> (r: Vec<(String, String)>)
    ensures
        pairs_view(r@) == ethernet_ports_spec(ports@),
{
    let v = to_chars(ports);
    let ls = lines_of(&v);
    let ghost all = lines(v@);
    let hp = to_chars("Hardware Port:");
    let hp_sp = to_chars("Hardware Port: ");
    let dv = to_chars("Device: ");
    let wf = to_chars("Wi-Fi");
    let mut name: (usize, usize) = (0, 0);
    let mut out: Vec<(String, String)> = Vec::new();
    let mut i: usize = 0;
    assert(all.skip(0) =~= all);
    assert(v@.subrange(0, 0) =~= Seq::<char>::empty());
    assert(pairs_view(out@) =~= Seq::<(Seq<char>, Seq<char>)>::empty());
    while i < ls.len()
        invariant
            i <= ls.len(),
            all == span_views(v@, ls@),
            all == lines(ports@),
            spans_within(ls@, 0, v.len() as int),
            name.0 <= name.1 <= v.len(),
            hp@ == "Hardware Port:"@,
            hp_sp@ == "Hardware Port: "@,
            dv@ == "Device: "@,
            wf@ == "Wi-Fi"@,
            ethernet_ports_spec(ports@) == ports_scan(
                all.skip(i as int),
                v@.subrange(name.0 as int, name.1 as int),
                pairs_view(out@),
            ),
        decreases ls.len() - i,
    {
        let (a, b) = ls[i];
        assert(ls@[i as int] == (a, b));
        assert(all.skip(i as int)[0] == v@.subrange(a as int, b as int));
        assert(all.skip(i as int).drop_first() =~= all.skip(i + 1));
        let (ta, tb) = trim_at(&v, a, b);
        if starts_with_at(&v, ta, tb, &hp) {
            let c = trim_start_matches_at(&v, ta, tb, &hp_sp);
            name = (c, tb);
        } else if starts_with_at(&v, ta, tb, &dv) {
            let c = trim_start_matches_at(&v, ta, tb, &dv);
            if find_at(&v, name.0, name.1, &wf).is_none() {
                let ghost old_out = out@;
                out.push((from_chars(&v, name.0, name.1), from_chars(&v, c, tb)));
                assert(pairs_view(out@) =~= pairs_view(old_out).push(
                    (v@.subrange(name.0 as int, name.1 as int), v@.subrange(c as int, tb as int)),
                ));
            }
        }
        i += 1;
    }
    out
}

/// Whether ifconfig shows the interface as `status: active`.
pub fn interface_active(ifc: &str) -> (r: bool)
    ensures
        r == is_active(ifc@),
{
    let v = to_chars(ifc);
    let ls = lines_of(&v);
    let ghost all = lines(v@);
    let st = to_chars("status: active");
    let mut k: usize = 0;
    while k < ls.len()
        invariant
            k <= ls.len(),
            all == span_views(v@, ls@),
            all == lines(ifc@),
            st@ == "status: active"@,
            spans_within(ls@, 0, v.len() as int),
            first_trimmed(all, st@, 0) == first_trimmed(all, st@, k as nat),
        decreases ls.len() - k,
    {
        let (a, b) = ls[k];
        assert(ls@[k as int] == (a, b));
        let (ta, tb) = trim_at(&v, a, b);
        if eq_at(&v, ta, tb, &st) {
            return true;
        }
        k += 1;
    }
    false
}

/// The line of a port that is up.
fn active_line_exec(name: &str, dev: &str, ifc: &str, prof: &str) -> (s: String)
    ensures
        s@ == active_line(name@, dev@, ifc@, prof@),
{
    let mut s = String::new();
    s.append("  ");
    s.append(name);
    s.append(" (");
    s.append(dev);
    s.append(") — active, IP ");
    match ethernet_ip(ifc) {
        Some(ip) => s.append(ip.as_str()),
        None => s.append("n/a"),
    }
    match max_link_speed(prof, dev) {
        Some(speed) => {
            if speed.as_str().is_empty() {
                assert(s@ =~= s@ + Seq::<char>::empty());
            } else {
                s.append(", up to ");
                s.append(speed.as_str());
            }
        },
        None => {
            assert(s@ =~= s@ + Seq::<char>::empty());
        },
    }
    s
}

/// The route line, when `route -n get default` named a gateway.
fn route_lines_exec(route: &Option<String>) -> (out: Vec<String>)
    ensures
        views(out@) == route_lines(opt_view(*route)),
{
    let mut out: Vec<String> = Vec::new();
    match route {
        Some(rt) => {
            match field(rt.as_str(), "gateway") {
                Some(gw) => {
                    let mut s = String::new();
                    s.append("  Internet goes out via ");
                    s.append(gw.as_str());
                    s.append(" (");
                    let iface = match field(rt.as_str(), "interface") {
                        Some(i) => i,
                        None => String::new(),
                    };
                    s.append(iface.as_str());
                    s.append(")");
                    out.push(s);
                },
                None => {},
            }
        },
        None => {},
    }
    assert(views(out@) =~= route_lines(opt_view(*route)));
    out
}

/// The Ethernet section: each port that is up with its address and link
/// speed; when none is, the ports that are down; then the default route.
/// `ifconfigs[i]` is ifconfig's report for `devices[i]`.
pub fn ethernet(
    devices: &Vec<(String, String)>,
    ifconfigs: &Vec<String>,
    prof: &str,
    route: &Option<String>,
    r: &mut Report,
) -> (out: Vec<String>)
    requires
        ifconfigs.len() == devices.len(),
    ensures
        views(out@) == ethernet_lines(
            pairs_view(devices@),
            views(ifconfigs@),
            prof@,
            opt_view(*route),
            old(r).eth_active,
        ),
        final(r).eth_active == (old(r).eth_active || any_active(
            devices.len() as int,
            views(ifconfigs@),
        )),
        final(r).warnings@ == old(r).warnings@,
        final(r).wifi_connected == old(r).wifi_connected,
{
    let ghost devs = pairs_view(devices@);
    let ghost ifcs = views(ifconfigs@);
    let mut out: Vec<String> = Vec::new();
    if devices.len() == 0 {
        let mut s = String::new();
        s.append("  No Ethernet hardware ports found");
        out.push(s);
        assert(views(out@) =~= ethernet_lines(devs, ifcs, prof@, opt_view(*route), old(r).eth_active));
        return out;
    }
    let ghost was = r.eth_active;
    let mut down: Vec<String> = Vec::new();
    let mut i: usize = 0;
    assert(devs.take(0) =~= Seq::<(Seq<char>, Seq<char>)>::empty());
    assert(views(out@) =~= Seq::<Seq<char>>::empty());
    assert(views(down@) =~= Seq::<Seq<char>>::empty());
    while i < devices.len()
        invariant
            i <= devices.len() == ifconfigs.len(),
            devs == pairs_view(devices@),
            ifcs == views(ifconfigs@),
            views(out@) == active_lines(devs.take(i as int), ifcs, prof@),
            views(down@) == down_devices(devs.take(i as int), ifcs),
            r.eth_active == (was || any_active(i as int, ifcs)),
            r.warnings@ == old(r).warnings@,
            r.wifi_connected == old(r).wifi_connected,
            was == old(r).eth_active,
        decreases devices.len() - i,
    {
        let ghost cur = devs.take(i + 1);
        assert(cur.drop_last() =~= devs.take(i as int));
        assert(cur.len() - 1 == i);
        assert(cur[i as int] == devs[i as int]);
        let name = devices[i].0.as_str();
        let dev = devices[i].1.as_str();
        let ifc = ifconfigs[i].as_str();
        assert(ifcs[i as int] == ifc@);
        if interface_active(ifc) {
            r.eth_active = true;
            let line = active_line_exec(name, dev, ifc, prof);
            let ghost old_out = out@;
            out.push(line);
            assert(views(out@) =~= views(old_out).push(line@));
            assert(any_active(i + 1, ifcs));
        } else {
            let ghost old_down = down@;
            down.push(devices[i].1.clone());
            assert(views(down@) =~= views(old_down).push(dev@));
            assert(any_active(i + 1, ifcs) == any_active(i as int, ifcs));
        }
        i += 1;
    }
    assert(devs.take(devices.len() as int) =~= devs);
    let ghost act = views(out@);
    let ghost mid_start = out@.len();
    if !r.eth_active {
        let mut s = String::new();
        s.append("  No active Ethernet connections");
        out.push(s);
        if down.len() > 0 {
            let mut d = String::new();
            d.append("  ");
            push_dec(&mut d, down.len() as u128);
            d.append(" ports available but down: ");
            let joined = join_strings(&down, ", ");
            d.append(joined.as_str());
            out.push(d);
        }
    }
    let ghost before_route = views(out@);
    assert(before_route =~= act + (if !(was || any_active(devices.len() as int, ifcs)) {
        seq!["  No active Ethernet connections"@] + (if down_devices(devs, ifcs).len() > 0 {
            seq![
                "  "@ + dec(down_devices(devs, ifcs).len()) + " ports available but down: "@
                    + join(down_devices(devs, ifcs), ", "@),
            ]
        } else {
            Seq::empty()
        })
    } else {
        Seq::empty()
    }));
    let rl = route_lines_exec(route);
    let mut j: usize = 0;
    while j < rl.len()
        invariant
            j <= rl.len(),
            views(out@) == before_route + views(rl@).take(j as int),
        decreases rl.len() - j,
    {
        let ghost old_out = out@;
        out.push(rl[j].clone());
        assert(views(out@) =~= views(old_out).push(rl@[j as int]@));
        assert(views(rl@).take(j + 1) =~= views(rl@).take(j as int).push(rl@[j as int]@));
        assert(views(out@) =~= before_route + views(rl@).take(j + 1));
        j += 1;
    }
    assert(views(rl@).take(rl.len() as int) =~= views(rl@));
    assert(views(out@) =~= ethernet_lines(devs, ifcs, prof@, opt_view(*route), was));
    out
}

} // verus!
