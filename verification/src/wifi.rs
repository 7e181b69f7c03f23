//! Wi-Fi: the interface, the current network's details, its signal, and
//! the section's lines.
use vstd::prelude::*;
use crate::text::{
    contains, find, eq_at, find_at, from_chars, lemma_find_from, lines, lines_of, opt_view,
    span_views, spans_within, split_once, starts_with, starts_with_at, strip_prefix, to_chars,
    trim, trim_at, trim_end_matches, trim_end_matches_at, trim_start_matches,
    trim_start_matches_at, views, words, words_at,
};
use crate::number::{dec_int, parse_i32, parse_i32_at, push_dec_i32};
use crate::report::Report;

verus! {

// ------------------------------------------------------------------ spec

/// The word for a signal strength in dBm.
pub open spec fn signal_word(dbm: int) -> Seq<char> {
    if dbm >= -50 {
        "excellent"@
    } else if dbm >= -60 {
        "strong"@
    } else if dbm >= -70 {
        "fair"@
    } else if dbm >= -80 {
        "weak"@
    } else {
        "very weak"@
    }
}

/// The Wi-Fi generation named by a PHY mode such as `802.11ax`.
pub open spec fn generation_name(phy: Seq<char>) -> Seq<char> {
    if contains(phy, "ax"@) {
        "Wi-Fi 6"@
    } else if contains(phy, "ac"@) {
        "Wi-Fi 5"@
    } else if contains(phy, "n"@) {
        "Wi-Fi 4"@
    } else if contains(phy, "g"@) {
        "Wi-Fi 3"@
    } else if contains(phy, "b"@) {
        "Wi-Fi 2"@
    } else {
        "802.11"@
    }
}

/// PHY mode, channel, security and signal, as the network block gives them.
pub type WifiFields = (Seq<char>, Seq<char>, Seq<char>, i32);

/// A line that ends the current network's block.
pub open spec fn ends_network_block(t: Seq<char>) -> bool {
    starts_with(t, "Other Local"@) || starts_with(t, "Interfaces:"@) || starts_with(
        t,
        "Wi-Fi:"@,
    )
}

/// The signal in `"-55 dBm / -90 dBm"`: its first word as an `i32`, else 0.
pub open spec fn signal_of(v: Seq<char>) -> i32 {
    if words(v).len() > 0 {
        match parse_i32(words(v)[0]) {
            Some(x) => x,
            None => 0,
        }
    } else {
        0
    }
}

/// One `key: value` line of the network block applied to the fields.
pub open spec fn wifi_update(acc: WifiFields, t: Seq<char>) -> WifiFields {
    match split_once(t, ':') {
        Some((k, v)) => {
            let key = trim(k);
            if key == "PHY Mode"@ {
                (trim(v), acc.1, acc.2, acc.3)
            } else if key == "Channel"@ {
                (acc.0, trim(v), acc.2, acc.3)
            } else if key == "Security"@ {
                (acc.0, acc.1, trim(v), acc.3)
            } else if key == "Signal / Noise"@ {
                (acc.0, acc.1, acc.2, signal_of(v))
            } else {
                acc
            }
        },
        None => acc,
    }
}

/// The fields after reading `ls` up to the end of the block.
pub open spec fn wifi_scan(ls: Seq<Seq<char>>, acc: WifiFields) -> WifiFields
    decreases ls.len(),
{
    if ls.len() == 0 {
        acc
    } else {
        let t = trim(ls[0]);
        if t.len() == 0 {
            wifi_scan(ls.drop_first(), acc)
        } else if ends_network_block(t) {
            acc
        } else {
            wifi_scan(ls.drop_first(), wifi_update(acc, t))
        }
    }
}

/// Index of the first of `ls` from `i` on that trims to `t`.
pub open spec fn first_trimmed(ls: Seq<Seq<char>>, t: Seq<char>, i: nat) -> Option<nat>
    decreases ls.len() + 1 - i,
{
    if i >= ls.len() {
        None
    } else if trim(ls[i as int]) == t {
        Some(i)
    } else {
        first_trimmed(ls, t, i + 1)
    }
}

/// The current network from system_profiler's Wi-Fi report: the name on
/// the line after "Current Network Information:", then the block's fields.
pub open spec fn wifi_details_spec(prof: Seq<char>) -> Option<
    (Seq<char>, Seq<char>, Seq<char>, Seq<char>, i32),
> {
    let ls = lines(prof);
    match first_trimmed(ls, "Current Network Information:"@, 0) {
        Some(k) => if k + 1 < ls.len() {
            let ssid = trim_end_matches(trim(ls[k + 1int]), seq![':']);
            let f = wifi_scan(ls.skip(k + 2int), (Seq::empty(), Seq::empty(), Seq::empty(), 0));
            Some((ssid, f.0, f.1, f.2, f.3))
        } else {
            None
        },
        None => None,
    }
}

/// The contents of a network's details.
pub open spec fn details_view(d: Option<(String, String, String, String, i32)>) -> Option<
    (Seq<char>, Seq<char>, Seq<char>, Seq<char>, i32),
> {
    match d {
        Some((a, b, c, e, x)) => Some((a@, b@, c@, e@, x)),
        None => None,
    }
}

/// Which hardware port is Wi-Fi: the `Device:` line after a
/// `Hardware Port:` line that names Wi-Fi.
pub open spec fn port_scan(ls: Seq<Seq<char>>, want: bool) -> Option<Seq<char>>
    decreases ls.len(),
{
    if ls.len() == 0 {
        None
    } else {
        let t = trim(ls[0]);
        if starts_with(t, "Hardware Port:"@) {
            port_scan(ls.drop_first(), contains(t, "Wi-Fi"@))
        } else if want && starts_with(t, "Device: "@) {
            Some(trim_start_matches(t, "Device: "@))
        } else {
            port_scan(ls.drop_first(), want)
        }
    }
}

/// The Wi-Fi interface named in `networksetup -listallhardwareports`,
/// `en0` when none is.
pub open spec fn wifi_interface_spec(ports: Seq<char>) -> Seq<char> {
    match port_scan(lines(ports), false) {
        Some(d) => if d.len() > 0 {
            d
        } else {
            "en0"@
        },
        None => "en0"@,
    }
}

/// The address of an `inet ` line; `keep_bare` keeps a line with no word
/// after `inet ` (as the empty address) instead of looking further.
pub open spec fn inet_in(ls: Seq<Seq<char>>, keep_bare: bool) -> Option<Seq<char>>
    decreases ls.len(),
{
    if ls.len() == 0 {
        None
    } else {
        match strip_prefix(trim(ls[0]), "inet "@) {
            Some(rest) => if words(rest).len() > 0 {
                Some(words(rest)[0])
            } else if keep_bare {
                Some(Seq::empty())
            } else {
                inet_in(ls.drop_first(), keep_bare)
            },
            None => inet_in(ls.drop_first(), keep_bare),
        }
    }
}

pub open spec fn connected_line(ssid: Seq<char>, iface: Seq<char>) -> Seq<char> {
    "  Connected to \""@ + ssid + "\" on "@ + iface
}

pub open spec fn mode_line(phy: Seq<char>, chan: Seq<char>, sec: Seq<char>) -> Seq<char> {
    "  "@ + generation_name(phy) + " ("@ + phy + ") · "@ + chan + " · "@ + sec
}

pub open spec fn signal_line(sig: i32, ip: Seq<char>) -> Seq<char> {
    "  Signal: "@ + signal_word(sig as int) + " ("@ + dec_int(sig as int) + " dBm) · IP "@ + (if ip.len()
        == 0 {
        "n/a"@
    } else {
        ip
    })
}

pub open spec fn weak_signal_warning(sig: i32) -> Seq<char> {
    "Wi-Fi signal is "@ + signal_word(sig as int) + " ("@ + dec_int(sig as int) + " dBm)"@
}

/// The Wi-Fi section's lines.
pub open spec fn wifi_lines(
    iface: Seq<char>,
    d: Option<(Seq<char>, Seq<char>, Seq<char>, Seq<char>, i32)>,
    ip: Seq<char>,
) -> Seq<Seq<char>> {
    match d {
        Some((ssid, phy, chan, sec, sig)) => seq![
            connected_line(ssid, iface),
            mode_line(phy, chan, sec),
            signal_line(sig, ip),
        ],
        None => seq!["  Not connected to any network"@],
    }
}

/// The warnings the Wi-Fi section adds.
pub open spec fn wifi_warnings(d: Option<(Seq<char>, Seq<char>, Seq<char>, Seq<char>, i32)>) -> Seq<
    Seq<char>,
> {
    match d {
        Some((_, _, _, _, sig)) => if sig < -70 {
            seq![weak_signal_warning(sig)]
        } else {
            seq![]
        },
        None => seq![],
    }
}

/// How good a signal word is, from 0 ("very weak") to 4 ("excellent").
pub open spec fn word_rank(w: Seq<char>) -> int {
    if w == "excellent"@ {
        4
    } else if w == "strong"@ {
        3
    } else if w == "fair"@ {
        2
    } else if w == "weak"@ {
        1
    } else {
        0
    }
}

proof fn lemma_signal_words_differ()
    ensures
        "excellent"@ != "strong"@,
        "excellent"@ != "fair"@,
        "excellent"@ != "weak"@,
        "excellent"@ != "very weak"@,
        "strong"@ != "fair"@,
        "strong"@ != "weak"@,
        "strong"@ != "very weak"@,
        "fair"@ != "weak"@,
        "fair"@ != "very weak"@,
        "weak"@ != "very weak"@,
{
    reveal_strlit("excellent");
    reveal_strlit("strong");
    reveal_strlit("fair");
    reveal_strlit("weak");
    reveal_strlit("very weak");
    assert("excellent"@[0] != "very weak"@[0]);
    assert("fair"@[0] != "weak"@[0]);
    assert("excellent"@.len() != "strong"@.len());
    assert("excellent"@.len() != "fair"@.len());
    assert("excellent"@.len() != "weak"@.len());
    assert("strong"@.len() != "fair"@.len());
    assert("strong"@.len() != "weak"@.len());
    assert("strong"@.len() != "very weak"@.len());
    assert("fair"@.len() != "very weak"@.len());
    assert("weak"@.len() != "very weak"@.len());
}

/// Law: a stronger signal never gets a worse word.
pub proof fn lemma_signal_word_monotone(d1: int, d2: int)
    requires
        d1 <= d2,
    ensures
        word_rank(signal_word(d1)) <= word_rank(signal_word(d2)),
{
    lemma_signal_words_differ();
}

/// Law: the Wi-Fi section warns exactly when the signal's word is "weak" or
/// "very weak".
pub proof fn lemma_weak_signal_warning(
    ssid: Seq<char>,
    phy: Seq<char>,
    chan: Seq<char>,
    sec: Seq<char>,
    sig: i32,
)
    ensures
        wifi_warnings(Some((ssid, phy, chan, sec, sig))).len() > 0 <==> (signal_word(sig as int)
            == "weak"@ || signal_word(sig as int) == "very weak"@),
{
    lemma_signal_words_differ();
}

/// The number of lines of `ls` before the first one that ends the network
/// block (all of them when none does).
pub open spec fn block_len(ls: Seq<Seq<char>>) -> nat
    decreases ls.len(),
{
    if ls.len() == 0 {
        0
    } else if ends_network_block(trim(ls[0])) {
        0
    } else {
        1 + block_len(ls.drop_first())
    }
}

/// The value of a `key: value` line (the text after its first colon), when
/// its trimmed key is `key`.
pub open spec fn value_for(line: Seq<char>, key: Seq<char>) -> Option<Seq<char>> {
    match split_once(trim(line), ':') {
        Some((k, v)) => if trim(k) == key {
            Some(v)
        } else {
            None
        },
        None => None,
    }
}

/// The value of the last of `ls` whose key is `key`.
pub open spec fn last_value(ls: Seq<Seq<char>>, key: Seq<char>) -> Option<Seq<char>>
    decreases ls.len(),
{
    if ls.len() == 0 {
        None
    } else {
        match last_value(ls.drop_first(), key) {
            Some(v) => Some(v),
            None => value_for(ls[0], key),
        }
    }
}

/// A value trimmed, or empty when there is none.
pub open spec fn trimmed_or_empty(o: Option<Seq<char>>) -> Seq<char> {
    match o {
        Some(v) => trim(v),
        None => Seq::empty(),
    }
}

/// The signal of a "Signal / Noise" value, or 0 when there is none.
pub open spec fn signal_or_zero(o: Option<Seq<char>>) -> i32 {
    match o {
        Some(v) => signal_of(v),
        None => 0,
    }
}

/// The fields that the lines `b` give, each falling back to `acc`.
pub open spec fn block_fields(b: Seq<Seq<char>>, acc: WifiFields) -> WifiFields {
    (
        match last_value(b, "PHY Mode"@) {
            Some(v) => trim(v),
            None => acc.0,
        },
        match last_value(b, "Channel"@) {
            Some(v) => trim(v),
            None => acc.1,
        },
        match last_value(b, "Security"@) {
            Some(v) => trim(v),
            None => acc.2,
        },
        match last_value(b, "Signal / Noise"@) {
            Some(v) => signal_of(v),
            None => acc.3,
        },
    )
}

proof fn lemma_keys_differ()
    ensures
        "PHY Mode"@ != "Channel"@,
        "PHY Mode"@ != "Security"@,
        "PHY Mode"@ != "Signal / Noise"@,
        "Channel"@ != "Security"@,
        "Channel"@ != "Signal / Noise"@,
        "Security"@ != "Signal / Noise"@,
{
    reveal_strlit("PHY Mode");
    reveal_strlit("Channel");
    reveal_strlit("Security");
    reveal_strlit("Signal / Noise");
    assert("PHY Mode"@[0] != "Security"@[0]);
    assert("PHY Mode"@.len() != "Channel"@.len());
    assert("PHY Mode"@.len() != "Signal / Noise"@.len());
    assert("Channel"@.len() != "Security"@.len());
    assert("Channel"@.len() != "Signal / Noise"@.len());
    assert("Security"@.len() != "Signal / Noise"@.len());
}

/// The block is the lines before the first one that ends it.
pub proof fn lemma_block_len(ls: Seq<Seq<char>>)
    ensures
        block_len(ls) <= ls.len(),
        forall|j: int| 0 <= j < block_len(ls) ==> !ends_network_block(trim(#[trigger] ls[j])),
        block_len(ls) < ls.len() ==> ends_network_block(trim(ls[block_len(ls) as int])),
    decreases ls.len(),
{
    if ls.len() > 0 && !ends_network_block(trim(ls[0])) {
        lemma_block_len(ls.drop_first());
        assert forall|j: int| 0 <= j < block_len(ls) implies !ends_network_block(
            trim(#[trigger] ls[j]),
        ) by {
            if j > 0 {
                assert(ls[j] == ls.drop_first()[j - 1]);
            }
        }
    }
}

/// Reading lines into fields gives the last value of each key within the
/// block, falling back to what was there before.
proof fn lemma_scan_block(ls: Seq<Seq<char>>, acc: WifiFields)
    ensures
        wifi_scan(ls, acc) == block_fields(ls.take(block_len(ls) as int), acc),
    decreases ls.len(),
{
    lemma_keys_differ();
    lemma_block_len(ls);
    if ls.len() == 0 {
        assert(ls.take(0) =~= Seq::<Seq<char>>::empty());
    } else {
        let t = trim(ls[0]);
        let rest = ls.drop_first();
        let n = block_len(rest);
        if ends_network_block(t) {
            assert(ls.take(0) =~= Seq::<Seq<char>>::empty());
            assert(t.len() > 0) by {
                reveal_strlit("Other Local");
                reveal_strlit("Interfaces:");
                reveal_strlit("Wi-Fi:");
            }
        } else {
            assert(block_len(ls) == n + 1);
            let b = ls.take(n + 1int);
            assert(b.drop_first() =~= rest.take(n as int));
            assert(b[0] == ls[0]);
            let keys = seq!["PHY Mode"@, "Channel"@, "Security"@, "Signal / Noise"@];
            assert forall|i: int| 0 <= i < 4 implies #[trigger] last_value(b, keys[i]) == (match last_value(
                rest.take(n as int),
                keys[i],
            ) {
                Some(v) => Some(v),
                None => value_for(ls[0], keys[i]),
            }) by {}
            assert(last_value(b, "PHY Mode"@) == last_value(b, keys[0]));
            assert(last_value(b, "Channel"@) == last_value(b, keys[1]));
            assert(last_value(b, "Security"@) == last_value(b, keys[2]));
            assert(last_value(b, "Signal / Noise"@) == last_value(b, keys[3]));
            if t.len() == 0 {
                lemma_scan_block(rest, acc);
                assert(find(t, seq![':']) is None);
                assert(split_once(t, ':') is None);
            } else {
                lemma_scan_block(rest, wifi_update(acc, t));
            }
        }
    }
}

/// Law: the network's PHY mode, channel and security are the trimmed values
/// of the last line with that key in the current network's block, or empty;
/// its signal is the first word of the last "Signal / Noise" value as an
/// `i32`, or 0. The block is the lines after the network's name, up to the
/// first one that starts "Other Local", "Interfaces:" or "Wi-Fi:".
pub proof fn lemma_wifi_details_last_values(prof: Seq<char>)
    ensures
        match wifi_details_spec(prof) {
            Some((ssid, phy, chan, sec, sig)) => {
                let ls = lines(prof);
                let k = first_trimmed(ls, "Current Network Information:"@, 0).unwrap() as int;
                let rest = ls.skip(k + 2);
                let b = rest.take(block_len(rest) as int);
                &&& first_trimmed(ls, "Current Network Information:"@, 0) is Some
                &&& k + 1 < ls.len()
                &&& ssid == trim_end_matches(trim(ls[k + 1]), seq![':'])
                &&& phy == trimmed_or_empty(last_value(b, "PHY Mode"@))
                &&& chan == trimmed_or_empty(last_value(b, "Channel"@))
                &&& sec == trimmed_or_empty(last_value(b, "Security"@))
                &&& sig == signal_or_zero(last_value(b, "Signal / Noise"@))
            },
            None => match first_trimmed(lines(prof), "Current Network Information:"@, 0) {
                Some(k) => k + 1 >= lines(prof).len(),
                None => true,
            },
        },
{
    let ls = lines(prof);
    match first_trimmed(ls, "Current Network Information:"@, 0) {
        Some(k) => {
            if k + 1 < ls.len() {
                lemma_scan_block(ls.skip(k + 2int), (Seq::empty(), Seq::empty(), Seq::empty(), 0));
            }
        },
        None => {},
    }
}

/// A `Hardware Port:` line of the port list.
pub open spec fn is_port_line(l: Seq<char>) -> bool {
    starts_with(trim(l), "Hardware Port:"@)
}

/// A `Device: ` line of the port list.
pub open spec fn is_device_line(l: Seq<char>) -> bool {
    starts_with(trim(l), "Device: "@)
}

/// The device a `Device: ` line names.
pub open spec fn device_of(l: Seq<char>) -> Seq<char> {
    trim_start_matches(trim(l), "Device: "@)
}

/// The nearest `Hardware Port:` line before line `j` names Wi-Fi.
pub open spec fn wifi_port_before(ls: Seq<Seq<char>>, j: int) -> bool
    decreases j,
{
    if j <= 0 {
        false
    } else if is_port_line(ls[j - 1]) {
        contains(trim(ls[j - 1]), "Wi-Fi"@)
    } else {
        wifi_port_before(ls, j - 1)
    }
}

/// A `Device: ` line of a Wi-Fi port.
pub open spec fn is_wifi_device(ls: Seq<Seq<char>>, j: int) -> bool {
    0 <= j < ls.len() && is_device_line(ls[j]) && wifi_port_before(ls, j)
}

proof fn lemma_port_scan_from(ls: Seq<Seq<char>>, i: int)
    requires
        0 <= i <= ls.len(),
    ensures
        port_scan(ls.skip(i), wifi_port_before(ls, i)) matches Some(d) ==> exists|j: int|
            i <= j && #[trigger] is_wifi_device(ls, j) && d == device_of(ls[j]) && forall|m: int|
                i <= m < j ==> !is_wifi_device(ls, m),
        port_scan(ls.skip(i), wifi_port_before(ls, i)) is None ==> forall|m: int|
            i <= m ==> !#[trigger] is_wifi_device(ls, m),
    decreases ls.len() - i,
{
    if i < ls.len() {
        let l = ls[i];
        assert(ls.skip(i)[0] == l);
        assert(ls.skip(i).drop_first() =~= ls.skip(i + 1));
        lemma_port_scan_from(ls, i + 1);
        if is_port_line(l) {
            assert(!is_device_line(l)) by {
                reveal_strlit("Hardware Port:");
                reveal_strlit("Device: ");
                assert(trim(l)[0] == "Hardware Port:"@[0]);
            }
        }
        assert(wifi_port_before(ls, i + 1) == (if is_port_line(l) {
            contains(trim(l), "Wi-Fi"@)
        } else {
            wifi_port_before(ls, i)
        }));
        if !is_port_line(l) && wifi_port_before(ls, i) && is_device_line(l) {
            assert(is_wifi_device(ls, i));
        }
    } else {
        assert(ls.skip(i) =~= Seq::<Seq<char>>::empty());
    }
}

/// Law: the Wi-Fi interface is the device on the first `Device: ` line
/// whose nearest `Hardware Port:` line before it names Wi-Fi, whatever ports
/// come first; `en0` when there is no such line (or it names nothing).
pub proof fn lemma_wifi_interface(ports: Seq<char>)
    ensures
        forall|j: int|
            #[trigger] is_wifi_device(lines(ports), j) && (forall|m: int|
                0 <= m < j ==> !is_wifi_device(lines(ports), m)) ==> wifi_interface_spec(ports) == (
            if device_of(lines(ports)[j]).len() > 0 {
                device_of(lines(ports)[j])
            } else {
                "en0"@
            }),
        (forall|m: int| !#[trigger] is_wifi_device(lines(ports), m)) ==> wifi_interface_spec(ports)
            == "en0"@,
{
    let ls = lines(ports);
    lemma_port_scan_from(ls, 0);
    assert(ls.skip(0) =~= ls);
    assert forall|j: int|
        #[trigger] is_wifi_device(ls, j) && (forall|m: int| 0 <= m < j ==> !is_wifi_device(ls, m))
        implies wifi_interface_spec(ports) == (if device_of(ls[j]).len() > 0 {
        device_of(ls[j])
    } else {
        "en0"@
    }) by {
        match port_scan(ls, false) {
            Some(d) => {
                let k = choose|k: int|
                    0 <= k && #[trigger] is_wifi_device(ls, k) && d == device_of(ls[k]) && forall|
                        m: int,
                    | 0 <= m < k ==> !is_wifi_device(ls, m);
                assert(k == j) by {
                    if k < j {
                        assert(!is_wifi_device(ls, k));
                    }
                    if j < k {
                        assert(!is_wifi_device(ls, j));
                    }
                }
            },
            None => {
                assert(!is_wifi_device(ls, j));
            },
        }
    }
    if forall|m: int| !#[trigger] is_wifi_device(ls, m) {
        match port_scan(ls, false) {
            Some(d) => {
                let k = choose|k: int| 0 <= k && #[trigger] is_wifi_device(ls, k) && d == device_of(ls[k]);
                assert(is_wifi_device(ls, k));
            },
            None => {},
        }
    }
}

// ------------------------------------------------------------------ exec

pub fn signal_quality(dbm: i32) -> (r: &'static str)
    ensures
        r@ == signal_word(dbm as int),
{
    if dbm >= -50 {
        "excellent"
    } else if dbm >= -60 {
        "strong"
    } else if dbm >= -70 {
        "fair"
    } else if dbm >= -80 {
        "weak"
    } else {
        "very weak"
    }
}

fn contains_lit(v: &Vec<char>, lit: &str) -> (r: bool)
    ensures
        r == contains(v@, lit@),
{
    let p = to_chars(lit);
    assert(v@.subrange(0, v.len() as int) =~= v@);
    find_at(v, 0, v.len(), &p).is_some()
}

pub fn wifi_generation(phy: &str) -> (r: &'static str)
    ensures
        r@ == generation_name(phy@),
{
    let v = to_chars(phy);
    if contains_lit(&v, "ax") {
        "Wi-Fi 6"
    } else if contains_lit(&v, "ac") {
        "Wi-Fi 5"
    } else if contains_lit(&v, "n") {
        "Wi-Fi 4"
    } else if contains_lit(&v, "g") {
        "Wi-Fi 3"
    } else if contains_lit(&v, "b") {
        "Wi-Fi 2"
    } else {
        "802.11"
    }
}

/// The first word of `v[a..b]` as an `i32`, else 0.
fn signal_at(v: &Vec<char>, a: usize, b: usize) -> (r: i32)
    requires
        a <= b <= v.len(),
    ensures
        r == signal_of(v@.subrange(a as int, b as int)),
{
    let ws = words_at(v, a, b);
    if ws.len() > 0 {
        let (x, y) = ws[0];
        assert(ws@[0] == (x, y));
        match parse_i32_at(v, x, y) {
            Some(n) => n,
            None => 0,
        }
    } else {
        0
    }
}

/// The span of `split_once(v[a..b], ':')`: the key's end and the value's
/// start.
fn split_colon_at(v: &Vec<char>, a: usize, b: usize) -> (r: Option<usize>)
    requires
        a <= b <= v.len(),
    ensures
        r is Some <==> split_once(v@.subrange(a as int, b as int), ':') is Some,
        r matches Some(c) ==> a <= c < b && split_once(v@.subrange(a as int, b as int), ':')
            == Some((v@.subrange(a as int, c as int), v@.subrange(c + 1, b as int))),
{
    let colon = vec![':'];
    assert(colon@ =~= seq![':']);
    match find_at(v, a, b, &colon) {
        Some(k) => {
            proof {
                lemma_find_from(v@.subrange(a as int, b as int), seq![':'], 0);
            }
            assert(v@.subrange(a as int, b as int).take(k as int) =~= v@.subrange(
                a as int,
                a + k,
            ));
            assert(v@.subrange(a as int, b as int).skip(k + 1) =~= v@.subrange(
                a + k + 1,
                b as int,
            ));
            Some(a + k)
        },
        None => None,
    }
}

/// The index of the first line from `ls` that trims to `t`.
fn find_trimmed_line(v: &Vec<char>, ls: &Vec<(usize, usize)>, t: &Vec<char>) -> (r: Option<
    usize,
>)
    requires
        spans_within(ls@, 0, v.len() as int),
    ensures
        r matches Some(k) ==> k < ls.len() && first_trimmed(span_views(v@, ls@), t@, 0) == Some(
            k as nat,
        ),
        r is None ==> first_trimmed(span_views(v@, ls@), t@, 0) is None,
{
    let ghost all = span_views(v@, ls@);
    let mut k: usize = 0;
    while k < ls.len()
        invariant
            k <= ls.len(),
            all == span_views(v@, ls@),
            spans_within(ls@, 0, v.len() as int),
            first_trimmed(all, t@, 0) == first_trimmed(all, t@, k as nat),
        decreases ls.len() - k,
    {
        let (a, b) = ls[k];
        assert(ls@[k as int] == (a, b));
        let (ta, tb) = trim_at(v, a, b);
        if eq_at(v, ta, tb, t) {
            return Some(k);
        }
        k += 1;
    }
    None
}

/// The fields of the network block that starts at line `j0`.
fn scan_network_block(v: &Vec<char>, ls: &Vec<(usize, usize)>, j0: usize) -> (r: (
    (usize, usize),
    (usize, usize),
    (usize, usize),
    i32,
))
    requires
        spans_within(ls@, 0, v.len() as int),
        j0 <= ls.len(),
    ensures
        r.0.0 <= r.0.1 <= v.len(),
        r.1.0 <= r.1.1 <= v.len(),
        r.2.0 <= r.2.1 <= v.len(),
        wifi_scan(
            span_views(v@, ls@).skip(j0 as int),
            (Seq::empty(), Seq::empty(), Seq::empty(), 0),
        ) == (
            v@.subrange(r.0.0 as int, r.0.1 as int),
            v@.subrange(r.1.0 as int, r.1.1 as int),
            v@.subrange(r.2.0 as int, r.2.1 as int),
            r.3,
        ),
{
    let ghost all = span_views(v@, ls@);
    let k_phy = to_chars("PHY Mode");
    let k_chan = to_chars("Channel");
    let k_sec = to_chars("Security");
    let k_sig = to_chars("Signal / Noise");
    let s_other = to_chars("Other Local");
    let s_ifaces = to_chars("Interfaces:");
    let s_wifi = to_chars("Wi-Fi:");
    let mut phy: (usize, usize) = (0, 0);
    let mut chan: (usize, usize) = (0, 0);
    let mut sec: (usize, usize) = (0, 0);
    let mut sig: i32 = 0;
    let ghost goal = wifi_scan(all.skip(j0 as int), (Seq::empty(), Seq::empty(), Seq::empty(), 0));
    assert(v@.subrange(0, 0) =~= Seq::<char>::empty());
    let mut j = j0;
    while j < ls.len()
        invariant
            j0 <= j <= ls.len(),
            all == span_views(v@, ls@),
            goal == wifi_scan(all.skip(j0 as int), (Seq::empty(), Seq::empty(), Seq::empty(), 0)),
            spans_within(ls@, 0, v.len() as int),
            phy.0 <= phy.1 <= v.len(),
            chan.0 <= chan.1 <= v.len(),
            sec.0 <= sec.1 <= v.len(),
            k_phy@ == "PHY Mode"@,
            k_chan@ == "Channel"@,
            k_sec@ == "Security"@,
            k_sig@ == "Signal / Noise"@,
            s_other@ == "Other Local"@,
            s_ifaces@ == "Interfaces:"@,
            s_wifi@ == "Wi-Fi:"@,
            goal == wifi_scan(
                all.skip(j as int),
                (
                    v@.subrange(phy.0 as int, phy.1 as int),
                    v@.subrange(chan.0 as int, chan.1 as int),
                    v@.subrange(sec.0 as int, sec.1 as int),
                    sig,
                ),
            ),
        decreases ls.len() - j,
    {
        let (a, b) = ls[j];
        assert(ls@[j as int] == (a, b));
        assert(all.skip(j as int)[0] == v@.subrange(a as int, b as int));
        assert(all.skip(j as int).drop_first() =~= all.skip(j + 1));
        let (ta, tb) = trim_at(v, a, b);
        if ta < tb {
            if starts_with_at(v, ta, tb, &s_other) || starts_with_at(v, ta, tb, &s_ifaces)
                || starts_with_at(v, ta, tb, &s_wifi) {
                assert(ends_network_block(trim(all.skip(j as int)[0])));
                assert(trim(all.skip(j as int)[0]).len() != 0);
                return (phy, chan, sec, sig);
            }
            match split_colon_at(v, ta, tb) {
                Some(c) => {
                    let (ka, kb) = trim_at(v, ta, c);
                    let (va, vb) = trim_at(v, c + 1, tb);
                    if eq_at(v, ka, kb, &k_phy) {
                        phy = (va, vb);
                    } else if eq_at(v, ka, kb, &k_chan) {
                        chan = (va, vb);
                    } else if eq_at(v, ka, kb, &k_sec) {
                        sec = (va, vb);
                    } else if eq_at(v, ka, kb, &k_sig) {
                        sig = signal_at(v, c + 1, tb);
                    }
                },
                None => {},
            }
        }
        j += 1;
    }
    (phy, chan, sec, sig)
}

/// (ssid, phy mode, channel, security, signal dBm) from the
/// "Current Network Information:" block of SPAirPortDataType.
pub fn wifi_details(prof: &str) -> (r: Option<(String, String, String, String, i32)>)
    ensures
        details_view(r) == wifi_details_spec(prof@),
{
    let v = to_chars(prof);
    let ls = lines_of(&v);
    let ghost all = lines(v@);
    let head = to_chars("Current Network Information:");
    let k = match find_trimmed_line(&v, &ls, &head) {
        Some(k) => k,
        None => {
            return None;
        },
    };
    if k + 1 >= ls.len() {
        return None;
    }
    let (sa, sb) = ls[k + 1];
    assert(ls@[k + 1] == (sa, sb));
    let (ta, tb) = trim_at(&v, sa, sb);
    let colon = vec![':'];
    assert(colon@ =~= seq![':']);
    let te = trim_end_matches_at(&v, ta, tb, &colon);
    let ssid = from_chars(&v, ta, te);
    let (phy, chan, sec, sig) = scan_network_block(&v, &ls, k + 2);
    Some(
        (
            ssid,
            from_chars(&v, phy.0, phy.1),
            from_chars(&v, chan.0, chan.1),
            from_chars(&v, sec.0, sec.1),
            sig,
        ),
    )
}

/// The Wi-Fi interface from the hardware port list (`en0` when none is
/// named).
pub fn wifi_interface(ports: &str) -> (r: String)
    ensures
        r@ == wifi_interface_spec(ports@),
{
    let v = to_chars(ports);
    let ls = lines_of(&v);
    let ghost all = lines(v@);
    let hp = to_chars("Hardware Port:");
    let wf = to_chars("Wi-Fi");
    let dev = to_chars("Device: ");
    let mut want = false;
    let mut i: usize = 0;
    assert(all.skip(0) =~= all);
    while i < ls.len()
        invariant
            i <= ls.len(),
            all == span_views(v@, ls@),
            all == lines(ports@),
            spans_within(ls@, 0, v.len() as int),
            hp@ == "Hardware Port:"@,
            wf@ == "Wi-Fi"@,
            dev@ == "Device: "@,
            port_scan(all, false) == port_scan(all.skip(i as int), want),
        decreases ls.len() - i,
    {
        let (a, b) = ls[i];
        assert(ls@[i as int] == (a, b));
        assert(all.skip(i as int)[0] == v@.subrange(a as int, b as int));
        assert(all.skip(i as int).drop_first() =~= all.skip(i + 1));
        let (ta, tb) = trim_at(&v, a, b);
        if starts_with_at(&v, ta, tb, &hp) {
            assert(v@.subrange(ta as int, tb as int).subrange(0, (tb - ta) as int) =~= v@.subrange(
                ta as int,
                tb as int,
            ));
            match find_at(&v, ta, tb, &wf) {
                Some(_) => {
                    want = true;
                },
                None => {
                    want = false;
                },
            }
        } else if want && starts_with_at(&v, ta, tb, &dev) {
            let c = trim_start_matches_at(&v, ta, tb, &dev);
            if c < tb {
                return from_chars(&v, c, tb);
            }
            let mut r = String::new();
            r.append("en0");
            return r;
        }
        i += 1;
    }
    let mut r = String::new();
    r.append("en0");
    r
}

/// The address on the first `inet ` line (see `inet_in`).
fn inet_at(ifc: &str, keep_bare: bool) -> (r: Option<String>)
    ensures
        opt_view(r) == inet_in(lines(ifc@), keep_bare),
{
    let v = to_chars(ifc);
    let ls = lines_of(&v);
    let ghost all = lines(v@);
    let inet = to_chars("inet ");
    let mut i: usize = 0;
    assert(all.skip(0) =~= all);
    while i < ls.len()
        invariant
            i <= ls.len(),
            all == span_views(v@, ls@),
            all == lines(ifc@),
            spans_within(ls@, 0, v.len() as int),
            inet@ == "inet "@,
            inet_in(all, keep_bare) == inet_in(all.skip(i as int), keep_bare),
        decreases ls.len() - i,
    {
        let (a, b) = ls[i];
        assert(ls@[i as int] == (a, b));
        assert(all.skip(i as int)[0] == v@.subrange(a as int, b as int));
        assert(all.skip(i as int).drop_first() =~= all.skip(i + 1));
        let (ta, tb) = trim_at(&v, a, b);
        if starts_with_at(&v, ta, tb, &inet) {
            assert(v@.subrange(ta as int, tb as int).skip(inet.len() as int) =~= v@.subrange(
                ta + inet.len(),
                tb as int,
            ));
            let ws = words_at(&v, ta + inet.len(), tb);
            if ws.len() > 0 {
                let (x, y) = ws[0];
                assert(ws@[0] == (x, y));
                return Some(from_chars(&v, x, y));
            } else if keep_bare {
                let r = String::new();
                return Some(r);
            }
        }
        i += 1;
    }
    None
}

/// The address on the first `inet ` line that has one (Wi-Fi's lookup).
pub fn wifi_ip(ifc: &str) -> (r: Option<String>)
    ensures
        opt_view(r) == inet_in(lines(ifc@), false),
{
    inet_at(ifc, false)
}

/// The address on the first `inet ` line, empty when that line has none
/// (Ethernet's lookup).
pub fn ethernet_ip(ifc: &str) -> (r: Option<String>)
    ensures
        opt_view(r) == inet_in(lines(ifc@), true),
{
    inet_at(ifc, true)
}

/// The Wi-Fi section: the network on `iface` with its details and `ip`, or
/// "not connected"; a weak signal (below -70 dBm) adds a warning, and a
/// network marks Wi-Fi as connected.
pub fn wifi(
    iface: &str,
    details: &Option<(String, String, String, String, i32)>,
    ip: &str,
    r: &mut Report,
) -> (out: Vec<String>)
    ensures
        views(out@) == wifi_lines(iface@, details_view(*details), ip@),
        views(final(r).warnings@) == views(old(r).warnings@) + wifi_warnings(
            details_view(*details),
        ),
        final(r).wifi_connected == (old(r).wifi_connected || details.is_some()),
        final(r).eth_active == old(r).eth_active,
{
    let mut out: Vec<String> = Vec::new();
    match details {
        Some((ssid, phy, chan, sec, sig)) => {
            r.wifi_connected = true;
            let mut l1 = String::new();
            l1.append("  Connected to \"");
            l1.append(ssid.as_str());
            l1.append("\" on ");
            l1.append(iface);
            let mut l2 = String::new();
            l2.append("  ");
            l2.append(wifi_generation(phy.as_str()));
            l2.append(" (");
            l2.append(phy.as_str());
            l2.append(") · ");
            l2.append(chan.as_str());
            l2.append(" · ");
            l2.append(sec.as_str());
            let quality = signal_quality(*sig);
            let mut l3 = String::new();
            l3.append("  Signal: ");
            l3.append(quality);
            l3.append(" (");
            push_dec_i32(&mut l3, *sig);
            l3.append(" dBm) · IP ");
            if ip.is_empty() {
                l3.append("n/a");
            } else {
                l3.append(ip);
            }
            out.push(l1);
            out.push(l2);
            out.push(l3);
            let ghost old_w = r.warnings@;
            if *sig < -70 {
                let mut w = String::new();
                w.append("Wi-Fi signal is ");
                w.append(quality);
                w.append(" (");
                push_dec_i32(&mut w, *sig);
                w.append(" dBm)");
                r.warnings.push(w);
                assert(views(r.warnings@) =~= views(old_w).push(w@));
            } else {
                assert(views(r.warnings@) =~= views(old_w) + seq![]);
            }
        },
        None => {
            let mut l = String::new();
            l.append("  Not connected to any network");
            out.push(l);
            assert(views(r.warnings@) =~= views(r.warnings@) + seq![]);
        },
    }
    assert(views(out@) =~= wifi_lines(iface@, details_view(*details), ip@));
    out
}

} // verus!
