//! Bluetooth: the controller's state and the connected and paired devices
//! from system_profiler's Bluetooth report.
use vstd::prelude::*;
use crate::text::{
    ends_with, ends_with_at, eq_at, from_chars, join, join_strings, lines, lines_of, span_views,
    spans_within, split_once, starts_with, to_chars, trim, trim_at, trim_end_at, trim_end_matches,
    trim_end_matches_at, trim_start, trim_start_at, views, find_at, lemma_find_from,
};
use crate::number::{dec, push_dec};
use crate::report::Report;

verus! {

// ------------------------------------------------------------------ spec

/// Bytes that `c` takes in UTF-8.
pub open spec fn utf8_len(c: char) -> nat {
    if (c as u32) < 0x80 {
        1
    } else if (c as u32) < 0x800 {
        2
    } else if (c as u32) < 0x10000 {
        3
    } else {
        4
    }
}

/// Bytes that `s` takes in UTF-8.
pub open spec fn utf8_bytes(s: Seq<char>) -> nat
    decreases s.len(),
{
    if s.len() == 0 {
        0
    } else {
        utf8_bytes(s.drop_last()) + utf8_len(s.last())
    }
}

/// The indentation of a line in bytes: `line.len() - line.trim_start().len()`.
pub open spec fn indent_bytes(l: Seq<char>) -> nat {
    utf8_bytes(l.take(l.len() - trim_start(l).len()))
}

/// The part of the report a line belongs to.
#[derive(Clone, Copy)]
pub enum BtSection {
    Other,
    Controller,
    Connected,
    Known,
}

pub open spec fn section_of(t: Seq<char>) -> BtSection {
    if t == "Bluetooth Controller:"@ {
        BtSection::Controller
    } else if t == "Connected:"@ {
        BtSection::Connected
    } else if t == "Not Connected:"@ {
        BtSection::Known
    } else {
        BtSection::Other
    }
}

/// What has been read of the report so far.
pub struct BtState {
    pub section: BtSection,
    pub dev: Seq<char>,
    pub state: Seq<char>,
    pub chipset: Seq<char>,
    pub discoverable: Seq<char>,
    pub connected: Seq<(Seq<char>, Seq<char>)>,
    pub known: Seq<Seq<char>>,
}

pub open spec fn bt_init() -> BtState {
    BtState {
        section: BtSection::Other,
        dev: Seq::empty(),
        state: Seq::empty(),
        chipset: Seq::empty(),
        discoverable: Seq::empty(),
        connected: Seq::empty(),
        known: Seq::empty(),
    }
}

/// A `key: value` line read in the current section.
pub open spec fn bt_entry(s: BtState, k: Seq<char>, v: Seq<char>) -> BtState {
    match s.section {
        BtSection::Controller => if k == "State"@ {
            BtState { state: v, ..s }
        } else if k == "Chipset"@ {
            BtState { chipset: v, ..s }
        } else if k == "Discoverable"@ {
            BtState { discoverable: v, ..s }
        } else {
            s
        },
        BtSection::Connected => if s.dev.len() > 0 {
            if k == "Address"@ {
                BtState { connected: s.connected.push((s.dev, Seq::empty())), ..s }
            } else if k == "Minor Type"@ {
                if s.connected.len() > 0 {
                    BtState {
                        connected: s.connected.update(
                            s.connected.len() - 1,
                            (s.connected.last().0, v),
                        ),
                        ..s
                    }
                } else {
                    s
                }
            } else {
                s
            }
        } else {
            s
        },
        BtSection::Known => if s.dev.len() > 0 && k == "Address"@ {
            BtState { known: s.known.push(s.dev), ..s }
        } else {
            s
        },
        BtSection::Other => s,
    }
}

/// One line of the report: a heading indented by at most 6 bytes opens a
/// section; inside a section a heading names a device, and `key: value`
/// lines fill in the controller or the device.
pub open spec fn bt_step(s: BtState, l: Seq<char>) -> BtState {
    let t = trim(l);
    if t.len() == 0 {
        s
    } else if indent_bytes(l) <= 6 && ends_with(t, seq![':']) {
        BtState { section: section_of(t), dev: Seq::empty(), ..s }
    } else if s.section is Other {
        s
    } else if ends_with(t, seq![':']) {
        BtState { dev: trim_end_matches(t, seq![':']), ..s }
    } else {
        match split_once(t, ':') {
            Some((k, v)) => bt_entry(s, trim(k), trim(v)),
            None => s,
        }
    }
}

pub open spec fn bt_scan(ls: Seq<Seq<char>>, s: BtState) -> BtState
    decreases ls.len(),
{
    if ls.len() == 0 {
        s
    } else {
        bt_scan(ls.drop_first(), bt_step(s, ls[0]))
    }
}

/// What the whole report says.
pub open spec fn parse_bluetooth_spec(prof: Seq<char>) -> BtState {
    bt_scan(lines(prof), bt_init())
}

pub open spec fn device_line(d: (Seq<char>, Seq<char>)) -> Seq<char> {
    "  Connected: "@ + d.0 + " ("@ + (if d.1.len() == 0 {
        "?"@
    } else {
        d.1
    }) + ")"@
}

/// Up to six paired devices, and how many more there are.
pub open spec fn paired_line(known: Seq<Seq<char>>) -> Seq<char> {
    let shown = if known.len() <= 6 {
        known
    } else {
        known.take(6)
    };
    "  Also paired: "@ + join(shown, ", "@) + (if known.len() > 6 {
        " … and "@ + dec((known.len() - 6) as nat) + " more"@
    } else {
        Seq::empty()
    })
}

/// The controller line: on with its chipset, or its state.
pub open spec fn controller_line(s: BtState) -> Seq<char> {
    if s.state == "On"@ {
        "  On ("@ + s.chipset + ") — "@ + (if s.discoverable == "On"@ {
            "discoverable"@
        } else {
            "not discoverable"@
        })
    } else {
        "  "@ + s.state
    }
}

/// The Bluetooth section's lines for a report that has text.
pub open spec fn bt_lines(s: BtState) -> Seq<Seq<char>> {
    seq![controller_line(s)] + (if s.connected.len() == 0 {
        seq!["  No devices connected"@]
    } else {
        Seq::new(s.connected.len(), |i: int| device_line(s.connected[i]))
    }) + (if s.known.len() > 0 {
        seq![paired_line(s.known)]
    } else {
        Seq::empty()
    })
}

/// The report has text other than whitespace.
pub open spec fn has_report(prof: Option<Seq<char>>) -> bool {
    prof matches Some(p) && trim(p).len() > 0
}

/// The Bluetooth section's lines.
pub open spec fn bluetooth_lines(prof: Option<Seq<char>>) -> Seq<Seq<char>> {
    match prof {
        Some(p) => if trim(p).len() > 0 {
            bt_lines(parse_bluetooth_spec(p))
        } else {
            seq!["  Not available on this Mac"@]
        },
        None => seq!["  Not available on this Mac"@],
    }
}

/// The warnings the Bluetooth section adds: the controller is not on.
pub open spec fn bluetooth_warnings(prof: Option<Seq<char>>) -> Seq<Seq<char>> {
    match prof {
        Some(p) => if trim(p).len() > 0 && parse_bluetooth_spec(p).state != "On"@ {
            seq!["Bluetooth is "@ + parse_bluetooth_spec(p).state]
        } else {
            seq![]
        },
        None => seq![],
    }
}

/// With the controller on, the first line of the Bluetooth section names the
/// chipset and ends in " — discoverable" exactly when the report's
/// Discoverable value is "On", and in " — not discoverable" exactly when it
/// is anything else (another value, or none).
pub proof fn lemma_discoverable_shown(p: Seq<char>)
    requires
        trim(p).len() > 0,
        parse_bluetooth_spec(p).state == "On"@,
    ensures
        bluetooth_lines(Some(p)).len() >= 2,
        starts_with(
            bluetooth_lines(Some(p))[0],
            "  On ("@ + parse_bluetooth_spec(p).chipset + ") — "@,
        ),
        ends_with(bluetooth_lines(Some(p))[0], " — discoverable"@)
            <==> parse_bluetooth_spec(p).discoverable == "On"@,
        ends_with(bluetooth_lines(Some(p))[0], " — not discoverable"@)
            <==> parse_bluetooth_spec(p).discoverable != "On"@,
{
    reveal_strlit("  On (");
    reveal_strlit(") — ");
    reveal_strlit("discoverable");
    reveal_strlit("not discoverable");
    reveal_strlit(" — discoverable");
    reveal_strlit(" — not discoverable");
    let s = parse_bluetooth_spec(p);
    let ls = bt_lines(s);
    assert(ls[0] == controller_line(s));
    assert(ls.len() >= 2);
    let head = "  On ("@ + s.chipset + ") — "@;
    let l = controller_line(s);
    let n = l.len() as int;
    let p1 = " — discoverable"@;
    let p2 = " — not discoverable"@;
    if s.discoverable == "On"@ {
        assert(l =~= head + "discoverable"@);
        assert(l.subrange(0, head.len() as int) =~= head);
        assert(l.subrange(n - 15, n) =~= p1);
        assert(l[n - 14] == '—');
        if ends_with(l, p2) {
            assert(l.subrange(n - 19, n)[5] == p2[5]);
            assert(false);
        }
    } else {
        assert(l =~= head + "not discoverable"@);
        assert(l.subrange(0, head.len() as int) =~= head);
        assert(l.subrange(n - 19, n) =~= p2);
        assert(l[n - 14] == 't');
        if ends_with(l, p1) {
            assert(l.subrange(n - 15, n)[1] == p1[1]);
            assert(false);
        }
    }
}

/// The Bluetooth section warns exactly when there is a report and its
/// controller is not on, and then it names the state, which is also the
/// whole of the first line.
pub proof fn lemma_bluetooth_off_warns(prof: Option<Seq<char>>)
    ensures
        bluetooth_warnings(prof).len() > 0 <==> has_report(prof) && parse_bluetooth_spec(
            prof->0,
        ).state != "On"@,
        bluetooth_warnings(prof).len() > 0 ==> bluetooth_warnings(prof) == seq![
            "Bluetooth is "@ + parse_bluetooth_spec(prof->0).state,
        ] && bluetooth_lines(prof)[0] == "  "@ + parse_bluetooth_spec(prof->0).state,
        !has_report(prof) ==> bluetooth_lines(prof) == seq!["  Not available on this Mac"@],
{
    if has_report(prof) {
        let s = parse_bluetooth_spec(prof->0);
        assert(bt_lines(s)[0] == controller_line(s));
    }
}

/// After the controller line come the connected devices, one line each in
/// the report's order (or a line saying there are none), and then, when
/// there are paired devices, one line that lists the first six of them and
/// counts the rest.
pub proof fn lemma_bluetooth_device_lines(p: Seq<char>)
    requires
        trim(p).len() > 0,
    ensures
        ({
            let s = parse_bluetooth_spec(p);
            let out = bluetooth_lines(Some(p));
            let n = if s.connected.len() == 0 {
                1int
            } else {
                s.connected.len() as int
            };
            &&& out.len() == 1 + n + (if s.known.len() > 0 {
                1int
            } else {
                0int
            })
            &&& s.connected.len() == 0 ==> out[1] == "  No devices connected"@
            &&& forall|i: int|
                0 <= i < s.connected.len() ==> starts_with(
                    #[trigger] out[1 + i],
                    "  Connected: "@ + s.connected[i].0 + " ("@,
                )
            &&& (0 < s.known.len() <= 6 ==> out[1 + n] == "  Also paired: "@ + join(
                s.known,
                ", "@,
            ))
            &&& (s.known.len() > 6 ==> starts_with(
                out[1 + n],
                "  Also paired: "@ + join(s.known.take(6), ", "@),
            ) && ends_with(out[1 + n], " … and "@ + dec((s.known.len() - 6) as nat) + " more"@))
        }),
{
    let s = parse_bluetooth_spec(p);
    let out = bluetooth_lines(Some(p));
    let conn = if s.connected.len() == 0 {
        seq!["  No devices connected"@]
    } else {
        Seq::new(s.connected.len(), |i: int| device_line(s.connected[i]))
    };
    let known = if s.known.len() > 0 {
        seq![paired_line(s.known)]
    } else {
        Seq::<Seq<char>>::empty()
    };
    assert(out == seq![controller_line(s)] + conn + known);
    assert forall|i: int| 0 <= i < s.connected.len() implies starts_with(
        #[trigger] out[1 + i],
        "  Connected: "@ + s.connected[i].0 + " ("@,
    ) by {
        assert(out[1 + i] == conn[i]);
        let h = "  Connected: "@ + s.connected[i].0 + " ("@;
        let d = s.connected[i];
        let rest = (if d.1.len() == 0 {
            "?"@
        } else {
            d.1
        }) + ")"@;
        assert(device_line(d) =~= h + rest);
        assert((h + rest).subrange(0, h.len() as int) =~= h);
    }
    if s.known.len() > 0 {
        let n = conn.len() as int;
        assert(out[1 + n] == paired_line(s.known));
        if s.known.len() <= 6 {
            let h = "  Also paired: "@ + join(s.known, ", "@);
            assert(paired_line(s.known) =~= h + Seq::<char>::empty());
        } else {
            let h = "  Also paired: "@ + join(s.known.take(6), ", "@);
            let t = " … and "@ + dec((s.known.len() - 6) as nat) + " more"@;
            assert(paired_line(s.known) =~= h + t);
            assert((h + t).subrange(0, h.len() as int) =~= h);
            assert((h + t).subrange(h.len() as int, (h + t).len() as int) =~= t);
        }
    }
}

// ------------------------------------------------------------------ exec

/// The state while reading, as spans of the report's characters.
pub struct BtScan {
    pub section: BtSection,
    pub dev: (usize, usize),
    pub state: (usize, usize),
    pub chipset: (usize, usize),
    pub discoverable: (usize, usize),
    pub connected: Vec<((usize, usize), (usize, usize))>,
    pub known: Vec<(usize, usize)>,
}

pub open spec fn span_ok(sp: (usize, usize), n: int) -> bool {
    sp.0 <= sp.1 <= n
}

/// Every pair of spans lies within `0..n`.
pub open spec fn pairs_ok(c: Seq<((usize, usize), (usize, usize))>, n: int) -> bool {
    forall|i: int| 0 <= i < c.len() ==> span_ok(#[trigger] c[i].0, n) && span_ok(c[i].1, n)
}

impl BtScan {
    pub open spec fn wf(&self, n: int) -> bool {
        &&& span_ok(self.dev, n)
        &&& span_ok(self.state, n)
        &&& span_ok(self.chipset, n)
        &&& span_ok(self.discoverable, n)
        &&& pairs_ok(self.connected@, n)
        &&& spans_within(self.known@, 0, n)
    }

    pub open spec fn abs(&self, v: Seq<char>) -> BtState {
        BtState {
            section: self.section,
            dev: v.subrange(self.dev.0 as int, self.dev.1 as int),
            state: v.subrange(self.state.0 as int, self.state.1 as int),
            chipset: v.subrange(self.chipset.0 as int, self.chipset.1 as int),
            discoverable: v.subrange(self.discoverable.0 as int, self.discoverable.1 as int),
            connected: Seq::new(
                self.connected@.len(),
                |i: int|
                    (
                        v.subrange(
                            self.connected@[i].0.0 as int,
                            self.connected@[i].0.1 as int,
                        ),
                        v.subrange(
                            self.connected@[i].1.0 as int,
                            self.connected@[i].1.1 as int,
                        ),
                    ),
            ),
            known: span_views(v, self.known@),
        }
    }
}

/// The literal keys the reader compares against.
pub struct BtKeys {
    pub controller: Vec<char>,
    pub connected: Vec<char>,
    pub not_connected: Vec<char>,
    pub state: Vec<char>,
    pub chipset: Vec<char>,
    pub discoverable: Vec<char>,
    pub address: Vec<char>,
    pub minor: Vec<char>,
    pub colon: Vec<char>,
}

impl BtKeys {
    pub open spec fn wf(&self) -> bool {
        &&& self.controller@ == "Bluetooth Controller:"@
        &&& self.connected@ == "Connected:"@
        &&& self.not_connected@ == "Not Connected:"@
        &&& self.state@ == "State"@
        &&& self.chipset@ == "Chipset"@
        &&& self.discoverable@ == "Discoverable"@
        &&& self.address@ == "Address"@
        &&& self.minor@ == "Minor Type"@
        &&& self.colon@ == seq![':']
    }

    pub fn new() -> (k: BtKeys)
        ensures
            k.wf(),
    {
        let colon = vec![':'];
        assert(colon@ =~= seq![':']);
        BtKeys {
            controller: to_chars("Bluetooth Controller:"),
            connected: to_chars("Connected:"),
            not_connected: to_chars("Not Connected:"),
            state: to_chars("State"),
            chipset: to_chars("Chipset"),
            discoverable: to_chars("Discoverable"),
            address: to_chars("Address"),
            minor: to_chars("Minor Type"),
            colon,
        }
    }
}

pub proof fn lemma_utf8_bytes_prefix(s: Seq<char>, k: int)
    requires
        0 <= k <= s.len(),
    ensures
        utf8_bytes(s.take(k)) <= utf8_bytes(s),
    decreases s.len(),
{
    if k < s.len() {
        assert(s.drop_last().take(k) =~= s.take(k));
        lemma_utf8_bytes_prefix(s.drop_last(), k);
    } else {
        assert(s.take(k) =~= s);
    }
}

/// Whether the characters `v[a..e]` take at most 6 bytes in UTF-8.
fn at_most_six_bytes(v: &Vec<char>, a: usize, e: usize) -> (r: bool)
    requires
        a <= e <= v.len(),
    ensures
        r == (utf8_bytes(v@.subrange(a as int, e as int)) <= 6),
{
    let ghost s = v@.subrange(a as int, e as int);
    let mut total: usize = 0;
    let mut i = a;
    assert(s.take(0) =~= Seq::<char>::empty());
    while i < e
        invariant
            a <= i <= e <= v.len(),
            s == v@.subrange(a as int, e as int),
            total <= 6,
            total == utf8_bytes(s.take(i - a)),
        decreases e - i,
    {
        let c = v[i] as u32;
        let n: usize = if c < 0x80 {
            1
        } else if c < 0x800 {
            2
        } else if c < 0x10000 {
            3
        } else {
            4
        };
        assert(s.take(i - a + 1).drop_last() =~= s.take(i - a));
        assert(s.take(i - a + 1).last() == v@[i as int]);
        if total + n > 6 {
            proof {
                lemma_utf8_bytes_prefix(s, i - a + 1);
            }
            return false;
        }
        total = total + n;
        i += 1;
    }
    assert(s.take(e - a) =~= s);
    true
}

/// The index of the first `:` in `v[a..b]`.
fn colon_at(v: &Vec<char>, a: usize, b: usize, colon: &Vec<char>) -> (r: Option<usize>)
    requires
        a <= b <= v.len(),
        colon@ == seq![':'],
    ensures
        r is Some <==> split_once(v@.subrange(a as int, b as int), ':') is Some,
        r matches Some(c) ==> a <= c < b && split_once(v@.subrange(a as int, b as int), ':')
            == Some((v@.subrange(a as int, c as int), v@.subrange(c + 1, b as int))),
{
    match find_at(v, a, b, colon) {
        Some(k) => {
            proof {
                lemma_find_from(v@.subrange(a as int, b as int), seq![':'], 0);
            }
            assert(v@.subrange(a as int, b as int).take(k as int) =~= v@.subrange(
                a as int,
                a + k,
            ));
            assert(v@.subrange(a as int, b as int).skip(k + 1) =~= v@.subrange(
                a + k + 1,
                b as int,
            ));
            Some(a + k)
        },
        None => None,
    }
}

/// Reads one line `v[a..b]` of the report.
fn bt_step_exec(v: &Vec<char>, a: usize, b: usize, st: &mut BtScan, keys: &BtKeys)
    requires
        a <= b <= v.len(),
        old(st).wf(v.len() as int),
        keys.wf(),
    ensures
        final(st).wf(v.len() as int),
        final(st).abs(v@) == bt_step(old(st).abs(v@), v@.subrange(a as int, b as int)),
{
    let ghost l = v@.subrange(a as int, b as int);
    let ghost s0 = st.abs(v@);
    let ta = trim_start_at(v, a, b);
    let tb = trim_end_at(v, ta, b);
    assert(v@.subrange(ta as int, tb as int) == trim(l));
    if ta == tb {
        return ;
    }
    let heading = ends_with_at(v, ta, tb, &keys.colon);
    assert(l.take(l.len() - trim_start(l).len()) =~= v@.subrange(a as int, ta as int));
    if heading && at_most_six_bytes(v, a, ta) {
        st.section = if eq_at(v, ta, tb, &keys.controller) {
            BtSection::Controller
        } else if eq_at(v, ta, tb, &keys.connected) {
            BtSection::Connected
        } else if eq_at(v, ta, tb, &keys.not_connected) {
            BtSection::Known
        } else {
            BtSection::Other
        };
        st.dev = (ta, ta);
        assert(v@.subrange(ta as int, ta as int) =~= Seq::<char>::empty());
        assert(st.abs(v@) =~= bt_step(s0, l));
        return ;
    }
    if let BtSection::Other = st.section {
        return ;
    }
    if heading {
        let e = trim_end_matches_at(v, ta, tb, &keys.colon);
        st.dev = (ta, e);
        assert(st.abs(v@) =~= bt_step(s0, l));
        return ;
    }
    let c = match colon_at(v, ta, tb, &keys.colon) {
        Some(c) => c,
        None => {
            return ;
        },
    };
    let (ka, kb) = trim_at(v, ta, c);
    let (va, vb) = trim_at(v, c + 1, tb);
    bt_entry_exec(v, ka, kb, va, vb, st, keys);
}

/// Reads a `key: value` line, `v[ka..kb]` and `v[va..vb]`.
#[verifier::spinoff_prover]
#[verifier::rlimit(30)]
fn bt_entry_exec(
    v: &Vec<char>,
    ka: usize,
    kb: usize,
    va: usize,
    vb: usize,
    st: &mut BtScan,
    keys: &BtKeys,
)
    requires
        ka <= kb <= v.len(),
        va <= vb <= v.len(),
        old(st).wf(v.len() as int),
        keys.wf(),
    ensures
        final(st).wf(v.len() as int),
        final(st).abs(v@) == bt_entry(
            old(st).abs(v@),
            v@.subrange(ka as int, kb as int),
            v@.subrange(va as int, vb as int),
        ),
{
    let ghost s0 = st.abs(v@);
    let ghost k = v@.subrange(ka as int, kb as int);
    let ghost x = v@.subrange(va as int, vb as int);
    let sec = st.section;
    match sec {
        BtSection::Controller => {
            if eq_at(v, ka, kb, &keys.state) {
                st.state = (va, vb);
            } else if eq_at(v, ka, kb, &keys.chipset) {
                st.chipset = (va, vb);
            } else if eq_at(v, ka, kb, &keys.discoverable) {
                st.discoverable = (va, vb);
            }
            assert(st.abs(v@) =~= bt_entry(s0, k, x));
        },
        BtSection::Connected => {
            if st.dev.0 < st.dev.1 {
                if eq_at(v, ka, kb, &keys.address) {
                    st.connected.push((st.dev, (va, va)));
                    assert(v@.subrange(va as int, va as int) =~= Seq::<char>::empty());
                    assert(st.abs(v@).connected =~= s0.connected.push((s0.dev, Seq::empty())));
                } else if eq_at(v, ka, kb, &keys.minor) {
                    let n = st.connected.len();
                    if n > 0 {
                        let (d, _) = st.connected[n - 1];
                        assert(st.connected@[n - 1].0 == d);
                        st.connected.set(n - 1, (d, (va, vb)));
                        assert(st.abs(v@).connected =~= s0.connected.update(
                            s0.connected.len() - 1,
                            (s0.connected.last().0, x),
                        ));
                    }
                }
            }
            assert(st.abs(v@) =~= bt_entry(s0, k, x));
        },
        BtSection::Known => {
            if st.dev.0 < st.dev.1 && eq_at(v, ka, kb, &keys.address) {
                st.known.push(st.dev);
                assert(st.abs(v@).known =~= s0.known.push(s0.dev));
            }
            assert(st.abs(v@) =~= bt_entry(s0, k, x));
        },
        BtSection::Other => {},
    }
}

/// Reads the whole report.
fn parse_bluetooth(v: &Vec<char>) -> (st: BtScan)
    ensures
        st.wf(v.len() as int),
        st.abs(v@) == parse_bluetooth_spec(v@),
{
    let keys = BtKeys::new();
    let ls = lines_of(v);
    let ghost all = lines(v@);
    let mut st = BtScan {
        section: BtSection::Other,
        dev: (0, 0),
        state: (0, 0),
        chipset: (0, 0),
        discoverable: (0, 0),
        connected: Vec::new(),
        known: Vec::new(),
    };
    assert(v@.subrange(0, 0) =~= Seq::<char>::empty());
    assert(st.abs(v@).connected =~= Seq::<(Seq<char>, Seq<char>)>::empty());
    assert(st.abs(v@).known =~= Seq::<Seq<char>>::empty());
    assert(st.abs(v@) == bt_init());
    assert(all.skip(0) =~= all);
    let mut i: usize = 0;
    while i < ls.len()
        invariant
            i <= ls.len(),
            all == span_views(v@, ls@),
            all == lines(v@),
            spans_within(ls@, 0, v.len() as int),
            keys.wf(),
            st.wf(v.len() as int),
            parse_bluetooth_spec(v@) == bt_scan(all.skip(i as int), st.abs(v@)),
        decreases ls.len() - i,
    {
        let (a, b) = ls[i];
        assert(ls@[i as int] == (a, b));
        assert(all.skip(i as int)[0] == v@.subrange(a as int, b as int));
        assert(all.skip(i as int).drop_first() =~= all.skip(i + 1));
        bt_step_exec(v, a, b, &mut st, &keys);
        i += 1;
    }
    st
}

fn device_line_exec(v: &Vec<char>, d: ((usize, usize), (usize, usize))) -> (s: String)
    requires
        span_ok(d.0, v.len() as int),
        span_ok(d.1, v.len() as int),
    ensures
        s@ == device_line(
            (
                v@.subrange(d.0.0 as int, d.0.1 as int),
                v@.subrange(d.1.0 as int, d.1.1 as int),
            ),
        ),
{
    let mut s = String::new();
    s.append("  Connected: ");
    let name = from_chars(v, d.0.0, d.0.1);
    s.append(name.as_str());
    s.append(" (");
    if d.1.0 == d.1.1 {
        s.append("?");
    } else {
        let t = from_chars(v, d.1.0, d.1.1);
        s.append(t.as_str());
    }
    s.append(")");
    s
}

/// The Bluetooth section from system_profiler's report (`None` when it did
/// not run): the controller, connected devices and paired devices; a
/// controller that is not on adds a warning.
pub fn bluetooth(prof: Option<&str>, r: &mut Report) -> (out: Vec<String>)
    ensures
        views(out@) == bluetooth_lines(
            match prof {
                Some(p) => Some(p@),
                None => None,
            },
        ),
        views(final(r).warnings@) == views(old(r).warnings@) + bluetooth_warnings(
            match prof {
                Some(p) => Some(p@),
                None => None,
            },
        ),
        final(r).wifi_connected == old(r).wifi_connected,
        final(r).eth_active == old(r).eth_active,
{
    let ghost pv: Option<Seq<char>> = match prof {
        Some(p) => Some(p@),
        None => None,
    };
    let mut out: Vec<String> = Vec::new();
    let text = match prof {
        Some(p) => p,
        None => {
            let mut s = String::new();
            s.append("  Not available on this Mac");
            out.push(s);
            assert(views(out@) =~= bluetooth_lines(pv));
            assert(views(r.warnings@) =~= views(r.warnings@) + bluetooth_warnings(pv));
            return out;
        },
    };
    let v = to_chars(text);
    let (x, y) = trim_at(&v, 0, v.len());
    assert(v@.subrange(0, v.len() as int) =~= v@);
    if x == y {
        let mut s = String::new();
        s.append("  Not available on this Mac");
        out.push(s);
        assert(views(out@) =~= bluetooth_lines(pv));
        assert(views(r.warnings@) =~= views(r.warnings@) + bluetooth_warnings(pv));
        return out;
    }
    let st = parse_bluetooth(&v);
    let ghost s = st.abs(v@);
    // controller
    let mut c = String::new();
    let state = from_chars(&v, st.state.0, st.state.1);
    let on = to_chars("On");
    let ghost old_w = r.warnings@;
    if eq_at(&v, st.state.0, st.state.1, &on) {
        c.append("  On (");
        let chip = from_chars(&v, st.chipset.0, st.chipset.1);
        c.append(chip.as_str());
        c.append(") — ");
        if eq_at(&v, st.discoverable.0, st.discoverable.1, &on) {
            c.append("discoverable");
        } else {
            c.append("not discoverable");
        }
        assert(views(r.warnings@) =~= views(old_w) + bluetooth_warnings(pv));
    } else {
        c.append("  ");
        c.append(state.as_str());
        let mut w = String::new();
        w.append("Bluetooth is ");
        w.append(state.as_str());
        r.warnings.push(w);
        assert(views(r.warnings@) =~= views(old_w) + bluetooth_warnings(pv));
    }
    out.push(c);
    assert(views(out@) =~= seq![controller_line(s)]);
    // connected devices
    let n = st.connected.len();
    if n == 0 {
        let mut l = String::new();
        l.append("  No devices connected");
        out.push(l);
        assert(views(out@) =~= seq![controller_line(s)] + seq!["  No devices connected"@]);
    } else {
        let mut i: usize = 0;
        while i < n
            invariant
                i <= n == st.connected.len(),
                st.wf(v.len() as int),
                s == st.abs(v@),
                views(out@) == seq![controller_line(s)] + Seq::new(
                    i as nat,
                    |j: int| device_line(s.connected[j]),
                ),
            decreases n - i,
        {
            let d = st.connected[i];
            assert(st.connected@[i as int] == d);
            let line = device_line_exec(&v, d);
            let ghost old_out = out@;
            out.push(line);
            assert(views(out@) =~= seq![controller_line(s)] + Seq::new(
                (i + 1) as nat,
                |j: int| device_line(s.connected[j]),
            )) by {
                assert(views(out@) =~= views(old_out).push(line@));
            }
            i += 1;
        }
    }
    let ghost before_known = views(out@);
    // paired devices
    let k = st.known.len();
    if k > 0 {
        let shown = if k <= 6 {
            k
        } else {
            6
        };
        let mut names: Vec<String> = Vec::new();
        let mut j: usize = 0;
        while j < shown
            invariant
                j <= shown <= k == st.known.len(),
                st.wf(v.len() as int),
                s == st.abs(v@),
                views(names@) == s.known.take(j as int),
            decreases shown - j,
        {
            let (a, b) = st.known[j];
            assert(st.known@[j as int] == (a, b));
            let ghost old_names = names@;
            names.push(from_chars(&v, a, b));
            assert(views(names@) =~= s.known.take(j + 1)) by {
                assert(views(names@) =~= views(old_names).push(v@.subrange(a as int, b as int)));
            }
            j += 1;
        }
        let mut l = String::new();
        l.append("  Also paired: ");
        let joined = join_strings(&names, ", ");
        l.append(joined.as_str());
        if k > 6 {
            l.append(" … and ");
            push_dec(&mut l, (k - 6) as u128);
            l.append(" more");
        } else {
            assert(s.known.take(k as int) =~= s.known);
            assert(l@ =~= l@ + Seq::<char>::empty());
        }
        assert(l@ == paired_line(s.known));
        let ghost old_out = out@;
        out.push(l);
        assert(views(out@) =~= views(old_out).push(l@));
    }
    assert(views(out@) =~= bt_lines(s));
    out
}

} // verus!
