//! The state that the sections share, and the closing summary.
use vstd::prelude::*;
use crate::text::views;
use crate::number::{dec, push_dec};

verus! {

/// Shared state so the summary can cross-check sections.
pub struct Report {
    pub warnings: Vec<String>,
    pub wifi_connected: bool,
    pub eth_active: bool,
}

impl Report {
    /// A report with no warnings and no network seen yet.
    pub fn new() -> (r: Report)
        ensures
            r.warnings@.len() == 0,
            !r.wifi_connected,
            !r.eth_active,
    {
        Report { warnings: Vec::new(), wifi_connected: false, eth_active: false }
    }
}

/// The warning added when neither Wi-Fi nor Ethernet is up.
pub open spec fn no_network_warning() -> Seq<char> {
    "No network connection (Wi-Fi not associated, no active Ethernet)"@
}

/// The warnings the summary lists: the sections' own, then the network one
/// when no network is up.
pub open spec fn summary_warnings(warnings: Seq<Seq<char>>, wifi: bool, eth: bool) -> Seq<
    Seq<char>,
> {
    if !wifi && !eth {
        warnings.push(no_network_warning())
    } else {
        warnings
    }
}

/// `"  {n} thing(s) worth a look:"`
pub open spec fn summary_heading(n: nat) -> Seq<char> {
    "  "@ + dec(n) + " thing"@ + (if n == 1 {
        Seq::empty()
    } else {
        "s"@
    }) + " worth a look:"@
}

/// `"  ⚠ {w}"`
pub open spec fn warning_line(w: Seq<char>) -> Seq<char> {
    "  ⚠ "@ + w
}

pub open spec fn all_good_line() -> Seq<char> {
    "  All good ✓ — nothing needs attention."@
}

/// The summary section's lines.
pub open spec fn summary_lines(warnings: Seq<Seq<char>>, wifi: bool, eth: bool) -> Seq<
    Seq<char>,
> {
    let ws = summary_warnings(warnings, wifi, eth);
    if ws.len() == 0 {
        seq![all_good_line()]
    } else {
        seq![summary_heading(ws.len())] + Seq::new(ws.len(), |i: int| warning_line(ws[i]))
    }
}

/// Law: the summary lists every warning of the sections, in order, then the
/// network warning when neither Wi-Fi nor Ethernet is up, under a heading
/// that counts them; with none to list it says "All good" alone.
pub proof fn lemma_summary_lists_warnings(warnings: Seq<Seq<char>>, wifi: bool, eth: bool)
    ensures
        ({
            let ws = summary_warnings(warnings, wifi, eth);
            let out = summary_lines(warnings, wifi, eth);
            &&& ws.len() == warnings.len() + (if !wifi && !eth {
                1int
            } else {
                0
            })
            &&& forall|i: int| 0 <= i < warnings.len() ==> ws[i] == warnings[i]
            &&& (!wifi && !eth) ==> ws.last() == no_network_warning()
            &&& ws.len() == 0 ==> out == seq![all_good_line()]
            &&& ws.len() > 0 ==> {
                &&& out.len() == ws.len() + 1
                &&& out[0] == summary_heading(ws.len())
                &&& forall|i: int| 0 <= i < ws.len() ==> out[i + 1] == warning_line(ws[i])
            }
        }),
{
}

/// Law: "All good" is the summary exactly when no section warned and some
/// network is up.
pub proof fn lemma_all_good(warnings: Seq<Seq<char>>, wifi: bool, eth: bool)
    ensures
        (summary_warnings(warnings, wifi, eth).len() == 0) <==> (warnings.len() == 0 && (wifi
            || eth)),
        (warnings.len() == 0 && (wifi || eth)) ==> summary_lines(warnings, wifi, eth) == seq![
            all_good_line(),
        ],
{
}

fn warning_line_exec(w: &str) -> (s: String)
    ensures
        s@ == warning_line(w@),
{
    let mut s = String::new();
    s.append("  ⚠ ");
    s.append(w);
    s
}

/// The summary: "All good" or the count of warnings and each of them.
pub fn summary(r: &Report) -> (out: Vec<String>)
    ensures
        views(out@) == summary_lines(views(r.warnings@), r.wifi_connected, r.eth_active),
{
    let ghost ws = summary_warnings(views(r.warnings@), r.wifi_connected, r.eth_active);
    let no_net = !r.wifi_connected && !r.eth_active;
    let n = r.warnings.len();
    let mut out: Vec<String> = Vec::new();
    if n == 0 && !no_net {
        let mut s = String::new();
        s.append("  All good ✓ — nothing needs attention.");
        out.push(s);
        assert(views(out@) =~= summary_lines(
            views(r.warnings@),
            r.wifi_connected,
            r.eth_active,
        ));
        return out;
    }
    let total: u128 = if no_net {
        n as u128 + 1
    } else {
        n as u128
    };
    let mut h = String::new();
    h.append("  ");
    push_dec(&mut h, total);
    h.append(" thing");
    if total == 1 {
        assert(h@ =~= h@ + Seq::<char>::empty());
    } else {
        h.append("s");
    }
    h.append(" worth a look:");
    out.push(h);
    let mut i: usize = 0;
    while i < n
        invariant
            n == r.warnings.len(),
            ws == summary_warnings(views(r.warnings@), r.wifi_connected, r.eth_active),
            i <= n,
            out.len() == i + 1,
            views(out@)[0] == summary_heading(ws.len()),
            forall|j: int| 0 <= j < i ==> #[trigger] views(out@)[j + 1] == warning_line(ws[j]),
        decreases n - i,
    {
        let line = warning_line_exec(r.warnings[i].as_str());
        let ghost old_out = out@;
        out.push(line);
        assert forall|j: int| 0 <= j < i + 1 implies #[trigger] views(out@)[j + 1]
            == warning_line(ws[j]) by {
            if j < i {
                assert(views(old_out)[j + 1] == views(out@)[j + 1]);
            }
        }
        i += 1;
    }
    if no_net {
        let mut s = String::new();
        s.append("  ⚠ ");
        s.append("No network connection (Wi-Fi not associated, no active Ethernet)");
        let ghost old_out = out@;
        out.push(s);
        assert forall|j: int| 0 <= j < n + 1 implies #[trigger] views(out@)[j + 1]
            == warning_line(ws[j]) by {
            if j < n {
                assert(views(old_out)[j + 1] == views(out@)[j + 1]);
            }
        }
    }
    assert(views(out@) =~= summary_lines(views(r.warnings@), r.wifi_connected, r.eth_active))
        by {
        let sl = summary_lines(views(r.warnings@), r.wifi_connected, r.eth_active);
        assert forall|j: int| 0 <= j < sl.len() implies #[trigger] views(out@)[j] == sl[j] by {
            if j > 0 {
                assert(views(out@)[(j - 1) + 1] == warning_line(ws[j - 1]));
            }
        }
    }
    out
}

} // verus!
