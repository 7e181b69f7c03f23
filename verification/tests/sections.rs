use lib::bluetooth::bluetooth;
use lib::ethernet::{ethernet, ethernet_ports, interface_active, max_link_speed};
use lib::power::{battery_line, battery_health, battery_status, power_source, sleep_line, source_line};
use lib::report::{summary, Report};
use lib::storage::{boot_line, boot_volume_line, reboot_line, smart_lines, uptime_line, boot_time, df_columns, disk_lines, reboot_history, smart_info, uptime_since};
use lib::usage::{chip_name, cpu_line, header_lines, unknown_memory_line, cpu_usage_fields, load_avg_fields, vm_page_size, vm_pages};
use lib::wifi::{ethernet_ip, wifi, wifi_details, wifi_interface, wifi_ip};

const AIRPORT: &str = "Wi-Fi:

      Software Versions:
          CoreWLAN: 16.0 (1657)
      Interfaces:
        en0:
          Card Type: Wi-Fi  (0x14E4, 0x4388)
          Status: Connected
          Current Network Information:
            MyNetwork:
              PHY Mode: 802.11ax
              Channel: 132 (5GHz, 20MHz)
              Country Code: US
              Network Type: Infrastructure
              Security: WPA2 Enterprise
              Signal / Noise: -55 dBm / -94 dBm
              Transmit Rate: 286

              MCS Index: 11
          Other Local Wi-Fi Networks:
            Neighbour:
              PHY Mode: 802.11n
              Signal / Noise: -80 dBm / -94 dBm
";

const PORTS: &str = "
Hardware Port: Ethernet Adapter (en4)
Device: en4
Ethernet Address: aa:bb:cc:dd:ee:01

Hardware Port: Wi-Fi
Device: en0
Ethernet Address: aa:bb:cc:dd:ee:02

Hardware Port: Thunderbolt Bridge
Device: bridge0
Ethernet Address: N/A
";

fn lines_of(v: &[String]) -> Vec<&str> {
    v.iter().map(|s| s.as_str()).collect()
}

fn empty_report() -> Report {
    Report::new()
}

#[test]
fn wifi_details_reads_current_network() {
    let d = wifi_details(AIRPORT).unwrap();
    assert_eq!(d.0, "MyNetwork");
    assert_eq!(d.1, "802.11ax");
    assert_eq!(d.2, "132 (5GHz, 20MHz)");
    assert_eq!(d.3, "WPA2 Enterprise");
    assert_eq!(d.4, -55);
}

#[test]
fn wifi_details_absent_or_cut_short() {
    assert_eq!(wifi_details("Wi-Fi:\n  Interfaces:\n"), None);
    assert_eq!(wifi_details("  Current Network Information:\n"), None);
    let d = wifi_details("Current Network Information:\n  Net:\n  Signal / Noise: loud\n").unwrap();
    assert_eq!(d, ("Net".to_string(), String::new(), String::new(), String::new(), 0));
}

#[test]
fn wifi_interface_from_ports() {
    assert_eq!(wifi_interface(PORTS), "en0");
    assert_eq!(wifi_interface("Hardware Port: Wi-Fi\nDevice: en1\n"), "en1");
    assert_eq!(wifi_interface("Hardware Port: Ethernet\nDevice: en7\n"), "en0");
    assert_eq!(wifi_interface(""), "en0");
}

#[test]
fn inet_lookups_skip_bare_lines() {
    let ifc = "en0: flags=8863<UP>\n\tinet \n\tinet 192.168.1.42 netmask 0xffffff00\n";
    assert_eq!(wifi_ip(ifc).as_deref(), Some("192.168.1.42"));
    assert_eq!(ethernet_ip(ifc).as_deref(), Some("192.168.1.42"));
    assert_eq!(ethernet_ip("\tinet6 fe80::1\n"), None);
    assert_eq!(wifi_ip("status: active\n"), None);
}

#[test]
fn wifi_section_connected() {
    let mut r = empty_report();
    let d = wifi_details(AIRPORT);
    let out = wifi("en0", &d, "192.168.1.42", &mut r);
    assert_eq!(
        lines_of(&out),
        vec![
            "  Connected to \"MyNetwork\" on en0",
            "  Wi-Fi 6 (802.11ax) · 132 (5GHz, 20MHz) · WPA2 Enterprise",
            "  Signal: strong (-55 dBm) · IP 192.168.1.42",
        ]
    );
    assert!(r.wifi_connected);
    assert!(r.warnings.is_empty());
}

#[test]
fn wifi_section_weak_signal_warns() {
    let mut r = empty_report();
    let d = Some(("Cafe".to_string(), "802.11n".to_string(), "6".to_string(), "None".to_string(), -71));
    let out = wifi("en1", &d, "", &mut r);
    assert_eq!(out[2], "  Signal: weak (-71 dBm) · IP n/a");
    assert_eq!(r.warnings, vec!["Wi-Fi signal is weak (-71 dBm)".to_string()]);
    let mut r2 = empty_report();
    let d2 = Some(("Cafe".to_string(), "802.11n".to_string(), "6".to_string(), "None".to_string(), -70));
    wifi("en1", &d2, "", &mut r2);
    assert!(r2.warnings.is_empty());
}

#[test]
fn wifi_section_not_connected() {
    let mut r = empty_report();
    let out = wifi("en0", &None, "", &mut r);
    assert_eq!(lines_of(&out), vec!["  Not connected to any network"]);
    assert!(!r.wifi_connected);
}

#[test]
fn ports_and_link_speed() {
    let ports = ethernet_ports(PORTS);
    assert_eq!(
        ports,
        vec![
            ("Ethernet Adapter (en4)".to_string(), "en4".to_string()),
            ("Thunderbolt Bridge".to_string(), "bridge0".to_string()),
        ]
    );
    let prof = "Ethernet:\n\n    Apple USB Ethernet:\n\n      BSD Device Name: en5\n      Maximum Link Speed: 100 MB/s\n\n    Thunderbolt Ethernet:\n\n      BSD Device Name: en4\n      Type: Ethernet Controller\n      Maximum Link Speed: 1000 MB/s\n";
    assert_eq!(max_link_speed(prof, "en4").as_deref(), Some("1000 MB/s"));
    assert_eq!(max_link_speed(prof, "en5").as_deref(), Some("100 MB/s"));
    assert_eq!(max_link_speed(prof, "en9"), None);
    let closed = "      BSD Device Name: en4\n    Other Adapter:\n      Maximum Link Speed: 10 MB/s\n";
    assert_eq!(max_link_speed(closed, "en4"), None);
    assert!(interface_active("en4: flags\n\tstatus: active\n"));
    assert!(!interface_active("en4: flags\n\tstatus: inactive\n"));
}

#[test]
fn ethernet_section_all_down() {
    let devs: Vec<(String, String)> = ["en4", "en12", "en5", "en7", "bridge0", "en1", "en2", "en3"]
        .iter()
        .map(|d| ("Port".to_string(), d.to_string()))
        .collect();
    let ifcs: Vec<String> = devs.iter().map(|_| "status: inactive\n".to_string()).collect();
    let mut r = empty_report();
    let route = Some("   route to: default\ndestination: default\n    gateway: 192.168.1.1\n  interface: en0\n".to_string());
    let out = ethernet(&devs, &ifcs, "", &route, &mut r);
    assert_eq!(
        lines_of(&out),
        vec![
            "  No active Ethernet connections",
            "  8 ports available but down: en4, en12, en5, en7, bridge0, en1, en2, en3",
            "  Internet goes out via 192.168.1.1 (en0)",
        ]
    );
    assert!(!r.eth_active);
}

#[test]
fn ethernet_section_active_port() {
    let devs = vec![
        ("USB 10/100/1000 LAN".to_string(), "en6".to_string()),
        ("Thunderbolt Bridge".to_string(), "bridge0".to_string()),
    ];
    let ifcs = vec!["\tinet 10.0.0.5 netmask 0xff\n\tstatus: active\n".to_string(), String::new()];
    let prof = "      BSD Device Name: en6\n      Maximum Link Speed: 1 Gbit/s\n";
    let mut r = empty_report();
    let out = ethernet(&devs, &ifcs, prof, &None, &mut r);
    assert_eq!(lines_of(&out), vec!["  USB 10/100/1000 LAN (en6) — active, IP 10.0.0.5, up to 1 Gbit/s"]);
    assert!(r.eth_active);
    let mut r2 = empty_report();
    let out2 = ethernet(&Vec::new(), &Vec::new(), "", &None, &mut r2);
    assert_eq!(lines_of(&out2), vec!["  No Ethernet hardware ports found"]);
}

#[test]
fn ethernet_every_port_listed_once() {
    let devs: Vec<(String, String)> = (0..5).map(|i| (format!("P{}", i), format!("en{}", i))).collect();
    let ifcs: Vec<String> = (0..5)
        .map(|i| if i % 2 == 0 { "status: active".to_string() } else { String::new() })
        .collect();
    let mut r = empty_report();
    let out = ethernet(&devs, &ifcs, "", &None, &mut r);
    assert_eq!(out.len(), 3);
    assert!(out.iter().all(|l| l.contains("— active, IP n/a")));
}

const BLUETOOTH: &str = "Bluetooth:

      Bluetooth Controller:
          Address: AA:BB:CC:DD:EE:FF
          State: On
          Chipset: BCM_4388C2
          Discoverable: Off
      Connected:
          MX Master 3S:
              Address: 11:22:33:44:55:66
              Minor Type: Mouse
          Keyboard K380:
              Address: 11:22:33:44:55:77
      Not Connected:
          DualSense Wireless Controller:
              Address: 01:01:01:01:01:01
          Home Speaker:
              Address: 02:02:02:02:02:02
          Dev 3:
              Address: 03
          Dev 4:
              Address: 04
          Dev 5:
              Address: 05
          Dev 6:
              Address: 06
          Dev 7:
              Address: 07
";

#[test]
fn bluetooth_section() {
    let mut r = empty_report();
    let out = bluetooth(Some(BLUETOOTH), &mut r);
    assert_eq!(
        lines_of(&out),
        vec![
            "  On (BCM_4388C2) — not discoverable",
            "  Connected: MX Master 3S (Mouse)",
            "  Connected: Keyboard K380 (?)",
            "  Also paired: DualSense Wireless Controller, Home Speaker, Dev 3, Dev 4, Dev 5, Dev 6 … and 1 more",
        ]
    );
    assert!(r.warnings.is_empty());
}

#[test]
fn bluetooth_off_or_missing() {
    let mut r = empty_report();
    let out = bluetooth(Some("Bluetooth:\n      Bluetooth Controller:\n          State: Off\n"), &mut r);
    assert_eq!(lines_of(&out), vec!["  Off", "  No devices connected"]);
    assert_eq!(r.warnings, vec!["Bluetooth is Off".to_string()]);
    let mut r2 = empty_report();
    assert_eq!(lines_of(&bluetooth(None, &mut r2)), vec!["  Not available on this Mac"]);
    assert_eq!(lines_of(&bluetooth(Some("  \n "), &mut r2)), vec!["  Not available on this Mac"]);
    assert!(r2.warnings.is_empty());
}

#[test]
fn bluetooth_deep_headings_name_devices() {
    let prof = "        Connected:\n          Pad:\n              Address: 1\n";
    let mut r = empty_report();
    let out = bluetooth(Some(prof), &mut r);
    assert_eq!(lines_of(&out), vec!["  ", "  No devices connected"]);
}

#[test]
fn power_source_and_battery() {
    let batt = "Now drawing from 'AC Power'\n -InternalBattery-0 (id=123)\t80%; AC attached; not charging present: true\n";
    assert_eq!(power_source(batt).as_deref(), Some("AC Power"));
    assert_eq!(source_line(Some("AC Power")).as_deref(), Some("  Plugged in — AC power"));
    assert_eq!(source_line(Some("Battery Power")).as_deref(), Some("  Running on battery"));
    assert_eq!(source_line(Some("UPS Power")), None);
    let (pct, state) = battery_status(batt).unwrap();
    assert_eq!(pct.as_deref(), Some("80"));
    assert_eq!(state, "AC attached; not charging");
    assert_eq!(battery_status("Now drawing from 'AC Power'\n"), None);
}

#[test]
fn sleep_settings_line() {
    let g = "System-wide power settings:\nCurrently in use:\n displaysleep         20\n sleep                0 (sleep prevented by powerd)\n disksleep            0\n";
    assert_eq!(
        sleep_line(g).as_deref(),
        Some("  display sleeps after 20 min · system sleep off (something is preventing it) · disks never sleep")
    );
    assert_eq!(sleep_line(" sleep 1\n").as_deref(), Some("  system sleeps after 1 min"));
    assert_eq!(sleep_line("nothing\n"), None);
}

#[test]
fn battery_health_lines() {
    let mut r = empty_report();
    let out = battery_health("56", "Normal", Some("100%"), &mut r);
    assert_eq!(
        lines_of(&out),
        vec![
            "  Battery health: Normal — 100% of design capacity",
            "  Cycle count: 56 (typical Mac batteries are rated for ~1000 cycles)",
        ]
    );
    assert!(r.warnings.is_empty());
    let out2 = battery_health("1200", "Service Recommended", None, &mut r);
    assert_eq!(out2[0], "  Battery health: Service Recommended");
    assert_eq!(r.warnings, vec!["Battery condition is 'Service Recommended'".to_string()]);
}

#[test]
fn disk_section() {
    let info = "   Device / Media Name:      APPLE SSD AP0512Z\n   Protocol:                 Apple Fabric\n   SMART Status:             Verified\n   Disk Size:                500.3 GB (500277790720 Bytes) (exactly 977105060 512-Byte-Units)\n   Solid State:              Yes\n";
    let mut r = empty_report();
    let out = disk_lines(info, &mut r);
    assert_eq!(
        lines_of(&out),
        vec!["  APPLE SSD AP0512Z — 500.3 GB internal SSD (Apple Fabric)", "  Health: SMART verified ✓"]
    );
    assert!(r.warnings.is_empty());
    let out2 = disk_lines("   SMART Status: Failing\n", &mut r);
    assert_eq!(lines_of(&out2), vec!["  disk0 —  internal disk ()", "  Health: Failing"]);
    assert_eq!(r.warnings, vec!["SSD SMART status is 'Failing'".to_string()]);
}

#[test]
fn smart_counters() {
    let out = "Power On Hours:                     1,985\nPower Cycles:                       245\nPercentage Used:                    2%\nAvailable Spare:                    100%\nData Units Read:                    428,083,309 [219 TB]\nData Units Written:                 101,234,567 [52.0 TB]\nUnsafe Shutdowns:                   5\n";
    let s = smart_info(out).unwrap();
    assert_eq!(s.power_on_hours, "1,985");
    assert_eq!(s.power_cycles, "245");
    assert_eq!(s.percentage_used, "2%");
    assert_eq!(s.available_spare, "100%");
    assert_eq!(s.data_read, "219 TB");
    assert_eq!(s.data_written, "52.0 TB");
    assert_eq!(s.unsafe_shutdowns, "5");
    assert!(smart_info("smartctl: command not found").is_none());
}

#[test]
fn boot_history() {
    let last = "reboot time                                Sat Aug  1 00:49\nreboot time                                Fri Jul 31 09:10\n\nwtmp begins Mon Jan  1 00:00\n";
    assert_eq!(reboot_history(last), Some((2, "Sat Aug 1 00:49".to_string())));
    assert_eq!(reboot_history("wtmp begins\n"), None);
    assert_eq!(
        boot_time("{ sec = 1785545360, usec = 0 } Sat Aug  1 00:49:20 2026\n").as_deref(),
        Some("Sat Aug  1 00:49:20 2026")
    );
    assert_eq!(boot_time("1785545360"), None);
    assert_eq!(
        uptime_since("10:23  up 26 days, 14:34, 2 users, load averages: 2.20 2.80 2.70\n").as_deref(),
        Some("26 days, 14:34")
    );
    assert_eq!(uptime_since("10:23  up 5 mins, 1 user").as_deref(), Some("5 mins, 1 user"));
    assert_eq!(uptime_since("no uptime"), None);
}

#[test]
fn boot_volume_columns() {
    let df = "Filesystem       Size   Used  Avail Capacity iused ifree %iused  Mounted on\n/dev/disk3s1s1   494G    13G   113G    11%    453k  1.1G    0%   /\n";
    let cols = df_columns(df).unwrap();
    assert_eq!(&cols[1..5], &["494G", "13G", "113G", "11%"]);
    assert_eq!(df_columns("Filesystem Size\n"), None);
    assert_eq!(df_columns("a\nb c d e\n"), None);
}

#[test]
fn cpu_and_memory_numbers() {
    let top = "Processes: 500 total\nLoad Avg: 2.20, 2.80, 2.70\nCPU usage: 6.25% user, 11.36% sys, 82.38% idle\n";
    assert_eq!(
        cpu_usage_fields(top),
        Some(vec![Some("6.25".to_string()), Some("11.36".to_string()), Some("82.38".to_string())])
    );
    assert_eq!(
        load_avg_fields(top),
        Some(vec!["2.20".to_string(), "2.80".to_string(), "2.70".to_string()])
    );
    assert_eq!(cpu_usage_fields("CPU usage: 5%, %\n"), Some(vec![Some("5".to_string()), None]));
    assert_eq!(cpu_usage_fields("nothing"), None);
    assert_eq!(load_avg_fields("Load Avg\n"), None);
    let vm = "Mach Virtual Memory Statistics: (page size of 16384 bytes)\nPages free:                               12345.\nPages active:                            678.\n";
    assert_eq!(vm_page_size(vm), None);
    assert_eq!(vm_page_size("page size of 4096 bytes.\n").as_deref(), Some("4096"));
    assert_eq!(vm_pages(vm, "Pages free").as_deref(), Some("12345"));
    assert_eq!(vm_pages(vm, "Pages active").as_deref(), Some("678"));
    assert_eq!(vm_pages(vm, "Pages wired down"), None);
}

#[test]
fn summary_all_good_or_listed() {
    let mut r = empty_report();
    r.wifi_connected = true;
    assert_eq!(lines_of(&summary(&r)), vec!["  All good ✓ — nothing needs attention."]);
    r.warnings.push("Memory pressure is high — only 0.2 GB free of 16 GB".to_string());
    assert_eq!(
        lines_of(&summary(&r)),
        vec!["  1 thing worth a look:", "  ⚠ Memory pressure is high — only 0.2 GB free of 16 GB"]
    );
    let mut r2 = empty_report();
    r2.warnings.push("A".to_string());
    assert_eq!(
        lines_of(&summary(&r2)),
        vec![
            "  2 things worth a look:",
            "  ⚠ A",
            "  ⚠ No network connection (Wi-Fi not associated, no active Ethernet)",
        ]
    );
}

#[test]
fn signal_text_boundaries() {
    let d = wifi_details("Current Network Information:\n  N:\n  Signal / Noise: -2147483648 dBm\n").unwrap();
    assert_eq!(d.4, i32::MIN);
    let mut r = empty_report();
    let out = wifi("en0", &Some(d), "", &mut r);
    assert_eq!(out[2], "  Signal: very weak (-2147483648 dBm) · IP n/a");
    let d2 = wifi_details("Current Network Information:\n  N:\n  Signal / Noise: 2147483648 dBm\n").unwrap();
    assert_eq!(d2.4, 0);
    let d3 = wifi_details("Current Network Information:\n  N:\n  Signal / Noise: +42\n").unwrap();
    assert_eq!(d3.4, 42);
}

#[test]
fn crlf_lines_and_block_end() {
    let prof = "Current Network Information:\r\n  Home:\r\n  Channel: 6\r\n  Other Local Wi-Fi Networks:\r\n  Channel: 11\r\n";
    let d = wifi_details(prof).unwrap();
    assert_eq!(d.0, "Home");
    assert_eq!(d.2, "6");
}

#[test]
fn bluetooth_indent_counts_bytes() {
    let nbsp = '\u{a0}';
    let three: String = std::iter::repeat(nbsp).take(3).collect();
    let four: String = std::iter::repeat(nbsp).take(4).collect();
    let prof = format!("{}Connected:\n{}Pad:\n          Address: 1\n", three, four);
    let mut r = empty_report();
    let out = bluetooth(Some(&prof), &mut r);
    assert_eq!(out[1], "  Connected: Pad (?)");
    let prof2 = format!("{}Connected:\n        Pad:\n          Address: 1\n", four);
    let out2 = bluetooth(Some(&prof2), &mut r);
    assert_eq!(out2[1], "  No devices connected");
}

#[test]
fn header_and_small_lines() {
    assert_eq!(chip_name("Apple M4\n", "Mac16,1\n"), "Apple M4");
    assert_eq!(chip_name(" \n", "Mac16,1\n"), "Mac16,1");
    assert_eq!(
        lines_of(&header_lines("MacBook-Pro\n", "26.5.2\n", "arm64\n", "Apple M4", 10, 17179869184)),
        vec!["  MacBook-Pro · macOS 26.5.2 (arm64)", "  Apple M4 · 10 cores · 16.0 GB RAM"]
    );
    assert_eq!(cpu_line("Apple M4", 10), "  Apple M4 — 10 cores");
    assert_eq!(unknown_memory_line(0).as_deref(), Some("  (unknown)"));
    assert_eq!(unknown_memory_line(1), None);
    let s = smart_info("Power On Hours: 1,985\nPower Cycles: 245\nPercentage Used: 2%\nAvailable Spare: 100%\nData Units Read: 1 [219 TB]\nData Units Written: 2 [52.0 TB]\nUnsafe Shutdowns: 5\n");
    assert_eq!(
        lines_of(&smart_lines(&s, 83)),
        vec![
            "  Power on: 1,985 hours (~83 days) · Power cycles: 245",
            "  Wear: 2% of rated life used · Spare capacity 100%",
            "  Data moved: 219 TB read · 52.0 TB written · Unsafe shutdowns: 5",
        ]
    );
    assert_eq!(
        lines_of(&smart_lines(&None, 0)),
        vec!["  (Power-on hours & wear: install smartmontools — brew install smartmontools)"]
    );
    assert_eq!(
        reboot_line("reboot time    Sat Aug  1 00:49\n").as_deref(),
        Some("  Reboots: 1 on record (last: Sat Aug 1 00:49)")
    );
    assert_eq!(boot_line("{ sec = 1 } Sat Aug  1 00:49:20 2026").as_deref(), Some("  Current boot: Sat Aug  1 00:49:20 2026"));
    assert_eq!(uptime_line("10:23  up 26 days, 14:34, 2 users").as_deref(), Some("  Up for 26 days, 14:34"));
    assert_eq!(
        boot_volume_line("Filesystem Size Used Avail Capacity\n/dev/disk3s1s1 494G 13G 113G 11%\n").as_deref(),
        Some("  Boot volume: 13G used of 494G — 113G free")
    );
    assert_eq!(
        battery_line(" -InternalBattery-0 (id=1)\t80%; AC attached; not charging present: true\n", 80),
        "  Battery: 80% — AC attached; not charging"
    );
    assert_eq!(battery_line("Now drawing from 'AC Power'\n", 0), "  No battery (desktop Mac)");
}

#[test]
fn wifi_details_take_last_key_in_block() {
    let prof = "Current Network Information:\n  Net:\n    Channel: 1\n    Channel: 11 \n    Signal / Noise: -60 dBm\n    Signal / Noise: -40 dBm\n  Other Local Wi-Fi Networks:\n    Channel: 36\n    Security: WPA3\n";
    let d = wifi_details(prof).unwrap();
    assert_eq!(d.2, "11");
    assert_eq!(d.4, -40);
    assert_eq!(d.1, "");
    assert_eq!(d.3, "");
}
