use cnterminal::config::{parse_config, AppConfig, DisplayMode, LineEnding, SendMode};
use cnterminal::console::{
    default_log_name, line_marker, shows_timestamp, ConsoleLine, LineKind, Outgoing, Terminal, WorkerEvent,
    HISTORY_MAX, MAX_LINES, NANOS_PER_MILLI, RX_FLUSH_LIMIT,
};

fn fresh() -> Terminal {
    Terminal::new(AppConfig::empty(), Ok(vec![]))
}

fn connected_terminal() -> Terminal {
    let mut t = fresh();
    t.selected_port = "COM3".to_string();
    assert_eq!(t.connect(), Some(115200));
    assert!(!t.apply_events(vec![WorkerEvent::Connected], false, 0));
    assert!(t.connected);
    t
}

fn texts(t: &Terminal) -> Vec<(LineKind, Vec<u8>, String)> {
    t.lines.iter().map(|l| (l.kind, l.raw.clone(), l.text.clone())).collect()
}

fn is_clock(ts: &str) -> bool {
    let c: Vec<char> = ts.chars().collect();
    c.len() == 12
        && c[2] == ':'
        && c[5] == ':'
        && c[8] == '.'
        && c.iter().enumerate().all(|(i, ch)| i == 2 || i == 5 || i == 8 || ch.is_ascii_digit())
}

#[test]
fn start_up_defaults() {
    let t = fresh();
    assert_eq!(t.baud_text, "115200");
    assert_eq!(t.selected_port, "");
    assert_eq!(t.conn_info, "Disconnected");
    assert!(!t.connected);
    assert_eq!(t.display_mode, DisplayMode::Ascii);
    assert!(t.show_ts && t.auto_scroll && t.dtr_on);
    assert_eq!(t.rx_idle_ms, 0);
    assert_eq!(t.rx_idle_ms_text, "0");
    assert_eq!(t.line_ending, LineEnding::CrLf);
    assert_eq!(t.send_mode, SendMode::Text);
    assert_eq!((t.rx_bytes, t.tx_bytes, t.line_count), (0, 0, 0));
    assert_eq!(t.lines.len(), 1);
    assert_eq!(t.lines[0].kind, LineKind::Sys);
    assert_eq!(t.lines[0].text, "Ready. Select a port and click [Connect].");
    assert!(is_clock(&t.lines[0].ts));
}

#[test]
fn start_up_from_config() {
    let cfg = parse_config(
        "baud=500000\nport=COM7\ndisplay_mode=hex\nshow_ts=false\nauto_scroll=no\nline_ending=lf\ndtr=off\nsend_mode=hex\nrx_idle_ms=25\ncustom_baud=500000\nhistory=AT\n",
    );
    let t = Terminal::new(cfg, Ok(vec!["COM1".to_string(), "COM7".to_string()]));
    assert_eq!(t.baud_text, "500000");
    assert_eq!(t.selected_port, "COM7");
    assert_eq!(t.display_mode, DisplayMode::Hex);
    assert!(!t.show_ts && !t.auto_scroll && !t.dtr_on);
    assert_eq!(t.line_ending, LineEnding::Lf);
    assert_eq!(t.send_mode, SendMode::Hex);
    assert_eq!(t.rx_idle_ms, 25);
    assert_eq!(t.rx_idle_ms_text, "25");
    assert_eq!(t.custom_bauds, vec![500000]);
    assert_eq!(t.history, vec!["AT".to_string()]);
}

#[test]
fn console_is_capped() {
    let mut t = fresh();
    for i in 0..6000 {
        t.push_sys(format!("msg {i}"));
    }
    assert_eq!(t.lines.len(), MAX_LINES);
    assert_eq!(t.lines[0].text, "msg 1000");
    assert_eq!(t.lines[MAX_LINES - 1].text, "msg 5999");
    assert_eq!(t.line_count, 0);
    t.push_rx_line(b"x".to_vec());
    t.push_tx_line(b"y".to_vec());
    t.push_err("bad".to_string());
    assert_eq!(t.lines.len(), MAX_LINES);
    assert_eq!(t.line_count, 2);
    assert_eq!(t.lines[MAX_LINES - 1].kind, LineKind::Error);
    assert_eq!(t.lines[MAX_LINES - 3].text, "x");
}

#[test]
fn clear_console_resets_lines() {
    let mut t = fresh();
    t.push_rx_line(b"abc".to_vec());
    t.clear_console();
    assert!(t.lines.is_empty());
    assert_eq!(t.line_count, 0);
}

#[test]
fn rx_lines_split_on_newline() {
    let mut t = fresh();
    t.ingest_rx(b"hello\r\nwor".to_vec(), 7);
    assert_eq!(t.lines.len(), 2);
    assert_eq!(t.lines[1].kind, LineKind::Rx);
    assert_eq!(t.lines[1].raw, b"hello".to_vec());
    assert_eq!(t.lines[1].text, "hello");
    assert_eq!(t.rx_partial, b"wor".to_vec());
    assert_eq!(t.last_rx_at, Some(7));
    t.ingest_rx(b"ld\n\n\r\n".to_vec(), 9);
    assert_eq!(t.lines.len(), 5);
    assert_eq!(t.lines[2].raw, b"world".to_vec());
    assert_eq!(t.lines[3].raw, Vec::<u8>::new());
    assert_eq!(t.lines[4].raw, Vec::<u8>::new());
    assert!(t.rx_partial.is_empty());
    assert_eq!(t.rx_bytes, 16);
    assert_eq!(t.line_count, 4);
}

#[test]
fn rx_only_one_cr_is_dropped() {
    let mut t = fresh();
    t.ingest_rx(b"a\r\r\n".to_vec(), 0);
    assert_eq!(t.lines[1].raw, b"a\r".to_vec());
}

#[test]
fn rx_chunking_does_not_matter() {
    let data = b"one\r\ntwo\nthree\r\nfour";
    let mut whole = fresh();
    whole.ingest_rx(data.to_vec(), 0);
    let mut pieces = fresh();
    for b in data.iter() {
        pieces.ingest_rx(vec![*b], 0);
    }
    assert_eq!(texts(&whole), texts(&pieces));
    assert_eq!(whole.rx_partial, pieces.rx_partial);
    assert_eq!(whole.rx_partial, b"four".to_vec());
    assert_eq!(whole.line_count, pieces.line_count);
    assert_eq!(whole.rx_bytes, pieces.rx_bytes);
}

#[test]
fn long_partial_line_is_flushed() {
    let mut t = fresh();
    t.ingest_rx(vec![b'x'; RX_FLUSH_LIMIT], 0);
    assert_eq!(t.lines.len(), 1);
    assert_eq!(t.rx_partial.len(), RX_FLUSH_LIMIT);
    t.ingest_rx(b"y".to_vec(), 0);
    assert_eq!(t.lines.len(), 2);
    assert_eq!(t.lines[1].raw.len(), RX_FLUSH_LIMIT + 1);
    assert!(t.rx_partial.is_empty());
}

#[test]
fn idle_split_after_silence() {
    let mut t = fresh();
    t.rx_idle_ms = 2;
    t.ingest_rx(vec![0x02, 0x41, 0x03], 1_000);
    assert_eq!(t.idle_wakeup_ms(), Some(2));
    t.maybe_idle_split(1_000 + NANOS_PER_MILLI);
    assert_eq!(t.lines.len(), 1);
    assert_eq!(t.last_rx_at, Some(1_000));
    t.maybe_idle_split(1_000 + 2 * NANOS_PER_MILLI);
    assert_eq!(t.lines.len(), 2);
    assert_eq!(t.lines[1].raw, vec![0x02, 0x41, 0x03]);
    assert!(t.rx_partial.is_empty());
    assert_eq!(t.last_rx_at, None);
    assert_eq!(t.idle_wakeup_ms(), None);
}

#[test]
fn idle_split_disabled_or_clock_behind() {
    let mut t = fresh();
    t.ingest_rx(b"abc".to_vec(), 50);
    t.maybe_idle_split(u64::MAX);
    assert_eq!(t.rx_partial, b"abc".to_vec());
    assert_eq!(t.idle_wakeup_ms(), None);
    t.rx_idle_ms = 1;
    t.maybe_idle_split(10);
    assert_eq!(t.rx_partial, b"abc".to_vec());
    assert_eq!(t.last_rx_at, Some(50));
}

#[test]
fn idle_split_with_nothing_pending_stops_waiting() {
    let mut t = fresh();
    t.rx_idle_ms = 5;
    t.ingest_rx(b"line\n".to_vec(), 0);
    t.maybe_idle_split(5 * NANOS_PER_MILLI);
    assert_eq!(t.lines.len(), 2);
    assert_eq!(t.last_rx_at, None);
}

#[test]
fn worker_events_in_order() {
    let mut t = connected_terminal();
    assert_eq!(t.lines.back().unwrap().text, "── Connected: COM3 @ 115200 baud ──");
    let done = t.apply_events(
        vec![
            WorkerEvent::Data(b"A\nB".to_vec()),
            WorkerEvent::Error("Read error: x".to_string()),
            WorkerEvent::Disconnected,
        ],
        false,
        3,
    );
    assert!(done);
    assert!(!t.connected);
    assert_eq!(t.conn_info, "Disconnected");
    let n = t.lines.len();
    assert_eq!(t.lines[n - 4].raw, b"A".to_vec());
    assert_eq!(t.lines[n - 3].kind, LineKind::Error);
    assert_eq!(t.lines[n - 3].text, "Read error: x");
    assert_eq!(t.lines[n - 2].raw, b"B".to_vec());
    assert_eq!(t.lines[n - 1].text, "── Disconnected ──");
    assert!(t.rx_partial.is_empty());
}

#[test]
fn worker_channel_closed() {
    let mut t = connected_terminal();
    assert!(t.apply_events(vec![], true, 0));
    assert!(!t.connected);
    assert_eq!(t.conn_info, "Disconnected");
    assert_eq!(t.lines.back().unwrap().kind, LineKind::Error);
    assert_eq!(t.lines.back().unwrap().text, "Worker thread terminated.");
    let before = t.lines.len();
    assert!(t.apply_events(vec![], true, 0));
    assert_eq!(t.lines.len(), before);
    assert!(!t.apply_events(vec![], false, 0));
}

#[test]
fn connect_checks_settings() {
    let mut t = fresh();
    assert_eq!(t.connect(), None);
    assert_eq!(t.lines.back().unwrap().text, "Select a port first.");
    t.selected_port = "COM1".to_string();
    t.baud_text = "fast".to_string();
    assert_eq!(t.connect(), None);
    assert_eq!(t.lines.back().unwrap().text, "Baud rate is not a number: 'fast'");
    t.baud_text = " 0 ".to_string();
    assert_eq!(t.connect(), None);
    assert_eq!(t.lines.back().unwrap().text, "Baud rate must be 1 or higher.");
    t.baud_text = "99999999999".to_string();
    assert_eq!(t.connect(), None);
    assert_eq!(t.lines.back().unwrap().kind, LineKind::Error);
}

#[test]
fn connect_remembers_custom_bauds() {
    let mut t = fresh();
    t.selected_port = "COM3".to_string();
    t.baud_text = " 500000 ".to_string();
    assert_eq!(t.connect(), Some(500000));
    assert_eq!(t.conn_info, "COM3 @ 500000 baud");
    t.baud_text = "250000".to_string();
    assert_eq!(t.connect(), Some(250000));
    t.baud_text = "500000".to_string();
    assert_eq!(t.connect(), Some(500000));
    t.baud_text = "9600".to_string();
    assert_eq!(t.connect(), Some(9600));
    assert_eq!(t.custom_bauds, vec![250000, 500000]);
    t.remove_custom_baud(250000);
    assert_eq!(t.custom_bauds, vec![500000]);
    t.remove_custom_baud(1);
    assert_eq!(t.custom_bauds, vec![500000]);
}

#[test]
fn ports_are_sorted_and_selected() {
    let mut t = fresh();
    t.refresh_ports(Ok(vec!["COM3".to_string(), "COM10".to_string(), "/dev/ttyUSB0".to_string()]));
    assert_eq!(t.ports, vec!["/dev/ttyUSB0".to_string(), "COM10".to_string(), "COM3".to_string()]);
    assert_eq!(t.selected_port, "/dev/ttyUSB0");
    t.selected_port = "COM3".to_string();
    t.refresh_ports(Ok(vec!["COM3".to_string(), "COM1".to_string()]));
    assert_eq!(t.selected_port, "COM3");
    t.refresh_ports(Ok(vec![]));
    assert_eq!(t.selected_port, "");
    assert!(t.ports.is_empty());
}

#[test]
fn failed_port_listing() {
    let mut t = fresh();
    t.refresh_ports(Ok(vec!["COM1".to_string()]));
    t.refresh_ports(Err("permission denied".to_string()));
    assert_eq!(t.ports, vec!["COM1".to_string()]);
    assert_eq!(t.lines.back().unwrap().kind, LineKind::Error);
    assert_eq!(t.lines.back().unwrap().text, "Failed to list ports: permission denied");
    let mut cfg = AppConfig::empty();
    cfg.port = Some("COM9".to_string());
    let t = Terminal::new(cfg, Err("no access".to_string()));
    assert_eq!(t.selected_port, "COM9");
    assert_eq!(t.lines.len(), 2);
    assert_eq!(t.lines[0].text, "Failed to list ports: no access");
    assert_eq!(t.lines[1].text, "Ready. Select a port and click [Connect].");
}

#[test]
fn send_failures_are_reported() {
    let mut t = fresh();
    t.report_send_failure(true);
    assert_eq!(t.lines.back().unwrap().text, "Send failed: worker disconnected");
    t.report_send_failure(false);
    assert_eq!(t.lines.back().unwrap().text, "Send failed: not connected");
    assert_eq!(t.lines.back().unwrap().kind, LineKind::Error);
}

#[test]
fn nothing_is_sent_while_disconnected() {
    let mut t = fresh();
    t.send_text = "AT".to_string();
    assert!(t.prepare_send().is_none());
    assert_eq!(t.lines.len(), 1);
}

#[test]
fn text_send_adds_line_ending() {
    let mut t = connected_terminal();
    t.send_text = "A00".to_string();
    let out = t.prepare_send().unwrap();
    assert_eq!(out.payload, b"A00\r\n".to_vec());
    assert_eq!(out.log, b"A00".to_vec());
    // Line breaks typed at the end are sent as typed, before the ending.
    t.send_text = "AT\n".to_string();
    let out = t.prepare_send().unwrap();
    assert_eq!(out.payload, b"AT\n\r\n".to_vec());
    assert_eq!(out.log, b"AT\n".to_vec());
    t.line_ending = LineEnding::Lf;
    t.send_text = "temp=25.3".to_string();
    let out = t.prepare_send().unwrap();
    assert_eq!(out.payload, b"temp=25.3\n".to_vec());
}

#[test]
fn empty_send_without_ending_is_skipped() {
    let mut t = connected_terminal();
    t.line_ending = LineEnding::NoEnding;
    t.send_text = String::new();
    assert!(t.prepare_send().is_none());
    t.send_text = "\r\n".to_string();
    assert_eq!(t.prepare_send().unwrap().payload, b"\r\n".to_vec());
    t.send_mode = SendMode::Hex;
    t.send_text = " ".to_string();
    assert!(t.prepare_send().is_none());
    t.line_ending = LineEnding::Cr;
    let out = t.prepare_send().unwrap();
    assert_eq!(out.payload, vec![0x0D]);
}

#[test]
fn hex_send_and_parse_error() {
    let mut t = connected_terminal();
    t.send_mode = SendMode::Hex;
    t.line_ending = LineEnding::NoEnding;
    t.send_text = "02 41 35 30 30 03".to_string();
    let out = t.prepare_send().unwrap();
    assert_eq!(out.payload, vec![0x02, 0x41, 0x35, 0x30, 0x30, 0x03]);
    assert_eq!(out.log, out.payload);
    t.send_text = "AA ZZ".to_string();
    let before = t.lines.len();
    assert!(t.prepare_send().is_none());
    assert_eq!(t.lines.len(), before + 1);
    assert_eq!(t.lines.back().unwrap().text, "Hex parse error: Unexpected character 'Z'");
    assert_eq!(t.send_text, "AA ZZ");
}

#[test]
fn recording_a_send() {
    let mut t = connected_terminal();
    t.send_text = "  AT+GMR \n".to_string();
    let out = t.prepare_send().unwrap();
    let payload_len = out.payload.len() as u64;
    t.record_sent(out);
    assert_eq!(t.tx_bytes, payload_len);
    assert_eq!(t.lines.back().unwrap().kind, LineKind::Tx);
    assert_eq!(t.lines.back().unwrap().raw, b"  AT+GMR \n".to_vec());
    assert_eq!(t.history, vec!["AT+GMR".to_string()]);
    assert_eq!(t.send_text, "  AT+GMR \n");
}

#[test]
fn history_moves_to_front_and_is_capped() {
    let mut t = connected_terminal();
    for i in 0..60 {
        t.send_text = format!("cmd{i}");
        let out = t.prepare_send().unwrap();
        t.record_sent(out);
    }
    assert_eq!(t.history.len(), HISTORY_MAX);
    assert_eq!(t.history[0], "cmd59");
    assert_eq!(t.history[HISTORY_MAX - 1], "cmd10");
    t.send_text = "cmd30".to_string();
    let out = t.prepare_send().unwrap();
    t.record_sent(out);
    assert_eq!(t.history.len(), HISTORY_MAX);
    assert_eq!(t.history[0], "cmd30");
    assert_eq!(t.history.iter().filter(|h| h.as_str() == "cmd30").count(), 1);
    assert_eq!(t.history[1], "cmd59");
}

#[test]
fn blank_send_leaves_history() {
    let mut t = connected_terminal();
    t.history = vec!["AT".to_string()];
    t.record_sent(Outgoing { payload: b"\r\n".to_vec(), log: vec![] });
    assert_eq!(t.history, vec!["AT".to_string()]);
    assert_eq!(t.tx_bytes, 2);
}

#[test]
fn preview_shows_wire_bytes() {
    let mut t = fresh();
    t.send_text = "A00".to_string();
    let p = t.send_preview();
    assert_eq!(p.error, None);
    assert_eq!(p.bytes, 5);
    assert_eq!(p.ascii, "A00\\r\\n");
    assert_eq!(p.hex, "41 30 30 0D 0A");
}

#[test]
fn preview_of_nothing() {
    let mut t = fresh();
    t.line_ending = LineEnding::NoEnding;
    let p = t.send_preview();
    assert_eq!((p.ascii.as_str(), p.hex.as_str(), p.bytes), ("(empty)", "(empty)", 0));
    t.send_mode = SendMode::Hex;
    t.line_ending = LineEnding::Lf;
    t.send_text = "  ".to_string();
    let p = t.send_preview();
    assert_eq!((p.ascii.as_str(), p.hex.as_str(), p.bytes), ("\\n", "0A", 1));
}

#[test]
fn preview_error_and_long_payload() {
    let mut t = fresh();
    t.send_mode = SendMode::Hex;
    t.send_text = "0x1".to_string();
    let p = t.send_preview();
    assert_eq!(p.error, Some("Token '1' has an odd number of hex digits (need pairs)".to_string()));
    assert_eq!((p.ascii.as_str(), p.hex.as_str(), p.bytes), ("", "", 0));
    t.send_mode = SendMode::Text;
    t.line_ending = LineEnding::NoEnding;
    t.send_text = "z".repeat(100);
    let p = t.send_preview();
    assert_eq!(p.bytes, 100);
    assert_eq!(p.ascii, "z".repeat(100));
    assert_eq!(p.hex.chars().count(), 299);
}

#[test]
fn preview_matches_what_is_sent() {
    let mut t = connected_terminal();
    for (mode, text, ending) in [
        (SendMode::Text, "hello\n", LineEnding::CrLf),
        (SendMode::Text, "", LineEnding::Cr),
        (SendMode::Hex, "0xAA,0x55", LineEnding::Lf),
        (SendMode::Hex, "01 02", LineEnding::NoEnding),
    ] {
        t.send_mode = mode;
        t.send_text = text.to_string();
        t.line_ending = ending;
        let p = t.send_preview();
        let out = t.prepare_send().unwrap();
        assert_eq!(p.bytes, out.payload.len());
        assert_eq!(p.hex, cnterminal::codec::hex_from_bytes(&out.payload));
        assert_eq!(p.ascii, cnterminal::codec::escape_preview_bytes(&out.payload));
    }
}

#[test]
fn line_bodies_follow_display_mode() {
    let rx = ConsoleLine { kind: LineKind::Rx, ts: String::new(), raw: vec![0x41, 0xFF, 0x0A], text: String::new() };
    assert_eq!(rx.body(DisplayMode::Ascii), "A\u{FFFD}\n");
    assert_eq!(rx.body(DisplayMode::Hex), "41 FF 0A");
    let sys = ConsoleLine { kind: LineKind::Sys, ts: String::new(), raw: vec![], text: "hi".to_string() };
    assert_eq!(sys.body(DisplayMode::Hex), "hi");
    let mut t = fresh();
    t.push_rx_line(vec![0xC3, 0xA9, 0xC3]);
    assert_eq!(t.lines[1].text, "é\u{FFFD}");
}

#[test]
fn saving_the_log() {
    let mut t = fresh();
    t.clear_console();
    assert_eq!(t.log_for_save(), None);
    assert_eq!(t.lines.len(), 1);
    assert_eq!(t.lines[0].text, "Nothing to save.");
    t.clear_console();
    t.push_rx_line(b"hi".to_vec());
    t.push_tx_line(vec![0x01]);
    t.push_sys("note".to_string());
    t.display_mode = DisplayMode::Hex;
    let log = t.log_for_save().unwrap();
    let expected = format!(
        "{} < 68 69\n{} > 01\n{} * note\n",
        t.lines[0].ts, t.lines[1].ts, t.lines[2].ts
    );
    assert_eq!(log, expected);
    t.display_mode = DisplayMode::Ascii;
    assert_eq!(t.log_text(), format!("{} < hi\n{} > \u{1}\n{} * note\n", t.lines[0].ts, t.lines[1].ts, t.lines[2].ts));
}

#[test]
fn markers_and_timestamps() {
    assert_eq!(line_marker(LineKind::Rx), "◄");
    assert_eq!(line_marker(LineKind::Tx), "►");
    assert_eq!(line_marker(LineKind::Sys), "·");
    assert_eq!(line_marker(LineKind::Error), "×");
    assert!(shows_timestamp(LineKind::Rx, true));
    assert!(!shows_timestamp(LineKind::Sys, true));
    assert!(!shows_timestamp(LineKind::Error, false));
}

#[test]
fn history_actions() {
    let mut t = fresh();
    t.history = vec!["a".to_string(), "b".to_string(), "c".to_string()];
    t.recall_history(1);
    assert_eq!(t.send_text, "b");
    t.recall_history(9);
    assert_eq!(t.send_text, "b");
    t.remove_history_entry(0);
    assert_eq!(t.history, vec!["b".to_string(), "c".to_string()]);
    t.remove_history_entry(5);
    assert_eq!(t.history.len(), 2);
    t.clear_history();
    assert!(t.history.is_empty());
}

#[test]
fn baud_and_idle_boxes() {
    let mut t = fresh();
    t.select_baud(921600);
    assert_eq!(t.baud_text, "921600");
    t.rx_idle_ms_text = " 15 ".to_string();
    t.update_rx_idle_ms();
    assert_eq!(t.rx_idle_ms, 15);
    t.rx_idle_ms_text = "x".to_string();
    t.update_rx_idle_ms();
    assert_eq!(t.rx_idle_ms, 0);
}

#[test]
fn converter_into_send_box() {
    let mut t = fresh();
    t.load_converter_text("\\x41\\n");
    assert_eq!(t.send_text, "A\n");
    assert_eq!(t.send_mode, SendMode::Text);
    t.load_converter_hex("41 0A");
    assert_eq!(t.send_text, "41 0A");
    assert_eq!(t.send_mode, SendMode::Hex);
}

#[test]
fn settings_survive_save_and_load() {
    let mut t = fresh();
    t.baud_text = "500000".to_string();
    t.selected_port = "COM3".to_string();
    t.display_mode = DisplayMode::Hex;
    t.show_ts = false;
    t.line_ending = LineEnding::Cr;
    t.dtr_on = false;
    t.send_mode = SendMode::Hex;
    t.rx_idle_ms = 2;
    t.custom_bauds = vec![250000, 500000];
    t.history = vec!["AT".to_string(), "multi\nline \\ cmd".to_string()];
    let text = t.serialize_config(13);
    assert!(text.starts_with("# Serial Terminal config (auto-saved)\nbaud=500000\nport=COM3\ndisplay_mode=hex\nshow_ts=false\nauto_scroll=true\nline_ending=cr\ndtr=false\nfont_size=13\nsend_mode=hex\nrx_idle_ms=2\ncustom_baud=250000\ncustom_baud=500000\nhistory=AT\nhistory=multi\\nline \\\\ cmd\n"));
    let cfg = parse_config(&text);
    assert_eq!(cfg.font_size.as_deref(), Some("13"));
    let back = Terminal::new(cfg, Ok(vec!["COM3".to_string()]));
    assert_eq!(back.baud_text, t.baud_text);
    assert_eq!(back.selected_port, t.selected_port);
    assert_eq!(back.display_mode, t.display_mode);
    assert_eq!(back.show_ts, t.show_ts);
    assert_eq!(back.auto_scroll, t.auto_scroll);
    assert_eq!(back.line_ending, t.line_ending);
    assert_eq!(back.dtr_on, t.dtr_on);
    assert_eq!(back.send_mode, t.send_mode);
    assert_eq!(back.rx_idle_ms, t.rx_idle_ms);
    assert_eq!(back.custom_bauds, t.custom_bauds);
    assert_eq!(back.history, t.history);
}

#[test]
fn negative_font_size_is_written_with_sign() {
    let t = fresh();
    assert!(t.serialize_config(-3).contains("\nfont_size=-3\n"));
}

#[test]
fn log_file_name() {
    let name = default_log_name();
    assert!(name.starts_with("serial-log-"));
    assert!(name.ends_with(".txt"));
    let stamp: Vec<char> = name["serial-log-".len()..name.len() - 4].chars().collect();
    assert_eq!(stamp.len(), 15);
    assert_eq!(stamp[8], '-');
    assert!(stamp.iter().enumerate().all(|(i, c)| i == 8 || c.is_ascii_digit()));
}

#[test]
fn loaded_settings_save_and_reload() {
    let text = "baud =  74880 \nport= /dev/ttyUSB0\nhistory=\\q\\\nhistory=\\r x \\n\nhistory=a\\\\b\ncustom_baud=300\ncustom_baud=300\nfont_size=12.5\n";
    let cfg = cnterminal::config::load_config(Some(text), Some("1200\n"));
    let t = Terminal::new(cfg, Ok(vec!["/dev/ttyUSB0".to_string()]));
    assert_eq!(t.history, vec!["\\q\\".to_string(), "\r x \n".to_string(), "a\\b".to_string()]);
    let saved = t.serialize_config(12);
    let again = Terminal::new(parse_config(&saved), Ok(vec!["/dev/ttyUSB0".to_string()]));
    assert_eq!(again.baud_text, "74880");
    assert_eq!(again.selected_port, "/dev/ttyUSB0");
    assert_eq!(again.history, t.history);
    assert_eq!(again.custom_bauds, vec![300, 1200]);
    assert_eq!(again.serialize_config(12), saved);
}

#[test]
fn saved_file_loads_back_through_start_up() {
    let mut t = fresh();
    t.baud_text = "74880".to_string();
    t.selected_port = "COM4".to_string();
    t.custom_bauds = vec![300, 74880];
    t.history = vec!["AT+RST".to_string()];
    let saved = t.serialize_config(15);
    let cfg = cnterminal::config::load_config(Some(&saved), None);
    assert_eq!(cfg.baud.as_deref(), Some("74880"));
    assert_eq!(cfg.port.as_deref(), Some("COM4"));
    assert_eq!(cfg.font_size.as_deref(), Some("15"));
    assert_eq!(cfg.custom_bauds, vec![300, 74880]);
    assert_eq!(cfg.history, vec!["AT+RST".to_string()]);
    assert_eq!(cfg.line_ending, Some(LineEnding::CrLf));
}

#[test]
fn earlier_lines_keep_their_timestamps() {
    let mut t = fresh();
    t.push_sys("first".to_string());
    let before: Vec<(String, String)> = t.lines.iter().map(|l| (l.ts.clone(), l.text.clone())).collect();
    t.ingest_rx(b"a\nb\n".to_vec(), 0);
    t.push_err("later".to_string());
    let after: Vec<(String, String)> =
        t.lines.iter().take(before.len()).map(|l| (l.ts.clone(), l.text.clone())).collect();
    assert_eq!(before, after);
    assert_eq!(t.lines.len(), before.len() + 3);
}
