use cnterminal::config::{
    contains_baud, decode_history, display_mode_str, encode_history, is_preset, line_ending_str,
    load_config, merge_legacy_bauds, parse_bool, parse_config, parse_display_mode,
    parse_line_ending, parse_send_mode, send_mode_str, sort_bauds, AppConfig, DisplayMode,
    LineEnding, SendMode,
};

#[test]
fn bool_settings() {
    for t in ["true", "1", "yes", "on", " TRUE ", "On"] {
        assert_eq!(parse_bool(t), Some(true), "{t}");
    }
    for f in ["false", "0", "no", "off", "\tNo\n", "OFF"] {
        assert_eq!(parse_bool(f), Some(false), "{f}");
    }
    assert_eq!(parse_bool("maybe"), None);
    assert_eq!(parse_bool(""), None);
}

#[test]
fn mode_settings() {
    assert_eq!(parse_display_mode("ascii"), Some(DisplayMode::Ascii));
    assert_eq!(parse_display_mode(" HEX "), Some(DisplayMode::Hex));
    assert_eq!(parse_display_mode("bin"), None);
    assert_eq!(parse_send_mode("Text"), Some(SendMode::Text));
    assert_eq!(parse_send_mode("hex"), Some(SendMode::Hex));
    assert_eq!(parse_send_mode("ascii"), None);
}

#[test]
fn line_ending_settings() {
    assert_eq!(parse_line_ending("none"), Some(LineEnding::NoEnding));
    assert_eq!(parse_line_ending(""), Some(LineEnding::NoEnding));
    assert_eq!(parse_line_ending("  "), Some(LineEnding::NoEnding));
    assert_eq!(parse_line_ending("LF"), Some(LineEnding::Lf));
    assert_eq!(parse_line_ending("cr"), Some(LineEnding::Cr));
    assert_eq!(parse_line_ending("CrLf"), Some(LineEnding::CrLf));
    assert_eq!(parse_line_ending("lfcr"), None);
}

#[test]
fn setting_names_read_back() {
    for m in [DisplayMode::Ascii, DisplayMode::Hex] {
        assert_eq!(parse_display_mode(display_mode_str(m)), Some(m));
    }
    for m in [SendMode::Text, SendMode::Hex] {
        assert_eq!(parse_send_mode(send_mode_str(m)), Some(m));
    }
    for e in [LineEnding::NoEnding, LineEnding::Lf, LineEnding::Cr, LineEnding::CrLf] {
        assert_eq!(parse_line_ending(line_ending_str(e)), Some(e));
    }
    assert_eq!(display_mode_str(DisplayMode::Hex), "hex");
    assert_eq!(send_mode_str(SendMode::Text), "text");
    assert_eq!(line_ending_str(LineEnding::CrLf), "crlf");
}

#[test]
fn line_ending_bytes_and_labels() {
    assert_eq!(LineEnding::NoEnding.bytes(), b"");
    assert_eq!(LineEnding::Lf.bytes(), b"\n");
    assert_eq!(LineEnding::Cr.bytes(), b"\r");
    assert_eq!(LineEnding::CrLf.bytes(), b"\r\n");
    assert_eq!(LineEnding::NoEnding.label(), "None");
    assert_eq!(LineEnding::Lf.label(), "LF (\\n)");
    assert_eq!(LineEnding::Cr.label(), "CR (\\r)");
    assert_eq!(LineEnding::CrLf.label(), "CRLF");
}

#[test]
fn history_encoding() {
    assert_eq!(encode_history("a\\b\nc\rd"), "a\\\\b\\nc\\rd");
    assert_eq!(decode_history("a\\\\b\\nc\\rd"), "a\\b\nc\rd");
    assert_eq!(decode_history("x\\qy"), "x\\qy");
    assert_eq!(decode_history("end\\"), "end\\");
}

#[test]
fn history_round_trip() {
    for s in ["", "AT", "line1\nline2", "back\\slash", "\r\n\\\\n", "ünïcode ✓"] {
        assert_eq!(decode_history(&encode_history(s)), s);
        assert!(!encode_history(s).contains('\n'));
    }
}

#[test]
fn preset_bauds() {
    for b in [9600, 19200, 38400, 57600, 115200, 230400, 460800, 921600] {
        assert!(is_preset(b));
    }
    assert!(!is_preset(500000));
    assert!(!is_preset(0));
}

#[test]
fn baud_list_helpers() {
    let mut v = vec![500000u32, 250000, 1000000, 74880];
    assert!(contains_baud(&v, 250000));
    assert!(!contains_baud(&v, 9600));
    sort_bauds(&mut v);
    assert_eq!(v, vec![74880, 250000, 500000, 1000000]);
}

#[test]
fn config_example_from_docs() {
    let text = "# Serial Terminal config (auto-saved)\nbaud=500000\nport=COM3\ndisplay_mode=ascii\nfont_size=13\ncustom_baud=500000\nhistory=AT\nhistory=status\n";
    let cfg = parse_config(text);
    assert_eq!(cfg.baud.as_deref(), Some("500000"));
    assert_eq!(cfg.port.as_deref(), Some("COM3"));
    assert_eq!(cfg.display_mode, Some(DisplayMode::Ascii));
    assert_eq!(cfg.font_size.as_deref(), Some("13"));
    assert_eq!(cfg.custom_bauds, vec![500000]);
    assert_eq!(cfg.history, vec!["AT".to_string(), "status".to_string()]);
    assert_eq!(cfg.show_ts, None);
    assert_eq!(cfg.send_mode, None);
    assert_eq!(cfg.rx_idle_ms, None);
}

#[test]
fn config_lines_are_trimmed_and_filtered() {
    let text = "  baud = 9600 \r\n\n# port=COM9\nnonsense line\nunknown=1\nshow_ts= off\nline_ending=CRLF\r\nrx_idle_ms=+25\nsend_mode=bogus\nhistory=\nhistory=a\\nb\ncustom_baud=0\ncustom_baud=9600\ncustom_baud=250000\ncustom_baud=250000\ncustom_baud=x";
    let cfg = parse_config(text);
    assert_eq!(cfg.baud.as_deref(), Some("9600"));
    assert_eq!(cfg.port, None);
    assert_eq!(cfg.show_ts, Some(false));
    assert_eq!(cfg.line_ending, Some(LineEnding::CrLf));
    assert_eq!(cfg.rx_idle_ms, Some(25));
    assert_eq!(cfg.send_mode, None);
    assert_eq!(cfg.history, vec!["a\nb".to_string()]);
    assert_eq!(cfg.custom_bauds, vec![250000]);
}

#[test]
fn later_setting_wins() {
    let cfg = parse_config("dtr=true\ndtr=false\nport=A\nport=B\ndisplay_mode=hex\ndisplay_mode=???");
    assert_eq!(cfg.dtr, Some(false));
    assert_eq!(cfg.port.as_deref(), Some("B"));
    assert_eq!(cfg.display_mode, None);
}

#[test]
fn empty_config_sets_nothing() {
    let cfg = AppConfig::empty();
    assert!(cfg.baud.is_none() && cfg.port.is_none() && cfg.custom_bauds.is_empty() && cfg.history.is_empty());
    let parsed = parse_config("");
    assert!(parsed.baud.is_none() && parsed.custom_bauds.is_empty());
}

#[test]
fn legacy_baud_file() {
    let mut bauds = vec![250000u32];
    merge_legacy_bauds(&mut bauds, "# old file\n500000\n\n115200\n250000\n 74880 \nabc\n0\n");
    assert_eq!(bauds, vec![250000, 500000, 74880]);
}

#[test]
fn load_config_merges_and_sorts() {
    let cfg = load_config(Some("custom_baud=500000\ncustom_baud=74880\nbaud=74880"), Some("1000000\n500000\n9600"));
    assert_eq!(cfg.custom_bauds, vec![74880, 500000, 1000000]);
    assert_eq!(cfg.baud.as_deref(), Some("74880"));
}

#[test]
fn load_config_without_files() {
    let cfg = load_config(None, None);
    assert!(cfg.baud.is_none());
    assert!(cfg.custom_bauds.is_empty());
    let cfg = load_config(None, Some("300\n"));
    assert_eq!(cfg.custom_bauds, vec![300]);
}
