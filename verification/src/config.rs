//! Settings vocabulary and the `key=value` configuration format: modes, line endings,
//! history escaping, and the parser that restores saved settings.
use vstd::prelude::*;
use crate::text::{
    ascii_lowercase, bool_text, chars_eq_str, chars_of, is_trimmed, is_white_space,
    lemma_trim_after_trim_end, lemma_trim_end_append, lemma_trim_is_trimmed, lemma_trim_of_trimmed,
    lower_ascii, parse_u32,
    parse_u32_spec, push_char, string_from_chars, trim, trim_chars, trim_end, trim_start, trimmed,
};

verus! {

broadcast use vstd::string::group_string_axioms;

/// How received and sent bytes are shown in the console.
#[derive(Clone, Copy, PartialEq, Eq, Debug, Structural)]
pub enum DisplayMode {
    Ascii,
    Hex,
}

/// How the send box is interpreted.
#[derive(Clone, Copy, PartialEq, Eq, Debug, Structural)]
pub enum SendMode {
    Text,
    Hex,
}

/// The line ending appended to every transmission.
#[derive(Clone, Copy, PartialEq, Eq, Debug, Structural)]
pub enum LineEnding {
    NoEnding,
    Lf,
    Cr,
    CrLf,
}

/// The bytes of a line ending.
pub open spec fn ending_bytes(e: LineEnding) -> Seq<u8> {
    match e {
        LineEnding::NoEnding => seq![],
        LineEnding::Lf => seq![0x0Au8],
        LineEnding::Cr => seq![0x0Du8],
        LineEnding::CrLf => seq![0x0Du8, 0x0Au8],
    }
}

impl LineEnding {
    /// The bytes appended to a transmission.
    pub fn bytes(self) -> (b: &'static [u8])
        ensures
            b@ == ending_bytes(self),
    {
        match self {
            LineEnding::NoEnding => &[],
            LineEnding::Lf => &[0x0A],
            LineEnding::Cr => &[0x0D],
            LineEnding::CrLf => &[0x0D, 0x0A],
        }
    }

    /// The name shown in the line-ending selector.
    pub fn label(self) -> (s: &'static str)
        ensures
            s@ == match self {
                LineEnding::NoEnding => "None"@,
                LineEnding::Lf => "LF (\\n)"@,
                LineEnding::Cr => "CR (\\r)"@,
                LineEnding::CrLf => "CRLF"@,
            },
    {
        match self {
            LineEnding::NoEnding => "None",
            LineEnding::Lf => "LF (\\n)",
            LineEnding::Cr => "CR (\\r)",
            LineEnding::CrLf => "CRLF",
        }
    }
}


// ---------- Setting values ----------

/// What `parse_bool` accepts: `true`/`1`/`yes`/`on` and `false`/`0`/`no`/`off`, in any ASCII
/// case and surrounded by any whitespace.
pub open spec fn bool_setting(s: Seq<char>) -> Option<bool> {
    let t = ascii_lowercase(trim(s));
    if t == "true"@ || t == "1"@ || t == "yes"@ || t == "on"@ {
        Some(true)
    } else if t == "false"@ || t == "0"@ || t == "no"@ || t == "off"@ {
        Some(false)
    } else {
        None
    }
}

/// Reads a boolean setting.
pub fn parse_bool(s: &str) -> (r: Option<bool>)
    ensures
        r == bool_setting(s@),
{
    let t = lower_ascii(trimmed(s).as_slice());
    let t = t.as_slice();
    if chars_eq_str(t, "true") || chars_eq_str(t, "1") || chars_eq_str(t, "yes") || chars_eq_str(t, "on") {
        Some(true)
    } else if chars_eq_str(t, "false") || chars_eq_str(t, "0") || chars_eq_str(t, "no")
        || chars_eq_str(t, "off") {
        Some(false)
    } else {
        None
    }
}

/// What `parse_display_mode` accepts: `ascii` or `hex`, in any ASCII case, trimmed.
pub open spec fn display_mode_setting(s: Seq<char>) -> Option<DisplayMode> {
    let t = ascii_lowercase(trim(s));
    if t == "ascii"@ {
        Some(DisplayMode::Ascii)
    } else if t == "hex"@ {
        Some(DisplayMode::Hex)
    } else {
        None
    }
}

/// Reads a display mode setting.
pub fn parse_display_mode(s: &str) -> (r: Option<DisplayMode>)
    ensures
        r == display_mode_setting(s@),
{
    let t = lower_ascii(trimmed(s).as_slice());
    if chars_eq_str(t.as_slice(), "ascii") {
        Some(DisplayMode::Ascii)
    } else if chars_eq_str(t.as_slice(), "hex") {
        Some(DisplayMode::Hex)
    } else {
        None
    }
}

/// What `parse_send_mode` accepts: `text` or `hex`, in any ASCII case, trimmed.
pub open spec fn send_mode_setting(s: Seq<char>) -> Option<SendMode> {
    let t = ascii_lowercase(trim(s));
    if t == "text"@ {
        Some(SendMode::Text)
    } else if t == "hex"@ {
        Some(SendMode::Hex)
    } else {
        None
    }
}

/// Reads a send mode setting.
pub fn parse_send_mode(s: &str) -> (r: Option<SendMode>)
    ensures
        r == send_mode_setting(s@),
{
    let t = lower_ascii(trimmed(s).as_slice());
    if chars_eq_str(t.as_slice(), "text") {
        Some(SendMode::Text)
    } else if chars_eq_str(t.as_slice(), "hex") {
        Some(SendMode::Hex)
    } else {
        None
    }
}

/// What `parse_line_ending` accepts: `none` or nothing, `lf`, `cr`, `crlf`, in any ASCII case,
/// trimmed.
pub open spec fn line_ending_setting(s: Seq<char>) -> Option<LineEnding> {
    let t = ascii_lowercase(trim(s));
    if t == "none"@ || t.len() == 0 {
        Some(LineEnding::NoEnding)
    } else if t == "lf"@ {
        Some(LineEnding::Lf)
    } else if t == "cr"@ {
        Some(LineEnding::Cr)
    } else if t == "crlf"@ {
        Some(LineEnding::CrLf)
    } else {
        None
    }
}

/// Reads a line ending setting.
pub fn parse_line_ending(s: &str) -> (r: Option<LineEnding>)
    ensures
        r == line_ending_setting(s@),
{
    let t = lower_ascii(trimmed(s).as_slice());
    let t = t.as_slice();
    if chars_eq_str(t, "none") || t.len() == 0 {
        Some(LineEnding::NoEnding)
    } else if chars_eq_str(t, "lf") {
        Some(LineEnding::Lf)
    } else if chars_eq_str(t, "cr") {
        Some(LineEnding::Cr)
    } else if chars_eq_str(t, "crlf") {
        Some(LineEnding::CrLf)
    } else {
        None
    }
}

/// How a send mode is saved.
pub open spec fn send_mode_name(m: SendMode) -> Seq<char> {
    match m {
        SendMode::Text => "text"@,
        SendMode::Hex => "hex"@,
    }
}

/// The saved name of a send mode.
pub fn send_mode_str(m: SendMode) -> (s: &'static str)
    ensures
        s@ == send_mode_name(m),
{
    match m {
        SendMode::Text => "text",
        SendMode::Hex => "hex",
    }
}

/// How a display mode is saved.
pub open spec fn display_mode_name(m: DisplayMode) -> Seq<char> {
    match m {
        DisplayMode::Ascii => "ascii"@,
        DisplayMode::Hex => "hex"@,
    }
}

/// The saved name of a display mode.
pub fn display_mode_str(m: DisplayMode) -> (s: &'static str)
    ensures
        s@ == display_mode_name(m),
{
    match m {
        DisplayMode::Ascii => "ascii",
        DisplayMode::Hex => "hex",
    }
}

/// How a line ending is saved.
pub open spec fn line_ending_name(e: LineEnding) -> Seq<char> {
    match e {
        LineEnding::NoEnding => "none"@,
        LineEnding::Lf => "lf"@,
        LineEnding::Cr => "cr"@,
        LineEnding::CrLf => "crlf"@,
    }
}

/// The saved name of a line ending.
pub fn line_ending_str(e: LineEnding) -> (s: &'static str)
    ensures
        s@ == line_ending_name(e),
{
    match e {
        LineEnding::NoEnding => "none",
        LineEnding::Lf => "lf",
        LineEnding::Cr => "cr",
        LineEnding::CrLf => "crlf",
    }
}

// ---------- History escaping ----------

/// How one history character is saved: backslash, LF and CR are escaped.
pub open spec fn encode_history_char(c: char) -> Seq<char> {
    if c == '\\' {
        seq!['\\', '\\']
    } else if c == '\n' {
        seq!['\\', 'n']
    } else if c == '\r' {
        seq!['\\', 'r']
    } else {
        seq![c]
    }
}

/// A history entry as saved on one `history=` line.
pub open spec fn encoded_history(s: Seq<char>) -> Seq<char>
    decreases s.len(),
{
    if s.len() == 0 {
        seq![]
    } else {
        encode_history_char(s[0]) + encoded_history(s.drop_first())
    }
}

/// A saved history value decoded: `\n`, `\r` and `\\` become LF, CR and backslash; any other
/// backslash pair is kept as written, and a final lone backslash stays.
pub open spec fn decoded_history(s: Seq<char>) -> Seq<char>
    decreases s.len(),
{
    if s.len() == 0 {
        seq![]
    } else if s[0] != '\\' {
        seq![s[0]] + decoded_history(s.drop_first())
    } else if s.len() == 1 {
        seq!['\\']
    } else if s[1] == 'n' {
        seq!['\n'] + decoded_history(s.skip(2))
    } else if s[1] == 'r' {
        seq!['\r'] + decoded_history(s.skip(2))
    } else if s[1] == '\\' {
        seq!['\\'] + decoded_history(s.skip(2))
    } else {
        seq!['\\', s[1]] + decoded_history(s.skip(2))
    }
}

/// Escapes a history entry so that it fits on one `key=value` line.
pub fn encode_history(s: &str) -> (out: String)
    ensures
        out@ == encoded_history(s@),
{
    let cs = chars_of(s);
    let mut out = String::new();
    let mut i: usize = 0;
    assert(cs@.skip(0) =~= cs@);
    assert(out@ + encoded_history(cs@) =~= encoded_history(cs@));
    while i < cs.len()
        invariant
            0 <= i <= cs@.len(),
            cs@ == s@,
            encoded_history(s@) == out@ + encoded_history(cs@.skip(i as int)),
        decreases cs@.len() - i,
    {
        let ch = cs[i];
        let ghost before = out@;
        if ch == '\\' {
            push_char(&mut out, '\\');
            push_char(&mut out, '\\');
        } else if ch == '\n' {
            push_char(&mut out, '\\');
            push_char(&mut out, 'n');
        } else if ch == '\r' {
            push_char(&mut out, '\\');
            push_char(&mut out, 'r');
        } else {
            push_char(&mut out, ch);
        }
        proof {
            let rest = cs@.skip(i as int);
            assert(rest[0] == ch);
            assert(rest.drop_first() =~= cs@.skip(i + 1));
            assert(before + (encode_history_char(ch) + encoded_history(cs@.skip(i + 1))) =~= out@
                + encoded_history(cs@.skip(i + 1)));
        }
        i = i + 1;
    }
    assert(cs@.skip(i as int) =~= Seq::<char>::empty());
    assert(out@ + Seq::<char>::empty() =~= out@);
    out
}

/// Reverses `encode_history`.
pub fn decode_history(s: &str) -> (out: String)
    ensures
        out@ == decoded_history(s@),
{
    let cs = chars_of(s);
    let n = cs.len();
    let mut out = String::new();
    let mut i: usize = 0;
    assert(cs@.skip(0) =~= cs@);
    assert(out@ + decoded_history(cs@) =~= decoded_history(cs@));
    while i < n
        invariant
            0 <= i <= n,
            n == cs@.len(),
            cs@ == s@,
            decoded_history(s@) == out@ + decoded_history(cs@.skip(i as int)),
        decreases n - i,
    {
        let ch = cs[i];
        let ghost before = out@;
        let ghost rest = cs@.skip(i as int);
        assert(rest[0] == ch);
        if ch == '\\' {
            if i + 1 < n {
                let e = cs[i + 1];
                assert(rest[1] == e);
                if e == 'n' {
                    push_char(&mut out, '\n');
                } else if e == 'r' {
                    push_char(&mut out, '\r');
                } else if e == '\\' {
                    push_char(&mut out, '\\');
                } else {
                    push_char(&mut out, '\\');
                    push_char(&mut out, e);
                }
                i = i + 2;
                proof {
                    assert(rest.skip(2) =~= cs@.skip(i as int));
                    let d = decoded_history(cs@.skip(i as int));
                    if e == 'n' {
                        assert(before + (seq!['\n'] + d) =~= out@ + d);
                    } else if e == 'r' {
                        assert(before + (seq!['\r'] + d) =~= out@ + d);
                    } else if e == '\\' {
                        assert(before + (seq!['\\'] + d) =~= out@ + d);
                    } else {
                        assert(before + (seq!['\\', e] + d) =~= out@ + d);
                    }
                }
            } else {
                push_char(&mut out, '\\');
                i = i + 1;
                proof {
                    assert(cs@.skip(i as int) =~= Seq::<char>::empty());
                    assert(before + seq!['\\'] =~= out@ + Seq::<char>::empty());
                }
            }
        } else {
            push_char(&mut out, ch);
            i = i + 1;
            proof {
                assert(rest.drop_first() =~= cs@.skip(i as int));
                let d = decoded_history(cs@.skip(i as int));
                assert(before + (seq![ch] + d) =~= out@ + d);
            }
        }
    }
    assert(cs@.skip(i as int) =~= Seq::<char>::empty());
    assert(out@ + Seq::<char>::empty() =~= out@);
    out
}

/// Whether every history entry is non-empty and its saved form has no blank at either end.
pub open spec fn history_savable(h: Seq<Seq<char>>) -> bool {
    forall|k: int| 0 <= k < h.len() ==> (#[trigger] h[k]).len() > 0 && is_trimmed(encoded_history(h[k]))
}

pub(crate) proof fn lemma_encoded_ends(s: Seq<char>)
    requires
        s.len() > 0,
    ensures
        encoded_history(s).len() > 0,
        encoded_history(s)[0] == encode_history_char(s[0])[0],
        encoded_history(s).last() == encode_history_char(s.last()).last(),
    decreases s.len(),
{
    let e = encode_history_char(s[0]);
    let rest = s.drop_first();
    assert(encoded_history(s) == e + encoded_history(rest));
    if rest.len() > 0 {
        lemma_encoded_ends(rest);
        assert(rest.last() == s.last());
    } else {
        assert(encoded_history(rest) =~= Seq::<char>::empty());
        assert(e + encoded_history(rest) =~= e);
    }
}

proof fn lemma_decode_encoded_char(c: char, t: Seq<char>)
    ensures
        decoded_history(encode_history_char(c) + t) == seq![c] + decoded_history(t),
{
    let s = encode_history_char(c) + t;
    if c == '\\' || c == '\n' || c == '\r' {
        assert(s.skip(2) =~= t);
    } else {
        assert(s.drop_first() =~= t);
    }
}

/// Decoding a saved history entry gives the entry back, for every string.
pub proof fn lemma_history_roundtrip(s: Seq<char>)
    ensures
        decoded_history(encoded_history(s)) == s,
    decreases s.len(),
{
    if s.len() > 0 {
        lemma_history_roundtrip(s.drop_first());
        lemma_decode_encoded_char(s[0], encoded_history(s.drop_first()));
        assert(seq![s[0]] + s.drop_first() =~= s);
    } else {
        assert(s =~= Seq::<char>::empty());
    }
}


// ---------- Baud rates ----------

/// The baud rates offered by the preset list.
pub const PRESET_BAUDS: [u32; 8] = [9600, 19200, 38400, 57600, 115200, 230400, 460800, 921600];

/// Whether `b` is one of the preset baud rates.
pub open spec fn is_preset_baud(b: u32) -> bool {
    PRESET_BAUDS@.contains(b)
}

/// Whether `b` is a preset baud rate.
pub fn is_preset(b: u32) -> (r: bool)
    ensures
        r == is_preset_baud(b),
{
    let mut i: usize = 0;
    while i < 8
        invariant
            0 <= i <= 8,
            forall|k: int| 0 <= k < i ==> PRESET_BAUDS@[k] != b,
        decreases 8 - i,
    {
        if PRESET_BAUDS[i] == b {
            assert(PRESET_BAUDS@[i as int] == b);
            return true;
        }
        i = i + 1;
    }
    proof {
        if PRESET_BAUDS@.contains(b) {
            let k = choose|k: int| 0 <= k < PRESET_BAUDS@.len() && PRESET_BAUDS@[k] == b;
            assert(PRESET_BAUDS@[k] != b);
        }
    }
    false
}

/// Whether `list` holds `b`.
pub fn contains_baud(list: &Vec<u32>, b: u32) -> (r: bool)
    ensures
        r == list@.contains(b),
{
    let mut i: usize = 0;
    while i < list.len()
        invariant
            0 <= i <= list@.len(),
            forall|k: int| 0 <= k < i ==> list@[k] != b,
        decreases list@.len() - i,
    {
        if list[i] == b {
            assert(list@[i as int] == b);
            return true;
        }
        i = i + 1;
    }
    proof {
        if list@.contains(b) {
            let k = choose|k: int| 0 <= k < list@.len() && list@[k] == b;
            assert(list@[k] != b);
        }
    }
    false
}

/// Whether `s` is in ascending order.
pub open spec fn ascending(s: Seq<u32>) -> bool {
    forall|i: int, j: int| 0 <= i < j < s.len() ==> s[i] <= s[j]
}

/// Whether the custom baud rates are positive, not presets, and distinct.
pub open spec fn custom_bauds_ok(b: Seq<u32>) -> bool {
    &&& forall|i: int| 0 <= i < b.len() ==> #[trigger] b[i] > 0 && !is_preset_baud(b[i])
    &&& forall|i: int, j: int| 0 <= i < j < b.len() ==> b[i] != b[j]
}

/// A list with the same elements as a valid custom baud list is valid too.
pub(crate) proof fn lemma_bauds_ok_permuted(a: Seq<u32>, b: Seq<u32>)
    requires
        custom_bauds_ok(a),
        a.to_multiset() == b.to_multiset(),
    ensures
        custom_bauds_ok(b),
{
    broadcast use vstd::seq_lib::to_multiset_contains;

    assert(a.no_duplicates()) by {
        assert forall|i: int, j: int| 0 <= i < a.len() && 0 <= j < a.len() && i != j implies a[i] != a[j] by {
            if i > j {
                assert(a[j] != a[i]);
            }
        }
    }
    a.lemma_multiset_has_no_duplicates();
    assert forall|x: u32| b.to_multiset().contains(x) implies b.to_multiset().count(x) == 1 by {
        assert(a.to_multiset().contains(x));
    }
    b.lemma_multiset_has_no_duplicates_conv();
    assert forall|i: int| 0 <= i < b.len() implies #[trigger] b[i] > 0 && !is_preset_baud(b[i]) by {
        assert(b.contains(b[i]));
        assert(b.to_multiset().count(b[i]) > 0);
        assert(a.to_multiset().count(b[i]) > 0);
        assert(a.contains(b[i]));
        let k = choose|k: int| 0 <= k < a.len() && a[k] == b[i];
        assert(a[k] > 0 && !is_preset_baud(a[k]));
    }
}

pub(crate) proof fn lemma_add_custom_baud_ok(bauds: Seq<u32>, b: u32)
    requires
        custom_bauds_ok(bauds),
    ensures
        custom_bauds_ok(add_custom_baud(bauds, b)),
{
    if b > 0 && !is_preset_baud(b) && !bauds.contains(b) {
        let n = bauds.push(b);
        assert forall|i: int, j: int| 0 <= i < j < n.len() implies n[i] != n[j] by {
            if j == bauds.len() {
                assert(n[i] == bauds[i]);
                if bauds[i] == b {
                    assert(bauds.contains(b));
                }
            }
        }
        assert forall|i: int| 0 <= i < n.len() implies #[trigger] n[i] > 0 && !is_preset_baud(n[i]) by {
            if i < bauds.len() {
                assert(n[i] == bauds[i]);
            }
        }
    }
}

/// Sorts baud rates in ascending order.
pub fn sort_bauds(bauds: &mut Vec<u32>)
    ensures
        ascending(final(bauds)@),
        final(bauds)@.to_multiset() == old(bauds)@.to_multiset(),
{
    broadcast use vstd::seq_lib::to_multiset_build, vstd::seq_lib::to_multiset_insert;

    let mut out: Vec<u32> = Vec::new();
    let mut k: usize = 0;
    let ghost orig = bauds@;
    assert(orig.take(0) =~= Seq::<u32>::empty());
    assert(out@ =~= Seq::<u32>::empty());
    while k < bauds.len()
        invariant
            0 <= k <= orig.len(),
            bauds@ == orig,
            ascending(out@),
            out@.to_multiset() == orig.take(k as int).to_multiset(),
        decreases orig.len() - k,
    {
        let x = bauds[k];
        let mut p: usize = 0;
        while p < out.len() && out[p] <= x
            invariant
                0 <= p <= out@.len(),
                forall|i: int| 0 <= i < p ==> out@[i] <= x,
            decreases out@.len() - p,
        {
            p = p + 1;
        }
        let ghost before = out@;
        out.insert(p, x);
        proof {
            assert(out@ == before.insert(p as int, x));
            assert forall|i: int, j: int| 0 <= i < j < out@.len() implies out@[i] <= out@[j] by {
                if p < before.len() {
                    assert(before[p as int] > x);
                }
                if j < p {
                } else if j == p {
                } else if i < p {
                    assert(before[i] <= x);
                    assert(x <= before[j - 1]) by {
                        assert(before[p as int] > x);
                        if p < j - 1 {
                            assert(before[p as int] <= before[j - 1]);
                        }
                    }
                } else if i == p {
                    assert(before[p as int] > x);
                    if p < j - 1 {
                        assert(before[p as int] <= before[j - 1]);
                    }
                } else {
                    assert(before[i - 1] <= before[j - 1]);
                }
            }
            assert(orig.take(k + 1) =~= orig.take(k as int).push(x));
            vstd::seq_lib::to_multiset_insert(before, p as int, x);
            vstd::seq_lib::to_multiset_build(orig.take(k as int), x);
        }
        k = k + 1;
    }
    assert(orig.take(k as int) =~= orig);
    *bauds = out;
}

// ---------- The configuration file ----------

/// What a configuration file sets; a missing key leaves its field `None` (or empty).
pub struct ConfigModel {
    pub baud: Option<Seq<char>>,
    pub port: Option<Seq<char>>,
    pub display_mode: Option<DisplayMode>,
    pub show_ts: Option<bool>,
    pub auto_scroll: Option<bool>,
    pub line_ending: Option<LineEnding>,
    pub dtr: Option<bool>,
    pub font_size: Option<Seq<char>>,
    pub custom_bauds: Seq<u32>,
    pub history: Seq<Seq<char>>,
    pub send_mode: Option<SendMode>,
    pub rx_idle_ms: Option<u32>,
}

/// The settings read from a configuration file. The font size is kept as the text written in
/// the file.
pub struct AppConfig {
    pub baud: Option<String>,
    pub port: Option<String>,
    pub display_mode: Option<DisplayMode>,
    pub show_ts: Option<bool>,
    pub auto_scroll: Option<bool>,
    pub line_ending: Option<LineEnding>,
    pub dtr: Option<bool>,
    pub font_size: Option<String>,
    pub custom_bauds: Vec<u32>,
    pub history: Vec<String>,
    pub send_mode: Option<SendMode>,
    pub rx_idle_ms: Option<u32>,
}

/// The characters of an optional string.
pub open spec fn opt_view(s: Option<String>) -> Option<Seq<char>> {
    match s {
        Some(t) => Some(t@),
        None => None,
    }
}

impl View for AppConfig {
    type V = ConfigModel;

    open spec fn view(&self) -> ConfigModel {
        ConfigModel {
            baud: opt_view(self.baud),
            port: opt_view(self.port),
            display_mode: self.display_mode,
            show_ts: self.show_ts,
            auto_scroll: self.auto_scroll,
            line_ending: self.line_ending,
            dtr: self.dtr,
            font_size: opt_view(self.font_size),
            custom_bauds: self.custom_bauds@,
            history: self.history@.map_values(|h: String| h@),
            send_mode: self.send_mode,
            rx_idle_ms: self.rx_idle_ms,
        }
    }
}

/// A configuration that sets nothing.
pub open spec fn empty_config() -> ConfigModel {
    ConfigModel {
        baud: None,
        port: None,
        display_mode: None,
        show_ts: None,
        auto_scroll: None,
        line_ending: None,
        dtr: None,
        font_size: None,
        custom_bauds: seq![],
        history: seq![],
        send_mode: None,
        rx_idle_ms: None,
    }
}

impl AppConfig {
    /// A configuration that sets nothing.
    pub fn empty() -> (c: AppConfig)
        ensures
            c@ == empty_config(),
    {
        let c = AppConfig {
            baud: None,
            port: None,
            display_mode: None,
            show_ts: None,
            auto_scroll: None,
            line_ending: None,
            dtr: None,
            font_size: None,
            custom_bauds: Vec::new(),
            history: Vec::new(),
            send_mode: None,
            rx_idle_ms: None,
        };
        assert(c@.history =~= Seq::<Seq<char>>::empty());
        assert(c@.custom_bauds =~= Seq::<u32>::empty());
        c
    }
}

/// The position of the first `c` in `s`.
pub open spec fn find_char(s: Seq<char>, c: char) -> Option<int>
    decreases s.len(),
{
    if s.len() == 0 {
        None
    } else if s[0] == c {
        Some(0)
    } else {
        match find_char(s.drop_first(), c) {
            Some(i) => Some(i + 1),
            None => None,
        }
    }
}

proof fn lemma_find_char(s: Seq<char>, c: char, i: int)
    requires
        0 <= i <= s.len(),
        forall|k: int| 0 <= k < i ==> s[k] != c,
    ensures
        i < s.len() && s[i] == c ==> find_char(s, c) == Some(i),
        i == s.len() ==> find_char(s, c) is None,
    decreases i,
{
    if i > 0 {
        lemma_find_char(s.drop_first(), c, i - 1);
    }
}

/// `cfg` with the baud rate `b` recorded as a custom one, unless it is 0, a preset, or
/// already there.
pub open spec fn add_custom_baud(bauds: Seq<u32>, b: u32) -> Seq<u32> {
    if b > 0 && !is_preset_baud(b) && !bauds.contains(b) {
        bauds.push(b)
    } else {
        bauds
    }
}

/// The effect of one `key=value` setting on the configuration read so far. Unknown keys are
/// ignored; a value that does not parse clears the setting.
pub open spec fn apply_setting(cfg: ConfigModel, k: Seq<char>, v: Seq<char>) -> ConfigModel {
    if k == "baud"@ {
        ConfigModel { baud: Some(v), ..cfg }
    } else if k == "port"@ {
        ConfigModel { port: Some(v), ..cfg }
    } else if k == "display_mode"@ {
        ConfigModel { display_mode: display_mode_setting(v), ..cfg }
    } else if k == "show_ts"@ {
        ConfigModel { show_ts: bool_setting(v), ..cfg }
    } else if k == "auto_scroll"@ {
        ConfigModel { auto_scroll: bool_setting(v), ..cfg }
    } else if k == "line_ending"@ {
        ConfigModel { line_ending: line_ending_setting(v), ..cfg }
    } else if k == "dtr"@ {
        ConfigModel { dtr: bool_setting(v), ..cfg }
    } else if k == "font_size"@ {
        ConfigModel { font_size: Some(v), ..cfg }
    } else if k == "send_mode"@ {
        ConfigModel { send_mode: send_mode_setting(v), ..cfg }
    } else if k == "rx_idle_ms"@ {
        ConfigModel { rx_idle_ms: parse_u32_spec(v), ..cfg }
    } else if k == "custom_baud"@ {
        match parse_u32_spec(v) {
            Some(b) => ConfigModel { custom_bauds: add_custom_baud(cfg.custom_bauds, b), ..cfg },
            None => cfg,
        }
    } else if k == "history"@ {
        let d = decoded_history(v);
        if d.len() > 0 {
            ConfigModel { history: cfg.history.push(d), ..cfg }
        } else {
            cfg
        }
    } else {
        cfg
    }
}

/// The effect of one line of a configuration file: blank lines and `#` comments are skipped,
/// as are lines without `=`; otherwise the trimmed text before the first `=` is the key and the
/// trimmed text after it the value.
pub open spec fn apply_config_line(cfg: ConfigModel, raw: Seq<char>) -> ConfigModel {
    let line = trim(raw);
    if line.len() == 0 || line[0] == '#' {
        cfg
    } else {
        match find_char(line, '=') {
            None => cfg,
            Some(i) => apply_setting(cfg, trim(line.take(i)), trim(line.skip(i + 1))),
        }
    }
}

/// Reads the configuration text `rest`, continuing the line `line` already started, on top of
/// `cfg`. Lines end at `\n`.
pub open spec fn fold_config(cfg: ConfigModel, line: Seq<char>, rest: Seq<char>) -> ConfigModel
    decreases rest.len(),
{
    if rest.len() == 0 {
        apply_config_line(cfg, line)
    } else if rest[0] == '\n' {
        fold_config(apply_config_line(cfg, line), seq![], rest.drop_first())
    } else {
        fold_config(cfg, line.push(rest[0]), rest.drop_first())
    }
}

/// The settings that a configuration text holds.
pub open spec fn config_from_text(text: Seq<char>) -> ConfigModel {
    fold_config(empty_config(), seq![], text)
}


/// Applies one `key=value` setting.
fn apply_setting_exec(cfg: &mut AppConfig, k: &[char], v: &[char])
    ensures
        final(cfg)@ == apply_setting(old(cfg)@, k@, v@),
{
    let vs = string_from_chars(v);
    if chars_eq_str(k, "baud") {
        cfg.baud = Some(vs);
    } else if chars_eq_str(k, "port") {
        cfg.port = Some(vs);
    } else if chars_eq_str(k, "display_mode") {
        cfg.display_mode = parse_display_mode(vs.as_str());
    } else if chars_eq_str(k, "show_ts") {
        cfg.show_ts = parse_bool(vs.as_str());
    } else if chars_eq_str(k, "auto_scroll") {
        cfg.auto_scroll = parse_bool(vs.as_str());
    } else if chars_eq_str(k, "line_ending") {
        cfg.line_ending = parse_line_ending(vs.as_str());
    } else if chars_eq_str(k, "dtr") {
        cfg.dtr = parse_bool(vs.as_str());
    } else if chars_eq_str(k, "font_size") {
        cfg.font_size = Some(vs);
    } else if chars_eq_str(k, "send_mode") {
        cfg.send_mode = parse_send_mode(vs.as_str());
    } else if chars_eq_str(k, "rx_idle_ms") {
        cfg.rx_idle_ms = parse_u32(v);
    } else if chars_eq_str(k, "custom_baud") {
        if let Some(b) = parse_u32(v) {
            if b > 0 && !is_preset(b) && !contains_baud(&cfg.custom_bauds, b) {
                cfg.custom_bauds.push(b);
            }
        }
    } else if chars_eq_str(k, "history") {
        // Strings can contain anything, but newlines aren't allowed in the cfg format.
        let decoded = decode_history(vs.as_str());
        if !decoded.as_str().is_empty() {
            let ghost hist = cfg.history@;
            cfg.history.push(decoded);
            proof {
                assert(cfg.history@.map_values(|h: String| h@) =~= hist.map_values(
                    |h: String| h@,
                ).push(decoded@));
            }
        }
    }
}

/// Applies one line of a configuration file.
fn apply_line_exec(cfg: &mut AppConfig, raw: &[char])
    ensures
        final(cfg)@ == apply_config_line(old(cfg)@, raw@),
{
    let line = trim_chars(raw);
    let n = line.len();
    if n == 0 || line[0] == '#' {
        return;
    }
    let mut i: usize = 0;
    while i < n && line[i] != '='
        invariant
            0 <= i <= n,
            n == line@.len(),
            forall|k: int| 0 <= k < i ==> line@[k] != '=',
        decreases n - i,
    {
        i = i + 1;
    }
    proof {
        lemma_find_char(line@, '=', i as int);
    }
    if i == n {
        return;
    }
    let mut key: Vec<char> = Vec::new();
    let mut j: usize = 0;
    while j < i
        invariant
            0 <= j <= i,
            i < n,
            n == line@.len(),
            key@ == line@.take(j as int),
        decreases i - j,
    {
        key.push(line[j]);
        assert(line@.take(j + 1) =~= line@.take(j as int).push(line@[j as int]));
        j = j + 1;
    }
    let mut value: Vec<char> = Vec::new();
    let mut j: usize = i + 1;
    while j < n
        invariant
            i + 1 <= j <= n,
            n == line@.len(),
            value@ == line@.subrange(i + 1, j as int),
        decreases n - j,
    {
        value.push(line[j]);
        assert(line@.subrange(i + 1, j + 1) =~= line@.subrange(i + 1, j as int).push(line@[j as int]));
        j = j + 1;
    }
    assert(value@ =~= line@.skip(i + 1));
    let k = trim_chars(key.as_slice());
    let v = trim_chars(value.as_slice());
    apply_setting_exec(cfg, k.as_slice(), v.as_slice());
}

/// Reads the settings held in a configuration text: one `key=value` per line; blank lines,
/// `#` comments and unknown keys are ignored.
pub fn parse_config(text: &str) -> (cfg: AppConfig)
    ensures
        cfg@ == config_from_text(text@),
{
    let cs = chars_of(text);
    let mut cfg = AppConfig::empty();
    let mut line: Vec<char> = Vec::new();
    let mut i: usize = 0;
    assert(cs@.skip(0) =~= cs@);
    while i < cs.len()
        invariant
            0 <= i <= cs@.len(),
            cs@ == text@,
            config_from_text(text@) == fold_config(cfg@, line@, cs@.skip(i as int)),
        decreases cs@.len() - i,
    {
        let c = cs[i];
        let ghost rest = cs@.skip(i as int);
        assert(rest[0] == c);
        assert(rest.drop_first() =~= cs@.skip(i + 1));
        if c == '\n' {
            apply_line_exec(&mut cfg, line.as_slice());
            line = Vec::new();
            assert(line@ =~= Seq::<char>::empty());
        } else {
            line.push(c);
        }
        i = i + 1;
    }
    apply_line_exec(&mut cfg, line.as_slice());
    cfg
}


/// The effect of one line of the old bauds-only file: each non-blank, non-comment line holds
/// one baud rate.
pub open spec fn apply_legacy_line(bauds: Seq<u32>, raw: Seq<char>) -> Seq<u32> {
    let line = trim(raw);
    if line.len() == 0 || line[0] == '#' {
        bauds
    } else {
        match parse_u32_spec(line) {
            Some(b) => add_custom_baud(bauds, b),
            None => bauds,
        }
    }
}

/// Reads the old bauds-only text `rest`, continuing the line `line`, on top of `bauds`.
pub open spec fn fold_legacy(bauds: Seq<u32>, line: Seq<char>, rest: Seq<char>) -> Seq<u32>
    decreases rest.len(),
{
    if rest.len() == 0 {
        apply_legacy_line(bauds, line)
    } else if rest[0] == '\n' {
        fold_legacy(apply_legacy_line(bauds, line), seq![], rest.drop_first())
    } else {
        fold_legacy(bauds, line.push(rest[0]), rest.drop_first())
    }
}

fn apply_legacy_line_exec(bauds: &mut Vec<u32>, raw: &[char])
    ensures
        final(bauds)@ == apply_legacy_line(old(bauds)@, raw@),
{
    let line = trim_chars(raw);
    if line.len() == 0 || line[0] == '#' {
        return;
    }
    if let Some(b) = parse_u32(line.as_slice()) {
        if b > 0 && !is_preset(b) && !contains_baud(bauds, b) {
            bauds.push(b);
        }
    }
}

/// Adds the custom baud rates listed in the old bauds-only file, one per line.
pub fn merge_legacy_bauds(bauds: &mut Vec<u32>, text: &str)
    ensures
        final(bauds)@ == fold_legacy(old(bauds)@, seq![], text@),
{
    let cs = chars_of(text);
    let mut line: Vec<char> = Vec::new();
    let mut i: usize = 0;
    let ghost start = bauds@;
    assert(cs@.skip(0) =~= cs@);
    while i < cs.len()
        invariant
            0 <= i <= cs@.len(),
            cs@ == text@,
            fold_legacy(start, seq![], text@) == fold_legacy(bauds@, line@, cs@.skip(i as int)),
        decreases cs@.len() - i,
    {
        let c = cs[i];
        let ghost rest = cs@.skip(i as int);
        assert(rest[0] == c);
        assert(rest.drop_first() =~= cs@.skip(i + 1));
        if c == '\n' {
            apply_legacy_line_exec(bauds, line.as_slice());
            line = Vec::new();
            assert(line@ =~= Seq::<char>::empty());
        } else {
            line.push(c);
        }
        i = i + 1;
    }
    apply_legacy_line_exec(bauds, line.as_slice());
}

/// The settings read at start-up from the text of the configuration file (if any), with the
/// custom bauds of the old bauds-only file (if any) added, before sorting.
pub open spec fn loaded_config(primary: Option<Seq<char>>, legacy: Option<Seq<char>>) -> ConfigModel {
    let base = match primary {
        Some(t) => config_from_text(t),
        None => empty_config(),
    };
    let bauds = match legacy {
        Some(t) => fold_legacy(base.custom_bauds, seq![], t),
        None => base.custom_bauds,
    };
    ConfigModel { custom_bauds: bauds, ..base }
}

proof fn lemma_config_line_bauds_ok(cfg: ConfigModel, raw: Seq<char>)
    requires
        custom_bauds_ok(cfg.custom_bauds),
    ensures
        custom_bauds_ok(apply_config_line(cfg, raw).custom_bauds),
{
    let line = trim(raw);
    if !(line.len() == 0 || line[0] == '#') {
        match find_char(line, '=') {
            Some(i) => match parse_u32_spec(trim(line.skip(i + 1))) {
                Some(b) => lemma_add_custom_baud_ok(cfg.custom_bauds, b),
                None => {},
            },
            None => {},
        }
    }
}

proof fn lemma_fold_config_bauds_ok(cfg: ConfigModel, line: Seq<char>, rest: Seq<char>)
    requires
        custom_bauds_ok(cfg.custom_bauds),
    ensures
        custom_bauds_ok(fold_config(cfg, line, rest).custom_bauds),
    decreases rest.len(),
{
    if rest.len() == 0 {
        lemma_config_line_bauds_ok(cfg, line);
    } else if rest[0] == '\n' {
        lemma_config_line_bauds_ok(cfg, line);
        lemma_fold_config_bauds_ok(apply_config_line(cfg, line), seq![], rest.drop_first());
    } else {
        lemma_fold_config_bauds_ok(cfg, line.push(rest[0]), rest.drop_first());
    }
}

proof fn lemma_fold_legacy_ok(bauds: Seq<u32>, line: Seq<char>, rest: Seq<char>)
    requires
        custom_bauds_ok(bauds),
    ensures
        custom_bauds_ok(fold_legacy(bauds, line, rest)),
    decreases rest.len(),
{
    match parse_u32_spec(trim(line)) {
        Some(b) => lemma_add_custom_baud_ok(bauds, b),
        None => {},
    }
    if rest.len() > 0 {
        if rest[0] == '\n' {
            lemma_fold_legacy_ok(apply_legacy_line(bauds, line), seq![], rest.drop_first());
        } else {
            lemma_fold_legacy_ok(bauds, line.push(rest[0]), rest.drop_first());
        }
    }
}

/// Whatever the two files hold, the custom baud rates read from them are positive, not
/// presets, and distinct.
pub proof fn lemma_loaded_bauds_ok(primary: Option<Seq<char>>, legacy: Option<Seq<char>>)
    ensures
        custom_bauds_ok(loaded_config(primary, legacy).custom_bauds),
{
    let base = match primary {
        Some(t) => config_from_text(t),
        None => empty_config(),
    };
    match primary {
        Some(t) => lemma_fold_config_bauds_ok(empty_config(), seq![], t),
        None => {},
    }
    match legacy {
        Some(t) => lemma_fold_legacy_ok(base.custom_bauds, seq![], t),
        None => {},
    }
}

/// Whether a character is one that the history escapes (backslash, LF, CR).
pub open spec fn history_escaped(c: char) -> bool {
    c == '\\' || c == '\n' || c == '\r'
}

proof fn lemma_decoded_ends(s: Seq<char>)
    requires
        s.len() > 0,
    ensures
        decoded_history(s).len() > 0,
        s[0] != '\\' ==> decoded_history(s)[0] == s[0],
        s[0] == '\\' ==> history_escaped(decoded_history(s)[0]),
        decoded_history(s).last() == s.last() || history_escaped(decoded_history(s).last()),
    decreases s.len(),
{
    let d = decoded_history(s);
    if s[0] != '\\' {
        let rest = s.drop_first();
        if rest.len() > 0 {
            lemma_decoded_ends(rest);
            assert(rest.last() == s.last());
            assert(d.last() == decoded_history(rest).last());
        } else {
            assert(decoded_history(rest) =~= Seq::<char>::empty());
            assert(d =~= seq![s[0]]);
        }
    } else if s.len() > 1 {
        let rest = s.skip(2);
        let head = if s[1] == 'n' {
            seq!['\n']
        } else if s[1] == 'r' {
            seq!['\r']
        } else if s[1] == '\\' {
            seq!['\\']
        } else {
            seq!['\\', s[1]]
        };
        assert(d == head + decoded_history(rest));
        if rest.len() > 0 {
            lemma_decoded_ends(rest);
            assert(rest.last() == s.last());
            assert(d.last() == decoded_history(rest).last());
        } else {
            assert(decoded_history(rest) =~= Seq::<char>::empty());
            assert(d =~= head);
            assert(s.len() == 2);
        }
    }
}

/// A non-empty entry decoded from a value without blanks at either end can be saved again.
proof fn lemma_decoded_savable(v: Seq<char>)
    requires
        is_trimmed(v),
        decoded_history(v).len() > 0,
    ensures
        is_trimmed(encoded_history(decoded_history(v))),
{
    let d = decoded_history(v);
    assert(v.len() > 0);
    lemma_decoded_ends(v);
    lemma_encoded_ends(d);
}

proof fn lemma_trim_start_single_line(s: Seq<char>)
    requires
        single_line(s),
    ensures
        single_line(trim_start(s)),
    decreases s.len(),
{
    if s.len() > 0 && is_white_space(s[0]) {
        assert forall|i: int| 0 <= i < s.drop_first().len() implies s.drop_first()[i] != '\n' by {
            assert(s.drop_first()[i] == s[i + 1]);
        }
        lemma_trim_start_single_line(s.drop_first());
    }
}

proof fn lemma_trim_end_single_line(s: Seq<char>)
    requires
        single_line(s),
    ensures
        single_line(trim_end(s)),
    decreases s.len(),
{
    if s.len() > 0 && is_white_space(s.last()) {
        lemma_trim_end_single_line(s.drop_last());
    }
}

proof fn lemma_find_char_some(s: Seq<char>, c: char)
    ensures
        find_char(s, c) matches Some(i) ==> 0 <= i < s.len() && s[i] == c,
    decreases s.len(),
{
    if s.len() > 0 && s[0] != c {
        lemma_find_char_some(s.drop_first(), c);
    }
}

/// Whether settings read from a file can be saved and read back unchanged: the baud and port
/// texts on one line, valid custom baud rates, and savable history entries.
pub open spec fn settings_savable(c: ConfigModel) -> bool {
    &&& (c.baud matches Some(b) ==> single_line(b))
    &&& (c.port matches Some(p) ==> single_line(p))
    &&& custom_bauds_ok(c.custom_bauds)
    &&& history_savable(c.history)
}

proof fn lemma_config_line_savable(cfg: ConfigModel, raw: Seq<char>)
    requires
        settings_savable(cfg),
        single_line(raw),
    ensures
        settings_savable(apply_config_line(cfg, raw)),
{
    let line = trim(raw);
    lemma_trim_start_single_line(raw);
    lemma_trim_end_single_line(trim_start(raw));
    lemma_find_char_some(line, '=');
    if !(line.len() == 0 || line[0] == '#') {
        match find_char(line, '=') {
            Some(i) => {
                let k = trim(line.take(i));
                let rest = line.skip(i + 1);
                let v = trim(rest);
                assert(single_line(rest)) by {
                    assert forall|j: int| 0 <= j < rest.len() implies rest[j] != '\n' by {
                        assert(rest[j] == line[j + i + 1]);
                    }
                }
                lemma_trim_start_single_line(rest);
                lemma_trim_end_single_line(trim_start(rest));
                lemma_trim_is_trimmed(rest);
                match parse_u32_spec(v) {
                    Some(b) => lemma_add_custom_baud_ok(cfg.custom_bauds, b),
                    None => {},
                }
                let d = decoded_history(v);
                if d.len() > 0 {
                    lemma_decoded_savable(v);
                    let h = cfg.history.push(d);
                    assert forall|m: int| 0 <= m < h.len() implies (#[trigger] h[m]).len() > 0 && is_trimmed(
                        encoded_history(h[m]),
                    ) by {
                        if m < cfg.history.len() {
                            assert(h[m] == cfg.history[m]);
                        }
                    }
                }
            },
            None => {},
        }
    }
}

proof fn lemma_fold_savable(cfg: ConfigModel, line: Seq<char>, rest: Seq<char>)
    requires
        settings_savable(cfg),
        single_line(line),
    ensures
        settings_savable(fold_config(cfg, line, rest)),
    decreases rest.len(),
{
    if rest.len() == 0 {
        lemma_config_line_savable(cfg, line);
    } else if rest[0] == '\n' {
        lemma_config_line_savable(cfg, line);
        lemma_fold_savable(apply_config_line(cfg, line), seq![], rest.drop_first());
    } else {
        lemma_fold_savable(cfg, line.push(rest[0]), rest.drop_first());
    }
}

/// Whatever the settings file and the old bauds-only file hold, the settings read from them
/// can be saved and read back unchanged.
pub proof fn lemma_loaded_settings_savable(primary: Option<Seq<char>>, legacy: Option<Seq<char>>)
    ensures
        settings_savable(loaded_config(primary, legacy)),
{
    lemma_loaded_bauds_ok(primary, legacy);
    match primary {
        Some(t) => lemma_fold_savable(empty_config(), seq![], t),
        None => {},
    }
}

/// The view of an optional text.
pub open spec fn opt_str_view(s: Option<&str>) -> Option<Seq<char>> {
    match s {
        Some(t) => Some(t@),
        None => None,
    }
}

/// Two ascending lists holding the same baud rates are the same list.
proof fn lemma_ascending_permutation_equal(a: Seq<u32>, b: Seq<u32>)
    requires
        ascending(a),
        ascending(b),
        a.to_multiset() == b.to_multiset(),
    ensures
        a == b,
    decreases a.len(),
{
    broadcast use vstd::seq_lib::to_multiset_contains, vstd::seq_lib::to_multiset_len;

    assert(a.len() == b.len()) by {
        assert(a.to_multiset().len() == a.len());
        assert(b.to_multiset().len() == b.len());
    }
    if a.len() > 0 {
        assert(a.contains(a[0]));
        assert(a.to_multiset().count(a[0]) > 0);
        assert(b.contains(a[0]));
        let k = choose|k: int| 0 <= k < b.len() && b[k] == a[0];
        assert(b[0] <= b[k]);
        assert(b.contains(b[0]));
        assert(b.to_multiset().count(b[0]) > 0);
        assert(a.contains(b[0]));
        let m = choose|m: int| 0 <= m < a.len() && a[m] == b[0];
        assert(a[0] <= a[m]);
        assert(a[0] == b[0]);
        vstd::seq_lib::to_multiset_remove(a, 0);
        vstd::seq_lib::to_multiset_remove(b, 0);
        assert(a.remove(0) =~= a.drop_first());
        assert(b.remove(0) =~= b.drop_first());
        lemma_ascending_permutation_equal(a.drop_first(), b.drop_first());
        assert(a =~= b) by {
            assert forall|i: int| 0 <= i < a.len() implies a[i] == b[i] by {
                if i > 0 {
                    assert(a[i] == a.drop_first()[i - 1]);
                    assert(b[i] == b.drop_first()[i - 1]);
                }
            }
        }
    } else {
        assert(a =~= b);
    }
}

/// Builds the start-up configuration from the text of the configuration file and of the old
/// bauds-only file, whichever exist; the custom baud rates end up sorted.
pub fn load_config(primary: Option<&str>, legacy_bauds: Option<&str>) -> (cfg: AppConfig)
    ensures
        ({
            let want = loaded_config(opt_str_view(primary), opt_str_view(legacy_bauds));
            &&& cfg@ == ConfigModel { custom_bauds: cfg@.custom_bauds, ..want }
            &&& ascending(cfg@.custom_bauds)
            &&& cfg@.custom_bauds.to_multiset() == want.custom_bauds.to_multiset()
        }),
        custom_bauds_ok(cfg@.custom_bauds),
        settings_savable(cfg@),
        ascending(loaded_config(opt_str_view(primary), opt_str_view(legacy_bauds)).custom_bauds) ==> cfg@
            == loaded_config(opt_str_view(primary), opt_str_view(legacy_bauds)),
{
    let mut cfg = match primary {
        Some(text) => parse_config(text),
        None => AppConfig::empty(),
    };
    // One-time migration from the old bauds-only file.
    if let Some(text) = legacy_bauds {
        merge_legacy_bauds(&mut cfg.custom_bauds, text);
    }
    let ghost unsorted = cfg.custom_bauds@;
    sort_bauds(&mut cfg.custom_bauds);
    proof {
        lemma_loaded_bauds_ok(opt_str_view(primary), opt_str_view(legacy_bauds));
        lemma_bauds_ok_permuted(unsorted, cfg.custom_bauds@);
        lemma_loaded_settings_savable(opt_str_view(primary), opt_str_view(legacy_bauds));
        let want = loaded_config(opt_str_view(primary), opt_str_view(legacy_bauds));
        if ascending(want.custom_bauds) {
            lemma_ascending_permutation_equal(cfg.custom_bauds@, want.custom_bauds);
        }
    }
    cfg
}

/// Lines joined into a text, each followed by `\n`.
pub open spec fn join_lines(ls: Seq<Seq<char>>) -> Seq<char>
    decreases ls.len(),
{
    if ls.len() == 0 {
        seq![]
    } else {
        join_lines(ls.drop_last()) + ls.last() + seq!['\n']
    }
}


// ---------- Reading back what was written ----------

/// Applies the lines `ls` in order.
pub open spec fn apply_lines(cfg: ConfigModel, ls: Seq<Seq<char>>) -> ConfigModel
    decreases ls.len(),
{
    if ls.len() == 0 {
        cfg
    } else {
        apply_lines(apply_config_line(cfg, ls[0]), ls.drop_first())
    }
}

/// Whether `s` has no line break.
pub open spec fn single_line(s: Seq<char>) -> bool {
    forall|i: int| 0 <= i < s.len() ==> s[i] != '\n'
}

proof fn lemma_fold_scan(cfg: ConfigModel, line: Seq<char>, l: Seq<char>, r: Seq<char>)
    requires
        single_line(l),
    ensures
        fold_config(cfg, line, l + r) == fold_config(cfg, line + l, r),
    decreases l.len(),
{
    if l.len() > 0 {
        assert((l + r)[0] == l[0]);
        assert((l + r).drop_first() =~= l.drop_first() + r);
        assert(line.push(l[0]) + l.drop_first() =~= line + l);
        lemma_fold_scan(cfg, line.push(l[0]), l.drop_first(), r);
    } else {
        assert(l + r =~= r);
        assert(line + l =~= line);
    }
}

proof fn lemma_join_front(l: Seq<char>, ls: Seq<Seq<char>>)
    ensures
        join_lines(seq![l] + ls) == l + seq!['\n'] + join_lines(ls),
    decreases ls.len(),
{
    if ls.len() == 0 {
        assert(seq![l] + ls =~= seq![l]);
        assert(seq![l].drop_last() =~= Seq::<Seq<char>>::empty());
        assert(join_lines(Seq::<Seq<char>>::empty()) =~= Seq::<char>::empty());
        assert(join_lines(ls) =~= Seq::<char>::empty());
        assert(seq![l].last() == l);
        assert(join_lines(seq![l]) =~= l + seq!['\n'] + join_lines(ls));
    } else {
        lemma_join_front(l, ls.drop_last());
        assert((seq![l] + ls).drop_last() =~= seq![l] + ls.drop_last());
        assert((seq![l] + ls).last() == ls.last());
        assert(join_lines(seq![l] + ls) =~= l + seq!['\n'] + join_lines(ls));
    }
}

/// Reading joined lines, none of which holds a line break, applies them in order.
pub(crate) proof fn lemma_fold_join(cfg: ConfigModel, ls: Seq<Seq<char>>)
    requires
        forall|k: int| 0 <= k < ls.len() ==> single_line(#[trigger] ls[k]),
    ensures
        fold_config(cfg, seq![], join_lines(ls)) == apply_lines(cfg, ls),
    decreases ls.len(),
{
    if ls.len() == 0 {
        assert(join_lines(ls) =~= Seq::<char>::empty());
        assert(trim(Seq::<char>::empty()) =~= Seq::<char>::empty());
    } else {
        let l = ls[0];
        let rest = ls.drop_first();
        assert(seq![l] + rest =~= ls);
        lemma_join_front(l, rest);
        assert(single_line(l));
        lemma_fold_scan(cfg, seq![], l, seq!['\n'] + join_lines(rest));
        assert(l + seq!['\n'] + join_lines(rest) =~= l + (seq!['\n'] + join_lines(rest)));
        assert(Seq::<char>::empty() + l =~= l);
        assert((seq!['\n'] + join_lines(rest)).drop_first() =~= join_lines(rest));
        assert forall|k: int| 0 <= k < rest.len() implies single_line(#[trigger] rest[k]) by {
            assert(rest[k] == ls[k + 1]);
        }
        lemma_fold_join(apply_config_line(cfg, l), rest);
    }
}

/// Applying lines in two batches.
pub(crate) proof fn lemma_apply_lines_append(cfg: ConfigModel, a: Seq<Seq<char>>, b: Seq<Seq<char>>)
    ensures
        apply_lines(cfg, a + b) == apply_lines(apply_lines(cfg, a), b),
    decreases a.len(),
{
    if a.len() > 0 {
        assert((a + b).drop_first() =~= a.drop_first() + b);
        assert((a + b)[0] == a[0]);
        lemma_apply_lines_append(apply_config_line(cfg, a[0]), a.drop_first(), b);
    } else {
        assert(a + b =~= b);
    }
}

/// Whether `k` can serve as a key: non-empty, no blanks or `=`, not a comment.
pub open spec fn plain_key(k: Seq<char>) -> bool {
    &&& k.len() > 0
    &&& k[0] != '#'
    &&& forall|i: int| 0 <= i < k.len() ==> !is_white_space(#[trigger] k[i]) && k[i] != '='
}

/// A `key=value` line sets the key to the trimmed value.
pub(crate) proof fn lemma_setting_line(cfg: ConfigModel, k: Seq<char>, v: Seq<char>)
    requires
        plain_key(k),
    ensures
        apply_config_line(cfg, k + seq!['='] + v) == apply_setting(cfg, k, trim(v)),
{
    let p = k + seq!['='];
    let raw = p + v;
    assert(raw[0] == k[0]);
    assert(trim_start(raw) == raw);
    assert(p.last() == '=');
    lemma_trim_end_append(p, v);
    let line = p + trim_end(v);
    assert(trim(raw) == line);
    assert(line[0] == k[0]);
    assert forall|i: int| 0 <= i < k.len() implies line[i] != '=' by {
        assert(line[i] == k[i]);
    }
    assert(line[k.len() as int] == '=');
    lemma_find_char(line, '=', k.len() as int);
    assert(line.take(k.len() as int) =~= k);
    assert(line.skip(k.len() as int + 1) =~= trim_end(v));
    assert(is_trimmed(k)) by {
        assert(!is_white_space(k[0]));
        assert(!is_white_space(k.last()));
    }
    lemma_trim_of_trimmed(k);
    lemma_trim_after_trim_end(v);
}

/// Each saved setting name reads back as the setting.
pub proof fn lemma_setting_names(d: DisplayMode, m: SendMode, e: LineEnding, b: bool)
    ensures
        display_mode_setting(display_mode_name(d)) == Some(d),
        send_mode_setting(send_mode_name(m)) == Some(m),
        line_ending_setting(line_ending_name(e)) == Some(e),
        bool_setting(bool_text(b)) == Some(b),
{
    reveal_strlit("ascii");
    reveal_strlit("hex");
    reveal_strlit("text");
    reveal_strlit("none");
    reveal_strlit("lf");
    reveal_strlit("cr");
    reveal_strlit("crlf");
    reveal_strlit("true");
    reveal_strlit("false");
    reveal_strlit("1");
    reveal_strlit("yes");
    reveal_strlit("on");
    reveal_strlit("0");
    reveal_strlit("no");
    reveal_strlit("off");
    lemma_lower_word(display_mode_name(d));
    lemma_lower_word(send_mode_name(m));
    lemma_lower_word(line_ending_name(e));
    lemma_lower_word(bool_text(b));
    assert("ascii"@.len() == 5 && "hex"@.len() == 3 && "text"@.len() == 4);
    assert("none"@.len() == 4 && "lf"@.len() == 2 && "cr"@.len() == 2 && "crlf"@.len() == 4);
    assert("none"@[0] == 'n' && "crlf"@[0] == 'c' && "lf"@[0] == 'l' && "cr"@[0] == 'c');
    assert("true"@.len() == 4 && "1"@.len() == 1 && "yes"@.len() == 3 && "on"@.len() == 2);
    assert("false"@.len() == 5 && "0"@.len() == 1 && "no"@.len() == 2 && "off"@.len() == 3);
    assert("ascii"@ != "hex"@);
    assert("text"@ != "hex"@);
    assert("none"@ != "lf"@ && "none"@ != "cr"@ && "none"@ != "crlf"@);
    assert("lf"@ != "cr"@ && "lf"@ != "crlf"@ && "cr"@ != "crlf"@);
    assert("true"@ != "1"@ && "true"@ != "yes"@ && "true"@ != "on"@);
    assert("false"@ != "true"@ && "false"@ != "1"@ && "false"@ != "yes"@ && "false"@ != "on"@);
}

/// A word of lower-case ASCII letters is its own trim and lower-case form.
pub(crate) proof fn lemma_lower_word(w: Seq<char>)
    requires
        w.len() > 0,
        forall|i: int| 0 <= i < w.len() ==> 'a' <= #[trigger] w[i] <= 'z',
    ensures
        ascii_lowercase(trim(w)) == w,
        trim(w) == w,
{
    assert(is_trimmed(w));
    lemma_trim_of_trimmed(w);
    assert(ascii_lowercase(w) =~= w);
}

} // verus!
