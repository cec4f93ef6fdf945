//! The terminal's state apart from the window: the console log with its line cap, the RX line
//! assembler, connection bookkeeping, sending with its history, the "will send" preview, and
//! the configuration text that persists the settings.
use vstd::prelude::*;
use std::collections::VecDeque;
use crate::codec::{
    ascii_from_bytes, converter_send_text, unescape, escape_preview_bytes, escape_text, hex_from_bytes, hex_text, hex_tokens,
    is_hex_separator, parse_hex, parse_hex_bytes, push_utf8, tokens_bytes, utf8_lossy,
};
use vstd::utf8::encode_utf8;
use crate::text::{
    bool_text, chars_of, decimal, is_digit, is_white_space, parse_u32, parse_u32_spec, push_char,
    push_decimal, push_signed_decimal, signed_decimal, string_from_chars, trim, trim_end, trim_start,
    trimmed, is_trimmed, lemma_decimal, lemma_trim_is_trimmed, lemma_parse_decimal, lemma_signed_decimal_trimmed,
    lemma_trim_of_trimmed,
};
use crate::config::{
    add_custom_baud, ascending, contains_baud, custom_bauds_ok, display_mode_name, history_savable,
    settings_savable, loaded_config,
    lemma_encoded_ends,
    lemma_add_custom_baud_ok, lemma_bauds_ok_permuted, display_mode_str, encode_history, encoded_history,
    ending_bytes, is_preset, is_preset_baud, line_ending_name, line_ending_str, send_mode_name,
    apply_config_line, apply_lines, bool_setting, config_from_text, display_mode_setting,
    empty_config, encode_history_char, join_lines, lemma_apply_lines_append, lemma_fold_join,
    lemma_history_roundtrip, lemma_lower_word, lemma_setting_line, lemma_setting_names,
    line_ending_setting, plain_key, send_mode_setting, send_mode_str, single_line, sort_bauds,
    AppConfig, ConfigModel, DisplayMode, LineEnding, SendMode,
};

verus! {

broadcast use vstd::std_specs::vecdeque::group_vec_dequeue_axioms;

/// The console keeps at most this many lines; older ones are dropped.
pub const MAX_LINES: usize = 5000;

/// The send history keeps at most this many entries.
pub const HISTORY_MAX: usize = 50;

/// A partial RX line longer than this is flushed even without a newline.
pub const RX_FLUSH_LIMIT: usize = 4096;

/// The source of a console line.
#[derive(Clone, Copy, PartialEq, Eq, Debug, Structural)]
pub enum LineKind {
    Rx,
    Tx,
    Sys,
    Error,
}

/// One console line. RX and TX lines keep their raw bytes so that they can be shown as ASCII
/// or HEX; system and error lines keep their message in `text` and have no bytes.
pub struct ConsoleLine {
    pub kind: LineKind,
    pub ts: String,
    pub raw: Vec<u8>,
    pub text: String,
}

/// What a console line holds apart from its timestamp.
pub type LineView = (LineKind, Seq<u8>, Seq<char>);

/// A console line without its timestamp.
pub open spec fn line_view(l: ConsoleLine) -> LineView {
    (l.kind, l.raw@, l.text@)
}

/// The last `max` elements of `s` (all of them if there are fewer).
pub open spec fn keep_last<T>(s: Seq<T>, max: int) -> Seq<T> {
    if s.len() > max {
        s.skip(s.len() - max)
    } else {
        s
    }
}

/// Whether console `new` is console `old` with lines appended and the oldest dropped beyond
/// the cap: every line kept from `old`, its timestamp included, is unchanged and in place.
pub open spec fn keeps_old_lines(old: Seq<ConsoleLine>, new: Seq<ConsoleLine>) -> bool {
    exists|added: Seq<ConsoleLine>| #[trigger] keep_last(old + added, MAX_LINES as int) == new
}

proof fn lemma_keeps_push(old: Seq<ConsoleLine>, line: ConsoleLine)
    ensures
        keeps_old_lines(old, keep_last(old.push(line), MAX_LINES as int)),
{
    assert(old.push(line) =~= old + seq![line]);
    assert(keep_last(old + seq![line], MAX_LINES as int) == keep_last(old.push(line), MAX_LINES as int));
}

proof fn lemma_keeps_same(old: Seq<ConsoleLine>)
    requires
        old.len() <= MAX_LINES,
    ensures
        keeps_old_lines(old, old),
{
    assert(old + Seq::<ConsoleLine>::empty() =~= old);
    assert(keep_last(old + Seq::<ConsoleLine>::empty(), MAX_LINES as int) == old);
}

proof fn lemma_keeps_trans(a: Seq<ConsoleLine>, b: Seq<ConsoleLine>, c: Seq<ConsoleLine>)
    requires
        keeps_old_lines(a, b),
        keeps_old_lines(b, c),
    ensures
        keeps_old_lines(a, c),
{
    let x = choose|x: Seq<ConsoleLine>| #[trigger] keep_last(a + x, MAX_LINES as int) == b;
    let y = choose|y: Seq<ConsoleLine>| #[trigger] keep_last(b + y, MAX_LINES as int) == c;
    lemma_keep_last_concat(a + x, y, MAX_LINES as int);
    assert((a + x) + y =~= a + (x + y));
    assert(keep_last(a + (x + y), MAX_LINES as int) == c);
}

/// Whether a timestamp has the form `HH:MM:SS.mmm`.
pub open spec fn is_clock_text(s: Seq<char>) -> bool {
    &&& s.len() == 12
    &&& s[2] == ':' && s[5] == ':' && s[8] == '.'
    &&& forall|i: int|
        0 <= i < 12 && i != 2 && i != 5 && i != 8 ==> is_digit(#[trigger] s[i])
}

/// The local wall-clock time formatted by chrono as `%H:%M:%S%.3f`. Trusted: the text has the
/// `HH:MM:SS.mmm` shape that chrono documents for those specifiers; which time it shows depends
/// on the clock and is not stated.
#[verifier::external_body]
fn timestamp() -> (s: String)
    ensures
        is_clock_text(s@),
{
    chrono::Local::now().format("%H:%M:%S%.3f").to_string()
}

/// Whether a text has the shape of a date and time written as `%Y%m%d-%H%M%S`: at least 15
/// characters (the year takes four digits or more, with a sign past 9999), each an ASCII
/// digit, `-` or `+`.
pub open spec fn is_file_stamp(s: Seq<char>) -> bool {
    &&& s.len() >= 15
    &&& forall|i: int| 0 <= i < s.len() ==> is_digit(#[trigger] s[i]) || s[i] == '-' || s[i] == '+'
}

/// The local date and time formatted by chrono as `%Y%m%d-%H%M%S`. Trusted: the text has the
/// shape chrono writes for those specifiers (a zero-padded year of at least four digits, signed
/// outside 0..=9999, then two digits each for month, day, hour, minute and second, with a `-`
/// between date and time); which time it shows depends on the clock and is not stated.
#[verifier::external_body]
fn file_stamp() -> (s: String)
    ensures
        is_file_stamp(s@),
{
    chrono::Local::now().format("%Y%m%d-%H%M%S").to_string()
}

/// The file name offered when the log is saved: `serial-log-`, the local date and time, and
/// `.txt`.
pub fn default_log_name() -> (s: String)
    ensures
        exists|stamp: Seq<char>| is_file_stamp(stamp) && s@ == "serial-log-"@ + stamp + ".txt"@,
{
    let mut s = String::from_str("serial-log-");
    let stamp = file_stamp();
    s.append(stamp.as_str());
    s.append(".txt");
    assert(is_file_stamp(stamp@) && s@ == "serial-log-"@ + stamp@ + ".txt"@);
    s
}

/// The body of a console line as displayed (and saved): RX/TX bytes as ASCII or as HEX per
/// `mode`, other lines as their message.
pub open spec fn line_body(l: LineView, mode: DisplayMode) -> Seq<char> {
    match l.0 {
        LineKind::Rx | LineKind::Tx => match mode {
            DisplayMode::Ascii => utf8_lossy(l.1),
            DisplayMode::Hex => hex_text(l.1),
        },
        _ => l.2,
    }
}

impl ConsoleLine {
    /// The text shown for this line in display mode `mode`.
    pub fn body(&self, mode: DisplayMode) -> (s: String)
        ensures
            s@ == line_body(line_view(*self), mode),
    {
        match self.kind {
            LineKind::Rx | LineKind::Tx => match mode {
                DisplayMode::Ascii => ascii_from_bytes(self.raw.as_slice()),
                DisplayMode::Hex => hex_from_bytes(self.raw.as_slice()),
            },
            _ => self.text.clone(),
        }
    }
}


// ---------- Counters ----------

/// `x + n` on a 64-bit counter that wraps around.
pub open spec fn counter_add(x: u64, n: int) -> u64 {
    ((x + n) % 0x1_0000_0000_0000_0000) as u64
}

proof fn lemma_counter_add(x: u64, a: int, b: int)
    requires
        a >= 0,
        b >= 0,
    ensures
        counter_add(counter_add(x, a), b) == counter_add(x, a + b),
{
    let m = 0x1_0000_0000_0000_0000int;
    vstd::arithmetic::div_mod::lemma_add_mod_noop(x + a, b, m);
    vstd::arithmetic::div_mod::lemma_mod_twice(x + a, m);
    vstd::arithmetic::div_mod::lemma_mod_bound(b, m);
    vstd::arithmetic::div_mod::lemma_mod_twice(b, m);
    vstd::arithmetic::div_mod::lemma_add_mod_noop((x + a) % m, b, m);
    assert(((x + a) % m + b) % m == (x + a + b) % m);
}

proof fn lemma_counter_add_zero(x: u64)
    ensures
        counter_add(x, 0) == x,
{
    vstd::arithmetic::div_mod::lemma_small_mod(x as nat, 0x1_0000_0000_0000_0000nat);
}

fn counter_incr(x: u64, n: u64) -> (r: u64)
    ensures
        r == counter_add(x, n as int),
{
    let r = x.wrapping_add(n);
    proof {
        let m = 0x1_0000_0000_0000_0000int;
        if x + n > u64::MAX {
            vstd::arithmetic::div_mod::lemma_fundamental_div_mod_converse(x + n, m, 1, x + n - m);
        } else {
            vstd::arithmetic::div_mod::lemma_small_mod((x + n) as nat, m as nat);
        }
    }
    r
}

// ---------- The terminal ----------

/// Everything the terminal knows apart from the window and the worker channels: port and baud
/// settings, connection status, the console, the send box and history, and the statistics.
pub struct Terminal {
    /// Serial ports found by the last refresh, sorted.
    pub ports: Vec<String>,
    pub selected_port: String,
    pub baud_text: String,
    /// Baud rates the user entered that are not presets; kept sorted.
    pub custom_bauds: Vec<u32>,
    pub connected: bool,
    pub conn_info: String,
    pub lines: VecDeque<ConsoleLine>,
    /// Received bytes after the last newline, still being accumulated.
    pub rx_partial: Vec<u8>,
    pub display_mode: DisplayMode,
    pub show_ts: bool,
    pub auto_scroll: bool,
    /// A partial RX line that has been quiet this long (ms) is emitted on its own; 0 disables.
    pub rx_idle_ms: u32,
    pub rx_idle_ms_text: String,
    /// When the last bytes arrived, in nanoseconds on the caller's monotonic clock.
    pub last_rx_at: Option<u64>,
    pub send_text: String,
    pub line_ending: LineEnding,
    pub send_mode: SendMode,
    /// Sent commands, most recent first.
    pub history: Vec<String>,
    pub dtr_on: bool,
    pub rx_bytes: u64,
    pub tx_bytes: u64,
    /// Number of RX and TX lines since the console was last cleared.
    pub line_count: u64,
}

/// The view of an RX line holding `raw`.
pub open spec fn rx_view(raw: Seq<u8>) -> LineView {
    (LineKind::Rx, raw, utf8_lossy(raw))
}

/// The view of a TX line holding `raw`.
pub open spec fn tx_view(raw: Seq<u8>) -> LineView {
    (LineKind::Tx, raw, utf8_lossy(raw))
}

/// The view of a system message line.
pub open spec fn sys_view(msg: Seq<char>) -> LineView {
    (LineKind::Sys, seq![], msg)
}

/// The view of an error message line.
pub open spec fn err_view(msg: Seq<char>) -> LineView {
    (LineKind::Error, seq![], msg)
}

/// Whether a line counts towards the RX/TX line counter.
pub open spec fn counts(l: LineView) -> bool {
    l.0 == LineKind::Rx || l.0 == LineKind::Tx
}

impl Terminal {
    /// Whether the console holds no more lines than the cap.
    pub open spec fn console_capped(&self) -> bool {
        self.lines@.len() <= MAX_LINES
    }

    /// The console lines without their timestamps, oldest first.
    pub open spec fn console(&self) -> Seq<LineView> {
        self.lines@.map_values(|l: ConsoleLine| line_view(l))
    }

    /// Appends a line to the console, dropping the oldest lines beyond the cap; RX and TX lines
    /// count towards the line counter.
    pub fn push_line(&mut self, line: ConsoleLine)
        ensures
            final(self).console_capped(),
            final(self).console() == keep_last(old(self).console().push(line_view(line)), MAX_LINES as int),
            final(self).lines@.last() == line,
            final(self).lines@ == keep_last(old(self).lines@.push(line), MAX_LINES as int),
            keeps_old_lines(old(self).lines@, final(self).lines@),
            final(self).line_count == if counts(line_view(line)) {
                counter_add(old(self).line_count, 1)
            } else {
                old(self).line_count
            },
            *final(self) == (Terminal { lines: final(self).lines, line_count: final(self).line_count, ..*old(self) }),
    {
        if line.kind == LineKind::Rx || line.kind == LineKind::Tx {
            self.line_count = counter_incr(self.line_count, 1);
        }
        let ghost all = old(self).lines@.push(line);
        let ghost v = line_view(line);
        self.lines.push_back(line);
        let ghost saved = *self;
        assert(self.lines@ =~= all.skip(0));
        while self.lines.len() > MAX_LINES
            invariant
                all.len() > MAX_LINES ==> self.lines@.len() >= MAX_LINES,
                all.len() <= MAX_LINES ==> self.lines@ == all,
                *self == (Terminal { lines: self.lines, ..saved }),
                self.lines@ == all.skip(all.len() - self.lines@.len()),
                all.len() >= self.lines@.len(),
            decreases self.lines@.len(),
        {
            self.lines.pop_front();
            assert(self.lines@ =~= all.skip(all.len() - self.lines@.len()));
        }
        proof {
            let kept = keep_last(all, MAX_LINES as int);
            if all.len() <= MAX_LINES {
                assert(self.lines@ =~= all);
            }
            assert(self.lines@ =~= kept);
            let vs = old(self).console().push(v);
            assert(all.map_values(|l: ConsoleLine| line_view(l)) =~= vs);
            assert(self.console() =~= keep_last(vs, MAX_LINES as int));
            assert(self.lines@.last() == all.last());
            lemma_keeps_push(old(self).lines@, line);
        }
    }

    /// Appends an RX line holding `raw`.
    pub fn push_rx_line(&mut self, raw: Vec<u8>)
        ensures
            final(self).console_capped(),
            final(self).console() == keep_last(old(self).console().push(rx_view(raw@)), MAX_LINES as int),
            is_clock_text(final(self).lines@.last().ts@),
            final(self).lines@ == keep_last(old(self).lines@.push(final(self).lines@.last()), MAX_LINES as int),
            keeps_old_lines(old(self).lines@, final(self).lines@),
            final(self).line_count == counter_add(old(self).line_count, 1),
            *final(self) == (Terminal { lines: final(self).lines, line_count: final(self).line_count, ..*old(self) }),
    {
        let text = ascii_from_bytes(raw.as_slice());
        self.push_line(ConsoleLine { kind: LineKind::Rx, ts: timestamp(), raw, text });
    }

    /// Appends a TX line holding `raw`.
    pub fn push_tx_line(&mut self, raw: Vec<u8>)
        ensures
            final(self).console_capped(),
            final(self).console() == keep_last(old(self).console().push(tx_view(raw@)), MAX_LINES as int),
            is_clock_text(final(self).lines@.last().ts@),
            final(self).lines@ == keep_last(old(self).lines@.push(final(self).lines@.last()), MAX_LINES as int),
            keeps_old_lines(old(self).lines@, final(self).lines@),
            final(self).line_count == counter_add(old(self).line_count, 1),
            *final(self) == (Terminal { lines: final(self).lines, line_count: final(self).line_count, ..*old(self) }),
    {
        let text = ascii_from_bytes(raw.as_slice());
        self.push_line(ConsoleLine { kind: LineKind::Tx, ts: timestamp(), raw, text });
    }

    /// Appends a system message.
    pub fn push_sys(&mut self, msg: String)
        ensures
            final(self).console_capped(),
            final(self).console() == keep_last(old(self).console().push(sys_view(msg@)), MAX_LINES as int),
            is_clock_text(final(self).lines@.last().ts@),
            final(self).lines@ == keep_last(old(self).lines@.push(final(self).lines@.last()), MAX_LINES as int),
            keeps_old_lines(old(self).lines@, final(self).lines@),
            *final(self) == (Terminal { lines: final(self).lines, ..*old(self) }),
    {
        self.push_line(ConsoleLine { kind: LineKind::Sys, ts: timestamp(), raw: Vec::new(), text: msg });
    }

    /// Appends an error message.
    pub fn push_err(&mut self, msg: String)
        ensures
            final(self).console_capped(),
            final(self).console() == keep_last(old(self).console().push(err_view(msg@)), MAX_LINES as int),
            is_clock_text(final(self).lines@.last().ts@),
            final(self).lines@ == keep_last(old(self).lines@.push(final(self).lines@.last()), MAX_LINES as int),
            keeps_old_lines(old(self).lines@, final(self).lines@),
            *final(self) == (Terminal { lines: final(self).lines, ..*old(self) }),
    {
        self.push_line(ConsoleLine { kind: LineKind::Error, ts: timestamp(), raw: Vec::new(), text: msg });
    }

    /// Empties the console and resets the line counter.
    pub fn clear_console(&mut self)
        ensures
            final(self).console() == Seq::<LineView>::empty(),
            *final(self) == (Terminal { lines: final(self).lines, line_count: 0, ..*old(self) }),
    {
        self.lines.clear();
        self.line_count = 0;
        assert(self.console() =~= Seq::<LineView>::empty());
    }
}


// ---------- RX line assembly ----------

/// `l` without one trailing CR.
pub open spec fn strip_cr(l: Seq<u8>) -> Seq<u8> {
    if l.len() > 0 && l.last() == 0x0D {
        l.drop_last()
    } else {
        l
    }
}

/// Splits received bytes `rest` into complete lines, continuing the line `line` already
/// started: each LF ends a line (which loses the LF and one CR before it); the bytes after the
/// last LF are returned as the unfinished line.
pub open spec fn split_from(line: Seq<u8>, rest: Seq<u8>) -> (Seq<Seq<u8>>, Seq<u8>)
    decreases rest.len(),
{
    if rest.len() == 0 {
        (seq![], line)
    } else if rest[0] == 0x0A {
        let r = split_from(seq![], rest.drop_first());
        (seq![strip_cr(line)] + r.0, r.1)
    } else {
        split_from(line.push(rest[0]), rest.drop_first())
    }
}

/// The complete lines in `buf` and the unfinished line after them.
pub open spec fn split_rx(buf: Seq<u8>) -> (Seq<Seq<u8>>, Seq<u8>) {
    split_from(seq![], buf)
}

/// The RX lines emitted for the accumulated bytes `buf`, and the bytes kept as the unfinished
/// line: an unfinished line longer than the flush limit is emitted as well.
pub open spec fn rx_flush(buf: Seq<u8>) -> (Seq<Seq<u8>>, Seq<u8>) {
    let (ls, rest) = split_rx(buf);
    if rest.len() > RX_FLUSH_LIMIT {
        (ls.push(rest), seq![])
    } else {
        (ls, rest)
    }
}

/// The console views of RX lines holding `raws`.
pub open spec fn rx_views(raws: Seq<Seq<u8>>) -> Seq<LineView> {
    raws.map_values(|r: Seq<u8>| rx_view(r))
}

proof fn lemma_split_scan(line: Seq<u8>, rest: Seq<u8>, k: int)
    requires
        0 <= k <= rest.len(),
        forall|i: int| 0 <= i < k ==> rest[i] != 0x0A,
    ensures
        split_from(line, rest) == split_from(line + rest.take(k), rest.skip(k)),
    decreases k,
{
    if k > 0 {
        lemma_split_scan(line.push(rest[0]), rest.drop_first(), k - 1);
        assert(line.push(rest[0]) + rest.drop_first().take(k - 1) =~= line + rest.take(k));
        assert(rest.drop_first().skip(k - 1) =~= rest.skip(k));
    } else {
        assert(line + rest.take(0) =~= line);
        assert(rest.skip(0) =~= rest);
    }
}

/// Keeping the last lines after each push is keeping the last lines once.
proof fn lemma_keep_last_push<T>(a: Seq<T>, x: T, m: int)
    requires
        m > 0,
    ensures
        keep_last(keep_last(a, m).push(x), m) == keep_last(a.push(x), m),
{
    assert(keep_last(keep_last(a, m).push(x), m) =~= keep_last(a.push(x), m));
}

proof fn lemma_keep_last_append<T>(a: Seq<T>, b: Seq<T>, x: T, m: int)
    requires
        m > 0,
    ensures
        keep_last(keep_last(a + b, m).push(x), m) == keep_last(a + b.push(x), m),
{
    lemma_keep_last_push(a + b, x, m);
    assert(a + b.push(x) =~= (a + b).push(x));
}

impl Terminal {
    /// Feeds received bytes into the line assembler: every complete line becomes an RX line, an
    /// over-long unfinished line is flushed, and the time of arrival is remembered.
    pub fn ingest_rx(&mut self, bytes: Vec<u8>, now: u64)
        requires
            old(self).console_capped(),
        ensures
            final(self).console_capped(),
            ({
                let (emitted, kept) = rx_flush(old(self).rx_partial@ + bytes@);
                &&& final(self).console() == keep_last(old(self).console() + rx_views(emitted), MAX_LINES as int)
                &&& final(self).rx_partial@ == kept
                &&& final(self).line_count == counter_add(old(self).line_count, emitted.len() as int)
            }),
            final(self).rx_bytes == counter_add(old(self).rx_bytes, bytes@.len() as int),
            final(self).last_rx_at == Some(now),
            keeps_old_lines(old(self).lines@, final(self).lines@),
            *final(self) == (Terminal {
                lines: final(self).lines,
                line_count: final(self).line_count,
                rx_partial: final(self).rx_partial,
                rx_bytes: final(self).rx_bytes,
                last_rx_at: final(self).last_rx_at,
                ..*old(self)
            }),
    {
        let ghost l0 = old(self).lines@;
        proof {
            lemma_keeps_same(l0);
        }
        let ghost buf0 = old(self).rx_partial@ + bytes@;
        let ghost c0 = old(self).console();
        let ghost lc0 = old(self).line_count;
        self.rx_bytes = counter_incr(self.rx_bytes, bytes.len() as u64);
        let mut bytes = bytes;
        self.rx_partial.append(&mut bytes);
        let ghost mut emitted: Seq<Seq<u8>> = seq![];
        let ghost saved = *self;
        proof {
            assert(self.rx_partial@ =~= buf0);
            assert(c0 + rx_views(emitted) =~= c0);
            lemma_counter_add_zero(lc0);
            if c0.len() <= MAX_LINES {
                assert(keep_last(c0, MAX_LINES as int) =~= c0);
            }
        }
        loop
            invariant
                split_rx(buf0).0 == emitted + split_rx(self.rx_partial@).0,
                split_rx(buf0).1 == split_rx(self.rx_partial@).1,
                self.console() == keep_last(c0 + rx_views(emitted), MAX_LINES as int),
                self.line_count == counter_add(lc0, emitted.len() as int),
                keeps_old_lines(l0, self.lines@),
                *self == (Terminal {
                    lines: self.lines,
                    line_count: self.line_count,
                    rx_partial: self.rx_partial,
                    ..saved
                }),
            ensures
                split_rx(buf0).0 == emitted,
                split_rx(buf0).1 == self.rx_partial@,
                self.console() == keep_last(c0 + rx_views(emitted), MAX_LINES as int),
                self.line_count == counter_add(lc0, emitted.len() as int),
                keeps_old_lines(l0, self.lines@),
                *self == (Terminal {
                    lines: self.lines,
                    line_count: self.line_count,
                    rx_partial: self.rx_partial,
                    ..saved
                }),
            decreases self.rx_partial@.len(),
        {
            let n = self.rx_partial.len();
            let mut pos: usize = 0;
            while pos < n && self.rx_partial[pos] != 0x0A
                invariant
                    0 <= pos <= n,
                    n == self.rx_partial@.len(),
                    forall|i: int| 0 <= i < pos ==> self.rx_partial@[i] != 0x0A,
                decreases n - pos,
            {
                pos = pos + 1;
            }
            let ghost p = self.rx_partial@;
            proof {
                lemma_split_scan(seq![], p, pos as int);
                assert(Seq::<u8>::empty() + p.take(pos as int) =~= p.take(pos as int));
            }
            if pos == n {
                proof {
                    assert(p.take(pos as int) =~= p);
                    assert(p.skip(pos as int) =~= Seq::<u8>::empty());
                    assert(emitted + Seq::<Seq<u8>>::empty() =~= emitted);
                }
                break;
            }
            let tail = self.rx_partial.split_off(pos + 1);
            let mut line: Vec<u8> = Vec::new();
            std::mem::swap(&mut line, &mut self.rx_partial);
            self.rx_partial = tail;
            line.pop(); // remove '\n'
            let ll = line.len();
            if ll > 0 && line[ll - 1] == 0x0D {
                line.pop();
            }
            let ghost raw = line@;
            proof {
                assert(p.skip(pos as int)[0] == 0x0A);
                assert(p.skip(pos as int).drop_first() =~= self.rx_partial@);
                assert(raw =~= strip_cr(p.take(pos as int)));
                let r = split_rx(self.rx_partial@);
                assert(split_rx(p) == (seq![raw] + r.0, r.1));
                assert(emitted.push(raw) + r.0 =~= emitted + (seq![raw] + r.0));
            }
            let ghost before_push = self.lines@;
            self.push_rx_line(line);
            proof {
                lemma_keeps_trans(l0, before_push, self.lines@);
                lemma_keep_last_append(c0, rx_views(emitted), rx_view(raw), MAX_LINES as int);
                assert(rx_views(emitted.push(raw)) =~= rx_views(emitted).push(rx_view(raw)));
                lemma_counter_add(lc0, emitted.len() as int, 1);
                emitted = emitted.push(raw);
            }
        }
        // Flush huge partial buffers so the user sees data even without newlines.
        if self.rx_partial.len() > RX_FLUSH_LIMIT {
            let mut flush: Vec<u8> = Vec::new();
            std::mem::swap(&mut flush, &mut self.rx_partial);
            let ghost raw = flush@;
            let ghost before_push = self.lines@;
            self.push_rx_line(flush);
            proof {
                lemma_keeps_trans(l0, before_push, self.lines@);
                lemma_keep_last_append(c0, rx_views(emitted), rx_view(raw), MAX_LINES as int);
                assert(rx_views(emitted.push(raw)) =~= rx_views(emitted).push(rx_view(raw)));
                lemma_counter_add(lc0, emitted.len() as int, 1);
            }
        }
        self.last_rx_at = Some(now);
    }
}


// ---------- Idle split and worker events ----------

/// Nanoseconds in a millisecond.
pub const NANOS_PER_MILLI: u64 = 1_000_000;

/// Time from `t` to `now` on a monotonic clock, never negative.
pub open spec fn elapsed(t: u64, now: u64) -> int {
    if now >= t {
        now - t
    } else {
        0
    }
}

/// What the worker thread reports.
pub enum WorkerEvent {
    Connected,
    Disconnected,
    Data(Vec<u8>),
    Error(String),
}

/// The part of the terminal that worker events change.
pub struct ConsoleState {
    pub connected: bool,
    pub conn_info: Seq<char>,
    pub console: Seq<LineView>,
    pub rx_partial: Seq<u8>,
    pub rx_bytes: u64,
    pub line_count: u64,
    pub last_rx_at: Option<u64>,
}

/// `s` with `v` appended to the console.
pub open spec fn with_line(s: ConsoleState, v: LineView) -> ConsoleState {
    ConsoleState {
        console: keep_last(s.console.push(v), MAX_LINES as int),
        line_count: if counts(v) { counter_add(s.line_count, 1) } else { s.line_count },
        ..s
    }
}

/// `s` after receiving `bytes` at time `now`.
pub open spec fn with_rx(s: ConsoleState, bytes: Seq<u8>, now: u64) -> ConsoleState {
    let (emitted, kept) = rx_flush(s.rx_partial + bytes);
    ConsoleState {
        console: keep_last(s.console + rx_views(emitted), MAX_LINES as int),
        rx_partial: kept,
        line_count: counter_add(s.line_count, emitted.len() as int),
        rx_bytes: counter_add(s.rx_bytes, bytes.len() as int),
        last_rx_at: Some(now),
        ..s
    }
}

/// `s` with its unfinished RX line, if any, emitted.
pub open spec fn with_partial_flushed(s: ConsoleState) -> ConsoleState {
    if s.rx_partial.len() > 0 {
        ConsoleState { rx_partial: seq![], ..with_line(s, rx_view(s.rx_partial)) }
    } else {
        s
    }
}

/// The effect of one worker event at time `now`, and whether it ends the connection.
pub open spec fn event_effect(s: ConsoleState, ev: WorkerEvent, now: u64) -> (ConsoleState, bool) {
    match ev {
        WorkerEvent::Connected => (
            with_line(
                ConsoleState { connected: true, ..s },
                sys_view("── Connected: "@ + s.conn_info + " ──"@),
            ),
            false,
        ),
        WorkerEvent::Disconnected => (
            ConsoleState {
                conn_info: "Disconnected"@,
                ..with_line(
                    with_partial_flushed(ConsoleState { connected: false, ..s }),
                    sys_view("── Disconnected ──"@),
                )
            },
            true,
        ),
        WorkerEvent::Data(bytes) => (with_rx(s, bytes@, now), false),
        WorkerEvent::Error(e) => (with_line(s, err_view(e@)), false),
    }
}

/// A disconnect ends the connection, emits the pending partial RX line (only when there is
/// one) and then the `── Disconnected ──` system line, and nothing else.
pub proof fn lemma_disconnect_lines(s: ConsoleState, now: u64)
    ensures
        ({
            let (r, d) = event_effect(s, WorkerEvent::Disconnected, now);
            let bye = sys_view("── Disconnected ──"@);
            &&& d
            &&& !r.connected
            &&& r.rx_partial.len() == 0
            &&& r.rx_bytes == s.rx_bytes
            &&& s.rx_partial.len() == 0 ==> r.console == keep_last(s.console.push(bye), MAX_LINES as int)
                && r.line_count == s.line_count
            &&& s.rx_partial.len() > 0 ==> r.console == keep_last(
                keep_last(s.console.push((LineKind::Rx, s.rx_partial, utf8_lossy(s.rx_partial))), MAX_LINES as int)
                    .push(bye),
                MAX_LINES as int,
            ) && r.line_count == counter_add(s.line_count, 1)
        }),
{
}

/// The effect of a batch of worker events, in order, and whether any of them ended the
/// connection.
pub open spec fn events_effect(s: ConsoleState, evs: Seq<WorkerEvent>, now: u64) -> (ConsoleState, bool)
    decreases evs.len(),
{
    if evs.len() == 0 {
        (s, false)
    } else {
        let (s1, d1) = event_effect(s, evs[0], now);
        let (s2, d2) = events_effect(s1, evs.drop_first(), now);
        (s2, d1 || d2)
    }
}

/// The effect of the worker's channel having closed.
pub open spec fn closed_effect(s: ConsoleState) -> ConsoleState {
    if s.connected {
        ConsoleState {
            conn_info: "Disconnected"@,
            ..with_line(ConsoleState { connected: false, ..s }, err_view("Worker thread terminated."@))
        }
    } else {
        s
    }
}

proof fn lemma_split_append(line: Seq<u8>, x: Seq<u8>, y: Seq<u8>)
    ensures
        split_from(line, x + y) == (
            split_from(line, x).0 + split_from(split_from(line, x).1, y).0,
            split_from(split_from(line, x).1, y).1,
        ),
    decreases x.len(),
{
    if x.len() == 0 {
        assert(x + y =~= y);
        assert(Seq::<Seq<u8>>::empty() + split_from(line, y).0 =~= split_from(line, y).0);
    } else {
        assert((x + y)[0] == x[0]);
        assert((x + y).drop_first() =~= x.drop_first() + y);
        if x[0] == 0x0A {
            lemma_split_append(seq![], x.drop_first(), y);
            let r = split_from(Seq::<u8>::empty(), x.drop_first());
            assert(seq![strip_cr(line)] + (r.0 + split_from(r.1, y).0) =~= (seq![strip_cr(line)] + r.0)
                + split_from(r.1, y).0);
        } else {
            lemma_split_append(line.push(x[0]), x.drop_first(), y);
        }
    }
}

proof fn lemma_split_rest_no_lf(line: Seq<u8>, rest: Seq<u8>)
    requires
        !line.contains(0x0A),
    ensures
        !split_from(line, rest).1.contains(0x0A),
    decreases rest.len(),
{
    if rest.len() > 0 {
        if rest[0] == 0x0A {
            lemma_split_rest_no_lf(seq![], rest.drop_first());
        } else {
            let l2 = line.push(rest[0]);
            assert(!l2.contains(0x0A)) by {
                if l2.contains(0x0A) {
                    let k = choose|k: int| 0 <= k < l2.len() && l2[k] == 0x0A;
                    assert(line[k] == l2[k]);
                }
            }
            lemma_split_rest_no_lf(l2, rest.drop_first());
        }
    }
}

/// Keeping the last lines after each batch is keeping the last lines once.
proof fn lemma_keep_last_concat<T>(a: Seq<T>, b: Seq<T>, m: int)
    requires
        m > 0,
    ensures
        keep_last(keep_last(a, m) + b, m) == keep_last(a + b, m),
{
    let l = keep_last(a, m);
    let lhs = keep_last(l + b, m);
    let rhs = keep_last(a + b, m);
    assert(l == a.skip(a.len() - l.len()));
    assert(lhs.len() == rhs.len());
    assert forall|i: int| 0 <= i < lhs.len() implies lhs[i] == rhs[i] by {
        let k = (l + b).len() - lhs.len() + i;
        let k2 = (a + b).len() - rhs.len() + i;
        assert(lhs[i] == (l + b)[k]);
        assert(rhs[i] == (a + b)[k2]);
        if k < l.len() {
            assert((l + b)[k] == l[k]);
            assert(l[k] == a[a.len() - l.len() + k]);
        }
    }
    assert(lhs =~= rhs);
}

/// How received bytes are cut into chunks does not change what is shown: receiving `a` and
/// then `b` gives the same console, unfinished line and counters as receiving `a + b` at once,
/// provided the unfinished line left after `a` was not long enough to be flushed on its own.
pub proof fn lemma_rx_chunking(s: ConsoleState, a: Seq<u8>, b: Seq<u8>, t1: u64, t2: u64)
    requires
        split_rx(s.rx_partial + a).1.len() <= RX_FLUSH_LIMIT,
    ensures
        with_rx(with_rx(s, a, t1), b, t2) == with_rx(s, a + b, t2),
{
    let p = s.rx_partial;
    let (e1, k1) = split_rx(p + a);
    let (e2, k2) = split_rx(k1 + b);
    assert(!Seq::<u8>::empty().contains(0x0A));
    lemma_split_rest_no_lf(seq![], p + a);
    assert forall|i: int| 0 <= i < k1.len() implies k1[i] != 0x0A by {
        if k1[i] == 0x0A {
            assert(k1.contains(0x0A));
        }
    }
    assert forall|i: int| 0 <= i < k1.len() implies (k1 + b)[i] != 0x0A by {
        assert((k1 + b)[i] == k1[i]);
    }
    lemma_split_scan(seq![], k1 + b, k1.len() as int);
    assert(Seq::<u8>::empty() + (k1 + b).take(k1.len() as int) =~= k1);
    assert((k1 + b).skip(k1.len() as int) =~= b);
    lemma_split_append(seq![], p + a, b);
    assert(p + (a + b) =~= (p + a) + b);
    assert(split_rx(p + (a + b)) == (e1 + e2, k2));
    let x1 = with_rx(s, a, t1);
    assert(x1.rx_partial == k1);
    let e2f = rx_flush(k1 + b).0;
    let ef = rx_flush(p + (a + b)).0;
    if k2.len() > RX_FLUSH_LIMIT {
        assert(ef =~= e1 + e2f);
    } else {
        assert(ef =~= e1 + e2f);
    }
    assert(rx_views(ef) =~= rx_views(e1) + rx_views(e2f));
    lemma_keep_last_concat(s.console + rx_views(e1), rx_views(e2f), MAX_LINES as int);
    assert(s.console + rx_views(e1) + rx_views(e2f) =~= s.console + rx_views(ef));
    lemma_counter_add(s.line_count, e1.len() as int, e2f.len() as int);
    lemma_counter_add(s.rx_bytes, a.len() as int, b.len() as int);
}

impl Terminal {
    /// The part of the terminal that worker events change.
    pub open spec fn console_state(&self) -> ConsoleState {
        ConsoleState {
            connected: self.connected,
            conn_info: self.conn_info@,
            console: self.console(),
            rx_partial: self.rx_partial@,
            rx_bytes: self.rx_bytes,
            line_count: self.line_count,
            last_rx_at: self.last_rx_at,
        }
    }

    /// Whether `b` equals `a` in everything that worker events leave alone.
    pub open spec fn same_settings(&self, other: Terminal) -> bool {
        *self == (Terminal {
            connected: self.connected,
            conn_info: self.conn_info,
            lines: self.lines,
            rx_partial: self.rx_partial,
            rx_bytes: self.rx_bytes,
            line_count: self.line_count,
            last_rx_at: self.last_rx_at,
            ..other
        })
    }

    /// Emits the unfinished RX line, if any.
    fn flush_partial(&mut self)
        requires
            old(self).console_capped(),
        ensures
            final(self).console_state() == with_partial_flushed(old(self).console_state()),
            final(self).same_settings(*old(self)),
            final(self).console_capped(),
            keeps_old_lines(old(self).lines@, final(self).lines@),
    {
        proof {
            lemma_keeps_same(self.lines@);
        }
        if self.rx_partial.len() > 0 {
            let mut flush: Vec<u8> = Vec::new();
            std::mem::swap(&mut flush, &mut self.rx_partial);
            self.push_rx_line(flush);
        }
    }

    /// Emits the in-progress RX line once it has been quiet for at least `rx_idle_ms` (when
    /// that is not 0), then stops waiting until more bytes arrive. `now` is in nanoseconds on
    /// the same clock as the times given to `ingest_rx`.
    pub fn maybe_idle_split(&mut self, now: u64)
        requires
            old(self).console_capped(),
        ensures
            ({
                let due = old(self).rx_idle_ms != 0 && old(self).last_rx_at is Some && elapsed(
                    old(self).last_rx_at->0,
                    now,
                ) >= old(self).rx_idle_ms * NANOS_PER_MILLI;
                if due {
                    &&& final(self).console_state() == (ConsoleState {
                        last_rx_at: None,
                        ..with_partial_flushed(old(self).console_state())
                    })
                    &&& final(self).same_settings(*old(self))
                } else {
                    *final(self) == *old(self)
                }
            }),
            final(self).console_capped(),
            keeps_old_lines(old(self).lines@, final(self).lines@),
    {
        proof {
            lemma_keeps_same(self.lines@);
        }
        if self.rx_idle_ms == 0 {
            return;
        }
        let t = match self.last_rx_at {
            Some(t) => t,
            None => {
                return;
            },
        };
        if now.saturating_sub(t) < (self.rx_idle_ms as u64) * NANOS_PER_MILLI {
            return;
        }
        self.flush_partial();
        // Reset so we don't keep re-firing.
        self.last_rx_at = None;
    }

    /// Applies one worker event; returns whether it ended the connection.
    fn apply_event(&mut self, ev: WorkerEvent, now: u64) -> (drop: bool)
        requires
            old(self).console_capped(),
        ensures
            (final(self).console_state(), drop) == event_effect(old(self).console_state(), ev, now),
            final(self).same_settings(*old(self)),
            final(self).console_capped(),
            keeps_old_lines(old(self).lines@, final(self).lines@),
    {
        let ghost l0 = self.lines@;
        match ev {
            WorkerEvent::Connected => {
                self.connected = true;
                let mut msg = String::from_str("── Connected: ");
                msg.append(self.conn_info.as_str());
                msg.append(" ──");
                self.push_sys(msg);
                false
            },
            WorkerEvent::Disconnected => {
                self.connected = false;
                self.flush_partial();
                let ghost mid = self.lines@;
                self.push_sys(String::from_str("── Disconnected ──"));
                proof {
                    lemma_keeps_trans(l0, mid, self.lines@);
                }
                self.conn_info = String::from_str("Disconnected");
                true
            },
            WorkerEvent::Data(bytes) => {
                self.ingest_rx(bytes, now);
                false
            },
            WorkerEvent::Error(e) => {
                self.push_err(e);
                false
            },
        }
    }

    /// Applies the events drained from the worker, in order, then the closing of its channel
    /// if that was seen. Returns whether the connection is over, i.e. whether the caller should
    /// drop its channels to the worker.
    pub fn apply_events(&mut self, events: Vec<WorkerEvent>, channel_closed: bool, now: u64) -> (drop: bool)
        requires
            old(self).console_capped(),
        ensures
            ({
                let (s, d) = events_effect(old(self).console_state(), events@, now);
                &&& final(self).console_state() == if channel_closed { closed_effect(s) } else { s }
                &&& drop == (d || channel_closed)
            }),
            final(self).same_settings(*old(self)),
            final(self).console_capped(),
            keeps_old_lines(old(self).lines@, final(self).lines@),
    {
        proof {
            lemma_keeps_same(self.lines@);
        }
        let mut events = events;
        let ghost all = events@;
        let ghost start = *self;
        let mut drop = false;
        let n = events.len();
        let mut i: usize = 0;
        assert(all.skip(0) =~= all);
        while i < n
            invariant
                self.console_capped(),
                self.same_settings(start),
                keeps_old_lines(start.lines@, self.lines@),
                0 <= i <= n,
                n == all.len(),
                events@.len() == n,
                forall|k: int| i <= k < n ==> events@[k] == all[k],
                ({
                    let (s, d) = events_effect(self.console_state(), all.skip(i as int), now);
                    let (s0, d0) = events_effect(start.console_state(), all, now);
                    s == s0 && (drop || d) == d0
                }),
            decreases n - i,
        {
            let mut ev = WorkerEvent::Connected;
            events.set_and_swap(i, &mut ev);
            proof {
                assert(ev == all[i as int]);
                assert(all.skip(i as int)[0] == ev);
                assert(all.skip(i as int).drop_first() =~= all.skip(i + 1));
            }
            let ghost mid = self.lines@;
            let d = self.apply_event(ev, now);
            proof {
                lemma_keeps_trans(start.lines@, mid, self.lines@);
            }
            drop = drop || d;
            i = i + 1;
        }
        proof {
            assert(all.skip(i as int) =~= Seq::<WorkerEvent>::empty());
        }
        if channel_closed {
            if self.connected {
                self.connected = false;
                let ghost mid = self.lines@;
                self.push_err(String::from_str("Worker thread terminated."));
                proof {
                    lemma_keeps_trans(start.lines@, mid, self.lines@);
                }
                self.conn_info = String::from_str("Disconnected");
            }
            drop = true;
        }
        drop
    }
}


// ---------- Sending ----------

/// The bytes the send box stands for, before the line ending: in TEXT mode exactly the UTF-8
/// bytes of what was typed, in HEX mode the parsed hex bytes (or the parser's message).
pub open spec fn send_body(text: Seq<char>, mode: SendMode) -> Result<Seq<u8>, Seq<char>> {
    match mode {
        SendMode::Text => Ok(encode_utf8(text)),
        SendMode::Hex => parse_hex(text),
    }
}

/// The bytes that go on the wire for the send box: its bytes followed by the line ending.
pub open spec fn wire_bytes(text: Seq<char>, mode: SendMode, ending: LineEnding) -> Result<Seq<u8>, Seq<char>> {
    match send_body(text, mode) {
        Ok(b) => Ok(b + ending_bytes(ending)),
        Err(e) => Err(e),
    }
}

proof fn lemma_encode_utf8_push(a: Seq<char>, c: char)
    ensures
        encode_utf8(a.push(c)) == encode_utf8(a) + encode_utf8(seq![c]),
    decreases a.len(),
{
    if a.len() == 0 {
        assert(a.push(c) =~= seq![c]);
        assert(encode_utf8(a) =~= Seq::<u8>::empty());
        assert(encode_utf8(a) + encode_utf8(seq![c]) =~= encode_utf8(seq![c]));
    } else {
        lemma_encode_utf8_push(a.drop_first(), c);
        assert(a.push(c).drop_first() =~= a.drop_first().push(c));
        assert(a.push(c)[0] == a[0]);
        assert(encode_utf8(a.push(c)) =~= encode_utf8(a) + encode_utf8(seq![c]));
    }
}

/// The UTF-8 bytes of `cs`.
fn utf8_bytes(cs: &[char]) -> (b: Vec<u8>)
    ensures
        b@ == encode_utf8(cs@),
{
    let mut b: Vec<u8> = Vec::new();
    let mut i: usize = 0;
    assert(encode_utf8(cs@.take(0)) =~= Seq::<u8>::empty()) by {
        assert(cs@.take(0) =~= Seq::<char>::empty());
    }
    while i < cs.len()
        invariant
            0 <= i <= cs@.len(),
            b@ == encode_utf8(cs@.take(i as int)),
        decreases cs@.len() - i,
    {
        push_utf8(&mut b, cs[i]);
        proof {
            lemma_encode_utf8_push(cs@.take(i as int), cs@[i as int]);
            assert(cs@.take(i + 1) =~= cs@.take(i as int).push(cs@[i as int]));
        }
        i = i + 1;
    }
    assert(cs@.take(i as int) =~= cs@);
    b
}

/// Appends `b` to `v`.
fn append_bytes(v: &mut Vec<u8>, b: &[u8])
    ensures
        final(v)@ == old(v)@ + b@,
{
    let mut i: usize = 0;
    while i < b.len()
        invariant
            0 <= i <= b@.len(),
            v@ == old(v)@ + b@.take(i as int),
        decreases b@.len() - i,
    {
        v.push(b[i]);
        assert(b@.take(i + 1) =~= b@.take(i as int).push(b@[i as int]));
        i = i + 1;
    }
    assert(b@.take(i as int) =~= b@);
}

/// `history` without the entries equal to `h`.
pub open spec fn history_without(history: Seq<Seq<char>>, h: Seq<char>) -> Seq<Seq<char>>
    decreases history.len(),
{
    if history.len() == 0 {
        seq![]
    } else if history[0] == h {
        history_without(history.drop_first(), h)
    } else {
        seq![history[0]] + history_without(history.drop_first(), h)
    }
}

/// The history after sending with the (trimmed) command `h`: an empty command changes nothing;
/// otherwise `h` moves to the front, earlier copies of it are dropped, and the list is cut to
/// the history limit.
pub open spec fn remember(history: Seq<Seq<char>>, h: Seq<char>) -> Seq<Seq<char>> {
    if h.len() == 0 {
        history
    } else {
        let moved = seq![h] + history_without(history, h);
        if moved.len() > HISTORY_MAX {
            moved.take(HISTORY_MAX as int)
        } else {
            moved
        }
    }
}

/// Whether a send history is as sending keeps it: at most `HISTORY_MAX` entries, none of them
/// empty, no two equal.
pub open spec fn history_ok(h: Seq<Seq<char>>) -> bool {
    &&& h.len() <= HISTORY_MAX
    &&& forall|k: int| 0 <= k < h.len() ==> (#[trigger] h[k]).len() > 0
    &&& forall|i: int, j: int| 0 <= i < j < h.len() ==> h[i] != h[j]
}

proof fn lemma_history_without(s: Seq<Seq<char>>, h: Seq<char>)
    ensures
        history_without(s, h).len() <= s.len(),
        forall|k: int| 0 <= k < history_without(s, h).len() ==> #[trigger] history_without(s, h)[k] != h
            && s.contains(history_without(s, h)[k]),
        (forall|i: int, j: int| 0 <= i < j < s.len() ==> s[i] != s[j]) ==> (forall|i: int, j: int|
            0 <= i < j < history_without(s, h).len() ==> history_without(s, h)[i] != history_without(
                s,
                h,
            )[j]),
    decreases s.len(),
{
    if s.len() > 0 {
        let rest = s.drop_first();
        let w = history_without(rest, h);
        lemma_history_without(rest, h);
        assert forall|k: int| 0 <= k < w.len() implies s.contains(#[trigger] w[k]) by {
            let m = choose|m: int| 0 <= m < rest.len() && rest[m] == w[k];
            assert(s[m + 1] == rest[m]);
        }
        if s[0] != h {
            let r = seq![s[0]] + w;
            assert(history_without(s, h) == r);
            assert forall|k: int| 0 <= k < r.len() implies #[trigger] r[k] != h && s.contains(r[k]) by {
                if k == 0 {
                    assert(s.contains(s[0]));
                } else {
                    assert(r[k] == w[k - 1]);
                }
            }
            if forall|i: int, j: int| 0 <= i < j < s.len() ==> s[i] != s[j] {
                assert forall|i: int, j: int| 0 <= i < j < rest.len() implies rest[i] != rest[j] by {
                    assert(rest[i] == s[i + 1] && rest[j] == s[j + 1]);
                }
                assert forall|i: int, j: int| 0 <= i < j < r.len() implies r[i] != r[j] by {
                    if i == 0 {
                        assert(r[j] == w[j - 1]);
                        assert(rest.contains(w[j - 1]));
                        let m = choose|m: int| 0 <= m < rest.len() && rest[m] == w[j - 1];
                        assert(s[m + 1] == rest[m]);
                    } else {
                        assert(r[i] == w[i - 1] && r[j] == w[j - 1]);
                    }
                }
            }
        } else {
            if forall|i: int, j: int| 0 <= i < j < s.len() ==> s[i] != s[j] {
                assert forall|i: int, j: int| 0 <= i < j < rest.len() implies rest[i] != rest[j] by {
                    assert(rest[i] == s[i + 1] && rest[j] == s[j + 1]);
                }
            }
        }
    }
}

/// Sending a command keeps a valid history valid, puts the (non-empty) command first, and
/// leaves no other copy of it.
pub proof fn lemma_remember(history: Seq<Seq<char>>, h: Seq<char>)
    requires
        history_ok(history),
    ensures
        history_ok(remember(history, h)),
        h.len() > 0 ==> remember(history, h)[0] == h,
        h.len() > 0 ==> forall|k: int| 1 <= k < remember(history, h).len() ==> #[trigger] remember(history, h)[k] != h,
{
    if h.len() > 0 {
        lemma_history_without(history, h);
        let w = history_without(history, h);
        let moved = seq![h] + w;
        let r = remember(history, h);
        assert forall|k: int| 0 <= k < moved.len() implies (#[trigger] moved[k]).len() > 0 && (k > 0 ==> moved[k] != h) by {
            if k > 0 {
                assert(moved[k] == w[k - 1]);
                let m = choose|m: int| 0 <= m < history.len() && history[m] == w[k - 1];
            }
        }
        assert forall|i: int, j: int| 0 <= i < j < moved.len() implies moved[i] != moved[j] by {
            assert(moved[j] == w[j - 1]);
            if i > 0 {
                assert(moved[i] == w[i - 1]);
            }
        }
        assert forall|k: int| 0 <= k < r.len() implies r[k] == moved[k] by {}
    }
}

/// A non-empty entry without whitespace at either end can be saved.
proof fn lemma_trimmed_entry_savable(h: Seq<char>)
    requires
        h.len() > 0,
        is_trimmed(h),
    ensures
        is_trimmed(encoded_history(h)),
{
    lemma_encoded_ends(h);
}

/// Sending keeps every history entry savable.
proof fn lemma_remember_savable(history: Seq<Seq<char>>, h: Seq<char>)
    requires
        history_savable(history),
        is_trimmed(h),
    ensures
        history_savable(remember(history, h)),
{
    if h.len() > 0 {
        lemma_history_without(history, h);
        lemma_trimmed_entry_savable(h);
        let w = history_without(history, h);
        let moved = seq![h] + w;
        let r = remember(history, h);
        assert forall|k: int| 0 <= k < r.len() implies (#[trigger] r[k]).len() > 0 && is_trimmed(
            encoded_history(r[k]),
        ) by {
            assert(r[k] == moved[k]);
            if k > 0 {
                assert(moved[k] == w[k - 1]);
                let m = choose|m: int| 0 <= m < history.len() && history[m] == w[k - 1];
                assert(history[m].len() > 0);
            }
        }
    }
}

/// Whether a history entry differs from `h`.
pub open spec fn differs_from(h: Seq<char>) -> spec_fn(Seq<char>) -> bool {
    |x: Seq<char>| x != h
}

/// `history` with every entry equal to `h` taken out and the others kept in order.
proof fn lemma_history_without_filter(history: Seq<Seq<char>>, h: Seq<char>)
    ensures
        history_without(history, h) == history.filter(differs_from(h)),
    decreases history.len(),
{
    if history.len() == 0 {
        reveal_with_fuel(Seq::filter, 1);
        assert(history.filter(differs_from(h)) =~= Seq::<Seq<char>>::empty());
    } else {
        let rest = history.drop_first();
        lemma_history_without_filter(rest, h);
        assert(seq![history[0]] + rest =~= history);
        rest.lemma_filter_prepend(history[0], differs_from(h));
        assert((seq![history[0]] + rest).filter(differs_from(h)) == (if history[0] != h {
            seq![history[0]]
        } else {
            Seq::<Seq<char>>::empty()
        }) + rest.filter(differs_from(h)));
        if history[0] == h {
            assert(Seq::<Seq<char>>::empty() + rest.filter(differs_from(h)) =~= rest.filter(differs_from(h)));
        }
    }
}

/// Sending a non-empty command `h` puts it first and keeps every other entry of the history
/// that differs from it, in the same order, dropping only what falls beyond the history
/// limit; an empty command leaves the history as it was.
pub proof fn lemma_remember_keeps_others(history: Seq<Seq<char>>, h: Seq<char>)
    ensures
        h.len() == 0 ==> remember(history, h) == history,
        h.len() > 0 ==> {
            let all = seq![h] + history.filter(differs_from(h));
            remember(history, h) == all.take(if all.len() > HISTORY_MAX { HISTORY_MAX as int } else { all.len() as int })
        },
{
    lemma_history_without_filter(history, h);
    if h.len() > 0 {
        let all = seq![h] + history.filter(differs_from(h));
        assert(all.take(all.len() as int) =~= all);
    }
}

/// The characters of each history entry.
pub open spec fn history_view(history: Seq<String>) -> Seq<Seq<char>> {
    history.map_values(|h: String| h@)
}

/// What `prepare_send` hands to the worker: the bytes for the wire, and the bytes that the TX
/// log line shows (in TEXT mode without the line ending).
pub struct Outgoing {
    pub payload: Vec<u8>,
    pub log: Vec<u8>,
}

impl Terminal {
    /// Decides what the send box sends. Nothing is sent while disconnected, nor when the box
    /// stands for no bytes and no line ending is chosen; a HEX parse error is reported in the
    /// console. Otherwise the payload is exactly `wire_bytes` of the send box.
    pub fn prepare_send(&mut self) -> (r: Option<Outgoing>)
        requires
            old(self).console_capped(),
        ensures
            final(self).console_capped(),
            !old(self).connected ==> r is None && *final(self) == *old(self),
            old(self).connected ==> match wire_bytes(old(self).send_text@, old(self).send_mode, old(self).line_ending) {
                Err(e) => {
                    &&& r is None
                    &&& final(self).console() == keep_last(
                        old(self).console().push(err_view("Hex parse error: "@ + e)),
                        MAX_LINES as int,
                    )
                    &&& *final(self) == (Terminal { lines: final(self).lines, ..*old(self) })
                },
                Ok(w) => {
                    &&& *final(self) == *old(self)
                    &&& if w.len() == 0 {
                        r is None
                    } else {
                        &&& r matches Some(o)
                        &&& o.payload@ == w
                        &&& o.log@ == match old(self).send_mode {
                            SendMode::Text => send_body(old(self).send_text@, SendMode::Text)->Ok_0,
                            SendMode::Hex => w,
                        }
                    }
                },
            },
            keeps_old_lines(old(self).lines@, final(self).lines@),
    {
        proof {
            lemma_keeps_same(self.lines@);
        }
        if !self.connected {
            return None;
        }
        let ending = self.line_ending.bytes();
        match self.send_mode {
            SendMode::Text => {
                let raw = chars_of(self.send_text.as_str());
                if raw.len() == 0 && self.line_ending == LineEnding::NoEnding {
                    proof {
                        assert(encode_utf8(raw@) =~= Seq::<u8>::empty());
                        assert(encode_utf8(raw@) + ending_bytes(self.line_ending) =~= Seq::<u8>::empty());
                    }
                    return None;
                }
                let log = utf8_bytes(raw.as_slice());
                let mut payload = utf8_bytes(raw.as_slice());
                append_bytes(&mut payload, ending);
                proof {
                    if raw@.len() > 0 {
                        assert(encode_utf8(raw@).len() > 0);
                    } else {
                        assert(ending_bytes(self.line_ending).len() > 0);
                    }
                }
                Some(Outgoing { payload, log })
            },
            SendMode::Hex => match parse_hex_bytes(self.send_text.as_str()) {
                Ok(b) => {
                    if b.len() == 0 && self.line_ending == LineEnding::NoEnding {
                        proof {
                            assert(b@ + ending_bytes(self.line_ending) =~= Seq::<u8>::empty());
                        }
                        return None;
                    }
                    let mut payload = b;
                    append_bytes(&mut payload, ending);
                    let log = payload.clone();
                    Some(Outgoing { payload, log })
                },
                Err(e) => {
                    let mut msg = String::from_str("Hex parse error: ");
                    msg.append(e.as_str());
                    self.push_err(msg);
                    None
                },
            },
        }
    }
}


impl Terminal {
    /// Records a transmission that the worker accepted: counts its bytes, logs it as a TX line,
    /// and remembers the trimmed send box in the history.
    pub fn record_sent(&mut self, sent: Outgoing)
        requires
            old(self).console_capped(),
        ensures
            final(self).console_capped(),
            final(self).tx_bytes == counter_add(old(self).tx_bytes, sent.payload@.len() as int),
            final(self).console() == keep_last(old(self).console().push(tx_view(sent.log@)), MAX_LINES as int),
            final(self).line_count == counter_add(old(self).line_count, 1),
            history_view(final(self).history@) == remember(history_view(old(self).history@), trim(old(self).send_text@)),
            history_ok(history_view(old(self).history@)) ==> history_ok(history_view(final(self).history@)),
            history_savable(history_view(old(self).history@)) ==> history_savable(history_view(final(self).history@)),
            *final(self) == (Terminal {
                lines: final(self).lines,
                line_count: final(self).line_count,
                tx_bytes: final(self).tx_bytes,
                history: final(self).history,
                ..*old(self)
            }),
            keeps_old_lines(old(self).lines@, final(self).lines@),
    {
        proof {
            lemma_keeps_same(self.lines@);
        }
        self.tx_bytes = counter_incr(self.tx_bytes, sent.payload.len() as u64);
        self.push_tx_line(sent.log);
        let h = trimmed(self.send_text.as_str());
        if h.len() > 0 {
            let hs = string_from_chars(h.as_slice());
            // Move-to-front: drop any earlier duplicate so the same command doesn't pile up.
            let ghost old_hist = history_view(self.history@);
            let mut next: Vec<String> = Vec::new();
            next.push(hs.clone());
            let mut i: usize = 0;
            proof {
                assert(old_hist.skip(0) =~= old_hist);
                assert(history_view(next@) =~= seq![h@]);
            }
            while i < self.history.len()
                invariant
                    0 <= i <= self.history@.len(),
                    old_hist == history_view(self.history@),
                    hs@ == h@,
                    seq![h@] + history_without(old_hist, h@) == history_view(next@) + history_without(
                        old_hist.skip(i as int),
                        h@,
                    ),
                decreases self.history@.len() - i,
            {
                let keep = !(self.history[i] == hs);
                proof {
                    let rest = old_hist.skip(i as int);
                    assert(rest[0] == self.history@[i as int]@);
                    assert(rest.drop_first() =~= old_hist.skip(i + 1));
                }
                if keep {
                    let ghost before = history_view(next@);
                    next.push(self.history[i].clone());
                    proof {
                        assert(history_view(next@) =~= before.push(self.history@[i as int]@));
                        let w = history_without(old_hist.skip(i + 1), h@);
                        assert(before + (seq![self.history@[i as int]@] + w) =~= before.push(
                            self.history@[i as int]@,
                        ) + w);
                    }
                }
                i = i + 1;
            }
            proof {
                assert(old_hist.skip(i as int) =~= Seq::<Seq<char>>::empty());
                assert(history_view(next@) + Seq::<Seq<char>>::empty() =~= history_view(next@));
            }
            let ghost moved = history_view(next@);
            next.truncate(HISTORY_MAX);
            proof {
                if moved.len() > HISTORY_MAX {
                    assert(history_view(next@) =~= moved.take(HISTORY_MAX as int));
                } else {
                    assert(history_view(next@) =~= moved);
                }
            }
            self.history = next;
        }
        proof {
            if history_ok(history_view(old(self).history@)) {
                lemma_remember(history_view(old(self).history@), trim(old(self).send_text@));
            }
            lemma_trim_is_trimmed(old(self).send_text@);
            if history_savable(history_view(old(self).history@)) {
                lemma_remember_savable(history_view(old(self).history@), trim(old(self).send_text@));
            }
        }
    }
}


/// The message for a transmission that could not be handed to the worker: its channel was
/// gone, or there was none.
pub open spec fn send_failure(had_channel: bool) -> Seq<char> {
    if had_channel {
        "Send failed: worker disconnected"@
    } else {
        "Send failed: not connected"@
    }
}

impl Terminal {
    /// Reports a transmission that could not be handed to the worker, because its channel was
    /// closed (`had_channel`) or there was no channel.
    pub fn report_send_failure(&mut self, had_channel: bool)
        requires
            old(self).console_capped(),
        ensures
            final(self).console_capped(),
            final(self).console() == keep_last(
                old(self).console().push(err_view(send_failure(had_channel))),
                MAX_LINES as int,
            ),
            *final(self) == (Terminal { lines: final(self).lines, ..*old(self) }),
            keeps_old_lines(old(self).lines@, final(self).lines@),
    {
        proof {
            lemma_keeps_same(self.lines@);
        }
        if had_channel {
            self.push_err(String::from_str("Send failed: worker disconnected"));
        } else {
            self.push_err(String::from_str("Send failed: not connected"));
        }
    }
}

// ---------- The "will send" preview ----------

/// The "will send" preview of the send box: its bytes as escaped ASCII and as HEX, their count,
/// or the reason they cannot be computed.
pub struct SendPreview {
    pub ascii: String,
    pub hex: String,
    pub bytes: usize,
    pub error: Option<String>,
}

/// The bytes the preview shows for the send box: in TEXT mode the UTF-8 bytes of what was
/// typed, in HEX mode nothing for a blank box and the parsed bytes otherwise; then the
/// line ending.
pub open spec fn preview_bytes(text: Seq<char>, mode: SendMode, ending: LineEnding) -> Result<Seq<u8>, Seq<char>> {
    match mode {
        SendMode::Text => Ok(encode_utf8(text) + ending_bytes(ending)),
        SendMode::Hex => if trim(text).len() == 0 {
            Ok(ending_bytes(ending))
        } else {
            match parse_hex(text) {
                Ok(b) => Ok(b + ending_bytes(ending)),
                Err(e) => Err(e),
            }
        },
    }
}

/// One preview row: `(empty)` for no bytes, otherwise `shown` in full.
pub open spec fn preview_row(b: Seq<u8>, shown: Seq<char>) -> Seq<char> {
    if b.len() == 0 {
        "(empty)"@
    } else {
        shown
    }
}

/// The text of an optional string.
pub open spec fn opt_text(s: Option<String>) -> Option<Seq<char>> {
    match s {
        Some(t) => Some(t@),
        None => None,
    }
}

impl Terminal {
    /// Computes the "will send" preview of the send box: the exact bytes that go on the wire,
    /// as escaped ASCII and as HEX, in full.
    pub fn send_preview(&self) -> (p: SendPreview)
        ensures
            match preview_bytes(self.send_text@, self.send_mode, self.line_ending) {
                Err(e) => {
                    &&& opt_text(p.error) == Some(e)
                    &&& p.ascii@ == Seq::<char>::empty()
                    &&& p.hex@ == Seq::<char>::empty()
                    &&& p.bytes == 0
                },
                Ok(b) => {
                    &&& p.error is None
                    &&& p.bytes == b.len()
                    &&& p.ascii@ == preview_row(b, escape_text(b))
                    &&& p.hex@ == preview_row(b, hex_text(b))
                },
            },
    {
        let ending = self.line_ending.bytes();
        let bytes_result: Result<Vec<u8>, String> = match self.send_mode {
            SendMode::Text => {
                let raw = chars_of(self.send_text.as_str());
                let mut bytes = utf8_bytes(raw.as_slice());
                append_bytes(&mut bytes, ending);
                Ok(bytes)
            },
            SendMode::Hex => {
                let parsed = if trimmed(self.send_text.as_str()).len() == 0 {
                    Ok(Vec::new())
                } else {
                    parse_hex_bytes(self.send_text.as_str())
                };
                match parsed {
                    Ok(b) => {
                        let mut b = b;
                        append_bytes(&mut b, ending);
                        Ok(b)
                    },
                    Err(e) => Err(e),
                }
            },
        };
        proof {
            if self.send_mode == SendMode::Hex && trim(self.send_text@).len() == 0 {
                assert(Seq::<u8>::empty() + ending_bytes(self.line_ending) =~= ending_bytes(self.line_ending));
            }
        }
        match bytes_result {
            Err(e) => SendPreview { ascii: String::new(), hex: String::new(), bytes: 0, error: Some(e) },
            Ok(b) => {
                let ascii = escape_preview_bytes(b.as_slice());
                let hex = hex_from_bytes(b.as_slice());
                let empty = b.len() == 0;
                SendPreview {
                    ascii: if empty { String::from_str("(empty)") } else { ascii },
                    hex: if empty { String::from_str("(empty)") } else { hex },
                    bytes: b.len(),
                    error: None,
                }
            },
        }
    }
}

proof fn lemma_trim_empty_all_space(s: Seq<char>)
    requires
        trim(s).len() == 0,
    ensures
        forall|i: int| 0 <= i < s.len() ==> is_white_space(#[trigger] s[i]),
{
    lemma_trim_start_empty(s);
}

proof fn lemma_trim_start_empty(s: Seq<char>)
    requires
        trim_end(trim_start(s)).len() == 0,
    ensures
        forall|i: int| 0 <= i < s.len() ==> is_white_space(#[trigger] s[i]),
    decreases s.len(),
{
    if s.len() > 0 {
        if is_white_space(s[0]) {
            lemma_trim_start_empty(s.drop_first());
            assert forall|i: int| 0 <= i < s.len() implies is_white_space(#[trigger] s[i]) by {
                if i > 0 {
                    assert(s[i] == s.drop_first()[i - 1]);
                }
            }
        } else {
            lemma_trim_end_keeps_first(s);
        }
    }
}

proof fn lemma_trim_end_keeps_first(s: Seq<char>)
    requires
        s.len() > 0,
        !is_white_space(s[0]),
    ensures
        trim_end(s).len() > 0,
    decreases s.len(),
{
    if is_white_space(s.last()) {
        assert(s.len() > 1);
        lemma_trim_end_keeps_first(s.drop_last());
    }
}

proof fn lemma_hex_tokens_blank(s: Seq<char>, toks: Seq<Seq<char>>)
    requires
        forall|i: int| 0 <= i < s.len() ==> is_white_space(#[trigger] s[i]),
    ensures
        hex_tokens(s, seq![], toks) == Ok::<Seq<Seq<char>>, char>(toks),
    decreases s.len(),
{
    if s.len() > 0 {
        assert(is_white_space(s[0]));
        assert(is_hex_separator(s[0]));
        assert forall|i: int| 0 <= i < s.drop_first().len() implies is_white_space(
            #[trigger] s.drop_first()[i],
        ) by {
            assert(s.drop_first()[i] == s[i + 1]);
        }
        lemma_hex_tokens_blank(s.drop_first(), toks);
    }
}

/// The preview shows exactly the bytes that sending puts on the wire, for every send box,
/// mode and line ending.
pub proof fn lemma_preview_matches_wire(text: Seq<char>, mode: SendMode, ending: LineEnding)
    ensures
        preview_bytes(text, mode, ending) == wire_bytes(text, mode, ending),
{
    if mode == SendMode::Hex && trim(text).len() == 0 {
        lemma_trim_empty_all_space(text);
        lemma_hex_tokens_blank(text, seq![]);
        assert(tokens_bytes(Seq::<Seq<char>>::empty()) == Ok::<Seq<u8>, Seq<char>>(seq![]));
        assert(Seq::<u8>::empty() + ending_bytes(ending) =~= ending_bytes(ending));
    }
}


// ---------- Ports and connecting ----------

/// Lexicographic order of texts by code point, which is the order of their UTF-8 bytes and so
/// the order of `String`s.
pub open spec fn lex_le(a: Seq<char>, b: Seq<char>) -> bool
    decreases a.len(),
{
    if a.len() == 0 {
        true
    } else if b.len() == 0 {
        false
    } else if a[0] != b[0] {
        (a[0] as u32) < (b[0] as u32)
    } else {
        lex_le(a.drop_first(), b.drop_first())
    }
}

proof fn lemma_lex_total(a: Seq<char>, b: Seq<char>)
    ensures
        lex_le(a, b) || lex_le(b, a),
    decreases a.len(),
{
    if a.len() > 0 && b.len() > 0 && a[0] == b[0] {
        lemma_lex_total(a.drop_first(), b.drop_first());
    }
    if a.len() > 0 && b.len() > 0 && a[0] != b[0] {
        broadcast use vstd::utf8::char_u32_cast;
        assert((a[0] as u32) != (b[0] as u32)) by {
            if (a[0] as u32) == (b[0] as u32) {
                vstd::utf8::char_u32_cast(a[0], a[0] as u32);
                vstd::utf8::char_u32_cast(b[0], b[0] as u32);
            }
        }
    }
}

proof fn lemma_lex_trans(a: Seq<char>, b: Seq<char>, c: Seq<char>)
    requires
        lex_le(a, b),
        lex_le(b, c),
    ensures
        lex_le(a, c),
    decreases a.len(),
{
    if a.len() > 0 && b.len() > 0 && c.len() > 0 && a[0] == b[0] && b[0] == c[0] {
        lemma_lex_trans(a.drop_first(), b.drop_first(), c.drop_first());
    }
}

/// Whether the texts are in ascending order.
pub open spec fn names_sorted(s: Seq<String>) -> bool {
    forall|i: int, j: int| 0 <= i < j < s.len() ==> lex_le(s[i]@, s[j]@)
}

/// Whether text `a` sorts before or equal to `b`.
fn name_le(a: &String, b: &String) -> (r: bool)
    ensures
        r == lex_le(a@, b@),
{
    let x = chars_of(a.as_str());
    let y = chars_of(b.as_str());
    let mut i: usize = 0;
    assert(x@.skip(0) =~= x@);
    assert(y@.skip(0) =~= y@);
    while i < x.len() && i < y.len() && x[i] == y[i]
        invariant
            0 <= i <= x@.len(),
            i <= y@.len(),
            lex_le(a@, b@) == lex_le(x@.skip(i as int), y@.skip(i as int)),
            x@ == a@,
            y@ == b@,
        decreases x@.len() - i,
    {
        proof {
            assert(x@.skip(i as int).drop_first() =~= x@.skip(i + 1));
            assert(y@.skip(i as int).drop_first() =~= y@.skip(i + 1));
        }
        i = i + 1;
    }
    proof {
        if i < x@.len() {
            assert(x@.skip(i as int)[0] == x@[i as int]);
        }
        if i < y@.len() {
            assert(y@.skip(i as int)[0] == y@[i as int]);
        }
    }
    if i == x.len() {
        true
    } else if i == y.len() {
        false
    } else {
        (x[i] as u32) < (y[i] as u32)
    }
}

/// Sorts texts in ascending order.
fn sort_names(names: Vec<String>) -> (out: Vec<String>)
    ensures
        names_sorted(out@),
        out@.to_multiset() == names@.to_multiset(),
{
    let mut out: Vec<String> = Vec::new();
    let mut k: usize = 0;
    assert(names@.take(0) =~= Seq::<String>::empty());
    assert(out@ =~= Seq::<String>::empty());
    while k < names.len()
        invariant
            0 <= k <= names@.len(),
            names_sorted(out@),
            out@.to_multiset() == names@.take(k as int).to_multiset(),
        decreases names@.len() - k,
    {
        let x = names[k].clone();
        let mut p: usize = 0;
        while p < out.len() && name_le(&out[p], &x)
            invariant
                0 <= p <= out@.len(),
                forall|i: int| 0 <= i < p ==> lex_le(out@[i]@, x@),
            decreases out@.len() - p,
        {
            p = p + 1;
        }
        let ghost before = out@;
        proof {
            if p < before.len() {
                lemma_lex_total(before[p as int]@, x@);
            }
        }
        out.insert(p, x);
        proof {
            assert(out@ == before.insert(p as int, x));
            assert forall|i: int, j: int| 0 <= i < j < out@.len() implies lex_le(out@[i]@, out@[j]@) by {
                if j < p {
                } else if j == p {
                } else if i < p {
                    if p < j - 1 {
                        lemma_lex_trans(x@, before[p as int]@, before[j - 1]@);
                    }
                    lemma_lex_trans(before[i]@, x@, before[j - 1]@);
                } else if i == p {
                    if p < j - 1 {
                        lemma_lex_trans(x@, before[p as int]@, before[j - 1]@);
                    }
                } else {
                }
            }
            assert(names@.take(k + 1) =~= names@.take(k as int).push(names@[k as int]));
            vstd::seq_lib::to_multiset_insert(before, p as int, x);
            vstd::seq_lib::to_multiset_build(names@.take(k as int), names@[k as int]);
        }
        k = k + 1;
    }
    assert(names@.take(k as int) =~= names@);
    out
}

/// The message for a baud rate that is not a number.
pub open spec fn bad_baud_message(baud_text: Seq<char>) -> Seq<char> {
    "Baud rate is not a number: '"@ + baud_text + "'"@
}

/// `s` without the baud rate `b`.
pub open spec fn without_baud(s: Seq<u32>, b: u32) -> Seq<u32> {
    s.filter(|x: u32| x != b)
}

/// Dropping one baud rate from a list keeps it valid and in order.
proof fn lemma_filter_bauds(s: Seq<u32>, b: u32)
    ensures
        forall|i: int| 0 <= i < without_baud(s, b).len() ==> s.contains(
            #[trigger] without_baud(s, b)[i],
        ),
        custom_bauds_ok(s) ==> custom_bauds_ok(without_baud(s, b)),
        ascending(s) ==> ascending(without_baud(s, b)),
    decreases s.len(),
{
    reveal_with_fuel(Seq::filter, 1);
    let f = without_baud(s, b);
    if s.len() > 0 {
        let d = s.drop_last();
        let g = without_baud(d, b);
        lemma_filter_bauds(d, b);
        assert forall|i: int| 0 <= i < g.len() implies s.contains(#[trigger] g[i]) by {
            let k = choose|k: int| 0 <= k < d.len() && d[k] == g[i];
            assert(s[k] == d[k]);
        }
        if s.last() != b {
            assert(f == g.push(s.last()));
            assert(s.contains(s.last())) by {
                assert(s[s.len() - 1] == s.last());
            }
            if custom_bauds_ok(s) {
                assert(custom_bauds_ok(d)) by {
                    assert forall|i: int| 0 <= i < d.len() implies #[trigger] d[i] > 0 && !is_preset_baud(d[i]) by {
                        assert(d[i] == s[i]);
                    }
                }
                assert forall|i: int, j: int| 0 <= i < j < f.len() implies f[i] != f[j] by {
                    if j == g.len() {
                        assert(d.contains(g[i]));
                        let k = choose|k: int| 0 <= k < d.len() && d[k] == g[i];
                        assert(s[k] == d[k]);
                        assert(s[k] != s[s.len() - 1]);
                    }
                }
                assert forall|i: int| 0 <= i < f.len() implies #[trigger] f[i] > 0 && !is_preset_baud(f[i]) by {
                    if i < g.len() {
                        assert(f[i] == g[i]);
                    }
                }
            }
            if ascending(s) {
                assert forall|i: int, j: int| 0 <= i < j < f.len() implies f[i] <= f[j] by {
                    if j == g.len() {
                        assert(d.contains(g[i]));
                        let k = choose|k: int| 0 <= k < d.len() && d[k] == g[i];
                        assert(s[k] == d[k]);
                    } else {
                        assert(f[i] == g[i] && f[j] == g[j]);
                    }
                }
            }
        } else {
            assert(f == g);
            if custom_bauds_ok(s) {
                assert forall|i: int| 0 <= i < d.len() implies #[trigger] d[i] > 0 && !is_preset_baud(d[i]) by {
                    assert(d[i] == s[i]);
                }
            }
        }
    }
}

/// The port selected after a refresh that found `ports`: the selected one if it is still
/// there, otherwise the first one (none when nothing was found).
pub open spec fn chosen_port(ports: Seq<String>, selected: Seq<char>) -> Seq<char> {
    if ports.map_values(|p: String| p@).contains(selected) {
        selected
    } else if ports.len() == 0 {
        Seq::<char>::empty()
    } else {
        ports[0]@
    }
}

/// The message for a port listing that failed with `e`.
pub open spec fn list_error(e: Seq<char>) -> Seq<char> {
    "Failed to list ports: "@ + e
}

impl Terminal {
    /// Keeps the port names sorted and re-selects a port.
    fn take_port_list(&mut self, names: Vec<String>)
        ensures
            names_sorted(final(self).ports@),
            final(self).ports@.to_multiset() == names@.to_multiset(),
            final(self).selected_port@ == chosen_port(final(self).ports@, old(self).selected_port@),
            *final(self) == (Terminal {
                ports: final(self).ports,
                selected_port: final(self).selected_port,
                ..*old(self)
            }),
    {
        self.ports = sort_names(names);
        let mut found = false;
        let mut i: usize = 0;
        while i < self.ports.len()
            invariant
                0 <= i <= self.ports@.len(),
                found == exists|k: int| 0 <= k < i && self.ports@[k]@ == self.selected_port@,
            decreases self.ports@.len() - i,
        {
            if self.ports[i] == self.selected_port {
                found = true;
            }
            i = i + 1;
        }
        proof {
            let v = self.ports@.map_values(|p: String| p@);
            if found {
                let k = choose|k: int| 0 <= k < i && self.ports@[k]@ == self.selected_port@;
                assert(v[k] == self.selected_port@);
            } else {
                assert forall|k: int| 0 <= k < v.len() implies v[k] != self.selected_port@ by {
                    assert(v[k] == self.ports@[k]@);
                }
            }
        }
        if !found {
            self.selected_port = if self.ports.len() > 0 {
                self.ports[0].clone()
            } else {
                String::new()
            };
        }
    }

    /// Takes the result of listing the serial ports: the names found are kept sorted, and the
    /// first port is selected when the selected one is not among them (none when the list is
    /// empty); a failed listing is reported in the console.
    pub fn refresh_ports(&mut self, listed: Result<Vec<String>, String>)
        requires
            old(self).console_capped(),
        ensures
            final(self).console_capped(),
            match listed {
                Ok(names) => {
                    &&& names_sorted(final(self).ports@)
                    &&& final(self).ports@.to_multiset() == names@.to_multiset()
                    &&& final(self).selected_port@ == chosen_port(final(self).ports@, old(self).selected_port@)
                    &&& *final(self) == (Terminal {
                        ports: final(self).ports,
                        selected_port: final(self).selected_port,
                        ..*old(self)
                    })
                },
                Err(e) => {
                    &&& final(self).console() == keep_last(
                        old(self).console().push(err_view(list_error(e@))),
                        MAX_LINES as int,
                    )
                    &&& *final(self) == (Terminal { lines: final(self).lines, ..*old(self) })
                },
            },
            keeps_old_lines(old(self).lines@, final(self).lines@),
    {
        proof {
            lemma_keeps_same(self.lines@);
        }
        match listed {
            Ok(names) => self.take_port_list(names),
            Err(e) => {
                let mut msg = String::from_str("Failed to list ports: ");
                msg.append(e.as_str());
                self.push_err(msg);
            },
        }
    }

    /// Checks the port and baud settings before opening the port. Reports in the console when
    /// no port is selected or the baud text is not a positive number; otherwise remembers a
    /// baud rate that is not a preset among the custom ones (keeping them sorted), records
    /// the connection description and returns the baud rate to open the port with.
    pub fn connect(&mut self) -> (r: Option<u32>)
        requires
            old(self).console_capped(),
        ensures
            final(self).console_capped(),
            old(self).selected_port@.len() == 0 ==> {
                &&& r is None
                &&& final(self).console() == keep_last(
                    old(self).console().push(err_view("Select a port first."@)),
                    MAX_LINES as int,
                )
                &&& *final(self) == (Terminal { lines: final(self).lines, ..*old(self) })
            },
            old(self).selected_port@.len() > 0 ==> match parse_u32_spec(trim(old(self).baud_text@)) {
                None => {
                    &&& r is None
                    &&& final(self).console() == keep_last(
                        old(self).console().push(err_view(bad_baud_message(old(self).baud_text@))),
                        MAX_LINES as int,
                    )
                    &&& *final(self) == (Terminal { lines: final(self).lines, ..*old(self) })
                },
                Some(v) => if v == 0 {
                    &&& r is None
                    &&& final(self).console() == keep_last(
                        old(self).console().push(err_view("Baud rate must be 1 or higher."@)),
                        MAX_LINES as int,
                    )
                    &&& *final(self) == (Terminal { lines: final(self).lines, ..*old(self) })
                } else {
                    &&& r == Some(v)
                    &&& if is_preset_baud(v) || old(self).custom_bauds@.contains(v) {
                        final(self).custom_bauds@ == old(self).custom_bauds@
                    } else {
                        &&& ascending(final(self).custom_bauds@)
                        &&& final(self).custom_bauds@.to_multiset() == old(self).custom_bauds@.push(
                            v,
                        ).to_multiset()
                    }
                    &&& final(self).conn_info@ == old(self).selected_port@ + " @ "@ + decimal(v as nat)
                        + " baud"@
                    &&& *final(self) == (Terminal {
                        custom_bauds: final(self).custom_bauds,
                        conn_info: final(self).conn_info,
                        ..*old(self)
                    })
                },
            },
            custom_bauds_ok(old(self).custom_bauds@) ==> custom_bauds_ok(final(self).custom_bauds@),
            ascending(old(self).custom_bauds@) ==> ascending(final(self).custom_bauds@),
            keeps_old_lines(old(self).lines@, final(self).lines@),
    {
        proof {
            lemma_keeps_same(self.lines@);
        }
        if self.selected_port.as_str().is_empty() {
            self.push_err(String::from_str("Select a port first."));
            return None;
        }
        let t = trimmed(self.baud_text.as_str());
        let baud = match parse_u32(t.as_slice()) {
            Some(0) => {
                self.push_err(String::from_str("Baud rate must be 1 or higher."));
                return None;
            },
            Some(v) => v,
            None => {
                let mut msg = String::from_str("Baud rate is not a number: '");
                msg.append(self.baud_text.as_str());
                msg.append("'");
                self.push_err(msg);
                return None;
            },
        };
        // Remember user-entered bauds that aren't already in the preset list.
        if !is_preset(baud) && !contains_baud(&self.custom_bauds, baud) {
            let ghost before = self.custom_bauds@;
            self.custom_bauds.push(baud);
            sort_bauds(&mut self.custom_bauds);
            proof {
                if custom_bauds_ok(before) {
                    lemma_add_custom_baud_ok(before, baud);
                    assert(add_custom_baud(before, baud) == before.push(baud));
                    lemma_bauds_ok_permuted(before.push(baud), self.custom_bauds@);
                }
            }
        }
        let mut info = self.selected_port.clone();
        info.append(" @ ");
        push_decimal(&mut info, baud);
        info.append(" baud");
        self.conn_info = info;
        Some(baud)
    }
}


// ---------- Persisting the settings ----------

/// The `custom_baud=` lines for `bauds`.
pub open spec fn custom_baud_lines(bauds: Seq<u32>) -> Seq<Seq<char>> {
    bauds.map_values(|b: u32| "custom_baud="@ + decimal(b as nat))
}

/// The `history=` lines for `history`.
pub open spec fn history_lines(history: Seq<Seq<char>>) -> Seq<Seq<char>> {
    history.map_values(|h: Seq<char>| "history="@ + encoded_history(h))
}

/// The lines of the configuration file that saves `t`, with the console font size `font_px`.
pub open spec fn config_lines(t: Terminal, font_px: i32) -> Seq<Seq<char>> {
    seq![
        "# Serial Terminal config (auto-saved)"@,
        "baud="@ + t.baud_text@,
        "port="@ + t.selected_port@,
        "display_mode="@ + display_mode_name(t.display_mode),
        "show_ts="@ + bool_text(t.show_ts),
        "auto_scroll="@ + bool_text(t.auto_scroll),
        "line_ending="@ + line_ending_name(t.line_ending),
        "dtr="@ + bool_text(t.dtr_on),
        "font_size="@ + signed_decimal(font_px as int),
        "send_mode="@ + send_mode_name(t.send_mode),
        "rx_idle_ms="@ + decimal(t.rx_idle_ms as nat),
    ] + custom_baud_lines(t.custom_bauds@) + history_lines(history_view(t.history@))
}

/// The configuration text that saves `t`.
pub open spec fn config_text(t: Terminal, font_px: i32) -> Seq<char> {
    join_lines(config_lines(t, font_px))
}

/// Appends one line, given as literal key and value text, to `s`.
fn push_line_text(s: &mut String, key: &str, value: &str, Ghost(lines): Ghost<Seq<Seq<char>>>)
    requires
        old(s)@ == join_lines(lines),
    ensures
        final(s)@ == join_lines(lines.push(key@ + value@)),
{
    s.append(key);
    s.append(value);
    push_char(s, '\n');
    proof {
        let l = key@ + value@;
        assert(lines.push(l).drop_last() =~= lines);
        assert(final(s)@ =~= join_lines(lines) + l + seq!['\n']);
    }
}

impl Terminal {
    /// The configuration text that saves the settings, with the console font size `font_px`:
    /// one `key=value` line per setting, then one line per custom baud rate and per history
    /// entry.
    pub fn serialize_config(&self, font_px: i32) -> (s: String)
        ensures
            s@ == config_text(*self, font_px),
    {
        let ghost all = config_lines(*self, font_px);
        let mut s = String::new();
        let ghost mut done: Seq<Seq<char>> = seq![];
        assert(s@ =~= join_lines(done));
        push_line_text(&mut s, "# Serial Terminal config (auto-saved)", "", Ghost(done));
        proof { done = done.push("# Serial Terminal config (auto-saved)"@ + ""@); }
        push_line_text(&mut s, "baud=", self.baud_text.as_str(), Ghost(done));
        proof { done = done.push("baud="@ + self.baud_text@); }
        push_line_text(&mut s, "port=", self.selected_port.as_str(), Ghost(done));
        proof { done = done.push("port="@ + self.selected_port@); }
        push_line_text(&mut s, "display_mode=", display_mode_str(self.display_mode), Ghost(done));
        proof { done = done.push("display_mode="@ + display_mode_name(self.display_mode)); }
        push_line_text(&mut s, "show_ts=", if self.show_ts { "true" } else { "false" }, Ghost(done));
        proof { done = done.push("show_ts="@ + bool_text(self.show_ts)); }
        push_line_text(&mut s, "auto_scroll=", if self.auto_scroll { "true" } else { "false" }, Ghost(done));
        proof { done = done.push("auto_scroll="@ + bool_text(self.auto_scroll)); }
        push_line_text(&mut s, "line_ending=", line_ending_str(self.line_ending), Ghost(done));
        proof { done = done.push("line_ending="@ + line_ending_name(self.line_ending)); }
        push_line_text(&mut s, "dtr=", if self.dtr_on { "true" } else { "false" }, Ghost(done));
        proof { done = done.push("dtr="@ + bool_text(self.dtr_on)); }
        let mut font = String::new();
        push_signed_decimal(&mut font, font_px);
        push_line_text(&mut s, "font_size=", font.as_str(), Ghost(done));
        proof { done = done.push("font_size="@ + signed_decimal(font_px as int)); }
        push_line_text(&mut s, "send_mode=", send_mode_str(self.send_mode), Ghost(done));
        proof { done = done.push("send_mode="@ + send_mode_name(self.send_mode)); }
        let mut idle = String::new();
        push_decimal(&mut idle, self.rx_idle_ms);
        push_line_text(&mut s, "rx_idle_ms=", idle.as_str(), Ghost(done));
        proof {
            done = done.push("rx_idle_ms="@ + decimal(self.rx_idle_ms as nat));
            assert(""@ =~= Seq::<char>::empty()) by {
                reveal_strlit("");
            }
            assert(done =~= all.take(11));
        }
        let mut k: usize = 0;
        while k < self.custom_bauds.len()
            invariant
                0 <= k <= self.custom_bauds@.len(),
                all == config_lines(*self, font_px),
                s@ == join_lines(all.take(11 + k)),
            decreases self.custom_bauds@.len() - k,
        {
            let mut v = String::new();
            push_decimal(&mut v, self.custom_bauds[k]);
            push_line_text(&mut s, "custom_baud=", v.as_str(), Ghost(all.take(11 + k)));
            proof {
                assert(all.take(11 + k).push("custom_baud="@ + v@) =~= all.take(11 + k + 1));
            }
            k = k + 1;
        }
        let nb = self.custom_bauds.len();
        let mut k: usize = 0;
        while k < self.history.len()
            invariant
                0 <= k <= self.history@.len(),
                nb == self.custom_bauds@.len(),
                all == config_lines(*self, font_px),
                s@ == join_lines(all.take(11 + nb + k)),
            decreases self.history@.len() - k,
        {
            let v = encode_history(self.history[k].as_str());
            push_line_text(&mut s, "history=", v.as_str(), Ghost(all.take(11 + nb + k)));
            proof {
                assert(all.take(11 + nb + k).push("history="@ + v@) =~= all.take(11 + nb + k + 1));
            }
            k = k + 1;
        }
        assert(all.take(11 + nb + k) =~= all);
        s
    }
}


/// The message shown when the terminal starts.
pub open spec fn ready_message() -> Seq<char> {
    "Ready. Select a port and click [Connect]."@
}

impl Terminal {
    /// The terminal at start-up, with the settings of `cfg` and defaults for what it does not
    /// set: no port, 115200 baud, ASCII display, timestamps and auto-scroll on, no idle split,
    /// CRLF endings, TEXT mode and DTR on; then the serial ports `listed` are taken as by
    /// `refresh_ports`. The console holds the greeting, after the listing error if there was
    /// one; nothing is connected.
    pub fn new(cfg: AppConfig, listed: Result<Vec<String>, String>) -> (t: Terminal)
        ensures
            ({
                let configured = match cfg@.port {
                    Some(p) => p,
                    None => Seq::<char>::empty(),
                };
                match listed {
                    Ok(names) => {
                        &&& names_sorted(t.ports@)
                        &&& t.ports@.to_multiset() == names@.to_multiset()
                        &&& t.selected_port@ == chosen_port(t.ports@, configured)
                        &&& t.console() == seq![sys_view(ready_message())]
                    },
                    Err(e) => {
                        &&& t.ports@.len() == 0
                        &&& t.selected_port@ == configured
                        &&& t.console() == seq![err_view(list_error(e@)), sys_view(ready_message())]
                    },
                }
            }),
            t.baud_text@ == match cfg@.baud {
                Some(b) => b,
                None => "115200"@,
            },
            t.custom_bauds@ == cfg@.custom_bauds,
            !t.connected,
            t.conn_info@ == "Disconnected"@,
            t.rx_partial@.len() == 0,
            t.display_mode == match cfg@.display_mode {
                Some(m) => m,
                None => DisplayMode::Ascii,
            },
            t.show_ts == match cfg@.show_ts {
                Some(b) => b,
                None => true,
            },
            t.auto_scroll == match cfg@.auto_scroll {
                Some(b) => b,
                None => true,
            },
            t.rx_idle_ms == match cfg@.rx_idle_ms {
                Some(v) => v,
                None => 0,
            },
            t.rx_idle_ms_text@ == match cfg@.rx_idle_ms {
                Some(v) => decimal(v as nat),
                None => "0"@,
            },
            t.last_rx_at is None,
            t.send_text@.len() == 0,
            t.line_ending == match cfg@.line_ending {
                Some(e) => e,
                None => LineEnding::CrLf,
            },
            t.send_mode == match cfg@.send_mode {
                Some(m) => m,
                None => SendMode::Text,
            },
            history_view(t.history@) == cfg@.history,
            t.dtr_on == match cfg@.dtr {
                Some(b) => b,
                None => true,
            },
            t.rx_bytes == 0,
            t.tx_bytes == 0,
            t.line_count == 0,
            t.console_capped(),
            settings_savable(cfg@) ==> {
                &&& single_line(t.baud_text@)
                &&& custom_bauds_ok(t.custom_bauds@)
                &&& history_savable(history_view(t.history@))
            },
            settings_savable(cfg@) && (listed matches Ok(names) ==> forall|k: int|
                0 <= k < names@.len() ==> single_line(#[trigger] names@[k]@)) ==> config_savable(t),
    {
        let rx_idle_ms_text = match cfg.rx_idle_ms {
            Some(v) => {
                let mut s = String::new();
                push_decimal(&mut s, v);
                s
            },
            None => String::from_str("0"),
        };
        let mut t = Terminal {
            ports: Vec::new(),
            selected_port: match cfg.port {
                Some(p) => p,
                None => String::new(),
            },
            baud_text: match cfg.baud {
                Some(b) => b,
                None => String::from_str("115200"),
            },
            custom_bauds: cfg.custom_bauds,
            connected: false,
            conn_info: String::from_str("Disconnected"),
            lines: VecDeque::new(),
            rx_partial: Vec::new(),
            display_mode: match cfg.display_mode {
                Some(m) => m,
                None => DisplayMode::Ascii,
            },
            show_ts: match cfg.show_ts {
                Some(b) => b,
                None => true,
            },
            auto_scroll: match cfg.auto_scroll {
                Some(b) => b,
                None => true,
            },
            rx_idle_ms: match cfg.rx_idle_ms {
                Some(v) => v,
                None => 0,
            },
            rx_idle_ms_text,
            last_rx_at: None,
            send_text: String::new(),
            line_ending: match cfg.line_ending {
                Some(e) => e,
                None => LineEnding::CrLf,
            },
            send_mode: match cfg.send_mode {
                Some(m) => m,
                None => SendMode::Text,
            },
            history: cfg.history,
            dtr_on: match cfg.dtr {
                Some(b) => b,
                None => true,
            },
            rx_bytes: 0,
            tx_bytes: 0,
            line_count: 0,
        };
        assert(t.console() =~= Seq::<LineView>::empty());
        let ghost listed_view = listed;
        t.refresh_ports(listed);
        let ghost after_list = t.console();
        t.push_sys(String::from_str("Ready. Select a port and click [Connect]."));
        proof {
            match listed_view {
                Ok(_) => {
                    assert(after_list =~= Seq::<LineView>::empty());
                    assert(keep_last(after_list.push(sys_view(ready_message())), MAX_LINES as int)
                        =~= seq![sys_view(ready_message())]);
                },
                Err(e) => {
                    assert(keep_last(Seq::<LineView>::empty().push(err_view(list_error(e@))), MAX_LINES as int)
                        =~= seq![err_view(list_error(e@))]);
                    assert(keep_last(after_list.push(sys_view(ready_message())), MAX_LINES as int)
                        =~= seq![err_view(list_error(e@)), sys_view(ready_message())]);
                },
            }
            reveal_strlit("115200");
            if settings_savable(cfg@) {
                let configured = match cfg@.port {
                    Some(p) => p,
                    None => Seq::<char>::empty(),
                };
                assert(single_line(configured));
                match listed_view {
                    Ok(names) => {
                        if t.ports@.len() > 0 && !t.ports@.map_values(|p: String| p@).contains(configured)
                            && forall|k: int| 0 <= k < names@.len() ==> single_line(#[trigger] names@[k]@) {
                            broadcast use vstd::seq_lib::to_multiset_contains;
                            assert(t.ports@.contains(t.ports@[0]));
                            assert(t.ports@.to_multiset().count(t.ports@[0]) > 0);
                            assert(names@.to_multiset().count(t.ports@[0]) > 0);
                            assert(names@.contains(t.ports@[0]));
                            let k = choose|k: int| 0 <= k < names@.len() && names@[k] == t.ports@[0];
                            assert(single_line(names@[k]@));
                        }
                    },
                    Err(_) => {},
                }
            }
        }
        t
    }

    /// Takes the idle-split setting from its text box: a number, or 0 when the text is not one.
    pub fn update_rx_idle_ms(&mut self)
        ensures
            final(self).rx_idle_ms == match parse_u32_spec(trim(old(self).rx_idle_ms_text@)) {
                Some(v) => v,
                None => 0,
            },
            *final(self) == (Terminal { rx_idle_ms: final(self).rx_idle_ms, ..*old(self) }),
    {
        let t = trimmed(self.rx_idle_ms_text.as_str());
        self.rx_idle_ms = match parse_u32(t.as_slice()) {
            Some(v) => v,
            None => 0,
        };
    }

    /// Forgets the custom baud rate `b`.
    pub fn remove_custom_baud(&mut self, b: u32)
        ensures
            final(self).custom_bauds@ == without_baud(old(self).custom_bauds@, b),
            custom_bauds_ok(old(self).custom_bauds@) ==> custom_bauds_ok(final(self).custom_bauds@),
            ascending(old(self).custom_bauds@) ==> ascending(final(self).custom_bauds@),
            *final(self) == (Terminal { custom_bauds: final(self).custom_bauds, ..*old(self) }),
    {
        let ghost orig = self.custom_bauds@;
        let mut kept: Vec<u32> = Vec::new();
        let mut i: usize = 0;
        assert(without_baud(orig.take(0), b) =~= Seq::<u32>::empty());
        while i < self.custom_bauds.len()
            invariant
                0 <= i <= orig.len(),
                orig == self.custom_bauds@,
                kept@ == without_baud(orig.take(i as int), b),
            decreases orig.len() - i,
        {
            let x = self.custom_bauds[i];
            proof {
                assert(orig.take(i + 1).drop_last() =~= orig.take(i as int));
                reveal_with_fuel(Seq::filter, 1);
            }
            if x != b {
                kept.push(x);
            }
            i = i + 1;
        }
        assert(orig.take(i as int) =~= orig);
        proof {
            lemma_filter_bauds(orig, b);
        }
        self.custom_bauds = kept;
    }

    /// The console as a log text: one line per console line, `timestamp marker body`, where the
    /// marker is `<` for RX, `>` for TX, `*` for system and `x` for error lines, and RX/TX bodies
    /// follow the display mode.
    pub fn log_text(&self) -> (s: String)
        ensures
            s@ == log_text_of(self.lines@, self.display_mode),
    {
        let mut out = String::new();
        let mut i: usize = 0;
        while i < self.lines.len()
            invariant
                0 <= i <= self.lines@.len(),
                out@ == log_text_of(self.lines@.take(i as int), self.display_mode),
            decreases self.lines@.len() - i,
        {
            let ln = &self.lines[i];
            let ghost before = out@;
            out.append(ln.ts.as_str());
            push_char(&mut out, ' ');
            out.append(match ln.kind {
                LineKind::Rx => "<",
                LineKind::Tx => ">",
                LineKind::Sys => "*",
                LineKind::Error => "x",
            });
            push_char(&mut out, ' ');
            let body = ln.body(self.display_mode);
            out.append(body.as_str());
            push_char(&mut out, '\n');
            proof {
                assert(self.lines@.take(i + 1).drop_last() =~= self.lines@.take(i as int));
                assert(out@ =~= before + log_line(*ln, self.display_mode));
            }
            i = i + 1;
        }
        assert(self.lines@.take(i as int) =~= self.lines@);
        out
    }

    /// The log text to save, or, when the console is empty, nothing after reporting so.
    pub fn log_for_save(&mut self) -> (r: Option<String>)
        requires
            old(self).console_capped(),
        ensures
            final(self).console_capped(),
            old(self).lines@.len() > 0 ==> {
                &&& r matches Some(s) && s@ == log_text_of(old(self).lines@, old(self).display_mode)
                &&& *final(self) == *old(self)
            },
            old(self).lines@.len() == 0 ==> {
                &&& r is None
                &&& final(self).console() == seq![err_view("Nothing to save."@)]
                &&& *final(self) == (Terminal { lines: final(self).lines, ..*old(self) })
            },
            keeps_old_lines(old(self).lines@, final(self).lines@),
    {
        proof {
            lemma_keeps_same(self.lines@);
        }
        let out = self.log_text();
        if out.as_str().is_empty() {
            proof {
                if self.lines@.len() > 0 {
                    lemma_log_text_nonempty(self.lines@, self.display_mode);
                }
            }
            self.push_err(String::from_str("Nothing to save."));
            proof {
                assert(old(self).console() =~= Seq::<LineView>::empty());
                assert(keep_last(Seq::<LineView>::empty().push(err_view("Nothing to save."@)), MAX_LINES as int)
                    =~= seq![err_view("Nothing to save."@)]);
            }
            return None;
        }
        proof {
            if self.lines@.len() == 0 {
                assert(self.lines@ =~= Seq::<ConsoleLine>::empty());
            }
        }
        Some(out)
    }
}

// ---------- Console rendering and small editing actions ----------

/// The marker drawn before a console line of kind `k`.
pub open spec fn screen_marker(k: LineKind) -> Seq<char> {
    match k {
        LineKind::Rx => "◄"@,
        LineKind::Tx => "►"@,
        LineKind::Sys => "·"@,
        LineKind::Error => "×"@,
    }
}

/// The marker drawn before a console line of kind `k`: RX, TX, system or error.
pub fn line_marker(k: LineKind) -> (s: &'static str)
    ensures
        s@ == screen_marker(k),
{
    match k {
        LineKind::Rx => "◄",
        LineKind::Tx => "►",
        LineKind::Sys => "·",
        LineKind::Error => "×",
    }
}

/// Whether a console line of kind `k` is drawn with its timestamp: system lines never are, the
/// others when timestamps are switched on.
pub fn shows_timestamp(k: LineKind, show_ts: bool) -> (b: bool)
    ensures
        b == (show_ts && k != LineKind::Sys),
{
    show_ts && k != LineKind::Sys
}

impl Terminal {
    /// After how many milliseconds the window should wake up by itself so that an idle split
    /// is not missed: the idle time while a partial RX line waits and the split is enabled.
    pub fn idle_wakeup_ms(&self) -> (r: Option<u32>)
        ensures
            r == if self.rx_idle_ms > 0 && self.rx_partial@.len() > 0 {
                Some(self.rx_idle_ms)
            } else {
                None::<u32>
            },
    {
        if self.rx_idle_ms > 0 && self.rx_partial.len() > 0 {
            Some(self.rx_idle_ms)
        } else {
            None
        }
    }

    /// Puts baud rate `b`, picked from the list, into the baud box.
    pub fn select_baud(&mut self, b: u32)
        ensures
            final(self).baud_text@ == decimal(b as nat),
            *final(self) == (Terminal { baud_text: final(self).baud_text, ..*old(self) }),
    {
        let mut t = String::new();
        push_decimal(&mut t, b);
        assert(t@ =~= decimal(b as nat));
        self.baud_text = t;
    }

    /// Loads history entry `idx` into the send box; an index past the end changes nothing.
    pub fn recall_history(&mut self, idx: usize)
        ensures
            idx < old(self).history@.len() ==> *final(self) == (Terminal {
                send_text: final(self).send_text,
                ..*old(self)
            }) && final(self).send_text@ == old(self).history@[idx as int]@,
            idx >= old(self).history@.len() ==> *final(self) == *old(self),
    {
        if idx < self.history.len() {
            self.send_text = self.history[idx].clone();
        }
    }

    /// Drops history entry `idx`; an index past the end changes nothing.
    pub fn remove_history_entry(&mut self, idx: usize)
        ensures
            idx < old(self).history@.len() ==> history_view(final(self).history@) == history_view(
                old(self).history@,
            ).remove(idx as int),
            idx >= old(self).history@.len() ==> final(self).history@ == old(self).history@,
            history_ok(history_view(old(self).history@)) ==> history_ok(history_view(final(self).history@)),
            history_savable(history_view(old(self).history@)) ==> history_savable(
                history_view(final(self).history@),
            ),
            *final(self) == (Terminal { history: final(self).history, ..*old(self) }),
    {
        if idx < self.history.len() {
            let ghost before = history_view(self.history@);
            self.history.remove(idx);
            proof {
                let after = history_view(self.history@);
                assert(after =~= before.remove(idx as int));
                assert forall|k: int| 0 <= k < after.len() implies after[k] == before[if k < idx { k } else { k + 1 }] by {}
                if history_ok(before) {
                    assert forall|i: int, j: int| 0 <= i < j < after.len() implies after[i] != after[j] by {
                        let bi = if i < idx { i } else { i + 1 };
                        let bj = if j < idx { j } else { j + 1 };
                        assert(after[i] == before[bi] && after[j] == before[bj]);
                    }
                    assert forall|k: int| 0 <= k < after.len() implies (#[trigger] after[k]).len() > 0 by {
                        let bk = if k < idx { k } else { k + 1 };
                        assert(after[k] == before[bk]);
                    }
                }
                if history_savable(before) {
                    assert forall|k: int| 0 <= k < after.len() implies (#[trigger] after[k]).len() > 0
                        && is_trimmed(encoded_history(after[k])) by {
                        let bk = if k < idx { k } else { k + 1 };
                        assert(after[k] == before[bk]);
                    }
                }
            }
        }
    }

    /// Forgets every sent command.
    pub fn clear_history(&mut self)
        ensures
            final(self).history@.len() == 0,
            *final(self) == (Terminal { history: final(self).history, ..*old(self) }),
    {
        self.history = Vec::new();
    }

    /// Loads the ASCII side of the converter into the send box in TEXT mode, with its escapes
    /// decoded (or as typed when they do not decode).
    pub fn load_converter_text(&mut self, ascii: &str)
        ensures
            final(self).send_text@ == utf8_lossy(
                match unescape(ascii@) {
                    Ok(b) => b,
                    Err(_) => encode_utf8(ascii@),
                },
            ),
            final(self).send_mode == SendMode::Text,
            *final(self) == (Terminal {
                send_text: final(self).send_text,
                send_mode: final(self).send_mode,
                ..*old(self)
            }),
    {
        self.send_text = converter_send_text(ascii);
        self.send_mode = SendMode::Text;
    }

    /// Loads the HEX side of the converter into the send box in HEX mode.
    pub fn load_converter_hex(&mut self, hex: &str)
        ensures
            final(self).send_text@ == hex@,
            final(self).send_mode == SendMode::Hex,
            *final(self) == (Terminal {
                send_text: final(self).send_text,
                send_mode: final(self).send_mode,
                ..*old(self)
            }),
    {
        self.send_text = hex.to_string();
        self.send_mode = SendMode::Hex;
    }
}

/// The marker of a line kind in a saved log.
pub open spec fn kind_marker(k: LineKind) -> Seq<char> {
    match k {
        LineKind::Rx => "<"@,
        LineKind::Tx => ">"@,
        LineKind::Sys => "*"@,
        LineKind::Error => "x"@,
    }
}

/// One line of a saved log.
pub open spec fn log_line(l: ConsoleLine, mode: DisplayMode) -> Seq<char> {
    l.ts@ + seq![' '] + kind_marker(l.kind) + seq![' '] + line_body(line_view(l), mode) + seq!['\n']
}

/// The saved log of `lines`.
pub open spec fn log_text_of(lines: Seq<ConsoleLine>, mode: DisplayMode) -> Seq<char>
    decreases lines.len(),
{
    if lines.len() == 0 {
        seq![]
    } else {
        log_text_of(lines.drop_last(), mode) + log_line(lines.last(), mode)
    }
}

proof fn lemma_log_text_nonempty(lines: Seq<ConsoleLine>, mode: DisplayMode)
    requires
        lines.len() > 0,
    ensures
        log_text_of(lines, mode).len() > 0,
{
}


// ---------- Saving and restoring the settings ----------

/// Whether the settings of `t` survive a save and a load: the baud and port texts fit on a
/// line, the custom bauds are valid, and every history entry can be saved.
pub open spec fn config_savable(t: Terminal) -> bool {
    &&& single_line(t.baud_text@)
    &&& single_line(t.selected_port@)
    &&& custom_bauds_ok(t.custom_bauds@)
    &&& history_savable(history_view(t.history@))
}

/// What loading the saved configuration of `t` gives.
pub open spec fn saved_settings(t: Terminal, font_px: i32) -> ConfigModel {
    ConfigModel {
        baud: Some(trim(t.baud_text@)),
        port: Some(trim(t.selected_port@)),
        display_mode: Some(t.display_mode),
        show_ts: Some(t.show_ts),
        auto_scroll: Some(t.auto_scroll),
        line_ending: Some(t.line_ending),
        dtr: Some(t.dtr_on),
        font_size: Some(signed_decimal(font_px as int)),
        custom_bauds: t.custom_bauds@,
        history: history_view(t.history@),
        send_mode: Some(t.send_mode),
        rx_idle_ms: Some(t.rx_idle_ms),
    }
}

proof fn lemma_encoded_single_line(h: Seq<char>)
    ensures
        single_line(encoded_history(h)),
    decreases h.len(),
{
    if h.len() > 0 {
        lemma_encoded_single_line(h.drop_first());
        let e = encode_history_char(h[0]);
        let r = encoded_history(h.drop_first());
        assert forall|i: int| 0 <= i < (e + r).len() implies (e + r)[i] != '\n' by {
            if i >= e.len() {
                assert((e + r)[i] == r[i - e.len()]);
            }
        }
    }
}

proof fn lemma_single_line_concat(a: Seq<char>, b: Seq<char>)
    requires
        single_line(a),
        single_line(b),
    ensures
        single_line(a + b),
{
    assert forall|i: int| 0 <= i < (a + b).len() implies (a + b)[i] != '\n' by {
        if i >= a.len() {
            assert((a + b)[i] == b[i - a.len()]);
        }
    }
}

proof fn lemma_digits_single_line(s: Seq<char>)
    requires
        forall|i: int| 0 <= i < s.len() ==> is_digit(#[trigger] s[i]) || s[i] == '-',
    ensures
        single_line(s),
        forall|i: int| 0 <= i < s.len() ==> !is_white_space(#[trigger] s[i]),
{
}

proof fn lemma_key_literals()
    ensures
        "baud"@.len() == 4 && "baud"@[0] == 'b',
        "port"@.len() == 4 && "port"@[0] == 'p',
        "display_mode"@.len() == 12 && "display_mode"@[0] == 'd',
        "show_ts"@.len() == 7 && "show_ts"@[0] == 's',
        "auto_scroll"@.len() == 11 && "auto_scroll"@[0] == 'a',
        "line_ending"@.len() == 11 && "line_ending"@[0] == 'l',
        "dtr"@.len() == 3 && "dtr"@[0] == 'd',
        "font_size"@.len() == 9 && "font_size"@[0] == 'f',
        "send_mode"@.len() == 9 && "send_mode"@[0] == 's',
        "rx_idle_ms"@.len() == 10 && "rx_idle_ms"@[0] == 'r',
        "custom_baud"@.len() == 11 && "custom_baud"@[0] == 'c',
        "history"@.len() == 7 && "history"@[0] == 'h',
        plain_key("baud"@),
        plain_key("port"@),
        plain_key("display_mode"@),
        plain_key("show_ts"@),
        plain_key("auto_scroll"@),
        plain_key("line_ending"@),
        plain_key("dtr"@),
        plain_key("font_size"@),
        plain_key("send_mode"@),
        plain_key("rx_idle_ms"@),
        plain_key("custom_baud"@),
        plain_key("history"@),
        "baud="@ == "baud"@ + seq!['='],
        "port="@ == "port"@ + seq!['='],
        "display_mode="@ == "display_mode"@ + seq!['='],
        "show_ts="@ == "show_ts"@ + seq!['='],
        "auto_scroll="@ == "auto_scroll"@ + seq!['='],
        "line_ending="@ == "line_ending"@ + seq!['='],
        "dtr="@ == "dtr"@ + seq!['='],
        "font_size="@ == "font_size"@ + seq!['='],
        "send_mode="@ == "send_mode"@ + seq!['='],
        "rx_idle_ms="@ == "rx_idle_ms"@ + seq!['='],
        "custom_baud="@ == "custom_baud"@ + seq!['='],
        "history="@ == "history"@ + seq!['='],
{
    reveal_strlit("baud");
    reveal_strlit("port");
    reveal_strlit("display_mode");
    reveal_strlit("show_ts");
    reveal_strlit("auto_scroll");
    reveal_strlit("line_ending");
    reveal_strlit("dtr");
    reveal_strlit("font_size");
    reveal_strlit("send_mode");
    reveal_strlit("rx_idle_ms");
    reveal_strlit("custom_baud");
    reveal_strlit("history");
    reveal_strlit("baud=");
    reveal_strlit("port=");
    reveal_strlit("display_mode=");
    reveal_strlit("show_ts=");
    reveal_strlit("auto_scroll=");
    reveal_strlit("line_ending=");
    reveal_strlit("dtr=");
    reveal_strlit("font_size=");
    reveal_strlit("send_mode=");
    reveal_strlit("rx_idle_ms=");
    reveal_strlit("custom_baud=");
    reveal_strlit("history=");
    assert("baud="@ =~= "baud"@ + seq!['=']);
    assert("port="@ =~= "port"@ + seq!['=']);
    assert("display_mode="@ =~= "display_mode"@ + seq!['=']);
    assert("show_ts="@ =~= "show_ts"@ + seq!['=']);
    assert("auto_scroll="@ =~= "auto_scroll"@ + seq!['=']);
    assert("line_ending="@ =~= "line_ending"@ + seq!['=']);
    assert("dtr="@ =~= "dtr"@ + seq!['=']);
    assert("font_size="@ =~= "font_size"@ + seq!['=']);
    assert("send_mode="@ =~= "send_mode"@ + seq!['=']);
    assert("rx_idle_ms="@ =~= "rx_idle_ms"@ + seq!['=']);
    assert("custom_baud="@ =~= "custom_baud"@ + seq!['=']);
    assert("history="@ =~= "history"@ + seq!['=']);
}

/// Reading back the custom baud lines adds the bauds in order.
proof fn lemma_apply_custom_lines(cfg: ConfigModel, bs: Seq<u32>)
    requires
        custom_bauds_ok(cfg.custom_bauds + bs),
    ensures
        apply_lines(cfg, custom_baud_lines(bs)) == (ConfigModel { custom_bauds: cfg.custom_bauds + bs, ..cfg }),
    decreases bs.len(),
{
    lemma_key_literals();
    if bs.len() == 0 {
        assert(cfg.custom_bauds + bs =~= cfg.custom_bauds);
    } else {
        let b = bs[0];
        let ls = custom_baud_lines(bs);
        assert(ls[0] == "custom_baud"@ + seq!['='] + decimal(b as nat));
        lemma_setting_line(cfg, "custom_baud"@, decimal(b as nat));
        lemma_parse_decimal(b);
        lemma_trim_of_trimmed(decimal(b as nat));
        let all = cfg.custom_bauds + bs;
        assert(all[cfg.custom_bauds.len() as int] == b);
        assert(!cfg.custom_bauds.contains(b)) by {
            if cfg.custom_bauds.contains(b) {
                let i = choose|i: int| 0 <= i < cfg.custom_bauds.len() && cfg.custom_bauds[i] == b;
                assert(all[i] == b);
            }
        }
        let next = ConfigModel { custom_bauds: cfg.custom_bauds.push(b), ..cfg };
        assert(apply_config_line(cfg, ls[0]) == next);
        assert(ls.drop_first() =~= custom_baud_lines(bs.drop_first()));
        assert(cfg.custom_bauds.push(b) + bs.drop_first() =~= all);
        lemma_apply_custom_lines(next, bs.drop_first());
    }
}

/// Reading back the history lines adds the entries in order.
proof fn lemma_apply_history_lines(cfg: ConfigModel, hs: Seq<Seq<char>>)
    requires
        history_savable(hs),
    ensures
        apply_lines(cfg, history_lines(hs)) == (ConfigModel { history: cfg.history + hs, ..cfg }),
    decreases hs.len(),
{
    lemma_key_literals();
    if hs.len() == 0 {
        assert(cfg.history + hs =~= cfg.history);
    } else {
        let h = hs[0];
        let ls = history_lines(hs);
        assert(ls[0] == "history"@ + seq!['='] + encoded_history(h));
        lemma_setting_line(cfg, "history"@, encoded_history(h));
        assert(h.len() > 0 && is_trimmed(encoded_history(h)));
        lemma_trim_of_trimmed(encoded_history(h));
        lemma_history_roundtrip(h);
        let next = ConfigModel { history: cfg.history.push(h), ..cfg };
        assert(apply_config_line(cfg, ls[0]) == next);
        assert(ls.drop_first() =~= history_lines(hs.drop_first()));
        assert(cfg.history.push(h) + hs.drop_first() =~= cfg.history + hs);
        assert forall|k: int| 0 <= k < hs.drop_first().len() implies (#[trigger] hs.drop_first()[k]).len() > 0
            && is_trimmed(encoded_history(hs.drop_first()[k])) by {
            assert(hs.drop_first()[k] == hs[k + 1]);
        }
        lemma_apply_history_lines(next, hs.drop_first());
    }
}

/// The fixed lines of the saved configuration set every single-valued setting.
#[verifier::rlimit(60)]
#[verifier::spinoff_prover]
proof fn lemma_apply_fixed_lines(t: Terminal, font_px: i32)
    ensures
        apply_lines(empty_config(), config_lines(t, font_px).take(11)) == (ConfigModel {
            custom_bauds: seq![],
            history: seq![],
            ..saved_settings(t, font_px)
        }),
{
    lemma_key_literals();
    let ls = config_lines(t, font_px).take(11);
    let comment = "# Serial Terminal config (auto-saved)"@;
    reveal_strlit("# Serial Terminal config (auto-saved)");
    assert(comment[0] == '#');
    assert(is_trimmed(comment));
    lemma_trim_of_trimmed(comment);
    lemma_setting_names(t.display_mode, t.send_mode, t.line_ending, t.show_ts);
    lemma_setting_names(t.display_mode, t.send_mode, t.line_ending, t.auto_scroll);
    lemma_setting_names(t.display_mode, t.send_mode, t.line_ending, t.dtr_on);
    lemma_name_words(t.display_mode, t.send_mode, t.line_ending, t.show_ts);
    lemma_name_words(t.display_mode, t.send_mode, t.line_ending, t.auto_scroll);
    lemma_name_words(t.display_mode, t.send_mode, t.line_ending, t.dtr_on);
    lemma_signed_decimal_trimmed(font_px as int);
    lemma_trim_of_trimmed(signed_decimal(font_px as int));
    lemma_parse_decimal(t.rx_idle_ms);
    lemma_trim_of_trimmed(decimal(t.rx_idle_ms as nat));
    let c0 = empty_config();
    let c1 = apply_config_line(c0, ls[0]);
    assert(c1 == c0);
    lemma_setting_line(c1, "baud"@, t.baud_text@);
    let c2 = apply_config_line(c1, ls[1]);
    lemma_setting_line(c2, "port"@, t.selected_port@);
    let c3 = apply_config_line(c2, ls[2]);
    lemma_setting_line(c3, "display_mode"@, display_mode_name(t.display_mode));
    let c4 = apply_config_line(c3, ls[3]);
    lemma_setting_line(c4, "show_ts"@, bool_text(t.show_ts));
    let c5 = apply_config_line(c4, ls[4]);
    lemma_setting_line(c5, "auto_scroll"@, bool_text(t.auto_scroll));
    let c6 = apply_config_line(c5, ls[5]);
    lemma_setting_line(c6, "line_ending"@, line_ending_name(t.line_ending));
    let c7 = apply_config_line(c6, ls[6]);
    lemma_setting_line(c7, "dtr"@, bool_text(t.dtr_on));
    let c8 = apply_config_line(c7, ls[7]);
    lemma_setting_line(c8, "font_size"@, signed_decimal(font_px as int));
    let c9 = apply_config_line(c8, ls[8]);
    lemma_setting_line(c9, "send_mode"@, send_mode_name(t.send_mode));
    let c10 = apply_config_line(c9, ls[9]);
    lemma_setting_line(c10, "rx_idle_ms"@, decimal(t.rx_idle_ms as nat));
    let c11 = apply_config_line(c10, ls[10]);
    reveal_with_fuel(apply_lines, 12);
    assert(c11 == (ConfigModel { custom_bauds: seq![], history: seq![], ..saved_settings(t, font_px) }));
}

proof fn lemma_name_words(d: DisplayMode, m: SendMode, e: LineEnding, b: bool)
    ensures
        trim(display_mode_name(d)) == display_mode_name(d),
        trim(send_mode_name(m)) == send_mode_name(m),
        trim(line_ending_name(e)) == line_ending_name(e),
        trim(bool_text(b)) == bool_text(b),
{
    reveal_strlit("ascii");
    reveal_strlit("hex");
    reveal_strlit("text");
    reveal_strlit("none");
    reveal_strlit("lf");
    reveal_strlit("cr");
    reveal_strlit("crlf");
    reveal_strlit("true");
    reveal_strlit("false");
    lemma_lower_word(display_mode_name(d));
    lemma_lower_word(send_mode_name(m));
    lemma_lower_word(line_ending_name(e));
    lemma_lower_word(bool_text(b));
}

proof fn lemma_setting_line_single(k: Seq<char>, v: Seq<char>)
    requires
        plain_key(k),
        single_line(v),
    ensures
        single_line(k + seq!['='] + v),
{
    assert forall|i: int| 0 <= i < k.len() implies k[i] != '\n' by {
        assert(!is_white_space(k[i]));
    }
    lemma_single_line_concat(k, seq!['=']);
    lemma_single_line_concat(k + seq!['='], v);
}

proof fn lemma_word_single(w: Seq<char>)
    requires
        forall|i: int| 0 <= i < w.len() ==> 'a' <= #[trigger] w[i] <= 'z',
    ensures
        single_line(w),
{
}

proof fn lemma_config_line_single(t: Terminal, font_px: i32, k: int)
    requires
        config_savable(t),
        0 <= k < config_lines(t, font_px).len(),
    ensures
        single_line(config_lines(t, font_px)[k]),
{
    let ls = config_lines(t, font_px);
    lemma_key_literals();
    reveal_strlit("ascii");
    reveal_strlit("hex");
    reveal_strlit("text");
    reveal_strlit("none");
    reveal_strlit("lf");
    reveal_strlit("cr");
    reveal_strlit("crlf");
    reveal_strlit("true");
    reveal_strlit("false");
    lemma_word_single(display_mode_name(t.display_mode));
    lemma_word_single(send_mode_name(t.send_mode));
    lemma_word_single(line_ending_name(t.line_ending));
    lemma_word_single(bool_text(t.show_ts));
    lemma_word_single(bool_text(t.auto_scroll));
    lemma_word_single(bool_text(t.dtr_on));
    if k == 0 {
        reveal_strlit("# Serial Terminal config (auto-saved)");
    } else if k == 1 {
        lemma_setting_line_single("baud"@, t.baud_text@);
    } else if k == 2 {
        lemma_setting_line_single("port"@, t.selected_port@);
    } else if k == 3 {
        lemma_setting_line_single("display_mode"@, display_mode_name(t.display_mode));
    } else if k == 4 {
        lemma_setting_line_single("show_ts"@, bool_text(t.show_ts));
    } else if k == 5 {
        lemma_setting_line_single("auto_scroll"@, bool_text(t.auto_scroll));
    } else if k == 6 {
        lemma_setting_line_single("line_ending"@, line_ending_name(t.line_ending));
    } else if k == 7 {
        lemma_setting_line_single("dtr"@, bool_text(t.dtr_on));
    } else if k == 8 {
        if font_px < 0 {
            lemma_decimal((-font_px) as nat);
        } else {
            lemma_decimal(font_px as nat);
        }
        let d = signed_decimal(font_px as int);
        assert forall|i: int| 0 <= i < d.len() implies is_digit(#[trigger] d[i]) || d[i] == '-' by {
            if font_px < 0 && i > 0 {
                assert(d[i] == decimal((-font_px) as nat)[i - 1]);
            }
        }
        lemma_digits_single_line(d);
        lemma_setting_line_single("font_size"@, d);
    } else if k == 9 {
        lemma_setting_line_single("send_mode"@, send_mode_name(t.send_mode));
    } else if k == 10 {
        lemma_decimal(t.rx_idle_ms as nat);
        lemma_digits_single_line(decimal(t.rx_idle_ms as nat));
        lemma_setting_line_single("rx_idle_ms"@, decimal(t.rx_idle_ms as nat));
    } else if k < 11 + t.custom_bauds@.len() {
        let b = t.custom_bauds@[k - 11];
        lemma_decimal(b as nat);
        lemma_digits_single_line(decimal(b as nat));
        lemma_setting_line_single("custom_baud"@, decimal(b as nat));
        assert(ls[k] == custom_baud_lines(t.custom_bauds@)[k - 11]);
    } else {
        let hv = history_view(t.history@);
        let h = hv[k - 11 - t.custom_bauds@.len()];
        lemma_encoded_single_line(h);
        lemma_setting_line_single("history"@, encoded_history(h));
        assert(ls[k] == history_lines(hv)[k - 11 - t.custom_bauds@.len()]);
    }
}

/// Saving the settings and loading the saved text gives the settings back (the baud and port
/// texts trimmed), whenever they can be saved at all.
pub proof fn lemma_config_roundtrip(t: Terminal, font_px: i32)
    requires
        config_savable(t),
    ensures
        config_from_text(config_text(t, font_px)) == saved_settings(t, font_px),
{
    let ls = config_lines(t, font_px);
    lemma_key_literals();
    reveal_strlit("# Serial Terminal config (auto-saved)");
    lemma_name_words(t.display_mode, t.send_mode, t.line_ending, t.show_ts);
    assert forall|k: int| 0 <= k < ls.len() implies single_line(#[trigger] ls[k]) by {
        lemma_config_line_single(t, font_px, k);
    }
    lemma_fold_join(empty_config(), ls);
    let fixed = ls.take(11);
    let customs = custom_baud_lines(t.custom_bauds@);
    let hists = history_lines(history_view(t.history@));
    assert(ls =~= fixed + customs + hists);
    lemma_apply_lines_append(empty_config(), fixed + customs, hists);
    lemma_apply_lines_append(empty_config(), fixed, customs);
    lemma_apply_fixed_lines(t, font_px);
    let after_fixed = ConfigModel { custom_bauds: seq![], history: seq![], ..saved_settings(t, font_px) };
    assert(Seq::<u32>::empty() + t.custom_bauds@ =~= t.custom_bauds@);
    lemma_apply_custom_lines(after_fixed, t.custom_bauds@);
    let after_customs = ConfigModel { custom_bauds: t.custom_bauds@, ..after_fixed };
    assert(Seq::<Seq<char>>::empty() + history_view(t.history@) =~= history_view(t.history@));
    lemma_apply_history_lines(after_customs, history_view(t.history@));
}

/// Reading the settings file that saving wrote, as start-up does (with no old bauds-only file),
/// gives the saved settings back, whenever they can be saved and the custom bauds are in order
/// (as connecting and loading keep them); baud and port texts without blanks at either end come
/// back exactly.
pub proof fn lemma_saved_config_loads_back(t: Terminal, font_px: i32)
    requires
        config_savable(t),
        ascending(t.custom_bauds@),
    ensures
        loaded_config(Some(config_text(t, font_px)), None) == saved_settings(t, font_px),
        ascending(loaded_config(Some(config_text(t, font_px)), None).custom_bauds),
        is_trimmed(t.baud_text@) ==> loaded_config(Some(config_text(t, font_px)), None).baud == Some(
            t.baud_text@,
        ),
        is_trimmed(t.selected_port@) ==> loaded_config(Some(config_text(t, font_px)), None).port == Some(
            t.selected_port@,
        ),
{
    lemma_config_roundtrip(t, font_px);
    if is_trimmed(t.baud_text@) {
        lemma_trim_of_trimmed(t.baud_text@);
    }
    if is_trimmed(t.selected_port@) {
        lemma_trim_of_trimmed(t.selected_port@);
    }
}

} // verus!
