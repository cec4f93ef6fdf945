//! Byte/text codecs of the terminal: the HEX dump, the escaped-ASCII preview, the escape
//! decoder used by the converter, and the free-form HEX parser used for sending.
use vstd::prelude::*;
use vstd::utf8::*;
use crate::text::{chars_of, is_white_space, is_whitespace, push_char, push_chars, string_from_chars};

verus! {

broadcast use vstd::string::group_string_axioms;

// ---------- Hex digits ----------

/// The upper-case hex digit for `n` in `0..16`.
pub open spec fn hex_digit(n: int) -> char {
    if n < 10 {
        (48 + n) as char
    } else {
        (55 + n) as char
    }
}

/// The two upper-case hex digits of `b`, as `{:02X}` writes them.
pub open spec fn hex_pair(b: u8) -> Seq<char> {
    seq![hex_digit(b as int / 16), hex_digit(b as int % 16)]
}

/// The value of an ASCII hex digit of either case.
pub open spec fn hex_value(c: char) -> Option<int> {
    if '0' <= c <= '9' {
        Some(c as int - 48)
    } else if 'a' <= c <= 'f' {
        Some(c as int - 87)
    } else if 'A' <= c <= 'F' {
        Some(c as int - 55)
    } else {
        None
    }
}

/// Whether `c` is an ASCII hex digit (`char::is_ascii_hexdigit`).
pub open spec fn is_hex_digit(c: char) -> bool {
    hex_value(c) is Some
}

fn hex_digit_char(n: u8) -> (c: char)
    requires
        n < 16,
    ensures
        c == hex_digit(n as int),
{
    if n < 10 {
        (48 + n) as char
    } else {
        (55 + n) as char
    }
}

fn hex_digit_value(c: char) -> (v: Option<u8>)
    ensures
        match hex_value(c) {
            Some(n) => v == Some(n as u8) && 0 <= n < 16,
            None => v is None,
        },
{
    if '0' <= c && c <= '9' {
        Some((c as u32 - 48) as u8)
    } else if 'a' <= c && c <= 'f' {
        Some((c as u32 - 87) as u8)
    } else if 'A' <= c && c <= 'F' {
        Some((c as u32 - 55) as u8)
    } else {
        None
    }
}

fn push_hex_pair(s: &mut String, b: u8)
    ensures
        final(s)@ == old(s)@ + hex_pair(b),
{
    push_char(s, hex_digit_char(b / 16));
    push_char(s, hex_digit_char(b % 16));
    assert(s@ =~= old(s)@ + hex_pair(b));
}

// ---------- HEX dump ----------

/// The bytes as two upper-case hex digits each, separated by single spaces.
pub open spec fn hex_text(bytes: Seq<u8>) -> Seq<char>
    decreases bytes.len(),
{
    if bytes.len() == 0 {
        seq![]
    } else if bytes.len() == 1 {
        hex_pair(bytes[0])
    } else {
        hex_text(bytes.drop_last()) + seq![' '] + hex_pair(bytes.last())
    }
}

/// Formats bytes as space-separated upper-case hex pairs, e.g. `41 42 0D`.
pub fn hex_from_bytes(bytes: &[u8]) -> (s: String)
    ensures
        s@ == hex_text(bytes@),
{
    let mut s = String::new();
    let mut i: usize = 0;
    while i < bytes.len()
        invariant
            0 <= i <= bytes@.len(),
            s@ == hex_text(bytes@.take(i as int)),
        decreases bytes@.len() - i,
    {
        if i > 0 {
            push_char(&mut s, ' ');
        }
        push_hex_pair(&mut s, bytes[i]);
        proof {
            let t = bytes@.take(i + 1);
            assert(t.drop_last() =~= bytes@.take(i as int));
            if i == 0 {
                assert(s@ =~= hex_pair(t[0]));
            }
        }
        i = i + 1;
    }
    assert(bytes@.take(i as int) =~= bytes@);
    s
}

// ---------- Escaped preview ----------

/// How one byte appears in the escaped preview: printable ASCII as itself, backslash, CR, LF
/// and tab as `\\`, `\r`, `\n`, `\t`, anything else as `\xNN`.
pub open spec fn escape_byte(b: u8) -> Seq<char> {
    if b == 0x5C {
        seq!['\\', '\\']
    } else if b == 0x0D {
        seq!['\\', 'r']
    } else if b == 0x0A {
        seq!['\\', 'n']
    } else if b == 0x09 {
        seq!['\\', 't']
    } else if 0x20 <= b <= 0x7E {
        seq![b as char]
    } else {
        seq!['\\', 'x'] + hex_pair(b)
    }
}

/// The escaped preview of a byte string, byte by byte.
pub open spec fn escape_text(bytes: Seq<u8>) -> Seq<char>
    decreases bytes.len(),
{
    if bytes.len() == 0 {
        seq![]
    } else {
        escape_text(bytes.drop_last()) + escape_byte(bytes.last())
    }
}

/// Makes a human-readable preview of raw bytes: printable ASCII as-is, common controls as
/// backslash escapes (`\r`, `\n`, `\t`, `\\`), everything else as `\xNN`.
pub fn escape_preview_bytes(bytes: &[u8]) -> (s: String)
    ensures
        s@ == escape_text(bytes@),
{
    let mut out = String::new();
    let mut i: usize = 0;
    while i < bytes.len()
        invariant
            0 <= i <= bytes@.len(),
            out@ == escape_text(bytes@.take(i as int)),
        decreases bytes@.len() - i,
    {
        let b = bytes[i];
        let ghost before = out@;
        if b == 0x5C {
            push_char(&mut out, '\\');
            push_char(&mut out, '\\');
        } else if b == 0x0D {
            push_char(&mut out, '\\');
            push_char(&mut out, 'r');
        } else if b == 0x0A {
            push_char(&mut out, '\\');
            push_char(&mut out, 'n');
        } else if b == 0x09 {
            push_char(&mut out, '\\');
            push_char(&mut out, 't');
        } else if 0x20 <= b && b <= 0x7E {
            push_char(&mut out, b as char);
        } else {
            push_char(&mut out, '\\');
            push_char(&mut out, 'x');
            push_hex_pair(&mut out, b);
        }
        proof {
            assert(out@ =~= before + escape_byte(b));
            assert(bytes@.take(i + 1).drop_last() =~= bytes@.take(i as int));
        }
        i = i + 1;
    }
    assert(bytes@.take(i as int) =~= bytes@);
    out
}

/// The preview of `s` cut to at most `max` characters; a longer text keeps its first `max`
/// characters followed by an ellipsis.
pub open spec fn truncated(s: Seq<char>, max: int) -> (Seq<char>, bool) {
    if s.len() <= max {
        (s, false)
    } else {
        (s.take(max).push('…'), true)
    }
}

/// Cuts a preview to `max_chars` characters, appending `…` when something was cut; the flag
/// tells whether it was.
pub fn truncate_for_preview(s: &str, max_chars: usize) -> (r: (String, bool))
    ensures
        (r.0@, r.1) == truncated(s@, max_chars as int),
{
    let cs = chars_of(s);
    if cs.len() <= max_chars {
        (string_from_chars(cs.as_slice()), false)
    } else {
        let mut t = String::new();
        let mut i: usize = 0;
        while i < max_chars
            invariant
                0 <= i <= max_chars,
                max_chars < cs@.len(),
                t@ == cs@.take(i as int),
            decreases max_chars - i,
        {
            push_char(&mut t, cs[i]);
            assert(cs@.take(i + 1) =~= cs@.take(i as int).push(cs@[i as int]));
            i = i + 1;
        }
        push_char(&mut t, '…');
        (t, true)
    }
}

// ---------- Escape decoding ----------

/// `r` with `p` in front of its success value.
pub open spec fn prepend<E>(p: Seq<u8>, r: Result<Seq<u8>, E>) -> Result<Seq<u8>, E> {
    match r {
        Ok(v) => Ok(p + v),
        Err(e) => Err(e),
    }
}

/// The byte of a one-character escape (`\n \r \t \0 \\ \" \'`).
pub open spec fn simple_escape(c: char) -> Option<u8> {
    if c == 'n' {
        Some(0x0Au8)
    } else if c == 'r' {
        Some(0x0Du8)
    } else if c == 't' {
        Some(0x09u8)
    } else if c == '0' {
        Some(0u8)
    } else if c == '\\' {
        Some(0x5Cu8)
    } else if c == '"' {
        Some(0x22u8)
    } else if c == '\'' {
        Some(0x27u8)
    } else {
        None
    }
}

/// The byte that `u8::from_str_radix` reads, in base 16, from the two characters `h1 h2`: two
/// hex digits, or a `+` sign followed by one.
pub open spec fn radix16_byte(h1: char, h2: char) -> Option<u8> {
    if h1 == '+' {
        match hex_value(h2) {
            Some(v) => Some(v as u8),
            None => None,
        }
    } else {
        match (hex_value(h1), hex_value(h2)) {
            (Some(a), Some(b)) => Some((a * 16 + b) as u8),
            _ => None,
        }
    }
}

/// Decodes C-style escapes (`\n \r \t \0 \\ \" \'` and `\xNN`); every other character stands
/// for its UTF-8 bytes. The error is the message the decoder reports for the first bad escape.
pub open spec fn unescape(s: Seq<char>) -> Result<Seq<u8>, Seq<char>>
    decreases s.len(),
{
    if s.len() == 0 {
        Ok(seq![])
    } else if s[0] != '\\' {
        prepend(encode_utf8(seq![s[0]]), unescape(s.drop_first()))
    } else if s.len() == 1 {
        Err("dangling backslash at end of input"@)
    } else if s[1] == 'x' || s[1] == 'X' {
        if s.len() < 3 {
            Err("expected hex digit after \\x"@)
        } else if s.len() < 4 {
            Err("expected second hex digit after \\x"@)
        } else {
            match radix16_byte(s[2], s[3]) {
                Some(b) => prepend(seq![b], unescape(s.skip(4))),
                None => Err("invalid \\x escape: \\x"@ + seq![s[2], s[3]]),
            }
        }
    } else {
        match simple_escape(s[1]) {
            Some(b) => prepend(seq![b], unescape(s.skip(2))),
            None => Err("unknown escape: \\"@ + seq![s[1]]),
        }
    }
}

/// Appends the UTF-8 encoding of `c`.
pub(crate) fn push_utf8(out: &mut Vec<u8>, c: char)
    ensures
        final(out)@ == old(out)@ + encode_utf8(seq![c]),
{
    let v = c as u32;
    proof {
        assert(encode_utf8(seq![c]) =~= encode_scalar(v) + encode_utf8(seq![c].drop_first()));
        assert(encode_utf8(seq![c].drop_first()) =~= Seq::<u8>::empty());
    }
    if v <= 0x7F {
        out.push((v & 0x7F) as u8);
    } else if v <= 0x7FF {
        out.push(0xC0 | ((v >> 6) & 0x1F) as u8);
        out.push(0x80 | (v & 0x3F) as u8);
    } else if v <= 0xFFFF {
        out.push(0xE0 | ((v >> 12) & 0x0F) as u8);
        out.push(0x80 | ((v >> 6) & 0x3F) as u8);
        out.push(0x80 | (v & 0x3F) as u8);
    } else {
        out.push(0xF0 | ((v >> 18) & 0x7) as u8);
        out.push(0x80 | ((v >> 12) & 0x3F) as u8);
        out.push(0x80 | ((v >> 6) & 0x3F) as u8);
        out.push(0x80 | (v & 0x3F) as u8);
    }
    proof {
        broadcast use vstd::utf8::char_is_scalar;
        assert(is_scalar(c as u32));
        assert(final(out)@ =~= old(out)@ + encode_scalar(v));
    }
}

/// Appends the characters of a string literal to an error message under construction.
fn message(lit: &str) -> (s: String)
    ensures
        s@ == lit@,
{
    String::from_str(lit)
}

/// Decodes a string with C-style escapes (`\n`, `\r`, `\t`, `\0`, `\\`, `\"`, `\'` and `\xNN`)
/// into raw bytes. Non-escaped characters pass through as their UTF-8 bytes. This is the
/// inverse of `escape_preview_bytes`.
pub fn parse_escaped_ascii(input: &str) -> (r: Result<Vec<u8>, String>)
    ensures
        match r {
            Ok(v) => unescape(input@) == Ok::<Seq<u8>, Seq<char>>(v@),
            Err(m) => unescape(input@) == Err::<Seq<u8>, Seq<char>>(m@),
        },
{
    let cs = chars_of(input);
    let n = cs.len();
    let mut out: Vec<u8> = Vec::new();
    let mut i: usize = 0;
    proof {
        assert(cs@.skip(0) =~= cs@);
        match unescape(cs@) {
            Ok(v) => {
                assert(out@ + v =~= v);
            },
            Err(e) => {},
        }
    }
    while i < n
        invariant
            0 <= i <= n,
            n == cs@.len(),
            cs@ == input@,
            unescape(input@) == prepend(out@, unescape(cs@.skip(i as int))),
        decreases n - i,
    {
        let ghost rest = cs@.skip(i as int);
        let ghost before = out@;
        let c = cs[i];
        assert(rest[0] == c);
        if c != '\\' {
            push_utf8(&mut out, c);
            i = i + 1;
            proof {
                assert(rest.drop_first() =~= cs@.skip(i as int));
                assert(before + encode_utf8(seq![c]) == out@);
                match unescape(cs@.skip(i as int)) {
                    Ok(v) => {
                        assert(before + (encode_utf8(seq![c]) + v) =~= out@ + v);
                    },
                    Err(e) => {},
                }
            }
            continue;
        }
        if i + 1 >= n {
            return Err(message("dangling backslash at end of input"));
        }
        let e = cs[i + 1];
        assert(rest[1] == e);
        if e == 'x' || e == 'X' {
            if i + 2 >= n {
                return Err(message("expected hex digit after \\x"));
            }
            if i + 3 >= n {
                return Err(message("expected second hex digit after \\x"));
            }
            let h1 = cs[i + 2];
            let h2 = cs[i + 3];
            assert(rest[2] == h1 && rest[3] == h2);
            let v2 = hex_digit_value(h2);
            let byte: Option<u8> = if h1 == '+' {
                v2
            } else {
                match (hex_digit_value(h1), v2) {
                    (Some(a), Some(b)) => Some(a * 16 + b),
                    _ => None,
                }
            };
            assert(byte == radix16_byte(h1, h2));
            match byte {
                Some(b) => {
                    out.push(b);
                    i = i + 4;
                    proof {
                        assert(rest.skip(4) =~= cs@.skip(i as int));
                        match unescape(cs@.skip(i as int)) {
                            Ok(v) => {
                                assert(before + (seq![b] + v) =~= out@ + v);
                            },
                            Err(e) => {},
                        }
                    }
                },
                None => {
                    let mut m = message("invalid \\x escape: \\x");
                    push_char(&mut m, h1);
                    push_char(&mut m, h2);
                    proof {
                        assert(m@ =~= "invalid \\x escape: \\x"@ + seq![h1, h2]);
                    }
                    return Err(m);
                },
            }
        } else {
            let simple: Option<u8> = if e == 'n' {
                Some(0x0A)
            } else if e == 'r' {
                Some(0x0D)
            } else if e == 't' {
                Some(0x09)
            } else if e == '0' {
                Some(0)
            } else if e == '\\' {
                Some(0x5C)
            } else if e == '"' {
                Some(0x22)
            } else if e == '\'' {
                Some(0x27)
            } else {
                None
            };
            match simple {
                Some(b) => {
                    out.push(b);
                    i = i + 2;
                    proof {
                        assert(rest.skip(2) =~= cs@.skip(i as int));
                        match unescape(cs@.skip(i as int)) {
                            Ok(v) => {
                                assert(before + (seq![b] + v) =~= out@ + v);
                            },
                            Err(e) => {},
                        }
                    }
                },
                None => {
                    let mut m = message("unknown escape: \\");
                    push_char(&mut m, e);
                    proof {
                        assert(m@ =~= "unknown escape: \\"@ + seq![e]);
                    }
                    return Err(m);
                },
            }
        }
    }
    proof {
        assert(cs@.skip(i as int) =~= Seq::<char>::empty());
        assert(out@ + Seq::<u8>::empty() =~= out@);
    }
    Ok(out)
}

// ---------- Free-form HEX parsing ----------

/// Characters that separate hex tokens: whitespace and `, : ; - _`.
pub open spec fn is_hex_separator(c: char) -> bool {
    is_white_space(c) || c == ',' || c == ':' || c == ';' || c == '-' || c == '_'
}

/// `toks` with the token under construction appended, if it is not empty.
pub open spec fn close_token(cur: Seq<char>, toks: Seq<Seq<char>>) -> Seq<Seq<char>> {
    if cur.len() > 0 {
        toks.push(cur)
    } else {
        toks
    }
}

/// Splits `s` into runs of hex digits, continuing from the token `cur` under construction and
/// the tokens `toks` already closed. A `0x`/`0X` pair is skipped wherever it occurs; separators
/// close the current token; any other character is rejected and returned.
pub open spec fn hex_tokens(s: Seq<char>, cur: Seq<char>, toks: Seq<Seq<char>>) -> Result<
    Seq<Seq<char>>,
    char,
>
    decreases s.len(),
{
    if s.len() == 0 {
        Ok(close_token(cur, toks))
    } else if s[0] == '0' && s.len() >= 2 && (s[1] == 'x' || s[1] == 'X') {
        hex_tokens(s.skip(2), cur, toks)
    } else if is_hex_digit(s[0]) {
        hex_tokens(s.drop_first(), cur.push(s[0]), toks)
    } else if is_hex_separator(s[0]) {
        hex_tokens(s.drop_first(), seq![], close_token(cur, toks))
    } else {
        Err(s[0])
    }
}

/// The bytes spelled by a token of hex digit pairs.
pub open spec fn token_bytes(t: Seq<char>) -> Seq<u8>
    decreases t.len(),
{
    if t.len() < 2 {
        seq![]
    } else {
        seq![(hex_value(t[0])->0 * 16 + hex_value(t[1])->0) as u8] + token_bytes(t.skip(2))
    }
}

/// The bytes of all tokens in order, or the first token with an odd number of digits.
pub open spec fn tokens_bytes(toks: Seq<Seq<char>>) -> Result<Seq<u8>, Seq<char>>
    decreases toks.len(),
{
    if toks.len() == 0 {
        Ok(seq![])
    } else if toks[0].len() % 2 != 0 {
        Err(toks[0])
    } else {
        prepend(token_bytes(toks[0]), tokens_bytes(toks.drop_first()))
    }
}

/// What the free-form HEX parser gives for `s`: the bytes, or the message it reports.
pub open spec fn parse_hex(s: Seq<char>) -> Result<Seq<u8>, Seq<char>> {
    match hex_tokens(s, seq![], seq![]) {
        Err(c) => Err("Unexpected character '"@ + seq![c] + "'"@),
        Ok(toks) => match tokens_bytes(toks) {
            Ok(b) => Ok(b),
            Err(t) => Err("Token '"@ + t + "' has an odd number of hex digits (need pairs)"@),
        },
    }
}

proof fn lemma_tokens_prefix(s: Seq<char>, cur: Seq<char>, p: Seq<Seq<char>>, q: Seq<Seq<char>>)
    ensures
        hex_tokens(s, cur, p + q) == match hex_tokens(s, cur, q) {
            Ok(r) => Ok::<Seq<Seq<char>>, char>(p + r),
            Err(e) => Err(e),
        },
    decreases s.len(),
{
    if cur.len() > 0 {
        assert((p + q).push(cur) =~= p + q.push(cur));
    }
    if s.len() > 0 {
        if s[0] == '0' && s.len() >= 2 && (s[1] == 'x' || s[1] == 'X') {
            lemma_tokens_prefix(s.skip(2), cur, p, q);
        } else if is_hex_digit(s[0]) {
            lemma_tokens_prefix(s.drop_first(), cur.push(s[0]), p, q);
        } else if is_hex_separator(s[0]) {
            lemma_tokens_prefix(s.drop_first(), seq![], p, close_token(cur, q));
        }
    }
}

proof fn lemma_tokens_split(a: Seq<char>, c: char, b: Seq<char>, cur: Seq<char>, toks: Seq<Seq<char>>)
    requires
        is_hex_separator(c),
    ensures
        hex_tokens(a + seq![c] + b, cur, toks) == match hex_tokens(a, cur, toks) {
            Ok(t) => hex_tokens(b, seq![], t),
            Err(e) => Err(e),
        },
    decreases a.len(),
{
    let s = a + seq![c] + b;
    assert(c != '0' && !is_hex_digit(c));
    if a.len() == 0 {
        assert(s[0] == c);
        assert(s.drop_first() =~= b);
    } else {
        assert(s[0] == a[0]);
        if a.len() >= 2 {
            assert(s[1] == a[1]);
        } else {
            assert(s[1] == c);
        }
        if a[0] == '0' && a.len() >= 2 && (a[1] == 'x' || a[1] == 'X') {
            assert(s.skip(2) =~= a.skip(2) + seq![c] + b);
            lemma_tokens_split(a.skip(2), c, b, cur, toks);
        } else {
            assert(s.drop_first() =~= a.drop_first() + seq![c] + b);
            if is_hex_digit(a[0]) {
                lemma_tokens_split(a.drop_first(), c, b, cur.push(a[0]), toks);
            } else if is_hex_separator(a[0]) {
                lemma_tokens_split(a.drop_first(), c, b, seq![], close_token(cur, toks));
            }
        }
    }
}

proof fn lemma_tokens_bytes_concat(x: Seq<Seq<char>>, y: Seq<Seq<char>>)
    ensures
        tokens_bytes(x + y) == match tokens_bytes(x) {
            Err(e) => Err(e),
            Ok(bx) => match tokens_bytes(y) {
                Ok(by) => Ok::<Seq<u8>, Seq<char>>(bx + by),
                Err(e) => Err(e),
            },
        },
    decreases x.len(),
{
    if x.len() == 0 {
        assert(x + y =~= y);
        match tokens_bytes(y) {
            Ok(by) => assert(Seq::<u8>::empty() + by =~= by),
            Err(_) => {},
        }
    } else {
        assert((x + y)[0] == x[0]);
        assert((x + y).drop_first() =~= x.drop_first() + y);
        lemma_tokens_bytes_concat(x.drop_first(), y);
        match tokens_bytes(x.drop_first()) {
            Ok(bx) => match tokens_bytes(y) {
                Ok(by) => assert(token_bytes(x[0]) + (bx + by) =~= (token_bytes(x[0]) + bx) + by),
                Err(_) => {},
            },
            Err(_) => {},
        }
    }
}

/// A separator always ends what comes before it: the text `a`, a separator, then `b` parses
/// if and only if `a` and `b` each parse on their own, and then to the bytes of `a` followed
/// by the bytes of `b`.
pub proof fn lemma_hex_separator_splits(a: Seq<char>, c: char, b: Seq<char>)
    requires
        is_hex_separator(c),
    ensures
        parse_hex(a + seq![c] + b) is Ok <==> (parse_hex(a) is Ok && parse_hex(b) is Ok),
        parse_hex(a + seq![c] + b) is Ok ==> parse_hex(a + seq![c] + b)->Ok_0 == parse_hex(a)->Ok_0
            + parse_hex(b)->Ok_0,
{
    let e: Seq<Seq<char>> = seq![];
    lemma_tokens_split(a, c, b, seq![], e);
    match hex_tokens(a, seq![], e) {
        Ok(t) => {
            lemma_tokens_prefix(b, seq![], t, e);
            assert(t + e =~= t);
            match hex_tokens(b, seq![], e) {
                Ok(r) => lemma_tokens_bytes_concat(t, r),
                Err(_) => {},
            }
        },
        Err(_) => {},
    }
}

/// A lone hex digit is not a byte: it is rejected, wherever it stands between separators.
pub proof fn lemma_lone_digit_rejected(d: char)
    requires
        is_hex_digit(d),
    ensures
        parse_hex(seq![d]) is Err,
{
    let s = seq![d];
    let e: Seq<Seq<char>> = seq![];
    assert(s.drop_first() =~= Seq::<char>::empty());
    assert(Seq::<char>::empty().push(d) =~= s);
    assert(hex_tokens(s.drop_first(), s, e) == Ok::<Seq<Seq<char>>, char>(e.push(s)));
    assert(hex_tokens(s, seq![], e) == Ok::<Seq<Seq<char>>, char>(e.push(s)));
    assert(e.push(s)[0].len() % 2 != 0);
}

fn is_separator(c: char) -> (b: bool)
    ensures
        b == is_hex_separator(c),
{
    is_whitespace(c) || c == ',' || c == ':' || c == ';' || c == '-' || c == '_'
}


/// Appends the bytes spelled by a token of an even number of hex digits.
fn push_token_bytes(out: &mut Vec<u8>, tok: &[char])
    requires
        tok@.len() % 2 == 0,
        forall|k: int| 0 <= k < tok@.len() ==> is_hex_digit(#[trigger] tok@[k]),
    ensures
        final(out)@ == old(out)@ + token_bytes(tok@),
{
    let ghost start = out@;
    let mut j: usize = 0;
    assert(tok@.skip(0) =~= tok@);
    assert(start + token_bytes(tok@) =~= out@ + token_bytes(tok@.skip(0)));
    while j < tok.len()
        invariant
            0 <= j <= tok@.len(),
            j % 2 == 0,
            tok@.len() % 2 == 0,
            forall|k: int| 0 <= k < tok@.len() ==> is_hex_digit(#[trigger] tok@[k]),
            start + token_bytes(tok@) == out@ + token_bytes(tok@.skip(j as int)),
        decreases tok@.len() - j,
    {
        assert(is_hex_digit(tok@[j as int]) && is_hex_digit(tok@[j + 1]));
        let hi = hex_digit_value(tok[j]);
        let lo = hex_digit_value(tok[j + 1]);
        let (h, l) = match (hi, lo) {
            (Some(h), Some(l)) => (h, l),
            _ => (0, 0),
        };
        let ghost before = out@;
        out.push(h * 16 + l);
        proof {
            let rest = tok@.skip(j as int);
            assert(rest.skip(2) =~= tok@.skip(j + 2));
            assert(rest[0] == tok@[j as int] && rest[1] == tok@[j + 1]);
            assert(token_bytes(rest) == seq![(h * 16 + l) as u8] + token_bytes(tok@.skip(j + 2)));
            assert(before + (seq![(h * 16 + l) as u8] + token_bytes(tok@.skip(j + 2))) =~= out@
                + token_bytes(tok@.skip(j + 2)));
        }
        j = j + 2;
    }
    proof {
        assert(tok@.skip(j as int) =~= Seq::<char>::empty());
        assert(out@ + Seq::<u8>::empty() =~= out@);
    }
}

/// Parses a free-form hex string into bytes. Spaces, tabs, newlines, commas, colons,
/// semicolons, dashes and underscores separate tokens, and `0x`/`0X` prefixes are skipped
/// anywhere; each token must be made of hex digit pairs. `"AA 55 01 00 FF"`,
/// `"aa,55,01,00,ff"`, `"0xAA 0x55 0x01 0x00 0xFF"`, `"AA:55:01:00:FF"` and `"AA55 0100FF"`
/// all give the same five bytes.
pub fn parse_hex_bytes(input: &str) -> (r: Result<Vec<u8>, String>)
    ensures
        match r {
            Ok(v) => parse_hex(input@) == Ok::<Seq<u8>, Seq<char>>(v@),
            Err(m) => parse_hex(input@) == Err::<Seq<u8>, Seq<char>>(m@),
        },
{
    let cs = chars_of(input);
    let n = cs.len();
    let mut tokens: Vec<Vec<char>> = Vec::new();
    let mut current: Vec<char> = Vec::new();
    let mut i: usize = 0;
    proof {
        assert(cs@.skip(0) =~= cs@);
        assert(tokens@.map_values(|t: Vec<char>| t@) =~= Seq::<Seq<char>>::empty());
    }
    while i < n
        invariant
            0 <= i <= n,
            n == cs@.len(),
            cs@ == input@,
            hex_tokens(input@, seq![], seq![]) == hex_tokens(
                cs@.skip(i as int),
                current@,
                tokens@.map_values(|t: Vec<char>| t@),
            ),
            forall|k: int| 0 <= k < current@.len() ==> is_hex_digit(#[trigger] current@[k]),
            forall|m: int, k: int|
                0 <= m < tokens@.len() && 0 <= k < tokens@[m]@.len() ==> is_hex_digit(
                    #[trigger] tokens@[m]@[k],
                ),
        decreases n - i,
    {
        let ghost rest = cs@.skip(i as int);
        let ghost toks = tokens@.map_values(|t: Vec<char>| t@);
        let c = cs[i];
        assert(rest[0] == c);
        // Skip "0x" / "0X" prefix anywhere in the stream.
        if c == '0' && i + 1 < n && (cs[i + 1] == 'x' || cs[i + 1] == 'X') {
            assert(rest[1] == cs@[i + 1]);
            i = i + 2;
            assert(rest.skip(2) =~= cs@.skip(i as int));
            continue;
        }
        if hex_digit_value(c).is_some() {
            current.push(c);
            i = i + 1;
            proof {
                assert(rest.drop_first() =~= cs@.skip(i as int));
            }
        } else if is_separator(c) {
            if current.len() > 0 {
                let mut tok: Vec<char> = Vec::new();
                std::mem::swap(&mut tok, &mut current);
                tokens.push(tok);
                proof {
                    assert(tokens@.map_values(|t: Vec<char>| t@) =~= toks.push(tok@));
                }
            }
            i = i + 1;
            proof {
                assert(rest.drop_first() =~= cs@.skip(i as int));
                assert(current@ =~= Seq::<char>::empty());
            }
        } else {
            let mut m = message("Unexpected character '");
            push_char(&mut m, c);
            let q = chars_of("'");
            push_chars(&mut m, q.as_slice());
            proof {
                if rest.len() >= 2 {
                    assert(rest[1] == cs@[i + 1]);
                }
                assert(hex_tokens(rest, current@, toks) == Err::<Seq<Seq<char>>, char>(c));
                assert(m@ =~= "Unexpected character '"@ + seq![c] + "'"@);
            }
            return Err(m);
        }
    }
    if current.len() > 0 {
        let mut tok: Vec<char> = Vec::new();
                std::mem::swap(&mut tok, &mut current);
        let ghost toks = tokens@.map_values(|t: Vec<char>| t@);
        tokens.push(tok);
        proof {
            assert(tokens@.map_values(|t: Vec<char>| t@) =~= toks.push(tok@));
        }
    }
    let ghost all = tokens@.map_values(|t: Vec<char>| t@);
    proof {
        assert(cs@.skip(i as int) =~= Seq::<char>::empty());
        assert(hex_tokens(input@, seq![], seq![]) == Ok::<Seq<Seq<char>>, char>(all));
    }

    let mut bytes: Vec<u8> = Vec::new();
    let mut k: usize = 0;
    proof {
        assert(all.skip(0) =~= all);
        match tokens_bytes(all) {
            Ok(v) => {
                assert(bytes@ + v =~= v);
            },
            Err(e) => {},
        }
    }
    while k < tokens.len()
        invariant
            0 <= k <= tokens@.len(),
            all == tokens@.map_values(|t: Vec<char>| t@),
            hex_tokens(input@, seq![], seq![]) == Ok::<Seq<Seq<char>>, char>(all),
            tokens_bytes(all) == prepend(bytes@, tokens_bytes(all.skip(k as int))),
            forall|m: int, j: int|
                0 <= m < tokens@.len() && 0 <= j < tokens@[m]@.len() ==> is_hex_digit(
                    #[trigger] tokens@[m]@[j],
                ),
        decreases tokens@.len() - k,
    {
        let tok = &tokens[k];
        let ghost rest = all.skip(k as int);
        assert(rest[0] == tok@);
        if tok.len() % 2 != 0 {
            let mut m = message("Token '");
            push_chars(&mut m, tok.as_slice());
            let tail = chars_of("' has an odd number of hex digits (need pairs)");
            push_chars(&mut m, tail.as_slice());
            return Err(m);
        }
        let ghost before = bytes@;
        push_token_bytes(&mut bytes, tok.as_slice());
        k = k + 1;
        proof {
            assert(rest.drop_first() =~= all.skip(k as int));
            match tokens_bytes(all.skip(k as int)) {
                Ok(v) => {
                    assert(before + (token_bytes(tok@) + v) =~= bytes@ + v);
                },
                Err(e) => {},
            }
        }
    }
    proof {
        assert(all.skip(k as int) =~= Seq::<Seq<char>>::empty());
        assert(bytes@ + Seq::<u8>::empty() =~= bytes@);
    }
    Ok(bytes)
}


// ---------- Round trips ----------

proof fn lemma_hex_digit_value(n: int)
    requires
        0 <= n < 16,
    ensures
        hex_value(hex_digit(n)) == Some(n),
        hex_digit(n) != '+',
        hex_digit(n) != 'x',
        hex_digit(n) != 'X',
        hex_digit(n) != ' ',
        hex_digit(n) != '\\',
{
}

proof fn lemma_hex_pair_value(b: u8)
    ensures
        radix16_byte(hex_pair(b)[0], hex_pair(b)[1]) == Some(b),
        hex_value(hex_pair(b)[0]) == Some(b as int / 16),
        hex_value(hex_pair(b)[1]) == Some(b as int % 16),
{
    lemma_hex_digit_value(b as int / 16);
    lemma_hex_digit_value(b as int % 16);
    assert((b as int / 16) * 16 + b as int % 16 == b as int);
}

proof fn lemma_escape_text_front(b: Seq<u8>)
    requires
        b.len() > 0,
    ensures
        escape_text(b) == escape_byte(b[0]) + escape_text(b.drop_first()),
    decreases b.len(),
{
    if b.len() == 1 {
        assert(b.drop_last() =~= Seq::<u8>::empty());
        assert(b.drop_first() =~= Seq::<u8>::empty());
        assert(escape_text(b) =~= escape_byte(b[0]) + escape_text(b.drop_first()));
    } else {
        lemma_escape_text_front(b.drop_last());
        assert(b.drop_last().drop_first() =~= b.drop_first().drop_last());
        assert(b.drop_last()[0] == b[0]);
        assert(b.drop_first().last() == b.last());
        assert(escape_text(b) =~= escape_byte(b[0]) + escape_text(b.drop_first()));
    }
}

proof fn lemma_unescape_byte(x: u8, rest: Seq<char>)
    ensures
        unescape(escape_byte(x) + rest) == prepend(seq![x], unescape(rest)),
{
    let s = escape_byte(x) + rest;
    if x == 0x5C || x == 0x0D || x == 0x0A || x == 0x09 {
        assert(s.skip(2) =~= rest);
    } else if 0x20 <= x <= 0x7E {
        assert(s.drop_first() =~= rest);
        let c = x as char;
        let v = c as u32;
        assert(v == x as u32);
        assert(v & 0x7F == v) by (bit_vector)
            requires v <= 0x7E;
        assert(encode_utf8(seq![c]) =~= encode_scalar(c as u32) + encode_utf8(seq![c].drop_first()));
        assert(encode_utf8(seq![c].drop_first()) =~= Seq::<u8>::empty());
        assert(encode_utf8(seq![c]) =~= seq![x]);
    } else {
        lemma_hex_pair_value(x);
        lemma_hex_digit_value(x as int / 16);
        assert(s.skip(4) =~= rest);
        assert(s[2] == hex_pair(x)[0] && s[3] == hex_pair(x)[1]);
    }
}

/// Escaping bytes for the preview and decoding the escapes gives the bytes back, for every
/// byte string.
pub proof fn lemma_escape_roundtrip(bytes: Seq<u8>)
    ensures
        unescape(escape_text(bytes)) == Ok::<Seq<u8>, Seq<char>>(bytes),
    decreases bytes.len(),
{
    if bytes.len() == 0 {
        assert(escape_text(bytes) =~= Seq::<char>::empty());
        assert(bytes =~= Seq::<u8>::empty());
    } else {
        lemma_escape_text_front(bytes);
        lemma_escape_roundtrip(bytes.drop_first());
        lemma_unescape_byte(bytes[0], escape_text(bytes.drop_first()));
        assert(seq![bytes[0]] + bytes.drop_first() =~= bytes);
        assert(unescape(escape_text(bytes)) == prepend(seq![bytes[0]], unescape(escape_text(bytes.drop_first()))));
        assert(prepend(seq![bytes[0]], Ok::<Seq<u8>, Seq<char>>(bytes.drop_first())) == Ok::<Seq<u8>, Seq<char>>(seq![bytes[0]] + bytes.drop_first()));
    }
}

proof fn lemma_hex_text_front(b: Seq<u8>)
    requires
        b.len() > 1,
    ensures
        hex_text(b) == hex_pair(b[0]) + seq![' '] + hex_text(b.drop_first()),
    decreases b.len(),
{
    if b.len() == 2 {
        assert(b.drop_last().len() == 1);
        assert(b.drop_first().len() == 1);
        assert(hex_text(b.drop_last()) == hex_pair(b.drop_last()[0]));
        assert(hex_text(b.drop_first()) == hex_pair(b[1]));
        assert(hex_text(b) =~= hex_pair(b[0]) + seq![' '] + hex_text(b.drop_first()));
    } else {
        lemma_hex_text_front(b.drop_last());
        assert(b.drop_last().drop_first() =~= b.drop_first().drop_last());
        assert(b.drop_last()[0] == b[0]);
        assert(b.drop_first().last() == b.last());
        let df = b.drop_first();
        assert(df.len() > 1);
        assert(hex_text(df) == hex_text(df.drop_last()) + seq![' '] + hex_pair(df.last()));
        assert(hex_text(b) == hex_text(b.drop_last()) + seq![' '] + hex_pair(b.last()));
        assert(hex_text(b) =~= hex_pair(b[0]) + seq![' '] + hex_text(b.drop_first()));
    }
}

/// The tokens that the HEX dump of `b` splits into: one two-digit token per byte.
pub open spec fn hex_pairs(b: Seq<u8>) -> Seq<Seq<char>> {
    b.map_values(|x: u8| hex_pair(x))
}

proof fn lemma_hex_tokens_text(b: Seq<u8>, toks: Seq<Seq<char>>)
    requires
        b.len() > 0,
    ensures
        hex_tokens(hex_text(b), seq![], toks) == Ok::<Seq<Seq<char>>, char>(toks + hex_pairs(b)),
    decreases b.len(),
{
    let p = hex_pair(b[0]);
    lemma_hex_digit_value(b[0] as int / 16);
    lemma_hex_digit_value(b[0] as int % 16);
    let s0 = p[0];
    let s1 = p[1];
    assert(is_hex_digit(s0) && is_hex_digit(s1));
    let e: Seq<char> = seq![];
    assert(e.push(s0).push(s1) =~= p);
    if b.len() == 1 {
        let s = hex_text(b);
        assert(s == p);
        let t1 = s.drop_first();
        assert(t1 =~= seq![s1]);
        let t2 = t1.drop_first();
        assert(t2 =~= Seq::<char>::empty());
        assert(hex_tokens(t2, e.push(s0).push(s1), toks) == Ok::<Seq<Seq<char>>, char>(toks.push(p)));
        assert(hex_tokens(t1, e.push(s0), toks) == hex_tokens(t2, e.push(s0).push(s1), toks));
        assert(hex_tokens(s, e, toks) == hex_tokens(t1, e.push(s0), toks));
        assert(toks + hex_pairs(b) =~= toks.push(p));
    } else {
        lemma_hex_text_front(b);
        let rest = hex_text(b.drop_first());
        let s = p + seq![' '] + rest;
        let t1 = s.drop_first();
        let t2 = t1.drop_first();
        let t3 = t2.drop_first();
        assert(t1 =~= seq![s1, ' '] + rest);
        assert(t2 =~= seq![' '] + rest);
        assert(t3 =~= rest);
        assert(is_hex_separator(' '));
        lemma_hex_tokens_text(b.drop_first(), toks.push(p));
        assert(hex_tokens(t2, e.push(s0).push(s1), toks) == hex_tokens(t3, e, toks.push(p)));
        assert(hex_tokens(t1, e.push(s0), toks) == hex_tokens(t2, e.push(s0).push(s1), toks));
        assert(hex_tokens(s, e, toks) == hex_tokens(t1, e.push(s0), toks));
        assert(toks.push(p) + hex_pairs(b.drop_first()) =~= toks + hex_pairs(b));
    }
}

proof fn lemma_tokens_bytes_pairs(b: Seq<u8>)
    ensures
        tokens_bytes(hex_pairs(b)) == Ok::<Seq<u8>, Seq<char>>(b),
    decreases b.len(),
{
    if b.len() > 0 {
        lemma_tokens_bytes_pairs(b.drop_first());
        assert(hex_pairs(b).drop_first() =~= hex_pairs(b.drop_first()));
        let p = hex_pair(b[0]);
        lemma_hex_pair_value(b[0]);
        assert(p.skip(2) =~= Seq::<char>::empty());
        assert(token_bytes(p.skip(2)) =~= Seq::<u8>::empty());
        assert(((b[0] as int / 16) * 16 + b[0] as int % 16) as u8 == b[0]);
        assert(token_bytes(p) =~= seq![b[0]]);
        assert(seq![b[0]] + b.drop_first() =~= b);
    } else {
        assert(hex_pairs(b) =~= Seq::<Seq<char>>::empty());
        assert(b =~= Seq::<u8>::empty());
    }
}

/// Parsing the HEX dump of a byte string gives the bytes back, for every byte string.
pub proof fn lemma_hex_roundtrip(bytes: Seq<u8>)
    ensures
        parse_hex(hex_text(bytes)) == Ok::<Seq<u8>, Seq<char>>(bytes),
{
    if bytes.len() > 0 {
        lemma_hex_tokens_text(bytes, seq![]);
        assert(Seq::<Seq<char>>::empty() + hex_pairs(bytes) =~= hex_pairs(bytes));
    } else {
        assert(hex_text(bytes) =~= Seq::<char>::empty());
        assert(hex_pairs(bytes) =~= Seq::<Seq<char>>::empty());
        assert(bytes =~= Seq::<u8>::empty());
    }
    lemma_tokens_bytes_pairs(bytes);
}


// ---------- Lossy UTF-8 decoding ----------

/// The text that `String::from_utf8_lossy` decodes from `bytes`, with U+FFFD in place of each
/// invalid sequence.
pub uninterp spec fn utf8_lossy(bytes: Seq<u8>) -> Seq<char>;

/// Decodes bytes for display with `String::from_utf8_lossy`. Trusted: the result is the named
/// lossy decoding of the bytes, and for valid UTF-8 input it is the decoded text itself, as the
/// std documentation states; how invalid sequences are replaced is not stated here.
#[verifier::external_body]
pub(crate) fn ascii_from_bytes(bytes: &[u8]) -> (s: String)
    ensures
        s@ == utf8_lossy(bytes@),
        valid_utf8(bytes@) ==> s@ == decode_utf8(bytes@),
{
    String::from_utf8_lossy(bytes).into_owned()
}


// ---------- The ASCII <-> HEX converter ----------

/// Appends the bytes of `b`.
fn push_bytes(v: &mut Vec<u8>, b: &[u8])
    ensures
        final(v)@ == old(v)@ + b@,
{
    let mut i: usize = 0;
    while i < b.len()
        invariant
            0 <= i <= b@.len(),
            v@ == old(v)@ + b@.take(i as int),
        decreases b@.len() - i,
    {
        v.push(b[i]);
        assert(b@.take(i + 1) =~= b@.take(i as int).push(b@[i as int]));
        i = i + 1;
    }
    assert(b@.take(i as int) =~= b@);
}

/// The HEX side of the converter for the escaped-ASCII side `ascii`, or the decoder's message.
pub fn ascii_to_hex(ascii: &str) -> (r: Result<String, String>)
    ensures
        match unescape(ascii@) {
            Ok(b) => r matches Ok(h) && h@ == hex_text(b),
            Err(e) => r matches Err(m) && m@ == e,
        },
{
    match parse_escaped_ascii(ascii) {
        Ok(bytes) => Ok(hex_from_bytes(bytes.as_slice())),
        Err(e) => Err(e),
    }
}

/// The escaped-ASCII side of the converter for the HEX side `hex`, or the parser's message.
/// Non-printable bytes show as escapes so that the ASCII side stays editable.
pub fn hex_to_ascii(hex: &str) -> (r: Result<String, String>)
    ensures
        match parse_hex(hex@) {
            Ok(b) => r matches Ok(a) && a@ == escape_text(b),
            Err(e) => r matches Err(m) && m@ == e,
        },
{
    match parse_hex_bytes(hex) {
        Ok(bytes) => Ok(escape_preview_bytes(bytes.as_slice())),
        Err(e) => Err(e),
    }
}

/// The text that the converter loads into the send box for TEXT mode: the escapes of `ascii`
/// decoded (or, when they do not decode, its own bytes), shown as UTF-8 with invalid
/// sequences replaced.
pub fn converter_send_text(ascii: &str) -> (s: String)
    ensures
        s@ == utf8_lossy(
            match unescape(ascii@) {
                Ok(b) => b,
                Err(_) => encode_utf8(ascii@),
            },
        ),
{
    let bytes = match parse_escaped_ascii(ascii) {
        Ok(b) => b,
        Err(_) => {
            let mut v: Vec<u8> = Vec::new();
            push_bytes(&mut v, ascii.as_bytes());
            v
        },
    };
    ascii_from_bytes(bytes.as_slice())
}

} // verus!
