//! Character-level helpers shared by the codecs and the configuration format: Unicode
//! whitespace, trimming, ASCII case folding and decimal numbers.
use vstd::prelude::*;

verus! {

broadcast use vstd::string::group_string_axioms;

/// The characters of `s`, in order.
pub fn chars_of(s: &str) -> (v: Vec<char>)
    ensures
        v@ == s@,
{
    let mut v: Vec<char> = Vec::new();
    for c in it: s.chars()
        invariant
            it.seq() == s@,
            v@ == s@.take(it.index() as int),
    {
        proof {
            assert(s@.take(it.index() + 1) =~= s@.take(it.index() as int).push(c));
        }
        v.push(c);
    }
    assert(v@ =~= s@);
    v
}

/// Appends one character to a string with `String::push`. Trusted: the string afterwards is the
/// old one followed by `c`, as the std documentation states.
#[verifier::external_body]
pub(crate) fn push_char(s: &mut String, c: char)
    ensures
        final(s)@ == old(s)@.push(c),
{
    s.push(c);
}

/// Appends every character of `cs` to `s`.
pub fn push_chars(s: &mut String, cs: &[char])
    ensures
        final(s)@ == old(s)@ + cs@,
{
    let mut i: usize = 0;
    while i < cs.len()
        invariant
            0 <= i <= cs@.len(),
            s@ == old(s)@ + cs@.take(i as int),
        decreases cs@.len() - i,
    {
        push_char(s, cs[i]);
        proof {
            assert(cs@.take(i + 1) =~= cs@.take(i as int).push(cs@[i as int]));
        }
        i = i + 1;
    }
    assert(cs@.take(i as int) =~= cs@);
}

/// The string made of the characters `cs`.
pub fn string_from_chars(cs: &[char]) -> (s: String)
    ensures
        s@ == cs@,
{
    let mut s = String::new();
    push_chars(&mut s, cs);
    s
}

/// Unicode's `White_Space` property, which `char::is_whitespace` and `str::trim` use.
pub open spec fn is_white_space(c: char) -> bool {
    let u = c as u32;
    ||| 0x09 <= u <= 0x0D
    ||| u == 0x20
    ||| u == 0x85
    ||| u == 0xA0
    ||| u == 0x1680
    ||| 0x2000 <= u <= 0x200A
    ||| u == 0x2028
    ||| u == 0x2029
    ||| u == 0x202F
    ||| u == 0x205F
    ||| u == 0x3000
}

/// Whether `c` is Unicode whitespace.
pub fn is_whitespace(c: char) -> (b: bool)
    ensures
        b == is_white_space(c),
{
    let u = c as u32;
    (0x09 <= u && u <= 0x0D) || u == 0x20 || u == 0x85 || u == 0xA0 || u == 0x1680 || (0x2000 <= u
        && u <= 0x200A) || u == 0x2028 || u == 0x2029 || u == 0x202F || u == 0x205F || u == 0x3000
}

/// `s` without its leading whitespace.
pub open spec fn trim_start(s: Seq<char>) -> Seq<char>
    decreases s.len(),
{
    if s.len() > 0 && is_white_space(s[0]) {
        trim_start(s.drop_first())
    } else {
        s
    }
}

/// `s` without its trailing whitespace.
pub open spec fn trim_end(s: Seq<char>) -> Seq<char>
    decreases s.len(),
{
    if s.len() > 0 && is_white_space(s.last()) {
        trim_end(s.drop_last())
    } else {
        s
    }
}

/// `s` without leading and trailing whitespace, as `str::trim` gives it.
pub open spec fn trim(s: Seq<char>) -> Seq<char> {
    trim_end(trim_start(s))
}

/// Whether `s` has no whitespace at either end.
pub open spec fn is_trimmed(s: Seq<char>) -> bool {
    s.len() > 0 ==> !is_white_space(s[0]) && !is_white_space(s.last())
}

proof fn lemma_trim_start_skip(s: Seq<char>, i: int)
    requires
        0 <= i <= s.len(),
        forall|k: int| 0 <= k < i ==> is_white_space(#[trigger] s[k]),
    ensures
        trim_start(s) == trim_start(s.skip(i)),
    decreases i,
{
    if i > 0 {
        assert(s.drop_first().skip(i - 1) =~= s.skip(i));
        lemma_trim_start_skip(s.drop_first(), i - 1);
    } else {
        assert(s.skip(0) =~= s);
    }
}

proof fn lemma_trim_end_take(s: Seq<char>, j: int)
    requires
        0 <= j <= s.len(),
        forall|k: int| j <= k < s.len() ==> is_white_space(#[trigger] s[k]),
    ensures
        trim_end(s) == trim_end(s.take(j)),
    decreases s.len() - j,
{
    if j < s.len() {
        assert(s.drop_last().take(j) =~= s.take(j));
        lemma_trim_end_take(s.drop_last(), j);
    } else {
        assert(s.take(j) =~= s);
    }
}

/// Trimming leaves a string with no whitespace at either end.
pub(crate) proof fn lemma_trim_is_trimmed(s: Seq<char>)
    ensures
        is_trimmed(trim(s)),
        trim(trim(s)) == trim(s),
    decreases s.len(),
{
    lemma_trim_start_props(s);
    lemma_trim_end_props(trim_start(s));
    let t = trim(s);
    if t.len() > 0 {
        lemma_trim_end_prefix(trim_start(s));
        assert(t[0] == trim_start(s)[0]);
    }
    lemma_trim_of_trimmed(t);
}

proof fn lemma_trim_start_props(s: Seq<char>)
    ensures
        trim_start(s).len() > 0 ==> !is_white_space(trim_start(s)[0]),
        trim_start(s).len() <= s.len(),
    decreases s.len(),
{
    if s.len() > 0 && is_white_space(s[0]) {
        lemma_trim_start_props(s.drop_first());
    }
}

proof fn lemma_trim_end_props(s: Seq<char>)
    ensures
        trim_end(s).len() > 0 ==> !is_white_space(trim_end(s).last()),
        trim_end(s).len() <= s.len(),
    decreases s.len(),
{
    if s.len() > 0 && is_white_space(s.last()) {
        lemma_trim_end_props(s.drop_last());
    }
}

proof fn lemma_trim_end_prefix(s: Seq<char>)
    ensures
        trim_end(s) == s.take(trim_end(s).len() as int),
        trim_end(s).len() <= s.len(),
    decreases s.len(),
{
    if s.len() > 0 && is_white_space(s.last()) {
        lemma_trim_end_prefix(s.drop_last());
        assert(s.drop_last().take(trim_end(s).len() as int) =~= s.take(trim_end(s).len() as int));
    } else {
        assert(s.take(s.len() as int) =~= s);
    }
}

/// A string with no whitespace at either end is its own trim.
pub(crate) proof fn lemma_trim_of_trimmed(s: Seq<char>)
    requires
        is_trimmed(s),
    ensures
        trim(s) == s,
{
}

/// `cs` without leading and trailing whitespace.
pub fn trim_chars(cs: &[char]) -> (t: Vec<char>)
    ensures
        t@ == trim(cs@),
{
    let n = cs.len();
    let mut lo: usize = 0;
    while lo < n && is_whitespace(cs[lo])
        invariant
            0 <= lo <= n,
            n == cs@.len(),
            forall|k: int| 0 <= k < lo ==> is_white_space(#[trigger] cs@[k]),
        decreases n - lo,
    {
        lo = lo + 1;
    }
    proof {
        lemma_trim_start_skip(cs@, lo as int);
    }
    let ghost rest = cs@.skip(lo as int);
    assert(trim_start(rest) == rest);
    let mut hi: usize = n;
    while hi > lo && is_whitespace(cs[hi - 1])
        invariant
            lo <= hi <= n,
            n == cs@.len(),
            rest == cs@.skip(lo as int),
            forall|k: int| hi <= k < n ==> is_white_space(#[trigger] cs@[k]),
        decreases hi,
    {
        hi = hi - 1;
    }
    proof {
        assert forall|k: int| hi - lo <= k < rest.len() implies is_white_space(#[trigger] rest[k]) by {
            assert(rest[k] == cs@[k + lo]);
        }
        lemma_trim_end_take(rest, hi - lo);
        let kept = rest.take(hi - lo);
        if kept.len() > 0 {
            assert(kept.last() == cs@[hi - 1]);
        }
    }
    let mut t: Vec<char> = Vec::new();
    let mut i: usize = lo;
    while i < hi
        invariant
            lo <= i <= hi,
            hi <= n,
            n == cs@.len(),
            t@ == cs@.subrange(lo as int, i as int),
        decreases hi - i,
    {
        t.push(cs[i]);
        proof {
            assert(cs@.subrange(lo as int, i + 1) =~= cs@.subrange(lo as int, i as int).push(cs@[i as int]));
        }
        i = i + 1;
    }
    assert(t@ =~= rest.take(hi - lo));
    t
}

/// The characters of `s` without leading and trailing whitespace (`str::trim`).
pub fn trimmed(s: &str) -> (t: Vec<char>)
    ensures
        t@ == trim(s@),
{
    let cs = chars_of(s);
    trim_chars(cs.as_slice())
}

/// `c` with ASCII upper-case letters folded to lower case.
pub open spec fn ascii_lower(c: char) -> char {
    if 'A' <= c <= 'Z' {
        ((c as u32) + 32) as char
    } else {
        c
    }
}

/// `s` with ASCII upper-case letters folded to lower case (`str::to_ascii_lowercase`).
pub open spec fn ascii_lowercase(s: Seq<char>) -> Seq<char> {
    s.map_values(|c: char| ascii_lower(c))
}

/// Folds ASCII upper-case letters to lower case.
pub fn lower_ascii(cs: &[char]) -> (t: Vec<char>)
    ensures
        t@ == ascii_lowercase(cs@),
{
    let mut t: Vec<char> = Vec::new();
    let mut i: usize = 0;
    while i < cs.len()
        invariant
            0 <= i <= cs@.len(),
            t@ == ascii_lowercase(cs@.take(i as int)),
        decreases cs@.len() - i,
    {
        let c = cs[i];
        let l = if 'A' <= c && c <= 'Z' {
            (((c as u32) + 32) as u8) as char
        } else {
            c
        };
        t.push(l);
        proof {
            assert(ascii_lowercase(cs@.take(i + 1)) =~= ascii_lowercase(cs@.take(i as int)).push(l));
        }
        i = i + 1;
    }
    assert(cs@.take(i as int) =~= cs@);
    t
}

/// Whether two character sequences are equal.
pub fn chars_eq(a: &[char], b: &[char]) -> (eq: bool)
    ensures
        eq == (a@ == b@),
{
    if a.len() != b.len() {
        return false;
    }
    let mut i: usize = 0;
    while i < a.len()
        invariant
            0 <= i <= a@.len(),
            a@.len() == b@.len(),
            forall|k: int| 0 <= k < i ==> a@[k] == b@[k],
        decreases a@.len() - i,
    {
        if a[i] != b[i] {
            return false;
        }
        i = i + 1;
    }
    assert(a@ =~= b@);
    true
}

/// Whether `cs` spells the string literal `lit`.
pub fn chars_eq_str(cs: &[char], lit: &str) -> (eq: bool)
    ensures
        eq == (cs@ == lit@),
{
    let l = chars_of(lit);
    chars_eq(cs, l.as_slice())
}

// ---------- Decimal numbers ----------

/// The ASCII digit for `d` in `0..10`.
pub open spec fn digit_char(d: int) -> char {
    (48 + d) as char
}

/// Whether `c` is an ASCII decimal digit.
pub open spec fn is_digit(c: char) -> bool {
    '0' <= c <= '9'
}

/// The value of the decimal digits `s`.
pub open spec fn digits_value(s: Seq<char>) -> int
    decreases s.len(),
{
    if s.len() == 0 {
        0
    } else {
        digits_value(s.drop_last()) * 10 + (s.last() as int - 48)
    }
}

/// `s` without a leading `+` sign.
pub open spec fn unsigned_digits(s: Seq<char>) -> Seq<char> {
    if s.len() > 0 && s[0] == '+' {
        s.drop_first()
    } else {
        s
    }
}

/// Whether every character of `s` is an ASCII digit.
pub open spec fn all_digits(s: Seq<char>) -> bool {
    forall|k: int| 0 <= k < s.len() ==> is_digit(#[trigger] s[k])
}

/// What `str::parse::<u32>` gives for `s`: an optional `+` sign followed by at least one ASCII
/// digit, with a value that fits in 32 bits.
pub open spec fn parse_u32_spec(s: Seq<char>) -> Option<u32> {
    let digits = unsigned_digits(s);
    if digits.len() > 0 && all_digits(digits) && digits_value(digits) <= u32::MAX {
        Some(digits_value(digits) as u32)
    } else {
        None
    }
}

proof fn lemma_digits_value_mono(s: Seq<char>, i: int)
    requires
        0 <= i <= s.len(),
        forall|k: int| 0 <= k < s.len() ==> is_digit(#[trigger] s[k]),
    ensures
        0 <= digits_value(s.take(i)) <= digits_value(s),
    decreases s.len(),
{
    if s.len() > 0 {
        if i < s.len() {
            assert(s.drop_last().take(i) =~= s.take(i));
            lemma_digits_value_mono(s.drop_last(), i);
        } else {
            assert(s.take(i) =~= s);
            lemma_digits_value_mono(s.drop_last(), i - 1);
        }
    } else {
        assert(s.take(i) =~= s);
    }
}

/// Parses an unsigned 32-bit decimal number as `str::parse::<u32>` does.
pub fn parse_u32(cs: &[char]) -> (r: Option<u32>)
    ensures
        r == parse_u32_spec(cs@),
{
    let n = cs.len();
    let start: usize = if n > 0 && cs[0] == '+' { 1 } else { 0 };
    let ghost digits = unsigned_digits(cs@);
    assert(digits =~= cs@.skip(start as int));
    if start == n {
        return None;
    }
    let mut v: u64 = 0;
    let mut i: usize = start;
    while i < n
        invariant
            start <= i <= n,
            n == cs@.len(),
            start < n,
            digits == cs@.skip(start as int),
            digits == unsigned_digits(cs@),
            forall|k: int| start <= k < i ==> is_digit(#[trigger] cs@[k]),
            v == digits_value(digits.take(i - start)),
            v <= u32::MAX,
        decreases n - i,
    {
        let c = cs[i];
        if !('0' <= c && c <= '9') {
            proof {
                assert(digits[i - start] == cs@[i as int]);
                assert(!is_digit(digits[i - start]));
                assert(!all_digits(digits));
                assert(parse_u32_spec(cs@) is None);
            }
            return None;
        }
        let d = (c as u32 - 48) as u64;
        proof {
            assert(digits.take(i - start + 1).drop_last() =~= digits.take(i - start));
            assert(digits.take(i - start + 1).last() == c);
        }
        v = v * 10 + d;
        if v > 0xFFFF_FFFF {
            proof {
                if all_digits(digits) {
                    lemma_digits_value_mono(digits, i - start + 1);
                    assert(digits_value(digits) > u32::MAX);
                }
                assert(parse_u32_spec(cs@) is None);
            }
            return None;
        }
        i = i + 1;
    }
    proof {
        assert(digits.take(n - start) =~= digits);
        assert forall|k: int| 0 <= k < digits.len() implies is_digit(#[trigger] digits[k]) by {
            assert(digits[k] == cs@[k + start]);
        }
        assert(all_digits(digits));
    }
    Some(v as u32)
}

/// The decimal digits of `v`, most significant first, without leading zeros.
pub open spec fn decimal(v: nat) -> Seq<char>
    decreases v,
{
    if v < 10 {
        seq![digit_char(v as int)]
    } else {
        decimal(v / 10).push(digit_char((v % 10) as int))
    }
}

/// The decimal form of `v`, with a `-` sign when negative.
pub open spec fn signed_decimal(v: int) -> Seq<char> {
    if v < 0 {
        seq!['-'] + decimal((-v) as nat)
    } else {
        decimal(v as nat)
    }
}

/// Appends the decimal digits of `v`.
pub fn push_decimal(s: &mut String, v: u32)
    ensures
        final(s)@ == old(s)@ + decimal(v as nat),
    decreases v,
{
    if v >= 10 {
        push_decimal(s, v / 10);
    }
    let d = (48 + v % 10) as u8 as char;
    push_char(s, d);
    proof {
        if v < 10 {
            assert(decimal(v as nat) =~= seq![d]);
        } else {
            assert(decimal(v as nat) == decimal((v / 10) as nat).push(d));
        }
    }
}

/// Appends the decimal form of `v`, signed.
pub fn push_signed_decimal(s: &mut String, v: i32)
    ensures
        final(s)@ == old(s)@ + signed_decimal(v as int),
{
    if v < 0 {
        push_char(s, '-');
        let m = (-(v as i64)) as u32;
        push_decimal(s, m);
    } else {
        push_decimal(s, v as u32);
    }
}

/// How a `bool` is written.
pub open spec fn bool_text(b: bool) -> Seq<char> {
    if b {
        "true"@
    } else {
        "false"@
    }
}


// ---------- Facts about trimming and decimals ----------

proof fn lemma_trim_end_cons(c: char, t: Seq<char>)
    ensures
        trim_end(seq![c] + t) == if trim_end(t).len() > 0 {
            seq![c] + trim_end(t)
        } else {
            trim_end(seq![c])
        },
    decreases t.len(),
{
    let s = seq![c] + t;
    if t.len() == 0 {
        assert(s =~= seq![c]);
    } else if is_white_space(t.last()) {
        assert(s.drop_last() =~= seq![c] + t.drop_last());
        lemma_trim_end_cons(c, t.drop_last());
    } else {
        assert(s.last() == t.last());
    }
}

/// Trimming the end keeps a non-blank first character.
proof fn lemma_trim_end_first(s: Seq<char>)
    requires
        s.len() > 0,
        !is_white_space(s[0]),
    ensures
        trim_end(s).len() > 0,
        trim_end(s)[0] == s[0],
    decreases s.len(),
{
    if is_white_space(s.last()) {
        lemma_trim_end_first(s.drop_last());
    }
}

/// Trimming the start and trimming the end commute.
proof fn lemma_trim_commute(s: Seq<char>)
    ensures
        trim_start(trim_end(s)) == trim_end(trim_start(s)),
    decreases s.len(),
{
    if s.len() > 0 {
        if is_white_space(s[0]) {
            let t = s.drop_first();
            lemma_trim_commute(t);
            assert(s =~= seq![s[0]] + t);
            lemma_trim_end_cons(s[0], t);
            if trim_end(t).len() > 0 {
                let x = seq![s[0]] + trim_end(t);
                assert(x.drop_first() =~= trim_end(t));
            } else {
                assert(trim_end(seq![s[0]]) =~= trim_end(seq![s[0]].drop_last())) by {
                    assert(seq![s[0]].last() == s[0]);
                }
                assert(seq![s[0]].drop_last() =~= Seq::<char>::empty());
            }
        } else {
            lemma_trim_end_first(s);
        }
    }
}

proof fn lemma_trim_end_idem(s: Seq<char>)
    ensures
        trim_end(trim_end(s)) == trim_end(s),
    decreases s.len(),
{
    if s.len() > 0 && is_white_space(s.last()) {
        lemma_trim_end_idem(s.drop_last());
    }
}

/// Trimming after trimming the end is trimming.
pub(crate) proof fn lemma_trim_after_trim_end(s: Seq<char>)
    ensures
        trim(trim_end(s)) == trim(s),
{
    lemma_trim_commute(s);
    lemma_trim_commute(trim_end(s));
    lemma_trim_end_idem(s);
    lemma_trim_end_idem(trim_start(s));
}

/// A prefix ending in a non-blank character survives trimming the end.
pub(crate) proof fn lemma_trim_end_append(p: Seq<char>, v: Seq<char>)
    requires
        p.len() > 0,
        !is_white_space(p.last()),
    ensures
        trim_end(p + v) == p + trim_end(v),
    decreases v.len(),
{
    if v.len() == 0 {
        assert(p + v =~= p);
        assert(p + trim_end(v) =~= p);
    } else if is_white_space(v.last()) {
        assert((p + v).drop_last() =~= p + v.drop_last());
        lemma_trim_end_append(p, v.drop_last());
    } else {
        assert((p + v).last() == v.last());
    }
}

/// The decimal form of a number is non-empty, made of digits, and has that value.
pub(crate) proof fn lemma_decimal(n: nat)
    ensures
        decimal(n).len() > 0,
        all_digits(decimal(n)),
        digits_value(decimal(n)) == n,
    decreases n,
{
    if n >= 10 {
        lemma_decimal(n / 10);
        let d = decimal(n / 10);
        let s = d.push(digit_char((n % 10) as int));
        assert(s.drop_last() =~= d);
        assert(digit_char((n % 10) as int) as int == 48 + n % 10);
        assert(s.last() as int - 48 == n % 10);
        assert(decimal(n) == s);
        assert(digits_value(s) == digits_value(d) * 10 + (s.last() as int - 48));
        assert((n / 10) * 10 + n % 10 == n);
        assert forall|k: int| 0 <= k < s.len() implies is_digit(#[trigger] s[k]) by {
            if k < d.len() {
                assert(s[k] == d[k]);
            }
        }
    } else {
        let s = seq![digit_char(n as int)];
        assert(s.drop_last() =~= Seq::<char>::empty());
        assert(digit_char(n as int) as int == 48 + n);
        assert(decimal(n) == s);
        assert(digits_value(s) == digits_value(s.drop_last()) * 10 + (s.last() as int - 48));
        assert(digits_value(Seq::<char>::empty()) == 0);
    }
}

/// Parsing the decimal form of a 32-bit number gives the number back.
pub(crate) proof fn lemma_parse_decimal(n: u32)
    ensures
        parse_u32_spec(decimal(n as nat)) == Some(n),
        is_trimmed(decimal(n as nat)),
{
    lemma_decimal(n as nat);
    let d = decimal(n as nat);
    assert(is_digit(d[0]));
    assert(unsigned_digits(d) == d);
    assert(is_digit(d.last()));
}

/// The signed decimal form of a number has no blank at either end.
pub(crate) proof fn lemma_signed_decimal_trimmed(v: int)
    ensures
        is_trimmed(signed_decimal(v)),
{
    if v < 0 {
        lemma_decimal((-v) as nat);
        let d = decimal((-v) as nat);
        assert(is_digit(d.last()));
        assert((seq!['-'] + d).last() == d.last());
    } else {
        lemma_decimal(v as nat);
        let d = decimal(v as nat);
        assert(is_digit(d[0]) && is_digit(d.last()));
    }
}

} // verus!
