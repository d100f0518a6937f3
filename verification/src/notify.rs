//! Completion notification text: human-readable sizes and the AppleScript
//! that announces a received file.
//!
//! Filenames come from the **sender** and are therefore untrusted: they are
//! escaped before they are put into an AppleScript string literal.
use crate::text::decimal;
use crate::text::digit_char;
use crate::text::push_char;
use crate::text::push_decimal;
use crate::text::push_str;
use vstd::prelude::*;
use vstd::string::StrSliceExecFns;

verus! {

// ─── AppleScript string literals ────────────────────────────────────────────

/// How one character is written inside an AppleScript string literal:
/// backslash and quote are escaped, line breaks become spaces.
pub open spec fn escape_char(c: char) -> Seq<char> {
    if c == '\\' {
        seq!['\\', '\\']
    } else if c == '"' {
        seq!['\\', '"']
    } else if c == '\n' || c == '\r' {
        seq![' ']
    } else {
        seq![c]
    }
}

/// The escaped body of a literal for `s`.
pub open spec fn escaped(s: Seq<char>) -> Seq<char>
    decreases s.len(),
{
    if s.len() == 0 {
        Seq::empty()
    } else {
        escape_char(s[0]) + escaped(s.drop_first())
    }
}

/// The AppleScript string literal for `s`.
pub open spec fn spec_applescript_literal(s: Seq<char>) -> Seq<char> {
    seq!['"'] + escaped(s) + seq!['"']
}

/// `s` with line breaks replaced by spaces.
pub open spec fn sanitized(s: Seq<char>) -> Seq<char> {
    s.map_values(|c: char| if c == '\n' || c == '\r' { ' ' } else { c })
}

/// How AppleScript reads the inside of a string literal (the text after
/// the opening quote): a backslash takes the next character literally, an
/// unescaped quote closes the literal, and a raw line break is an error.
/// Yields the string's value and the position of the closing quote.
pub open spec fn read_literal_body(t: Seq<char>) -> Option<(Seq<char>, nat)>
    decreases t.len(),
{
    if t.len() == 0 {
        None
    } else if t[0] == '"' {
        Some((Seq::empty(), 0))
    } else if t[0] == '\n' || t[0] == '\r' {
        None
    } else if t[0] == '\\' {
        if t.len() < 2 {
            None
        } else {
            match read_literal_body(t.skip(2)) {
                Some((v, n)) => Some((seq![t[1]] + v, n + 2)),
                None => None,
            }
        }
    } else {
        match read_literal_body(t.skip(1)) {
            Some((v, n)) => Some((seq![t[0]] + v, n + 1)),
            None => None,
        }
    }
}

proof fn lemma_read_escaped(s: Seq<char>, rest: Seq<char>)
    ensures
        read_literal_body(escaped(s) + seq!['"'] + rest) == Some((sanitized(s), escaped(s).len())),
    decreases s.len(),
{
    if s.len() == 0 {
        assert(escaped(s) + seq!['"'] + rest =~= seq!['"'] + rest);
        assert(sanitized(s) =~= Seq::<char>::empty());
    } else {
        let c = s[0];
        let tail = s.drop_first();
        lemma_read_escaped(tail, rest);
        let t = escaped(s) + seq!['"'] + rest;
        let e = escape_char(c);
        assert(t =~= e + (escaped(tail) + seq!['"'] + rest));
        assert(t.skip(e.len() as int) =~= escaped(tail) + seq!['"'] + rest);
        assert(sanitized(s) =~= seq![if c == '\n' || c == '\r' {
            ' '
        } else {
            c
        }] + sanitized(tail));
    }
}

/// Injection safety: AppleScript reads the literal made for any string
/// back as one string literal spanning the whole text, whose value is the
/// string with line breaks replaced by spaces. A hostile filename cannot
/// close the literal early or start a new statement.
pub proof fn lemma_literal_reads_back(s: Seq<char>)
    ensures
        spec_applescript_literal(s)[0] == '"',
        read_literal_body(spec_applescript_literal(s).drop_first()) == Some(
            (sanitized(s), (spec_applescript_literal(s).len() - 2) as nat),
        ),
{
    lemma_read_escaped(s, Seq::empty());
    assert(spec_applescript_literal(s).drop_first() =~= escaped(s) + seq!['"'] + Seq::<
        char,
    >::empty());
}

proof fn lemma_escaped_push(s: Seq<char>, c: char)
    ensures
        escaped(s.push(c)) == escaped(s) + escape_char(c),
    decreases s.len(),
{
    if s.len() == 0 {
        assert(s.push(c).drop_first() =~= Seq::<char>::empty());
        assert(s.push(c)[0] == c);
        assert(escaped(Seq::<char>::empty()) =~= Seq::<char>::empty());
        assert(escaped(s) =~= Seq::<char>::empty());
        assert(escaped(s.push(c)) =~= escape_char(c) + escaped(Seq::<char>::empty()));
        assert(escaped(s.push(c)) =~= escaped(s) + escape_char(c));
    } else {
        lemma_escaped_push(s.drop_first(), c);
        assert(s.push(c).drop_first() =~= s.drop_first().push(c));
        assert(escaped(s.push(c)) =~= escaped(s) + escape_char(c));
    }
}

/// Escape a string for an AppleScript string literal (quotes included).
/// Backslashes and quotes are escaped; newlines would end the statement
/// early, so they become spaces.
pub fn applescript_literal(value: &str) -> (r: String)
    ensures
        r@ == spec_applescript_literal(value@),
{
    let mut out = String::new();
    push_char(&mut out, '"');
    let n = value.unicode_len();
    let mut i: usize = 0;
    while i < n
        invariant
            n == value@.len(),
            i <= n,
            out@ == seq!['"'] + escaped(value@.take(i as int)),
        decreases n - i,
    {
        let ch = value.get_char(i);
        proof {
            assert(value@.take(i + 1) =~= value@.take(i as int).push(ch));
            lemma_escaped_push(value@.take(i as int), ch);
        }
        if ch == '\\' {
            push_char(&mut out, '\\');
            push_char(&mut out, '\\');
        } else if ch == '"' {
            push_char(&mut out, '\\');
            push_char(&mut out, '"');
        } else if ch == '\n' || ch == '\r' {
            push_char(&mut out, ' ');
        } else {
            push_char(&mut out, ch);
        }
        assert(out@ =~= seq!['"'] + escaped(value@.take(i + 1)));
        i = i + 1;
    }
    push_char(&mut out, '"');
    assert(value@.take(n as int) =~= value@);
    out
}

// ─── Human-readable sizes ───────────────────────────────────────────────────

pub open spec fn two_pow(s: nat) -> nat
    decreases s,
{
    if s == 0 {
        1
    } else {
        2 * two_pow((s - 1) as nat)
    }
}

/// Halvings that bring `n` below 2^53, the precision of an `f64`.
pub open spec fn f64_shift(n: nat) -> nat
    decreases n,
{
    if n < 0x20_0000_0000_0000 {
        0
    } else {
        1 + f64_shift(n / 2)
    }
}

/// The value of `n as f64`: `n` rounded to 53 significant bits, ties to even.
pub open spec fn f64_value(n: nat) -> nat {
    let p = two_pow(f64_shift(n));
    let q = n / p;
    let r = n % p;
    if r * 2 > p || (r * 2 == p && q % 2 == 1) {
        (q + 1) * p
    } else {
        q * p
    }
}

/// `v / unit` in tenths, rounded to nearest with ties to even.
pub open spec fn round_tenths(v: nat, unit: nat) -> nat {
    let t = v * 10 / unit;
    let rem = v * 10 % unit;
    if rem * 2 > unit || (rem * 2 == unit && t % 2 == 1) {
        t + 1
    } else {
        t
    }
}

/// A count of tenths written with one decimal place.
pub open spec fn one_decimal(t: nat) -> Seq<char> {
    decimal(t / 10) + seq!['.', digit_char(t % 10)]
}

pub const KIB: u128 = 1024;

pub const MIB: u128 = 1024 * 1024;

pub const GIB: u128 = 1024 * 1024 * 1024;

/// `1.4 MB` / `812.0 KB` / `313 B`: the size as an `f64`, in the largest
/// binary unit it reaches, with one decimal (rounded to nearest, ties to
/// even), or the plain byte count below 1 KB.
pub open spec fn spec_human_bytes(bytes: nat) -> Seq<char> {
    let v = f64_value(bytes);
    if v >= GIB {
        one_decimal(round_tenths(v, GIB as nat)) + " GB"@
    } else if v >= MIB {
        one_decimal(round_tenths(v, MIB as nat)) + " MB"@
    } else if v >= KIB {
        one_decimal(round_tenths(v, KIB as nat)) + " KB"@
    } else {
        decimal(bytes) + " B"@
    }
}

proof fn lemma_two_pow_add(a: nat, b: nat)
    ensures
        two_pow(a + b) == two_pow(a) * two_pow(b),
    decreases a,
{
    if a == 0 {
        assert(two_pow(0) == 1);
        assert(a + b == b);
    } else {
        let a1 = (a - 1) as nat;
        lemma_two_pow_add(a1, b);
        let x = two_pow(a1);
        let y = two_pow(b);
        assert(a1 + b + 1 == a + b);
        assert(two_pow(a + b) == 2 * two_pow(a1 + b));
        assert(two_pow(a) == 2 * x);
        assert((2 * x) * y == 2 * (x * y)) by (nonlinear_arith);
    }
}

proof fn lemma_two_pow_mono(a: nat, b: nat)
    requires
        a <= b,
    ensures
        two_pow(a) <= two_pow(b),
    decreases b,
{
    if a < b {
        lemma_two_pow_mono(a, (b - 1) as nat);
    }
}

proof fn lemma_two_pow_values()
    ensures
        two_pow(13) == 8192,
        two_pow(64) == 0x1_0000_0000_0000_0000,
{
    reveal_with_fuel(two_pow, 17);
    assert(two_pow(13) == 8192);
    assert(two_pow(16) == 0x1_0000);
    lemma_two_pow_add(16, 16);
    assert(two_pow(32) == 0x1_0000_0000);
    lemma_two_pow_add(32, 32);
    assert(two_pow(64) == 0x1_0000_0000 * 0x1_0000_0000);
}

/// `n as f64`, as an exact integer.
fn f64_of(n: u64) -> (v: u128)
    ensures
        v == f64_value(n as nat),
        v <= 0x1_0000_0000_0000_0000,
{
    let mut m: u64 = n;
    let mut s: u32 = 0;
    let mut p: u128 = 1;
    while m >= 0x20_0000_0000_0000
        invariant
            f64_shift(n as nat) == s + f64_shift(m as nat),
            p == two_pow(s as nat),
            p >= 1,
            m == n as nat / p as nat,
            p * m <= n,
            p < 0x1000,
            p >= s + 1,
            s < 0x1000,
        decreases m,
    {
        proof {
            vstd::arithmetic::div_mod::lemma_div_denominator(n as int, p as int, 2);
            assert(p * 0x20_0000_0000_0000 <= p * m) by (nonlinear_arith)
                requires
                    m >= 0x20_0000_0000_0000,
                    p >= 1,
            ;
            assert(p < 0x800) by (nonlinear_arith)
                requires
                    p * 0x20_0000_0000_0000 < 0x1_0000_0000_0000_0000,
            ;
            vstd::arithmetic::div_mod::lemma_fundamental_div_mod(n as int, p as int * 2);
            vstd::arithmetic::div_mod::lemma_mod_pos_bound(n as int, p as int * 2);
            assert((p * 2) * ((n as int) / (p as int * 2)) <= n);
            lemma_two_pow_mono(s as nat, 4095);
        }
        m = m / 2;
        s = s + 1;
        p = p * 2;
    }
    let q = (n as u128) / p;
    let r = (n as u128) % p;
    proof {
        lemma_two_pow_values();
        if s >= 13 {
            lemma_two_pow_mono(13, s as nat);
        }
        assert(s <= 12);
        let k = two_pow((64 - s) as nat);
        lemma_two_pow_add(s as nat, (64 - s) as nat);
        assert(p * k == 0x1_0000_0000_0000_0000);
        assert(q == m);
        assert(q + 1 <= k) by (nonlinear_arith)
            requires
                p * q <= n,
                n < 0x1_0000_0000_0000_0000,
                p * k == 0x1_0000_0000_0000_0000,
                p >= 1,
        ;
        assert(p * (q + 1) <= 0x1_0000_0000_0000_0000) by (nonlinear_arith)
            requires
                q + 1 <= k,
                p * k == 0x1_0000_0000_0000_0000,
                p >= 1,
        ;
        assert(p * q <= p * (q + 1)) by (nonlinear_arith)
            requires
                p >= 1,
        ;
        assert((q + 1) * p == p * (q + 1) && q * p == p * q) by (nonlinear_arith);
        vstd::arithmetic::div_mod::lemma_mod_pos_bound(n as int, p as int);
    }
    if r * 2 > p || (r * 2 == p && q % 2 == 1) {
        (q + 1) * p
    } else {
        q * p
    }
}

/// `v / unit` in tenths, rounded half to even.
fn tenths(v: u128, unit: u128) -> (t: u64)
    requires
        1024 <= unit <= GIB,
        v <= 0x1_0000_0000_0000_0000,
    ensures
        t == round_tenths(v as nat, unit as nat),
{
    let num = v * 10;
    let t = num / unit;
    let rem = num % unit;
    proof {
        vstd::arithmetic::div_mod::lemma_div_is_ordered(num as int, 0xa_0000_0000_0000_0000, unit as int);
        vstd::arithmetic::div_mod::lemma_div_is_ordered_by_denominator(0xa_0000_0000_0000_0000, 1024, unit as int);
        assert(0xa_0000_0000_0000_0000int / 1024 < 0xffff_ffff_ffff_fff0);
    }
    if rem * 2 > unit || (rem * 2 == unit && t % 2 == 1) {
        (t + 1) as u64
    } else {
        t as u64
    }
}

/// Appends a count of tenths with one decimal place.
fn push_one_decimal(s: &mut String, t: u64)
    ensures
        final(s)@ == old(s)@ + one_decimal(t as nat),
{
    push_decimal(s, t / 10);
    push_char(s, '.');
    let d = t % 10;
    push_char(s, ((d as u8) + 48) as char);
}

/// `1.4 MB` / `812.0 KB` / `313 B`
pub fn human_bytes(bytes: usize) -> (r: String)
    ensures
        r@ == spec_human_bytes(bytes as nat),
{
    let v = f64_of(bytes as u64);
    let mut out = String::new();
    if v >= GIB {
        push_one_decimal(&mut out, tenths(v, GIB));
        push_str(&mut out, " GB");
    } else if v >= MIB {
        push_one_decimal(&mut out, tenths(v, MIB));
        push_str(&mut out, " MB");
    } else if v >= KIB {
        push_one_decimal(&mut out, tenths(v, KIB));
        push_str(&mut out, " KB");
    } else {
        push_decimal(&mut out, bytes as u64);
        push_str(&mut out, " B");
    }
    out
}

// ─── The notification ───────────────────────────────────────────────────────

pub open spec fn notification_title() -> Seq<char> {
    "RaptorQR — 文件已接收"@
}

/// `{filename} · {size} → {path}`
pub open spec fn spec_notification_body(filename: Seq<char>, path: Seq<char>, bytes: nat) -> Seq<
    char,
> {
    filename + " · "@ + spec_human_bytes(bytes) + " → "@ + path
}

/// The `osascript` program that shows the notification for a received file.
pub open spec fn spec_notification_script(filename: Seq<char>, path: Seq<char>, bytes: nat) -> Seq<
    char,
> {
    "display notification "@ + spec_applescript_literal(
        spec_notification_body(filename, path, bytes),
    ) + " with title "@ + spec_applescript_literal(notification_title())
        + " sound name \"Glass\""@
}

/// The notification's body text.
pub fn notification_body(filename: &str, path: &str, bytes: usize) -> (r: String)
    ensures
        r@ == spec_notification_body(filename@, path@, bytes as nat),
{
    let mut out = String::new();
    push_str(&mut out, filename);
    push_str(&mut out, " · ");
    let size = human_bytes(bytes);
    push_str(&mut out, size.as_str());
    push_str(&mut out, " → ");
    push_str(&mut out, path);
    out
}

/// The AppleScript that announces a received file, with every untrusted
/// part inside an escaped string literal.
pub fn notification_script(filename: &str, path: &str, bytes: usize) -> (r: String)
    ensures
        r@ == spec_notification_script(filename@, path@, bytes as nat),
{
    let body = notification_body(filename, path, bytes);
    let mut out = String::new();
    push_str(&mut out, "display notification ");
    let body_lit = applescript_literal(body.as_str());
    push_str(&mut out, body_lit.as_str());
    push_str(&mut out, " with title ");
    let title_lit = applescript_literal("RaptorQR — 文件已接收");
    push_str(&mut out, title_lit.as_str());
    push_str(&mut out, " sound name \"Glass\"");
    out
}

} // verus!
