//! Command-line values of the headless receiver: the `--region x,y,w,h` and
//! `--display N` syntax, and finding a flag's value among the arguments.
use crate::capture::ScreenRect;
use crate::console::Args;
use crate::transfer::path_text;
use crate::text::decimal;
use crate::text::digit_char;
use crate::text::lemma_decimal_digits;
use std::path::PathBuf;
use vstd::prelude::*;

verus! {

// ─── Characters and trimming ────────────────────────────────────────────────

/// Unicode `White_Space`: the characters `char::is_whitespace` accepts and
/// `str::trim` removes.
pub open spec fn is_white(c: char) -> bool {
    let u = c as u32;
    ||| 0x09 <= u <= 0x0d
    ||| u == 0x20 || u == 0x85 || u == 0xa0 || u == 0x1680
    ||| 0x2000 <= u <= 0x200a
    ||| u == 0x2028 || u == 0x2029 || u == 0x202f || u == 0x205f || u == 0x3000
}

pub open spec fn trim_start(s: Seq<char>) -> Seq<char>
    decreases s.len(),
{
    if s.len() > 0 && is_white(s[0]) {
        trim_start(s.drop_first())
    } else {
        s
    }
}

pub open spec fn trim_end(s: Seq<char>) -> Seq<char>
    decreases s.len(),
{
    if s.len() > 0 && is_white(s.last()) {
        trim_end(s.drop_last())
    } else {
        s
    }
}

/// `str::trim`: white space removed at both ends.
pub open spec fn trimmed(s: Seq<char>) -> Seq<char> {
    trim_end(trim_start(s))
}

fn white(c: char) -> (b: bool)
    ensures
        b == is_white(c),
{
    let u = c as u32;
    (0x09 <= u && u <= 0x0d) || u == 0x20 || u == 0x85 || u == 0xa0 || u == 0x1680 || (0x2000
        <= u && u <= 0x200a) || u == 0x2028 || u == 0x2029 || u == 0x202f || u == 0x205f || u
        == 0x3000
}

/// The bounds of `chars[lo..hi]` with white space trimmed at both ends.
fn trim_bounds(chars: &Vec<char>, lo: usize, hi: usize) -> (r: (usize, usize))
    requires
        lo <= hi <= chars@.len(),
    ensures
        lo <= r.0 <= r.1 <= hi,
        chars@.subrange(r.0 as int, r.1 as int) == trimmed(chars@.subrange(lo as int, hi as int)),
{
    let ghost s = chars@.subrange(lo as int, hi as int);
    let mut a = lo;
    while a < hi && white(chars[a])
        invariant
            lo <= a <= hi <= chars@.len(),
            trim_start(s) == trim_start(chars@.subrange(a as int, hi as int)),
        decreases hi - a,
    {
        proof {
            let t = chars@.subrange(a as int, hi as int);
            assert(t.drop_first() =~= chars@.subrange(a + 1, hi as int));
        }
        a = a + 1;
    }
    let mut b = hi;
    while b > a && white(chars[b - 1])
        invariant
            lo <= a <= b <= hi <= chars@.len(),
            trim_end(chars@.subrange(a as int, hi as int)) == trim_end(
                chars@.subrange(a as int, b as int),
            ),
        decreases b - a,
    {
        proof {
            let t = chars@.subrange(a as int, b as int);
            assert(t.drop_last() =~= chars@.subrange(a as int, b - 1));
        }
        b = b - 1;
    }
    (a, b)
}

// ─── Unsigned decimal numbers ───────────────────────────────────────────────

pub open spec fn is_digit(c: char) -> bool {
    48 <= (c as u32) <= 57
}

pub open spec fn all_digits(s: Seq<char>) -> bool {
    forall|i: int| 0 <= i < s.len() ==> #[trigger] is_digit(s[i])
}

/// The number that the decimal digits `s` spell.
pub open spec fn digits_value(s: Seq<char>) -> nat
    decreases s.len(),
{
    if s.len() == 0 {
        0
    } else {
        digits_value(s.drop_last()) * 10 + ((s.last() as u32) - 48) as nat
    }
}

/// `str::parse` into an unsigned integer type whose largest value is `max`:
/// an optional `+`, then one or more ASCII digits whose value is at most
/// `max`; anything else (a sign alone, white space, other characters) fails.
pub open spec fn spec_parse_unsigned(s: Seq<char>, max: nat) -> Option<nat> {
    let digits = if s.len() > 0 && s[0] == '+' {
        s.drop_first()
    } else {
        s
    };
    if digits.len() > 0 && all_digits(digits) && digits_value(digits) <= max {
        Some(digits_value(digits))
    } else {
        None
    }
}

/// A longer run of digits is worth at least as much as its prefix.
proof fn lemma_digits_value_prefix(s: Seq<char>, k: int)
    requires
        all_digits(s),
        0 <= k <= s.len(),
    ensures
        digits_value(s.subrange(0, k)) <= digits_value(s),
    decreases s.len(),
{
    if k == s.len() {
        assert(s.subrange(0, k) =~= s);
    } else {
        let t = s.drop_last();
        assert(all_digits(t)) by {
            assert forall|i: int| 0 <= i < t.len() implies #[trigger] is_digit(t[i]) by {
                assert(is_digit(s[i]));
            }
        }
        lemma_digits_value_prefix(t, k);
        assert(t.subrange(0, k) =~= s.subrange(0, k));
    }
}

/// Parses `chars[lo..hi]` as an unsigned decimal number of at most `max`.
fn parse_unsigned(chars: &Vec<char>, lo: usize, hi: usize, max: u64) -> (r: Option<u64>)
    requires
        lo <= hi <= chars@.len(),
    ensures
        match spec_parse_unsigned(chars@.subrange(lo as int, hi as int), max as nat) {
            Some(v) => r == Some(v as u64),
            None => r is None,
        },
{
    let ghost s = chars@.subrange(lo as int, hi as int);
    let mut i = lo;
    if i < hi && chars[i] == '+' {
        i = i + 1;
    }
    if i == hi {
        return None;
    }
    let start = i;
    let ghost digits = chars@.subrange(start as int, hi as int);
    proof {
        if lo < hi && chars@[lo as int] == '+' {
            assert(s.drop_first() =~= digits);
        } else {
            assert(s =~= digits);
        }
        assert(digits.len() > 0);
    }
    let mut val: u64 = 0;
    while i < hi
        invariant
            lo <= start <= i <= hi <= chars@.len(),
            start < hi,
            digits == chars@.subrange(start as int, hi as int),
            spec_parse_unsigned(chars@.subrange(lo as int, hi as int), max as nat) == (if all_digits(
                digits,
            ) && digits_value(digits) <= max {
                Some(digits_value(digits))
            } else {
                None::<nat>
            }),
            all_digits(chars@.subrange(start as int, i as int)),
            val as nat == digits_value(chars@.subrange(start as int, i as int)),
            val <= max,
        decreases hi - i,
    {
        let c = chars[i];
        let u = c as u32;
        if u < 48 || u > 57 {
            proof {
                assert(digits[i - start] == c);
                assert(!is_digit(digits[i - start]));
            }
            return None;
        }
        let d = (u - 48) as u64;
        let ghost next = chars@.subrange(start as int, i + 1);
        proof {
            assert(next.drop_last() =~= chars@.subrange(start as int, i as int));
            assert(all_digits(next)) by {
                assert forall|j: int| 0 <= j < next.len() implies #[trigger] is_digit(next[j]) by {
                    if j < next.len() - 1 {
                        assert(next[j] == chars@.subrange(start as int, i as int)[j]);
                    }
                }
            }
            assert(digits_value(next) == val * 10 + d);
        }
        if d > max || val > (max - d) / 10 {
            proof {
                assert(val * 10 + d > max) by (nonlinear_arith)
                    requires
                        d > max || val > (max - d) / 10,
                        d <= max ==> max - d >= 0,
                ;
                if all_digits(digits) {
                    lemma_digits_value_prefix(digits, i + 1 - start);
                    assert(digits.subrange(0, i + 1 - start) =~= next);
                }
            }
            return None;
        }
        proof {
            assert(val * 10 + d <= max) by (nonlinear_arith)
                requires
                    d <= max,
                    val <= (max - d) / 10,
            ;
        }
        val = val * 10 + d;
        i = i + 1;
    }
    proof {
        assert(chars@.subrange(start as int, i as int) =~= digits);
    }
    Some(val)
}

// ─── `--region x,y,w,h` and `--display N` ─────────────────────────────────────

/// The characters of `s`, one by one.
fn chars_of(s: &str) -> (v: Vec<char>)
    ensures
        v@ == s@,
{
    let n = s.unicode_len();
    let mut v: Vec<char> = Vec::new();
    let mut i: usize = 0;
    while i < n
        invariant
            n == s@.len(),
            i <= n,
            v@ == s@.take(i as int),
        decreases n - i,
    {
        v.push(s.get_char(i));
        assert(v@ =~= s@.take(i + 1));
        i = i + 1;
    }
    assert(v@ =~= s@);
    v
}

/// `str::split(',')`: the pieces between commas, empty ones included (an
/// empty string is one empty piece).
pub open spec fn comma_pieces(s: Seq<char>) -> Seq<Seq<char>>
    decreases s.len(),
{
    if s.len() == 0 {
        seq![Seq::empty()]
    } else {
        let init = comma_pieces(s.drop_last());
        if s.last() == ',' {
            init.push(Seq::empty())
        } else {
            init.update(init.len() - 1, init.last().push(s.last()))
        }
    }
}

/// The pieces that parse as `u32` once trimmed, by value and in order; the
/// others are skipped.
pub open spec fn parsed_values(pieces: Seq<Seq<char>>) -> Seq<nat>
    decreases pieces.len(),
{
    if pieces.len() == 0 {
        seq![]
    } else {
        let rest = parsed_values(pieces.drop_last());
        match spec_parse_unsigned(trimmed(pieces.last()), u32::MAX as nat) {
            Some(v) => rest.push(v),
            None => rest,
        }
    }
}

/// `--region x,y,w,h`: exactly four of the comma-separated values parse.
pub open spec fn spec_parse_region(s: Seq<char>) -> Option<ScreenRect> {
    let v = parsed_values(comma_pieces(s));
    if v.len() == 4 {
        Some(ScreenRect { x: v[0] as u32, y: v[1] as u32, w: v[2] as u32, h: v[3] as u32 })
    } else {
        None
    }
}

pub open spec fn as_nats(v: Seq<u32>) -> Seq<nat> {
    v.map_values(|x: u32| x as nat)
}

/// Parses the value of `--region`; `None` when it does not hold exactly
/// four numbers.
pub fn parse_region(value: &str) -> (r: Option<ScreenRect>)
    ensures
        r == spec_parse_region(value@),
{
    let chars = chars_of(value);
    let n = chars.len();
    let mut vals: Vec<u32> = Vec::new();
    let mut start: usize = 0;
    let mut i: usize = 0;
    let ghost mut done: Seq<Seq<char>> = seq![];
    proof {
        assert(chars@.subrange(0, 0) =~= Seq::<char>::empty());
        assert(done.push(chars@.subrange(0, 0)) =~= seq![Seq::<char>::empty()]);
    }
    while i < n
        invariant
            n == chars@.len(),
            start <= i <= n,
            comma_pieces(chars@.subrange(0, i as int)) == done.push(
                chars@.subrange(start as int, i as int),
            ),
            as_nats(vals@) == parsed_values(done),
        decreases n - i,
    {
        let ghost prefix = chars@.subrange(0, i + 1);
        proof {
            assert(prefix.drop_last() =~= chars@.subrange(0, i as int));
        }
        if chars[i] == ',' {
            let (a, b) = trim_bounds(&chars, start, i);
            let ghost piece = chars@.subrange(start as int, i as int);
            let ghost before = vals@;
            match parse_unsigned(&chars, a, b, 0xffff_ffffu64) {
                Some(v) => {
                    vals.push(v as u32);
                    assert(as_nats(vals@) =~= as_nats(before).push(v as nat));
                },
                None => {},
            }
            proof {
                let nd = done.push(piece);
                assert(nd.drop_last() =~= done);
                done = nd;
                assert(chars@.subrange((i + 1) as int, (i + 1) as int) =~= Seq::<char>::empty());
            }
            start = i + 1;
        } else {
            proof {
                assert(chars@.subrange(start as int, i as int).push(chars@[i as int])
                    =~= chars@.subrange(start as int, i + 1));
                assert(done.push(chars@.subrange(start as int, i as int)).update(
                    done.len() as int,
                    chars@.subrange(start as int, i as int).push(chars@[i as int]),
                ) =~= done.push(chars@.subrange(start as int, i + 1)));
            }
        }
        i = i + 1;
    }
    let (a, b) = trim_bounds(&chars, start, n);
    let ghost piece = chars@.subrange(start as int, n as int);
    let ghost before = vals@;
    match parse_unsigned(&chars, a, b, 0xffff_ffffu64) {
        Some(v) => {
            vals.push(v as u32);
            assert(as_nats(vals@) =~= as_nats(before).push(v as nat));
        },
        None => {},
    }
    proof {
        let nd = done.push(piece);
        assert(nd.drop_last() =~= done);
        done = nd;
        assert(chars@.subrange(0, n as int) =~= value@);
    }
    if vals.len() == 4 {
        proof {
            assert(as_nats(vals@)[0] == vals@[0] as nat);
            assert(as_nats(vals@)[1] == vals@[1] as nat);
            assert(as_nats(vals@)[2] == vals@[2] as nat);
            assert(as_nats(vals@)[3] == vals@[3] as nat);
        }
        Some(ScreenRect { x: vals[0], y: vals[1], w: vals[2], h: vals[3] })
    } else {
        None
    }
}

/// A rectangle written as the value of `--region`: `x,y,w,h`.
pub open spec fn region_text(r: ScreenRect) -> Seq<char> {
    decimal(r.x as nat) + seq![','] + decimal(r.y as nat) + seq![','] + decimal(r.w as nat) + seq![
        ',',
    ] + decimal(r.h as nat)
}

proof fn lemma_decimal_value(n: nat)
    ensures
        all_digits(decimal(n)),
        digits_value(decimal(n)) == n,
    decreases n,
{
    lemma_decimal_digits(n);
    if n >= 10 {
        lemma_decimal_value(n / 10);
        let d = decimal(n);
        assert(d.drop_last() =~= decimal(n / 10));
        assert(d.last() == digit_char(n % 10));
        assert(digit_char(n % 10) as u32 == n % 10 + 48);
        assert(digits_value(d) == digits_value(decimal(n / 10)) * 10 + n % 10);
    } else {
        assert(decimal(n).drop_last() =~= Seq::<char>::empty());
        assert(digit_char(n) as u32 == n + 48);
        assert(digits_value(decimal(n)) == digits_value(Seq::<char>::empty()) * 10 + n);
    }
    assert forall|i: int| 0 <= i < decimal(n).len() implies #[trigger] is_digit(decimal(n)[i]) by {
        assert(48 <= decimal(n)[i] as u32 <= 57);
    }
}

/// A number's decimal digits read back as that number.
proof fn lemma_decimal_parses(n: nat, max: nat)
    requires
        n <= max,
    ensures
        spec_parse_unsigned(trimmed(decimal(n)), max) == Some(n),
{
    let d = decimal(n);
    lemma_decimal_digits(n);
    lemma_decimal_value(n);
    assert(!is_white(d[0]));
    assert(!is_white(d.last()));
    assert(trim_start(d) == d);
    assert(trim_end(d) == d);
    assert(d[0] != '+');
}

/// Pieces of text without commas, joined by one comma.
proof fn lemma_comma_pieces_join(s: Seq<char>, t: Seq<char>)
    requires
        forall|i: int| 0 <= i < t.len() ==> t[i] != ',',
    ensures
        comma_pieces(s + seq![','] + t) == comma_pieces(s).push(t),
        comma_pieces(t) == seq![t],
    decreases t.len(),
{
    if t.len() == 0 {
        assert(t =~= Seq::<char>::empty());
        assert(s + seq![','] + t =~= s.push(','));
        assert((s + seq![','] + t).drop_last() =~= s);
    } else {
        let u = t.drop_last();
        lemma_comma_pieces_join(s, u);
        let whole = s + seq![','] + t;
        assert(whole.drop_last() =~= s + seq![','] + u);
        assert(whole.last() == t.last());
        assert(t.last() != ',');
        assert(t.drop_last() =~= u);
        assert(u.push(t.last()) =~= t);
        assert(comma_pieces(s).push(u).update(comma_pieces(s).len() as int, u.push(t.last()))
            =~= comma_pieces(s).push(t));
        assert(seq![u].update(0, u.push(t.last())) =~= seq![t]);
    }
}

proof fn lemma_decimal_has_no_comma(n: nat)
    ensures
        forall|i: int| 0 <= i < decimal(n).len() ==> decimal(n)[i] != ',',
{
    lemma_decimal_digits(n);
    assert forall|i: int| 0 <= i < decimal(n).len() implies decimal(n)[i] != ',' by {
        assert(48 <= decimal(n)[i] as u32);
    }
}

/// Round trip: the `x,y,w,h` text of a rectangle is read back as that
/// rectangle by `--region`.
pub proof fn lemma_region_text_roundtrip(r: ScreenRect)
    ensures
        spec_parse_region(region_text(r)) == Some(r),
{
    let dx = decimal(r.x as nat);
    let dy = decimal(r.y as nat);
    let dw = decimal(r.w as nat);
    let dh = decimal(r.h as nat);
    lemma_decimal_has_no_comma(r.x as nat);
    lemma_decimal_has_no_comma(r.y as nat);
    lemma_decimal_has_no_comma(r.w as nat);
    lemma_decimal_has_no_comma(r.h as nat);
    let s1 = dx;
    let s2 = s1 + seq![','] + dy;
    let s3 = s2 + seq![','] + dw;
    let s4 = s3 + seq![','] + dh;
    assert(s4 =~= region_text(r));
    lemma_comma_pieces_join(Seq::<char>::empty(), dx);
    lemma_comma_pieces_join(s1, dy);
    lemma_comma_pieces_join(s2, dw);
    lemma_comma_pieces_join(s3, dh);
    let pieces = seq![dx, dy, dw, dh];
    assert(comma_pieces(s4) =~= pieces);
    lemma_decimal_parses(r.x as nat, u32::MAX as nat);
    lemma_decimal_parses(r.y as nat, u32::MAX as nat);
    lemma_decimal_parses(r.w as nat, u32::MAX as nat);
    lemma_decimal_parses(r.h as nat, u32::MAX as nat);
    assert(pieces.drop_last() =~= seq![dx, dy, dw]);
    assert(seq![dx, dy, dw].drop_last() =~= seq![dx, dy]);
    assert(seq![dx, dy].drop_last() =~= seq![dx]);
    assert(seq![dx].drop_last() =~= Seq::<Seq<char>>::empty());
    assert(parsed_values(Seq::<Seq<char>>::empty()) =~= Seq::<nat>::empty());
    assert(seq![dx].last() == dx);
    assert(seq![dx, dy].last() == dy);
    assert(seq![dx, dy, dw].last() == dw);
    assert(pieces.last() == dh);
    assert(parsed_values(seq![dx]) =~= seq![r.x as nat]);
    assert(parsed_values(seq![dx, dy]) =~= seq![r.x as nat, r.y as nat]);
    assert(parsed_values(seq![dx, dy, dw]) =~= seq![r.x as nat, r.y as nat, r.w as nat]);
    assert(parsed_values(pieces) =~= seq![r.x as nat, r.y as nat, r.w as nat, r.h as nat]);
}

/// `--display N`: a 1-based display number, returned 0-based; `None` when
/// the value is not a number of at least 1.
pub open spec fn spec_display_number(s: Seq<char>) -> Option<usize> {
    match spec_parse_unsigned(s, usize::MAX as nat) {
        Some(n) => if n >= 1 {
            Some((n - 1) as usize)
        } else {
            None
        },
        None => None,
    }
}

/// Parses the value of `--display`.
pub fn parse_display_number(value: &str) -> (r: Option<usize>)
    ensures
        r == spec_display_number(value@),
{
    let chars = chars_of(value);
    proof {
        assert(chars@.subrange(0, chars@.len() as int) =~= value@);
    }
    match parse_unsigned(&chars, 0, chars.len(), usize::MAX as u64) {
        Some(n) => if n >= 1 {
            Some((n - 1) as usize)
        } else {
            None
        },
        None => None,
    }
}

// ─── Flags ──────────────────────────────────────────────────────────────────

/// The value given to `flag` among `args`: at the first argument that is
/// `flag=value` (the text after `=`) or `flag` itself (the argument after
/// it, if there is one).
pub open spec fn spec_flag_value(args: Seq<Seq<char>>, flag: Seq<char>) -> Option<Seq<char>>
    decreases args.len(),
{
    if args.len() == 0 {
        None
    } else if args[0].len() > flag.len() && args[0].take(flag.len() + 1int) == flag.push('=') {
        Some(args[0].skip(flag.len() + 1int))
    } else if args[0] == flag {
        if args.len() > 1 {
            Some(args[1])
        } else {
            None
        }
    } else {
        spec_flag_value(args.drop_first(), flag)
    }
}

/// `flag value` and `flag=value` give a flag the same value.
pub proof fn lemma_flag_forms_agree(flag: Seq<char>, value: Seq<char>)
    ensures
        spec_flag_value(seq![flag, value], flag) == Some(value),
        spec_flag_value(seq![flag.push('=') + value], flag) == Some(value),
{
    let joined = flag.push('=') + value;
    assert(joined.take(flag.len() + 1int) =~= flag.push('='));
    assert(joined.skip(flag.len() + 1int) =~= value);
}

/// The arguments as character sequences.
pub open spec fn arg_views(args: Seq<String>) -> Seq<Seq<char>> {
    args.map_values(|a: String| a@)
}

fn same_text(a: &str, b: &str) -> (r: bool)
    ensures
        r == (a@ == b@),
{
    let n = a.unicode_len();
    if n != b.unicode_len() {
        return false;
    }
    let mut i: usize = 0;
    while i < n
        invariant
            n == a@.len() == b@.len(),
            i <= n,
            a@.take(i as int) == b@.take(i as int),
        decreases n - i,
    {
        if a.get_char(i) != b.get_char(i) {
            return false;
        }
        assert(a@.take(i + 1) =~= a@.take(i as int).push(a@[i as int]));
        assert(b@.take(i + 1) =~= b@.take(i as int).push(b@[i as int]));
        i = i + 1;
    }
    assert(a@ =~= a@.take(n as int));
    assert(b@ =~= b@.take(n as int));
    true
}

/// Whether `arg` begins with `flag=`.
fn has_flag_prefix(arg: &str, flag: &str) -> (r: bool)
    ensures
        r == (arg@.len() > flag@.len() && arg@.take(flag@.len() + 1int) == flag@.push('=')),
{
    let n = arg.unicode_len();
    let k = flag.unicode_len();
    if n <= k {
        return false;
    }
    let mut i: usize = 0;
    while i < k
        invariant
            n == arg@.len(),
            k == flag@.len(),
            k < n,
            i <= k,
            arg@.take(i as int) == flag@.take(i as int),
        decreases k - i,
    {
        if arg.get_char(i) != flag.get_char(i) {
            assert(arg@.take(k + 1)[i as int] != flag@.push('=')[i as int]);
            return false;
        }
        assert(arg@.take(i + 1) =~= arg@.take(i as int).push(arg@[i as int]));
        assert(flag@.take(i + 1) =~= flag@.take(i as int).push(flag@[i as int]));
        i = i + 1;
    }
    if arg.get_char(k) != '=' {
        assert(arg@.take(k + 1)[k as int] != flag@.push('=')[k as int]);
        return false;
    }
    assert(arg@.take(k + 1) =~= flag@.push('='));
    true
}

/// The value of `--flag value` or `--flag=value` among `args`.
pub fn flag_value(args: &Vec<String>, flag: &str) -> (r: Option<String>)
    ensures
        match r {
            Some(v) => spec_flag_value(arg_views(args@), flag@) == Some(v@),
            None => spec_flag_value(arg_views(args@), flag@) is None,
        },
{
    let ghost all = arg_views(args@);
    let n = args.len();
    let mut i: usize = 0;
    assert(all.skip(0) =~= all);
    while i < n
        invariant
            n == args@.len() == all.len(),
            all == arg_views(args@),
            i <= n,
            spec_flag_value(all, flag@) == spec_flag_value(all.skip(i as int), flag@),
        decreases n - i,
    {
        let arg: &str = args[i].as_str();
        let ghost rest = all.skip(i as int);
        assert(rest[0] == arg@);
        if has_flag_prefix(arg, flag) {
            let len = arg.unicode_len();
            let k = flag.unicode_len();
            let value = arg.substring_char(k + 1, len).to_owned();
            assert(value@ =~= arg@.skip(k + 1));
            return Some(value);
        }
        if same_text(arg, flag) {
            if i + 1 < n {
                assert(rest[1] == all[i + 1]);
                return Some(args[i + 1].clone());
            }
            return None;
        }
        assert(rest.drop_first() =~= all.skip(i + 1));
        i = i + 1;
    }
    None
}

/// Whether `flag` is one of `args`.
pub fn has_arg(args: &Vec<String>, flag: &str) -> (r: bool)
    ensures
        r == arg_views(args@).contains(flag@),
{
    let n = args.len();
    let mut i: usize = 0;
    while i < n
        invariant
            n == args@.len(),
            i <= n,
            forall|j: int| 0 <= j < i ==> arg_views(args@)[j] != flag@,
        decreases n - i,
    {
        if same_text(args[i].as_str(), flag) {
            assert(arg_views(args@)[i as int] == flag@);
            return true;
        }
        i = i + 1;
    }
    false
}

/// `PathBuf::from` on the text of `--out`: a path holding that text.
#[verifier::external_body]
fn path_from(s: String) -> (r: PathBuf)
    ensures
        path_text(r) == Some(s@),
{
    PathBuf::from(s)
}

/// Why the flags were refused.
#[derive(Debug, Clone, Copy, PartialEq, Eq, Structural)]
pub enum ArgError {
    /// `--region` does not hold four numbers.
    Region,
    /// `--display` is not a 1-based display number.
    Display,
}

/// `--region` is given with a value that does not parse.
pub open spec fn region_refused(args: Seq<Seq<char>>) -> bool {
    spec_flag_value(args, "--region"@) matches Some(v) && spec_parse_region(v) is None
}

/// `--display` is given with a value that does not parse.
pub open spec fn display_refused(args: Seq<Seq<char>>) -> bool {
    spec_flag_value(args, "--display"@) matches Some(v) && spec_display_number(v) is None
}

pub open spec fn region_of(args: Seq<Seq<char>>) -> Option<ScreenRect> {
    match spec_flag_value(args, "--region"@) {
        Some(v) => spec_parse_region(v),
        None => None,
    }
}

pub open spec fn display_of(args: Seq<Seq<char>>) -> Option<usize> {
    match spec_flag_value(args, "--display"@) {
        Some(v) => spec_display_number(v),
        None => None,
    }
}

/// The receiver's flags, from its arguments (the program name left out):
/// `--once`, `--out DIR`, `--display N`, `--region x,y,w,h`. A `--region`
/// that does not parse is refused first, then a bad `--display`.
pub fn parse_args(args: &Vec<String>) -> (r: Result<Args, ArgError>)
    ensures
        match r {
            Ok(a) => {
                &&& !region_refused(arg_views(args@))
                &&& !display_refused(arg_views(args@))
                &&& a.once == arg_views(args@).contains("--once"@)
                &&& a.region == region_of(arg_views(args@))
                &&& a.display == display_of(arg_views(args@))
                &&& match a.out_dir {
                    Some(p) => spec_flag_value(arg_views(args@), "--out"@) == path_text(p),
                    None => spec_flag_value(arg_views(args@), "--out"@) is None,
                }
            },
            Err(ArgError::Region) => region_refused(arg_views(args@)),
            Err(ArgError::Display) => {
                &&& !region_refused(arg_views(args@))
                &&& display_refused(arg_views(args@))
            },
        },
{
    let once = has_arg(args, "--once");
    let region = match flag_value(args, "--region") {
        Some(v) => match parse_region(v.as_str()) {
            Some(rect) => Some(rect),
            None => {
                return Err(ArgError::Region);
            },
        },
        None => None,
    };
    let display = match flag_value(args, "--display") {
        Some(v) => match parse_display_number(v.as_str()) {
            Some(d) => Some(d),
            None => {
                return Err(ArgError::Display);
            },
        },
        None => None,
    };
    let out_dir = match flag_value(args, "--out") {
        Some(v) => Some(path_from(v)),
        None => None,
    };
    Ok(Args { out_dir, region, display, once })
}

} // verus!
