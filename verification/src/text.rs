//! Text helpers: decimal digits, appending to strings, and lossy UTF-8.
use vstd::prelude::*;
use vstd::utf8::decode_utf8;
use vstd::utf8::valid_utf8;

verus! {

/// The ASCII digit for `d < 10`.
pub open spec fn digit_char(d: nat) -> char {
    (d + 48) as char
}

/// Decimal representation of `n`, without leading zeros.
pub open spec fn decimal(n: nat) -> Seq<char>
    decreases n,
{
    if n < 10 {
        seq![digit_char(n)]
    } else {
        decimal(n / 10).push(digit_char(n % 10))
    }
}

/// Every character of a decimal representation is an ASCII digit, and
/// numbers from 10 on take at least two of them.
pub proof fn lemma_decimal_digits(n: nat)
    ensures
        decimal(n).len() >= 1,
        n >= 10 ==> decimal(n).len() >= 2,
        forall|k: int| 0 <= k < decimal(n).len() ==> 48 <= (#[trigger] decimal(n)[k]) as u32 <= 57,
    decreases n,
{
    if n >= 10 {
        lemma_decimal_digits(n / 10);
    }
}

/// Different numbers have different decimal representations.
pub proof fn lemma_decimal_injective(i: nat, j: nat)
    requires
        decimal(i) == decimal(j),
    ensures
        i == j,
    decreases i,
{
    lemma_decimal_digits(i);
    lemma_decimal_digits(j);
    if i < 10 && j < 10 {
        assert(decimal(i)[0] == digit_char(i));
        assert(decimal(j)[0] == digit_char(j));
    } else if i >= 10 && j >= 10 {
        let a = decimal(i / 10);
        let b = decimal(j / 10);
        assert(decimal(i) == a.push(digit_char(i % 10)));
        assert(decimal(j) == b.push(digit_char(j % 10)));
        assert(a =~= decimal(i).drop_last());
        assert(b =~= decimal(j).drop_last());
        assert(decimal(i).last() == digit_char(i % 10));
        assert(decimal(j).last() == digit_char(j % 10));
        lemma_decimal_injective(i / 10, j / 10);
    }
}

/// `String::push`: appends one character.
#[verifier::external_body]
pub(crate) fn push_char(s: &mut String, c: char)
    ensures
        final(s)@ == old(s)@.push(c),
{
    s.push(c);
}

/// `String::push_str`: appends a string slice.
#[verifier::external_body]
pub(crate) fn push_str(s: &mut String, t: &str)
    ensures
        final(s)@ == old(s)@ + t@,
{
    s.push_str(t);
}

fn digit(d: u64) -> (c: char)
    requires
        d < 10,
    ensures
        c == digit_char(d as nat),
{
    ((d as u8) + 48) as char
}

/// Appends the decimal representation of `n`.
pub fn push_decimal(s: &mut String, n: u64)
    ensures
        final(s)@ == old(s)@ + decimal(n as nat),
{
    let mut m = n;
    let mut v: Vec<char> = Vec::new();
    while m >= 10
        invariant
            decimal(n as nat) == decimal(m as nat) + Seq::new(
                v@.len(),
                |j: int| v@[v@.len() - 1 - j],
            ),
        decreases m,
    {
        let d = digit(m % 10);
        let ghost before = v@;
        v.push(d);
        proof {
            assert(Seq::new(v@.len(), |j: int| v@[v@.len() - 1 - j]) =~= seq![d] + Seq::new(
                before.len(),
                |j: int| before[before.len() - 1 - j],
            ));
            assert(decimal(m as nat) == decimal((m / 10) as nat).push(d));
            assert(decimal(m as nat) + Seq::new(before.len(), |j: int| before[before.len() - 1 - j])
                =~= decimal((m / 10) as nat) + Seq::new(v@.len(), |j: int| v@[v@.len() - 1 - j]));
        }
        m = m / 10;
    }
    let d = digit(m);
    let ghost before = v@;
    v.push(d);
    proof {
        assert(Seq::new(v@.len(), |j: int| v@[v@.len() - 1 - j]) =~= seq![d] + Seq::new(
            before.len(),
            |j: int| before[before.len() - 1 - j],
        ));
        assert(decimal(n as nat) =~= Seq::new(v@.len(), |j: int| v@[v@.len() - 1 - j]));
    }
    let ghost start = s@;
    let mut i = v.len();
    while i > 0
        invariant
            i <= v@.len(),
            s@ == start + Seq::new((v@.len() - i) as nat, |j: int| v@[v@.len() - 1 - j]),
        decreases i,
    {
        i = i - 1;
        push_char(s, v[i]);
        proof {
            assert(s@ =~= start + Seq::new((v@.len() - i) as nat, |j: int| v@[v@.len() - 1 - j]));
        }
    }
}

/// The string `String::from_utf8_lossy` makes of `bytes`.
pub uninterp spec fn utf8_lossy(bytes: Seq<u8>) -> Seq<char>;

/// `String::from_utf8_lossy`: valid UTF-8 decodes as itself; other input
/// has its invalid sequences replaced by U+FFFD, which is only named here.
#[verifier::external_body]
pub(crate) fn lossy_string(bytes: &[u8]) -> (s: String)
    ensures
        s@ == utf8_lossy(bytes@),
        valid_utf8(bytes@) ==> s@ == decode_utf8(bytes@),
{
    String::from_utf8_lossy(bytes).into_owned()
}

} // verus!
