//! Numbers as text: decimal and hexadecimal digits in file names and reports.

use vstd::prelude::*;
use vstd::string::StringExecFns;
use vstd::string::StringSliceAdditionalSpecFns;

verus! {

use vstd::utf8::{encode_utf8, is_ascii_chars, is_ascii_chars_encode_utf8};

/// The digit that stands for `d`, lower case.
pub open spec fn digit_char(d: int) -> char {
    seq!['0', '1', '2', '3', '4', '5', '6', '7', '8', '9', 'a', 'b', 'c', 'd', 'e', 'f'][d]
}

/// The decimal digits of `n`.
pub open spec fn dec_digits(n: nat) -> Seq<char>
    decreases n,
{
    if n < 10 {
        seq![digit_char(n as int)]
    } else {
        dec_digits(n / 10).push(digit_char((n % 10) as int))
    }
}

pub open spec fn zeros(n: int) -> Seq<char> {
    Seq::new(
        (if n > 0 {
            n
        } else {
            0
        }) as nat,
        |i: int| '0',
    )
}

/// The decimal digits of `n`, with zeros before them up to `width`.
pub open spec fn padded(n: nat, width: int) -> Seq<char> {
    zeros(width - dec_digits(n).len()) + dec_digits(n)
}

/// Two hexadecimal digits for each byte.
pub open spec fn hex_digits(s: Seq<u8>) -> Seq<char>
    decreases s.len(),
{
    if s.len() == 0 {
        Seq::empty()
    } else {
        hex_digits(s.drop_last()) + seq![
            digit_char((s.last() / 16) as int),
            digit_char((s.last() % 16) as int),
        ]
    }
}

/// Append one digit.
pub fn push_digit(s: &mut String, d: u8)
    requires
        d < 16,
    ensures
        final(s)@ == old(s)@.push(digit_char(d as int)),
{
    proof {
        reveal_strlit("0");
        reveal_strlit("1");
        reveal_strlit("2");
        reveal_strlit("3");
        reveal_strlit("4");
        reveal_strlit("5");
        reveal_strlit("6");
        reveal_strlit("7");
        reveal_strlit("8");
        reveal_strlit("9");
        reveal_strlit("a");
        reveal_strlit("b");
        reveal_strlit("c");
        reveal_strlit("d");
        reveal_strlit("e");
        reveal_strlit("f");
    }
    let t: &str = match d {
        0 => "0",
        1 => "1",
        2 => "2",
        3 => "3",
        4 => "4",
        5 => "5",
        6 => "6",
        7 => "7",
        8 => "8",
        9 => "9",
        10 => "a",
        11 => "b",
        12 => "c",
        13 => "d",
        14 => "e",
        _ => "f",
    };
    s.append(t);
    assert(s@ =~= old(s)@.push(digit_char(d as int)));
}

/// Append the decimal digits of `n`.
pub fn push_dec(s: &mut String, n: u64)
    ensures
        final(s)@ == old(s)@ + dec_digits(n as nat),
    decreases n,
{
    if n >= 10 {
        push_dec(s, n / 10);
    }
    push_digit(s, (n % 10) as u8);
    assert(s@ =~= old(s)@ + dec_digits(n as nat));
}

/// How many decimal digits `n` has.
fn dec_len(n: u64) -> (k: u8)
    ensures
        k == dec_digits(n as nat).len(),
        1 <= k <= 20,
{
    proof {
        lemma_dec_len(n as nat, 20);
    }
    let mut k: u8 = 1;
    let mut rest: u64 = n;
    while rest >= 10
        invariant
            1 <= k,
            k + dec_digits(rest as nat).len() - 1 == dec_digits(n as nat).len(),
            dec_digits(n as nat).len() <= 20,
            dec_digits(rest as nat).len() >= 1,
        decreases rest,
    {
        proof {
            lemma_dec_len((rest / 10) as nat, 20);
        }
        rest = rest / 10;
        k = k + 1;
    }
    k
}

spec fn pow10(n: nat) -> nat
    decreases n,
{
    if n == 0 {
        1
    } else {
        10 * pow10((n - 1) as nat)
    }
}

proof fn lemma_dec_len(n: nat, k: nat)
    requires
        n < 0x1_0000_0000_0000_0000,
        k == 20,
    ensures
        1 <= dec_digits(n).len() <= k,
{
    lemma_dec_len_pow(n, 20);
    reveal_with_fuel(pow10, 21);
}

proof fn lemma_dec_len_pow(n: nat, k: nat)
    requires
        k >= 1,
    ensures
        dec_digits(n).len() >= 1,
        n < pow10(k) ==> dec_digits(n).len() <= k,
    decreases n,
{
    if n >= 10 {
        if k >= 2 {
            lemma_dec_len_pow(n / 10, (k - 1) as nat);
        } else {
            lemma_dec_len_pow(n / 10, 1);
            assert(pow10(1) == 10) by {
                reveal_with_fuel(pow10, 2);
            }
        }
    }
}

/// Append the decimal digits of `n`, with zeros before them up to `width`.
pub fn push_padded(s: &mut String, n: u64, width: u8)
    ensures
        final(s)@ == old(s)@ + padded(n as nat, width as int),
{
    let k: u8 = dec_len(n);
    let mut i: u8 = k;
    let ghost base = s@;
    assert(s@ =~= base + zeros(0));
    while i < width
        invariant
            k <= i,
            i <= width || i == k,
            s@ == base + zeros(i - k),
        decreases width - i,
    {
        push_digit(s, 0);
        i = i + 1;
        assert(s@ =~= base + zeros(i - k));
    }
    assert(zeros(i - k) =~= zeros(width - k));
    push_dec(s, n);
    assert(s@ =~= base + padded(n as nat, width as int));
}

/// Two hexadecimal digits for each byte.
pub fn hex_string(bytes: &[u8]) -> (s: String)
    ensures
        s@ == hex_digits(bytes@),
{
    let mut s = String::new();
    let mut i: usize = 0;
    assert(bytes@.take(0) =~= Seq::<u8>::empty());
    assert(s@ =~= hex_digits(bytes@.take(0)));
    while i < bytes.len()
        invariant
            i <= bytes@.len(),
            s@ == hex_digits(bytes@.take(i as int)),
        decreases bytes@.len() - i,
    {
        let b: u8 = bytes[i];
        let ghost before = s@;
        push_digit(&mut s, b / 16);
        push_digit(&mut s, b % 16);
        proof {
            assert(bytes@.take(i + 1).drop_last() =~= bytes@.take(i as int));
            assert(s@ =~= before + seq![
                digit_char((b / 16) as int),
                digit_char((b % 16) as int),
            ]);
        }
        i += 1;
    }
    assert(bytes@.take(i as int) =~= bytes@);
    s
}

// ---------------------------------------------------------------------------
// Parsing
// ---------------------------------------------------------------------------

pub open spec fn is_digit(b: u8) -> bool {
    0x30 <= b <= 0x39
}

pub open spec fn all_digits(s: Seq<u8>) -> bool {
    forall|i: int| 0 <= i < s.len() ==> is_digit(#[trigger] s[i])
}

/// The number that decimal digits stand for.
pub open spec fn dec_value(s: Seq<u8>) -> nat
    decreases s.len(),
{
    if s.len() == 0 {
        0
    } else {
        10 * dec_value(s.drop_last()) + (s.last() - 0x30) as nat
    }
}

/// A decimal number as `u64` reads it: digits, a plus sign before them
/// allowed, in range.
pub open spec fn p_dec(s: Seq<u8>) -> Option<u64> {
    let body = if s.len() > 0 && s[0] == 0x2b {
        s.skip(1)
    } else {
        s
    };
    if body.len() > 0 && all_digits(body) && dec_value(body) <= u64::MAX {
        Some(dec_value(body) as u64)
    } else {
        None
    }
}

proof fn lemma_dec_value_grows(s: Seq<u8>, n: int)
    requires
        all_digits(s),
        0 <= n <= s.len(),
    ensures
        dec_value(s.take(n)) <= dec_value(s),
    decreases s.len(),
{
    if n < s.len() {
        let t = s.drop_last();
        assert forall|i: int| 0 <= i < t.len() implies is_digit(#[trigger] t[i]) by {
            assert(is_digit(s[i]));
        }
        assert(is_digit(s[s.len() - 1]));
        lemma_dec_value_grows(t, n);
        assert(t.take(n) =~= s.take(n));
    } else {
        assert(s.take(n) =~= s);
    }
}

/// Read a decimal number.
pub fn parse_dec(s: &[u8]) -> (r: Option<u64>)
    ensures
        r == p_dec(s@),
{
    let start: usize = if s.len() > 0 && s[0] == 0x2b { 1 } else { 0 };
    let body = vstd::slice::slice_subrange(s, start, s.len());
    assert(body@ =~= if start == 1 { s@.skip(1) } else { s@ });
    if body.len() == 0 {
        return None;
    }
    let mut v: u64 = 0;
    let mut i: usize = 0;
    assert(body@.take(0) =~= Seq::<u8>::empty());
    while i < body.len()
        invariant
            i <= body@.len(),
            body@ == (if s@.len() > 0 && s@[0] == 0x2b {
                s@.skip(1)
            } else {
                s@
            }),
            v == dec_value(body@.take(i as int)),
            forall|k: int| 0 <= k < i ==> is_digit(#[trigger] body@[k]),
        decreases body@.len() - i,
    {
        let b: u8 = body[i];
        if b < 0x30 || b > 0x39 {
            assert(!is_digit(body@[i as int]));
            return None;
        }
        let d: u64 = (b - 0x30) as u64;
        proof {
            assert(body@.take(i + 1).drop_last() =~= body@.take(i as int));
            if all_digits(body@) {
                lemma_dec_value_grows(body@, i + 1);
            }
        }
        if v > (u64::MAX - d) / 10 {
            return None;
        }
        v = v * 10 + d;
        i += 1;
    }
    assert(body@.take(i as int) =~= body@);
    Some(v)
}

proof fn lemma_digit_ascii(d: int)
    requires
        0 <= d < 10,
    ensures
        digit_char(d) as u8 == 0x30 + d,
        (digit_char(d) as nat) < 128,
{
}

/// Characters as bytes, one each.
pub open spec fn ascii_bytes(cs: Seq<char>) -> Seq<u8> {
    Seq::new(cs.len(), |i: int| cs[i] as u8)
}

proof fn lemma_dec_digits_value(n: nat)
    ensures
        all_digits(ascii_bytes(dec_digits(n))),
        dec_value(ascii_bytes(dec_digits(n))) == n,
        dec_digits(n).len() >= 1,
        is_ascii_chars(dec_digits(n)),
    decreases n,
{
    let s = ascii_bytes(dec_digits(n));
    if n < 10 {
        lemma_digit_ascii(n as int);
        assert(s.drop_last() =~= Seq::<u8>::empty());
        assert(dec_value(Seq::<u8>::empty()) == 0);
    } else {
        lemma_dec_digits_value(n / 10);
        lemma_digit_ascii((n % 10) as int);
        let t = ascii_bytes(dec_digits(n / 10));
        assert(s.drop_last() =~= t);
        assert forall|i: int| 0 <= i < s.len() implies is_digit(#[trigger] s[i]) by {
            if i < t.len() {
                assert(is_digit(t[i]));
            }
        }
        assert(forall|i: int| 0 <= i < dec_digits(n / 10).len() ==> (#[trigger] dec_digits(n / 10)[i] as nat) < 128);
    }
}

proof fn lemma_zeros_value(k: nat, s: Seq<u8>)
    requires
        all_digits(s),
    ensures
        all_digits(ascii_bytes(zeros(k as int)) + s),
        dec_value(ascii_bytes(zeros(k as int)) + s) == dec_value(s),
    decreases s.len(), k,
{
    let z = ascii_bytes(zeros(k as int));
    let w = z + s;
    assert forall|i: int| 0 <= i < w.len() implies is_digit(#[trigger] w[i]) by {
        if i >= z.len() {
            assert(w[i] == s[i - z.len()]);
            assert(is_digit(s[i - z.len()]));
        }
    }
    if s.len() > 0 {
        let t = s.drop_last();
        assert forall|i: int| 0 <= i < t.len() implies is_digit(#[trigger] t[i]) by {
            assert(is_digit(s[i]));
        }
        lemma_zeros_value(k, t);
        assert(w.drop_last() =~= z + t);
    } else if k > 0 {
        lemma_zeros_value((k - 1) as nat, s);
        assert(w.drop_last() =~= ascii_bytes(zeros(k - 1)) + s);
    } else {
        assert(w =~= s);
    }
}

/// A padded number reads back as the number it was made from.
pub proof fn lemma_padded_roundtrip(n: u64, width: int)
    ensures
        p_dec(ascii_bytes(padded(n as nat, width))) == Some(n),
        is_ascii_chars(padded(n as nat, width)),
        encode_utf8(padded(n as nat, width)) == ascii_bytes(padded(n as nat, width)),
        padded(n as nat, width).len() > 0,
{
    let d = dec_digits(n as nat);
    let z = zeros(width - d.len());
    lemma_dec_digits_value(n as nat);
    lemma_zeros_value(z.len(), ascii_bytes(d));
    assert(z =~= zeros(z.len() as int));
    let p = padded(n as nat, width);
    assert(ascii_bytes(p) =~= ascii_bytes(z) + ascii_bytes(d));
    assert(is_digit(ascii_bytes(p)[0]));
    assert(is_ascii_chars(p));
    is_ascii_chars_encode_utf8(p);
    assert(encode_utf8(p) =~= ascii_bytes(p));
}

/// The digits of an id tell its bytes: two to a byte, and different bytes have
/// different digits.
pub proof fn lemma_hex_tells_bytes(a: Seq<u8>, b: Seq<u8>)
    ensures
        hex_digits(a).len() == 2 * a.len(),
        hex_digits(a) == hex_digits(b) ==> a == b,
    decreases a.len() + b.len(),
{
    lemma_hex_len(b);
    lemma_hex_len(a);
    if hex_digits(a) == hex_digits(b) {
        if a.len() > 0 {
            let x = hex_digits(a);
            let y = hex_digits(b);
            let n = x.len() as int;
            lemma_hex_len(a.drop_last());
            lemma_hex_len(b.drop_last());
            assert(x[n - 1] == digit_char((a.last() % 16) as int));
            assert(y[n - 1] == digit_char((b.last() % 16) as int));
            assert(x[n - 2] == digit_char((a.last() / 16) as int));
            assert(y[n - 2] == digit_char((b.last() / 16) as int));
            lemma_digits_differ((a.last() % 16) as int, (b.last() % 16) as int);
            lemma_digits_differ((a.last() / 16) as int, (b.last() / 16) as int);
            assert(hex_digits(a.drop_last()) =~= x.take(n - 2));
            assert(hex_digits(b.drop_last()) =~= y.take(n - 2));
            lemma_hex_tells_bytes(a.drop_last(), b.drop_last());
            assert(a =~= a.drop_last().push(a.last()));
            assert(b =~= b.drop_last().push(b.last()));
        } else {
            assert(a =~= b);
        }
    }
}

proof fn lemma_hex_len(s: Seq<u8>)
    ensures
        hex_digits(s).len() == 2 * s.len(),
    decreases s.len(),
{
    if s.len() > 0 {
        lemma_hex_len(s.drop_last());
    }
}

proof fn lemma_digits_differ(a: int, b: int)
    requires
        0 <= a < 16,
        0 <= b < 16,
        digit_char(a) == digit_char(b),
    ensures
        a == b,
{
}

/// A padded number is as wide as it should be, and no wider than it has to.
pub proof fn lemma_padded_width(n: nat, width: int)
    requires
        0 <= width,
    ensures
        padded(n, width).len() >= width,
        padded(n, width).len() == width || padded(n, width) == dec_digits(n),
        forall|i: int|
            0 <= i < padded(n, width).len() - dec_digits(n).len() ==> #[trigger] padded(n, width)[i]
                == '0',
{
    if dec_digits(n).len() >= width {
        assert(padded(n, width) =~= dec_digits(n));
    }
}

} // verus!
