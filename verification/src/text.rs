//! Text helpers: decimal and hexadecimal encodings, and the string
//! operations the gateway needs, each stated over `Seq<char>` views.

use vstd::prelude::*;

verus! {

/// The character of a decimal digit value.
pub open spec fn digit_char(d: int) -> char {
    (48 + d) as char
}

/// Whether `c` is an ASCII decimal digit.
pub open spec fn is_digit(c: char) -> bool {
    '0' <= c && c <= '9'
}

/// The value of an ASCII decimal digit.
pub open spec fn digit_value(c: char) -> nat {
    (c as int - 48) as nat
}

/// The shortest decimal representation of `n` (what `u64::to_string` prints).
pub open spec fn decimal(n: nat) -> Seq<char>
    decreases n,
{
    if n < 10 {
        seq![digit_char(n as int)]
    } else {
        decimal(n / 10).push(digit_char((n % 10) as int))
    }
}

/// Appends one character to a string.
#[verifier::external_body]
pub(crate) fn push_char(s: &mut String, c: char)
    ensures
        final(s)@ == old(s)@.push(c),
{
    s.push(c);
}

fn append_decimal(s: &mut String, n: u64)
    ensures
        final(s)@ == old(s)@ + decimal(n as nat),
    decreases n,
{
    if n >= 10 {
        append_decimal(s, n / 10);
    }
    let d: u8 = (n % 10) as u8;
    let c: char = (48u8 + d) as char;
    push_char(s, c);
    proof {
        assert(old(s)@ + decimal(n as nat) =~= old(s)@ + (if n >= 10 { decimal((n / 10) as nat) } else { Seq::empty() }) + seq![c]);
    }
}

/// Formats `n` in decimal.
pub fn decimal_string(n: u64) -> (r: String)
    ensures
        r@ == decimal(n as nat),
{
    let mut s = String::new();
    append_decimal(&mut s, n);
    assert(s@ =~= decimal(n as nat));
    s
}


/// The characters of a string slice, in order.
pub fn chars_of(s: &str) -> (r: Vec<char>)
    ensures
        r@ == s@,
{
    let mut out: Vec<char> = Vec::new();
    for c in it: s.chars()
        invariant
            out@ == it.seq().take(it.index() as int),
    {
        out.push(c);
    }
    out
}


/// Whether every character of `s` is an ASCII decimal digit.
pub open spec fn all_digits(s: Seq<char>) -> bool {
    forall|i: int| 0 <= i < s.len() ==> is_digit(#[trigger] s[i])
}

/// The value of a string of decimal digits, most significant first.
pub open spec fn digits_value(s: Seq<char>) -> nat
    decreases s.len(),
{
    if s.len() == 0 {
        0
    } else {
        digits_value(s.drop_last()) * 10 + digit_value(s.last())
    }
}

/// The digits that `u64::from_str` reads: the text without one leading `+`.
pub open spec fn unsigned_digits(s: Seq<char>) -> Seq<char> {
    if s.len() > 0 && s[0] == '+' {
        s.drop_first()
    } else {
        s
    }
}

/// What `str::parse::<u64>` gives: an optional `+`, then at least one
/// decimal digit and nothing else, with a value that fits in a `u64`.
pub open spec fn parse_u64(s: Seq<char>) -> Option<u64> {
    let b = unsigned_digits(s);
    if b.len() > 0 && all_digits(b) && digits_value(b) <= u64::MAX {
        Some(digits_value(b) as u64)
    } else {
        None
    }
}

/// Appending a digit multiplies the value by ten and adds the digit.
pub proof fn lemma_digits_value_step(b: Seq<char>, c: char)
    ensures
        digits_value(b.push(c)) == digits_value(b) * 10 + digit_value(c),
{
    assert(b.push(c).drop_last() =~= b);
}

/// Parses an unsigned decimal number as `str::parse::<u64>` does.
pub fn parse_decimal_u64(text: &str) -> (r: Option<u64>)
    ensures
        r == parse_u64(text@),
{
    let cs = chars_of(text);
    parse_decimal_chars(cs.as_slice())
}

/// Parses characters as an unsigned decimal number, as `str::parse::<u64>` does.
pub fn parse_decimal_chars(cs: &[char]) -> (r: Option<u64>)
    ensures
        r == parse_u64(cs@),
{
    let mut start: usize = 0;
    if cs.len() > 0 && cs[0] == '+' {
        start = 1;
    }
    let ghost body = unsigned_digits(cs@);
    assert(body =~= cs@.subrange(start as int, cs@.len() as int));
    if start == cs.len() {
        return None;
    }
    let mut acc: u64 = 0;
    let mut overflow: bool = false;
    let mut i: usize = start;
    while i < cs.len()
        invariant
            start <= i <= cs@.len(),
            body == unsigned_digits(cs@),
            body == cs@.subrange(start as int, cs@.len() as int),
            all_digits(cs@.subrange(start as int, i as int)),
            overflow ==> digits_value(cs@.subrange(start as int, i as int)) > u64::MAX,
            !overflow ==> acc == digits_value(cs@.subrange(start as int, i as int)),
        decreases cs@.len() - i,
    {
        let c = cs[i];
        if !('0' <= c && c <= '9') {
            assert(body[i - start] == c);
            assert(!is_digit(body[i - start]));
            assert(!all_digits(body));
            return None;
        }
        let ghost prev = cs@.subrange(start as int, i as int);
        proof {
            assert(cs@.subrange(start as int, i + 1) =~= prev.push(c));
            lemma_digits_value_step(prev, c);
        }
        let d: u64 = ((c as u32) - 48) as u64;
        if !overflow {
            match acc.checked_mul(10) {
                Some(m) => match m.checked_add(d) {
                    Some(v) => {
                        acc = v;
                    },
                    None => {
                        overflow = true;
                    },
                },
                None => {
                    overflow = true;
                },
            }
        }
        i = i + 1;
    }
    if overflow {
        None
    } else {
        Some(acc)
    }
}

/// The lower-case hexadecimal character of a nibble.
pub open spec fn hex_char(n: int) -> char {
    if n < 10 {
        (48 + n) as char
    } else {
        (87 + n) as char
    }
}

/// Lower-case hexadecimal text of `bytes`, two characters per byte, high
/// nibble first (what `hex::encode` produces).
pub open spec fn hex_lower(bytes: Seq<u8>) -> Seq<char> {
    Seq::new(
        2 * bytes.len(),
        |i: int|
            if i % 2 == 0 {
                hex_char((bytes[i / 2] / 16) as int)
            } else {
                hex_char((bytes[i / 2] % 16) as int)
            },
    )
}

/// Whether `c` is a hexadecimal digit, in either case.
pub open spec fn is_hex_digit(c: char) -> bool {
    is_digit(c) || ('a' <= c && c <= 'f') || ('A' <= c && c <= 'F')
}

/// The value of a hexadecimal digit.
pub open spec fn hex_value(c: char) -> int {
    if is_digit(c) {
        c as int - 48
    } else if 'a' <= c && c <= 'f' {
        c as int - 87
    } else {
        c as int - 55
    }
}

/// What `hex::decode` gives: bytes for text of even length made only of
/// hexadecimal digits, of either case; nothing otherwise.
pub open spec fn hex_decode(s: Seq<char>) -> Option<Seq<u8>> {
    if s.len() % 2 == 0 && (forall|i: int| 0 <= i < s.len() ==> is_hex_digit(#[trigger] s[i])) {
        Some(
            Seq::new(
                s.len() / 2,
                |i: int| (hex_value(s[2 * i]) * 16 + hex_value(s[2 * i + 1])) as u8,
            ),
        )
    } else {
        None
    }
}

fn nibble_char(n: u8) -> (c: char)
    requires
        n < 16,
    ensures
        c == hex_char(n as int),
{
    if n < 10 {
        (48u8 + n) as char
    } else {
        (87u8 + n) as char
    }
}

/// Lower-case hexadecimal encoding of `bytes`.
pub fn hex_encode(bytes: &[u8]) -> (r: String)
    ensures
        r@ == hex_lower(bytes@),
{
    let mut s = String::new();
    let mut i: usize = 0;
    while i < bytes.len()
        invariant
            i <= bytes@.len(),
            s@.len() == 2 * i,
            forall|j: int|
                0 <= j < 2 * i ==> #[trigger] s@[j] == (if j % 2 == 0 {
                    hex_char((bytes@[j / 2] / 16) as int)
                } else {
                    hex_char((bytes@[j / 2] % 16) as int)
                }),
        decreases bytes@.len() - i,
    {
        let b = bytes[i];
        push_char(&mut s, nibble_char(b / 16));
        push_char(&mut s, nibble_char(b % 16));
        i = i + 1;
    }
    assert(s@ =~= hex_lower(bytes@));
    s
}

fn hex_digit_value(c: char) -> (r: Option<u8>)
    ensures
        r is Some <==> is_hex_digit(c),
        r matches Some(v) ==> v as int == hex_value(c) && v < 16,
{
    if '0' <= c && c <= '9' {
        Some(((c as u32) - 48) as u8)
    } else if 'a' <= c && c <= 'f' {
        Some(((c as u32) - 87) as u8)
    } else if 'A' <= c && c <= 'F' {
        Some(((c as u32) - 55) as u8)
    } else {
        None
    }
}

/// Decodes hexadecimal text (either case) into bytes, as `hex::decode` does.
pub fn hex_decode_chars(s: &[char]) -> (r: Option<Vec<u8>>)
    ensures
        match r {
            Some(v) => hex_decode(s@) == Some(v@),
            None => hex_decode(s@) is None,
        },
{
    if s.len() % 2 != 0 {
        return None;
    }
    let mut out: Vec<u8> = Vec::new();
    let mut i: usize = 0;
    while i < s.len() / 2
        invariant
            s@.len() % 2 == 0,
            i <= s@.len() / 2,
            out@.len() == i,
            forall|j: int| 0 <= j < 2 * i ==> is_hex_digit(#[trigger] s@[j]),
            forall|j: int|
                0 <= j < i ==> #[trigger] out@[j] == (hex_value(s@[2 * j]) * 16 + hex_value(
                    s@[2 * j + 1],
                )) as u8,
        decreases s@.len() / 2 - i,
    {
        let hi = hex_digit_value(s[2 * i]);
        let lo = hex_digit_value(s[2 * i + 1]);
        match (hi, lo) {
            (Some(h), Some(l)) => {
                out.push(h * 16 + l);
            },
            _ => {
                assert(hex_decode(s@) is None) by {
                    if hi is None {
                        assert(!is_hex_digit(s@[2 * i as int]));
                    } else {
                        assert(!is_hex_digit(s@[2 * i + 1]));
                    }
                }
                return None;
            },
        }
        i = i + 1;
    }
    assert(hex_decode(s@) == Some(out@)) by {
        assert forall|j: int| 0 <= j < s@.len() implies is_hex_digit(#[trigger] s@[j]) by {}
        assert(out@ =~= Seq::new(
            s@.len() / 2,
            |k: int| (hex_value(s@[2 * k]) * 16 + hex_value(s@[2 * k + 1])) as u8,
        ));
    }
    Some(out)
}


/// `s` without every trailing occurrence of `c` (what `trim_end_matches(c)` gives).
pub open spec fn trim_trailing(s: Seq<char>, c: char) -> Seq<char>
    decreases s.len(),
{
    if s.len() > 0 && s.last() == c {
        trim_trailing(s.drop_last(), c)
    } else {
        s
    }
}

/// The string made of the first `n` characters of `cs`.
fn string_of_prefix(cs: &Vec<char>, n: usize) -> (r: String)
    requires
        n <= cs@.len(),
    ensures
        r@ == cs@.take(n as int),
{
    let mut s = String::new();
    let mut i: usize = 0;
    while i < n
        invariant
            i <= n <= cs@.len(),
            s@ == cs@.take(i as int),
        decreases n - i,
    {
        push_char(&mut s, cs[i]);
        assert(cs@.take(i + 1) =~= cs@.take(i as int).push(cs@[i as int]));
        i = i + 1;
    }
    s
}

/// Removes every trailing occurrence of `c` from `text`.
pub fn trim_end_char(text: &str, c: char) -> (r: String)
    ensures
        r@ == trim_trailing(text@, c),
{
    let cs = chars_of(text);
    let mut n: usize = cs.len();
    assert(cs@.take(cs@.len() as int) =~= cs@);
    while n > 0 && cs[n - 1] == c
        invariant
            n <= cs@.len(),
            cs@ == text@,
            trim_trailing(cs@.take(n as int), c) == trim_trailing(text@, c),
        decreases n,
    {
        assert(cs@.take(n as int).drop_last() =~= cs@.take(n - 1));
        n = n - 1;
    }
    string_of_prefix(&cs, n)
}

/// The last `width` decimal digits of `n`, zero-padded on the left
/// (what `format!("{:0width$}", n)` prints when `n < 10^width`).
pub open spec fn padded_decimal(n: nat, width: nat) -> Seq<char>
    decreases width,
{
    if width == 0 {
        Seq::empty()
    } else {
        padded_decimal(n / 10, (width - 1) as nat).push(digit_char((n % 10) as int))
    }
}

/// Sompi per coin.
pub const SOMPI_PER_COIN: u64 = 100_000_000;

/// A sompi amount written as a decimal coin value: the whole part, then a
/// point and the fractional digits without trailing zeros when there are
/// any (so 150000000 is "1.5" and 200000000 is "2").
pub open spec fn units_text(value: nat) -> Seq<char> {
    let whole = decimal(value / 100_000_000);
    let fractional = trim_trailing(padded_decimal(value % 100_000_000, 8), '0');
    if fractional.len() == 0 {
        whole
    } else {
        whole + seq!['.'] + fractional
    }
}

fn append_padded(s: &mut String, n: u64, width: u64)
    ensures
        final(s)@ == old(s)@ + padded_decimal(n as nat, width as nat),
    decreases width,
{
    if width > 0 {
        append_padded(s, n / 10, width - 1);
        let d: u8 = (n % 10) as u8;
        push_char(s, (48u8 + d) as char);
        assert(old(s)@ + padded_decimal(n as nat, width as nat) =~= old(s)@ + padded_decimal(
            (n / 10) as nat,
            (width - 1) as nat,
        ) + seq![(48u8 + d) as char]);
    } else {
        assert(old(s)@ + padded_decimal(n as nat, width as nat) =~= old(s)@);
    }
}

/// Formats a sompi amount as a decimal coin value.
pub fn format_units(value: u64) -> (r: String)
    ensures
        r@ == units_text(value as nat),
{
    let whole = value / SOMPI_PER_COIN;
    let mut padded = String::new();
    append_padded(&mut padded, value % SOMPI_PER_COIN, 8);
    assert(padded@ =~= padded_decimal((value % 100_000_000) as nat, 8));
    let fractional = trim_end_char(padded.as_str(), '0');
    let mut out = decimal_string(whole);
    if fractional.as_str().unicode_len() == 0 {
        out
    } else {
        push_char(&mut out, '.');
        out.append(fractional.as_str());
        out
    }
}


/// Decimal text is digits only, never starts with `+`, and reads back as the
/// number it was written from.
pub proof fn lemma_decimal_parses(n: nat)
    ensures
        decimal(n).len() > 0,
        all_digits(decimal(n)),
        decimal(n)[0] != '+',
        digits_value(decimal(n)) == n,
    decreases n,
{
    if n < 10 {
        assert(digit_value(digit_char(n as int)) == n);
        assert(decimal(n).drop_last() =~= Seq::<char>::empty());
        assert(digits_value(Seq::<char>::empty()) == 0);
        assert(decimal(n).last() == digit_char(n as int));
        assert(digits_value(decimal(n)) == n);
    } else {
        lemma_decimal_parses(n / 10);
        let c = digit_char((n % 10) as int);
        lemma_digits_value_step(decimal(n / 10), c);
        assert(digit_value(c) == n % 10);
        assert((n / 10) * 10 + n % 10 == n) by (nonlinear_arith);
        assert(decimal(n).drop_last() =~= decimal(n / 10));
        assert(digits_value(decimal(n)) == digits_value(decimal(n / 10)) * 10 + digit_value(c));
        assert(digits_value(decimal(n)) == n);
        let d = decimal(n);
        assert forall|i: int| 0 <= i < d.len() implies is_digit(#[trigger] d[i]) by {
            if i < d.len() - 1 {
                assert(d[i] == decimal(n / 10)[i]);
            }
        }
        assert(d[0] == decimal(n / 10)[0]);
    }
}

/// Decimal text of a `u64` parses back to it.
pub proof fn lemma_parse_decimal(n: u64)
    ensures
        parse_u64(decimal(n as nat)) == Some(n),
{
    lemma_decimal_parses(n as nat);
}

/// Hex text decodes back to the bytes it was written from.
pub proof fn lemma_hex_roundtrip(bytes: Seq<u8>)
    ensures
        hex_decode(hex_lower(bytes)) == Some(bytes),
{
    let h = hex_lower(bytes);
    assert forall|i: int| 0 <= i < h.len() implies is_hex_digit(#[trigger] h[i]) by {
        let b = bytes[i / 2];
        if i % 2 == 0 {
            assert(h[i] == hex_char((b / 16) as int));
        } else {
            assert(h[i] == hex_char((b % 16) as int));
        }
    }
    let decoded = Seq::new(
        h.len() / 2,
        |k: int| (hex_value(h[2 * k]) * 16 + hex_value(h[2 * k + 1])) as u8,
    );
    assert forall|k: int| 0 <= k < bytes.len() implies decoded[k] == bytes[k] by {
        let b = bytes[k];
        assert(h[2 * k] == hex_char((b / 16) as int));
        assert(h[2 * k + 1] == hex_char((b % 16) as int));
        assert(hex_value(h[2 * k]) == b / 16);
        assert(hex_value(h[2 * k + 1]) == b % 16);
    }
    assert(decoded =~= bytes);
}

/// Ten to the power `n`.
pub open spec fn pow10(n: nat) -> nat
    decreases n,
{
    if n == 0 {
        1
    } else {
        10 * pow10((n - 1) as nat)
    }
}

proof fn lemma_pow10_positive(n: nat)
    ensures
        pow10(n) > 0,
    decreases n,
{
    if n > 0 {
        lemma_pow10_positive((n - 1) as nat);
    }
}

proof fn lemma_mod_step(n: nat, p: nat)
    requires
        p > 0,
    ensures
        ((n / 10) % p) * 10 + n % 10 == n % (10 * p),
{
    let q = n / 10;
    let r = n % 10;
    let a = q / p;
    let b = q % p;
    assert(n == 10 * q + r) by (nonlinear_arith)
        requires
            q == n / 10,
            r == n % 10,
    ;
    assert(q == p * a + b && 0 <= b < p) by (nonlinear_arith)
        requires
            p > 0,
            a == q / p,
            b == q % p,
    ;
    assert(n == (10 * p) * a + (10 * b + r) && 0 <= 10 * b + r < 10 * p) by (nonlinear_arith)
        requires
            n == 10 * q + r,
            q == p * a + b,
            0 <= b < p,
            0 <= r < 10,
    ;
    assert(n % (10 * p) == 10 * b + r) by (nonlinear_arith)
        requires
            n == (10 * p) * a + (10 * b + r),
            0 <= 10 * b + r < 10 * p,
            p > 0,
            a >= 0,
    ;
}

/// `padded_decimal(n, width)` is `width` digits whose value is `n` modulo
/// ten to the `width`.
pub proof fn lemma_padded_decimal(n: nat, width: nat)
    ensures
        padded_decimal(n, width).len() == width,
        all_digits(padded_decimal(n, width)),
        digits_value(padded_decimal(n, width)) == n % pow10(width),
    decreases width,
{
    if width > 0 {
        let w1 = (width - 1) as nat;
        lemma_padded_decimal(n / 10, w1);
        lemma_pow10_positive(w1);
        let c = digit_char((n % 10) as int);
        let pre = padded_decimal(n / 10, w1);
        lemma_digits_value_step(pre, c);
        assert(digit_value(c) == n % 10);
        lemma_mod_step(n, pow10(w1));
        let whole = padded_decimal(n, width);
        assert forall|i: int| 0 <= i < whole.len() implies is_digit(#[trigger] whole[i]) by {
            if i < whole.len() - 1 {
                assert(whole[i] == pre[i]);
            }
        }
    } else {
        assert(n % 1 == 0);
    }
}

/// Removing trailing `c` keeps a prefix, drops only `c`s, and leaves no `c`
/// at the end.
pub proof fn lemma_trim_trailing(s: Seq<char>, c: char)
    ensures
        trim_trailing(s, c).len() <= s.len(),
        trim_trailing(s, c) == s.take(trim_trailing(s, c).len() as int),
        forall|i: int| trim_trailing(s, c).len() <= i < s.len() ==> s[i] == c,
        trim_trailing(s, c).len() > 0 ==> trim_trailing(s, c).last() != c,
    decreases s.len(),
{
    if s.len() > 0 && s.last() == c {
        lemma_trim_trailing(s.drop_last(), c);
        let t = trim_trailing(s.drop_last(), c);
        assert(s.drop_last().take(t.len() as int) =~= s.take(t.len() as int));
        assert forall|i: int| t.len() <= i < s.len() implies s[i] == c by {
            if i < s.len() - 1 {
                assert(s.drop_last()[i] == s[i]);
            }
        }
    } else {
        assert(s.take(s.len() as int) =~= s);
    }
}

proof fn lemma_trailing_zeros_value(s: Seq<char>, k: nat)
    requires
        k <= s.len(),
        forall|i: int| k <= i < s.len() ==> s[i] == '0',
    ensures
        digits_value(s) == digits_value(s.take(k as int)) * pow10((s.len() - k) as nat),
    decreases s.len(),
{
    if s.len() == k {
        assert(s.take(k as int) =~= s);
        assert(pow10(0) == 1);
        assert(digits_value(s) == digits_value(s) * 1);
    } else {
        let pre = s.drop_last();
        lemma_trailing_zeros_value(pre, k);
        assert(pre.take(k as int) =~= s.take(k as int));
        assert(s.last() == '0');
        assert(digit_value('0') == 0);
        assert(digits_value(s) == digits_value(pre) * 10 + digit_value(s.last()));
        assert(digits_value(s) == digits_value(pre) * 10);
        let d = digits_value(s.take(k as int));
        let e = (pre.len() - k) as nat;
        assert(digits_value(pre) == d * pow10(e));
        assert(pow10((s.len() - k) as nat) == 10 * pow10(e));
        assert(d * pow10(e) * 10 == d * (10 * pow10(e))) by (nonlinear_arith);
        assert(digits_value(s) == d * pow10((s.len() - k) as nat));
    }
}

/// Every amount is written as the shortest exact decimal of coins: the
/// whole coins alone when the amount is a whole number of coins, otherwise
/// the whole coins, a point and one to eight fractional digits, the last
/// not zero, that make up exactly the sompi below a coin.
pub proof fn lemma_units_text_exact(value: nat)
    ensures
        value % 100_000_000 == 0 ==> units_text(value) == decimal(value / 100_000_000),
        value % 100_000_000 != 0 ==> exists|f: Seq<char>|
            {
                &&& units_text(value) == decimal(value / 100_000_000) + seq!['.'] + f
                &&& 1 <= f.len() <= 8
                &&& all_digits(f)
                &&& f.last() != '0'
                &&& #[trigger] digits_value(f) * pow10((8 - f.len()) as nat) == value % 100_000_000
            },
{
    let padded = padded_decimal(value % 100_000_000, 8);
    lemma_padded_decimal(value % 100_000_000, 8);
    assert(pow10(8) == 100_000_000) by {
        reveal_with_fuel(pow10, 9);
    }
    assert((value % 100_000_000) % 100_000_000 == value % 100_000_000) by (nonlinear_arith);
    let f = trim_trailing(padded, '0');
    lemma_trim_trailing(padded, '0');
    lemma_trailing_zeros_value(padded, f.len());
    assert(f =~= padded.take(f.len() as int));
    lemma_pow10_positive((8 - f.len()) as nat);
    if f.len() == 0 {
        assert(digits_value(f) == 0);
        assert(value % 100_000_000 == 0) by (nonlinear_arith)
            requires
                value % 100_000_000 == digits_value(f) * pow10((8 - f.len()) as nat),
                digits_value(f) == 0,
        ;
    } else {
        assert forall|i: int| 0 <= i < f.len() implies is_digit(#[trigger] f[i]) by {
            assert(f[i] == padded[i]);
        }
        assert(is_digit(f.last()));
        assert(digit_value(f.last()) >= 1);
        assert(digits_value(f) == digits_value(f.drop_last()) * 10 + digit_value(f.last()));
        assert(digits_value(f) >= 1);
        let p = pow10((8 - f.len()) as nat);
        assert(digits_value(f) * p >= 1) by (nonlinear_arith)
            requires
                digits_value(f) >= 1,
                p > 0,
        ;
        assert(units_text(value) == decimal(value / 100_000_000) + seq!['.'] + f);
    }
}

} // verus!
