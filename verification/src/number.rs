use crate::render::{as_chars, push_bytes};
use vstd::prelude::*;
use vstd::string::*;

verus! {

/// The bytes `0` to `9`.
pub open spec fn is_digit(b: u8) -> bool {
    48 <= b <= 57
}

/// The end of the run of digits that starts at `from`.
pub open spec fn digit_run(t: Seq<u8>, from: int) -> int
    decreases t.len() - from,
{
    if 0 <= from < t.len() && is_digit(t[from]) {
        digit_run(t, from + 1)
    } else {
        from
    }
}

/// Where the fraction that may follow the integer digits ends: behind a point and
/// the digits after it, or at `at` itself where no point stands.
pub open spec fn fraction_end(t: Seq<u8>, at: int) -> int {
    if 0 <= at < t.len() && t[at] == 46 {
        digit_run(t, at + 1)
    } else {
        at
    }
}

/// Where the digits of an exponent start whose letter stands at `at`: behind the
/// letter and an optional sign.
pub open spec fn exponent_digits(t: Seq<u8>, at: int) -> int {
    if 0 <= at + 1 < t.len() && (t[at + 1] == 43 || t[at + 1] == 45) {
        at + 2
    } else {
        at + 1
    }
}

/// An unsigned decimal literal: digits, then optionally a point and digits (which
/// may be none), then optionally `e` or `E`, an optional sign and digits.
pub open spec fn is_decimal(t: Seq<u8>) -> bool {
    let a = digit_run(t, 0);
    let b = fraction_end(t, a);
    let c = exponent_digits(t, b);
    &&& a > 0
    &&& (b == t.len() || ((t[b] == 101 || t[b] == 69) && c < t.len() && digit_run(t, c)
        == t.len()))
}

/// A number literal: a decimal literal, with an optional minus sign before it.
pub open spec fn is_number_text(t: Seq<u8>) -> bool {
    if t.len() > 0 && t[0] == 45 {
        is_decimal(t.skip(1))
    } else {
        is_decimal(t)
    }
}

/// A run of digits ends within the text, holds digits only, and no digit follows it.
pub proof fn lemma_digit_run_bounds(t: Seq<u8>, from: int)
    requires
        0 <= from <= t.len(),
    ensures
        from <= digit_run(t, from) <= t.len(),
        forall|i: int| from <= i < digit_run(t, from) ==> is_digit(#[trigger] t[i]),
        digit_run(t, from) < t.len() ==> !is_digit(t[digit_run(t, from)]),
    decreases t.len() - from,
{
    if from < t.len() && is_digit(t[from]) {
        lemma_digit_run_bounds(t, from + 1);
    }
}

/// Walks over the digits that start at `from`.
fn scan_digits(t: &[u8], from: usize) -> (end: usize)
    requires
        from <= t@.len(),
    ensures
        end == digit_run(t@, from as int),
        from <= end <= t@.len(),
{
    let mut i: usize = from;
    while i < t.len() && 48 <= t[i] && t[i] <= 57
        invariant
            from <= i <= t@.len(),
            digit_run(t@, from as int) == digit_run(t@, i as int),
        decreases t@.len() - i,
    {
        i += 1;
    }
    i
}

/// Tells whether `t`, from `from` to its end, is an unsigned decimal literal.
fn scan_decimal(t: &[u8], from: usize) -> (r: bool)
    requires
        from <= t@.len(),
    ensures
        r == is_decimal(t@.skip(from as int)),
{
    let ghost u = t@.skip(from as int);
    let n: usize = t.len();
    let a: usize = scan_digits(t, from);
    proof {
        lemma_run_of_suffix(t@, from as int, from as int);
    }
    if a == from {
        return false;
    }
    let mut b: usize = a;
    if a < n && t[a] == 46 {
        b = scan_digits(t, a + 1);
        proof {
            lemma_run_of_suffix(t@, from as int, a + 1);
        }
    }
    assert(b - from == fraction_end(u, a - from));
    if b == n {
        return true;
    }
    if t[b] != 101 && t[b] != 69 {
        return false;
    }
    let mut c: usize = b + 1;
    if c < n && (t[c] == 43 || t[c] == 45) {
        c = c + 1;
    }
    assert(c - from == exponent_digits(u, b - from));
    if c >= n {
        return false;
    }
    let d: usize = scan_digits(t, c);
    proof {
        lemma_run_of_suffix(t@, from as int, c as int);
    }
    d == n
}

/// A run of digits in a suffix is the run in the whole text, shifted.
pub proof fn lemma_run_of_suffix(t: Seq<u8>, from: int, at: int)
    requires
        0 <= from <= at <= t.len(),
    ensures
        digit_run(t.skip(from), at - from) == digit_run(t, at) - from,
    decreases t.len() - at,
{
    if at < t.len() && is_digit(t[at]) {
        lemma_run_of_suffix(t, from, at + 1);
    }
}

/// The decimal digits of `n`, without leading zeros.
pub open spec fn digits_of(n: nat) -> Seq<u8>
    decreases n,
{
    if n < 10 {
        seq![(48 + n) as u8]
    } else {
        digits_of(n / 10).push((48 + n % 10) as u8)
    }
}

/// The decimal literal of the integer `n`.
pub open spec fn integer_text(n: int) -> Seq<u8> {
    if n < 0 {
        seq![45u8] + digits_of((-n) as nat)
    } else {
        digits_of(n as nat)
    }
}

/// Every byte of `t` is a digit.
pub open spec fn all_digits(t: Seq<u8>) -> bool {
    forall|i: int| 0 <= i < t.len() ==> is_digit(#[trigger] t[i])
}

/// The number that the digits `t` denote.
pub open spec fn decimal_value(t: Seq<u8>) -> nat
    decreases t.len(),
{
    if t.len() == 0 {
        0
    } else {
        decimal_value(t.drop_last()) * 10 + (t.last() - 48) as nat
    }
}

/// The natural number that `t` denotes, where `t` is one digit or more and nothing
/// else.
pub open spec fn natural(t: Seq<u8>) -> Option<nat> {
    if t.len() > 0 && all_digits(t) {
        Some(decimal_value(t))
    } else {
        None
    }
}

/// The digits of a decimal literal without its point: those before the point and
/// those of the fraction.
pub open spec fn mantissa(t: Seq<u8>) -> Seq<u8> {
    let a = digit_run(t, 0);
    let b = fraction_end(t, a);
    if b > a {
        t.subrange(0, a) + t.subrange(a + 1, b)
    } else {
        t.subrange(0, a)
    }
}

/// The exponent of a decimal literal: the number behind its `e`, with its sign, and
/// 0 where there is none.
pub open spec fn exponent(t: Seq<u8>) -> int {
    let b = fraction_end(t, digit_run(t, 0));
    let c = exponent_digits(t, b);
    if b < t.len() {
        if t[b + 1] == 45 {
            -(decimal_value(t.skip(c)) as int)
        } else {
            decimal_value(t.skip(c)) as int
        }
    } else {
        0
    }
}

/// How many digits of the mantissa of a decimal literal stand before the point of
/// the number that it denotes: where that is more than the mantissa has, zeros
/// follow the mantissa.
pub open spec fn whole_digits(t: Seq<u8>) -> nat {
    let p = digit_run(t, 0) + exponent(t);
    if p > 0 {
        p as nat
    } else {
        0
    }
}

/// The digit at place `k` of the digits `d` followed by zeros without end.
pub open spec fn digit_at(d: Seq<u8>, k: int) -> nat {
    if 0 <= k < d.len() {
        (d[k] - 48) as nat
    } else {
        0
    }
}

/// The number that the first `q` digits of `d`, followed by zeros, denote.
pub open spec fn prefix_value(d: Seq<u8>, q: nat) -> nat
    decreases q,
{
    if q == 0 {
        0
    } else {
        prefix_value(d, (q - 1) as nat) * 10 + digit_at(d, q - 1)
    }
}

/// Every digit of `d` from place `q` on is a zero.
pub open spec fn zeros_from(d: Seq<u8>, q: int) -> bool {
    forall|k: int| 0 <= k < d.len() && q <= k ==> #[trigger] d[k] == 48
}

/// The natural number that the decimal literal `t` denotes, where its value is one:
/// `12`, `12.0` and `1.2e1` denote twelve, `1.5` and `1e-1` denote none.
pub open spec fn whole(t: Seq<u8>) -> Option<nat> {
    if is_decimal(t) && zeros_from(mantissa(t), whole_digits(t) as int) {
        Some(prefix_value(mantissa(t), whole_digits(t)))
    } else {
        None
    }
}

/// The integer that the number literal `t` denotes, where its value is one.
pub open spec fn integer(t: Seq<u8>) -> Option<int> {
    if t.len() > 0 && t[0] == 45 {
        match whole(t.skip(1)) {
            Some(n) => Some(-(n as int)),
            None => None,
        }
    } else {
        match whole(t) {
            Some(n) => Some(n as int),
            None => None,
        }
    }
}

/// `n` where it is at most `u128::MAX`.
pub open spec fn bounded(n: Option<nat>) -> Option<u128> {
    match n {
        Some(n) => if n <= u128::MAX {
            Some(n as u128)
        } else {
            None
        },
        None => None,
    }
}

/// The value of the first digits is at most the value of more digits.
pub proof fn lemma_prefix_grows(d: Seq<u8>, k: nat, q: nat)
    requires
        k <= q,
    ensures
        prefix_value(d, k) <= prefix_value(d, q),
    decreases q,
{
    if k < q {
        lemma_prefix_grows(d, k, (q - 1) as nat);
    }
}

/// Behind all the digits of `d`, every further zero makes the value ten times as
/// large: it stays 0 where it was 0, and grows by 9 at least where it was not.
pub proof fn lemma_prefix_padded(d: Seq<u8>, k: nat, q: nat)
    requires
        d.len() <= k <= q,
    ensures
        prefix_value(d, k) == 0 ==> prefix_value(d, q) == 0,
        prefix_value(d, k) >= 1 ==> prefix_value(d, q) >= prefix_value(d, k) + 9 * (q - k),
    decreases q,
{
    if k < q {
        lemma_prefix_padded(d, k, (q - 1) as nat);
    }
}

/// A copy of the bytes of `t` from `from` on.
fn tail(t: &[u8], from: usize) -> (r: Vec<u8>)
    requires
        from <= t@.len(),
    ensures
        r@ == t@.skip(from as int),
{
    let mut out: Vec<u8> = Vec::new();
    let mut i: usize = from;
    while i < t.len()
        invariant
            from <= i <= t@.len(),
            out@ == t@.subrange(from as int, i as int),
        decreases t@.len() - i,
    {
        out.push(t[i]);
        assert(out@ =~= t@.subrange(from as int, i + 1));
        i += 1;
    }
    assert(out@ =~= t@.skip(from as int));
    out
}

/// A run of digits that starts at `from` and reaches the end of the text.
pub proof fn lemma_digits_run(t: Seq<u8>, from: int)
    requires
        0 <= from <= t.len(),
        forall|i: int| from <= i < t.len() ==> is_digit(#[trigger] t[i]),
    ensures
        digit_run(t, from) == t.len(),
    decreases t.len() - from,
{
    if from < t.len() {
        lemma_digits_run(t, from + 1);
    }
}

/// The digits of a number are digits, and at least one.
pub proof fn lemma_digits_of(n: nat)
    ensures
        digits_of(n).len() > 0,
        all_digits(digits_of(n)),
        is_decimal(digits_of(n)),
    decreases n,
{
    if n >= 10 {
        lemma_digits_of(n / 10);
    }
    lemma_digits_run(digits_of(n), 0);
}

/// The value of the first digits of a text is at most the value of the text.
pub proof fn lemma_value_grows(t: Seq<u8>, k: int)
    requires
        0 <= k <= t.len(),
        all_digits(t),
    ensures
        decimal_value(t.take(k)) <= decimal_value(t),
    decreases t.len() - k,
{
    if k < t.len() {
        lemma_value_grows(t, k + 1);
        assert(t.take(k + 1).drop_last() =~= t.take(k));
    } else {
        assert(t.take(k) =~= t);
    }
}

/// Puts the decimal digits of `n` at the end of `out`.
fn push_digits(n: u128, out: &mut Vec<u8>)
    ensures
        final(out)@ == old(out)@ + digits_of(n as nat),
    decreases n,
{
    if n >= 10 {
        push_digits(n / 10, out);
    }
    let d: u8 = (n % 10) as u8;
    out.push(48 + d);
    assert(out@ =~= old(out)@ + digits_of(n as nat));
}

/// Reads the digits of `t` from `from` on as a number, where they are one digit or
/// more and nothing else, and the number is at most `u128::MAX`.
fn parse_natural(t: &[u8], from: usize) -> (r: Option<u128>)
    requires
        from <= t@.len(),
    ensures
        r == match natural(t@.skip(from as int)) {
            Some(n) => if n <= u128::MAX {
                Some(n as u128)
            } else {
                None
            },
            None => None,
        },
{
    let ghost u = t@.skip(from as int);
    if from == t.len() {
        return None;
    }
    let mut acc: u128 = 0;
    let mut i: usize = from;
    assert(u.take(0) =~= Seq::<u8>::empty());
    while i < t.len()
        invariant
            from <= i <= t@.len(),
            u == t@.skip(from as int),
            all_digits(u.take(i - from)),
            acc == decimal_value(u.take(i - from)),
        decreases t@.len() - i,
    {
        let b = t[i];
        let ghost next = u.take(i - from + 1);
        assert(next.drop_last() =~= u.take(i - from));
        assert(next.last() == b);
        if !(48 <= b && b <= 57) {
            assert(!is_digit(u[i - from]));
            return None;
        }
        assert(all_digits(next)) by {
            assert forall|k: int| 0 <= k < next.len() implies is_digit(#[trigger] next[k]) by {
                if k < i - from {
                    assert(next[k] == u.take(i - from)[k]);
                }
            }
        }
        let d: u128 = (b - 48) as u128;
        if acc > (u128::MAX - d) / 10 {
            proof {
                if all_digits(u) {
                    lemma_value_grows(u, i - from + 1);
                }
            }
            return None;
        }
        acc = acc * 10 + d;
        i += 1;
    }
    assert(u.take(i - from) =~= u);
    Some(acc)
}

/// The digit at place `k` of the mantissa of the decimal literal `t`, whose digits
/// before the point are `a`.
fn mantissa_digit(t: &[u8], a: usize, k: usize) -> (r: u8)
    requires
        is_decimal(t@),
        a == digit_run(t@, 0),
        k < mantissa(t@).len(),
    ensures
        r == mantissa(t@)[k as int],
        is_digit(r),
{
    let n: usize = t.len();
    proof {
        lemma_digit_run_bounds(t@, 0);
        if a < t@.len() && t@[a as int] == 46 {
            lemma_digit_run_bounds(t@, a + 1);
        }
        if k >= a {
            let b = fraction_end(t@, a as int);
            assert(b > a);
            assert(b <= t@.len());
            assert(mantissa(t@).len() == b - 1);
            assert(k + 1 < n);
            assert(mantissa(t@)[k as int] == t@.subrange(a + 1, b)[k - a]);
        }
    }
    if k < a {
        t[k]
    } else {
        t[k + 1]
    }
}

/// The number of digits before the point of the decimal literal `t`, the length
/// of its mantissa, and the number of its whole digits, or `None` where that is
/// more than `u128::MAX`.
fn whole_places(t: &[u8]) -> (r: (usize, usize, Option<u128>))
    requires
        is_decimal(t@),
    ensures
        r.0 == digit_run(t@, 0),
        r.1 == mantissa(t@).len(),
        match r.2 {
            Some(x) => x == whole_digits(t@),
            None => whole_digits(t@) > u128::MAX,
        },
{
    let n: usize = t.len();
    let a: usize = scan_digits(t, 0);
    let b: usize = if a < n && t[a] == 46 {
        scan_digits(t, a + 1)
    } else {
        a
    };
    let dlen: usize = if b > a {
        b - 1
    } else {
        a
    };
    if b >= n {
        return (a, dlen, Some(a as u128));
    }
    let c: usize = if b + 1 < n && (t[b + 1] == 43 || t[b + 1] == 45) {
        b + 2
    } else {
        b + 1
    };
    proof {
        lemma_digit_run_bounds(t@, c as int);
        assert(all_digits(t@.skip(c as int))) by {
            assert forall|i: int| 0 <= i < t@.skip(c as int).len() implies is_digit(
                #[trigger] t@.skip(c as int)[i],
            ) by {
                assert(is_digit(t@[c + i]));
            }
        }
    }
    let m = parse_natural(t, c);
    let q: Option<u128> = if t[b + 1] == 45 {
        match m {
            Some(m) => if m < a as u128 {
                Some(a as u128 - m)
            } else {
                Some(0)
            },
            None => Some(0),
        }
    } else {
        match m {
            Some(m) => if m <= u128::MAX - a as u128 {
                Some(a as u128 + m)
            } else {
                None
            },
            None => None,
        }
    };
    (a, dlen, q)
}

/// Whether every digit of the mantissa of `t` from place `from` on is a zero.
fn zeros_behind(t: &[u8], a: usize, dlen: usize, from: usize) -> (r: bool)
    requires
        is_decimal(t@),
        a == digit_run(t@, 0),
        dlen == mantissa(t@).len(),
        from <= dlen,
    ensures
        r == zeros_from(mantissa(t@), from as int),
{
    let ghost d = mantissa(t@);
    let mut k: usize = from;
    while k < dlen
        invariant
            from <= k <= dlen,
            is_decimal(t@),
            a == digit_run(t@, 0),
            dlen == mantissa(t@).len(),
            d == mantissa(t@),
            forall|j: int| from <= j < k ==> #[trigger] d[j] == 48,
        decreases dlen - k,
    {
        if mantissa_digit(t, a, k) != 48 {
            return false;
        }
        k += 1;
    }
    true
}

/// The number that the first `limit` digits of the mantissa of `t` denote, where
/// it is at most `u128::MAX`.
fn prefix_of(t: &[u8], a: usize, limit: usize) -> (r: Option<u128>)
    requires
        is_decimal(t@),
        a == digit_run(t@, 0),
        limit <= mantissa(t@).len(),
    ensures
        r == bounded(Some(prefix_value(mantissa(t@), limit as nat))),
{
    let ghost d = mantissa(t@);
    let mut acc: u128 = 0;
    let mut k: usize = 0;
    while k < limit
        invariant
            k <= limit <= d.len(),
            is_decimal(t@),
            a == digit_run(t@, 0),
            d == mantissa(t@),
            acc == prefix_value(d, k as nat),
        decreases limit - k,
    {
        let digit: u128 = (mantissa_digit(t, a, k) - 48) as u128;
        if acc > (u128::MAX - digit) / 10 {
            proof {
                lemma_prefix_grows(d, (k + 1) as nat, limit as nat);
            }
            return None;
        }
        acc = acc * 10 + digit;
        k += 1;
    }
    Some(acc)
}

/// The number that the digits `d`, whose value `acc` is not 0, denote when zeros
/// follow them up to `to` digits in all, where it is at most `u128::MAX`.
fn padded(acc: u128, Ghost(d): Ghost<Seq<u8>>, dlen: usize, to: u128) -> (r: Option<u128>)
    requires
        dlen == d.len(),
        dlen <= to,
        acc >= 1,
        acc == prefix_value(d, dlen as nat),
    ensures
        r == bounded(Some(prefix_value(d, to as nat))),
{
    let mut acc: u128 = acc;
    let mut j: u128 = dlen as u128;
    while j < to
        invariant
            dlen <= j <= to,
            dlen == d.len(),
            acc >= 1,
            acc == prefix_value(d, j as nat),
        decreases to - j,
    {
        if acc > u128::MAX / 10 {
            proof {
                lemma_prefix_grows(d, (j + 1) as nat, to as nat);
            }
            return None;
        }
        acc = acc * 10;
        j += 1;
    }
    Some(acc)
}

/// The natural number that the decimal literal `t` denotes, where its value is one
/// and at most `u128::MAX`.
fn whole_of(t: &[u8]) -> (r: Option<u128>)
    requires
        is_decimal(t@),
    ensures
        r == bounded(whole(t@)),
{
    let ghost d = mantissa(t@);
    let ghost qr = whole_digits(t@);
    let (a, dlen, q) = whole_places(t);
    match q {
        Some(x) => {
            if x < dlen as u128 {
                if !zeros_behind(t, a, dlen, x as usize) {
                    return None;
                }
                prefix_of(t, a, x as usize)
            } else {
                match prefix_of(t, a, dlen) {
                    Some(acc) => {
                        if acc == 0 {
                            proof {
                                lemma_prefix_padded(d, dlen as nat, qr);
                            }
                            Some(0)
                        } else {
                            padded(acc, Ghost(d), dlen, x)
                        }
                    },
                    None => {
                        proof {
                            lemma_prefix_grows(d, dlen as nat, qr);
                        }
                        None
                    },
                }
            }
        },
        None => {
            proof {
                lemma_prefix_padded(d, dlen as nat, qr);
                lemma_prefix_grows(d, dlen as nat, qr);
            }
            match prefix_of(t, a, dlen) {
                Some(acc) => if acc == 0 {
                    Some(0)
                } else {
                    None
                },
                None => None,
            }
        },
    }
}

/// A JSON number, kept as the decimal literal that denotes it.
#[derive(Debug)]
pub struct Number {
    text: Vec<u8>,
}

impl View for Number {
    type V = Seq<u8>;

    /// The bytes of the literal.
    closed spec fn view(&self) -> Seq<u8> {
        self.text@
    }
}

/// The literal of the number of opposite sign: without its minus sign, or with one
/// before it.
pub open spec fn negation(t: Seq<u8>) -> Seq<u8> {
    if t.len() > 0 && t[0] == 45 {
        t.skip(1)
    } else {
        seq![45u8] + t
    }
}

impl Number {
    #[verifier::type_invariant]
    spec fn valid(self) -> bool {
        is_number_text(self.text@)
    }

    /// Tells whether `t` is a number literal.
    pub fn is_literal(t: &[u8]) -> (r: bool)
        ensures
            r == is_number_text(t@),
    {
        if t.len() > 0 && t[0] == 45 {
            scan_decimal(t, 1)
        } else {
            assert(t@.skip(0) =~= t@);
            scan_decimal(t, 0)
        }
    }

    /// The number that the bytes `text` denote, where they are a number literal.
    pub fn from_bytes(text: Vec<u8>) -> (r: Option<Number>)
        ensures
            r is Some <==> is_number_text(text@),
            r is Some ==> r->0@ == text@,
    {
        if Number::is_literal(text.as_slice()) {
            Some(Number { text })
        } else {
            None
        }
    }

    /// The number that `text` denotes, where it is a number literal.
    pub fn from_literal(text: &str) -> (r: Option<Number>)
        ensures
            r is Some <==> is_number_text(text.spec_bytes()),
            r is Some ==> r->0@ == text.spec_bytes(),
    {
        Number::from_bytes(text.as_bytes_vec())
    }

    /// The bytes of the literal.
    pub fn as_bytes(&self) -> (r: &[u8])
        ensures
            r@ == self@,
            is_number_text(r@),
    {
        proof {
            use_type_invariant(self);
        }
        self.text.as_slice()
    }

    /// The number `n`.
    pub fn from_u128(n: u128) -> (r: Number)
        ensures
            r@ == integer_text(n as int),
    {
        let mut text: Vec<u8> = Vec::new();
        push_digits(n, &mut text);
        proof {
            lemma_digits_of(n as nat);
            assert(text@ =~= digits_of(n as nat));
        }
        Number { text }
    }

    /// The number `n`.
    pub fn from_i128(n: i128) -> (r: Number)
        ensures
            r@ == integer_text(n as int),
    {
        if n >= 0 {
            Number::from_u128(n as u128)
        } else {
            let magnitude: u128 = (-(n + 1)) as u128 + 1;
            let mut text: Vec<u8> = Vec::new();
            text.push(45);
            push_digits(magnitude, &mut text);
            proof {
                lemma_digits_of(magnitude as nat);
                assert(text@ =~= seq![45u8] + digits_of(magnitude as nat));
                assert(text@.skip(1) =~= digits_of(magnitude as nat));
            }
            Number { text }
        }
    }

    /// The number as an unsigned integer, where its literal has no sign, its value
    /// is an integer and that is at most `u128::MAX`.
    pub fn to_u128(&self) -> (r: Option<u128>)
        ensures
            r == bounded(whole(self@)),
    {
        proof {
            use_type_invariant(self);
        }
        if self.text.len() > 0 && self.text[0] == 45 {
            assert(!is_digit(self.text@[0]));
            None
        } else {
            whole_of(self.text.as_slice())
        }
    }

    /// The number as a signed integer, where its value is an integer and that is one
    /// of `i128`.
    pub fn to_i128(&self) -> (r: Option<i128>)
        ensures
            r == match integer(self@) {
                Some(n) => if i128::MIN <= n <= i128::MAX {
                    Some(n as i128)
                } else {
                    None
                },
                None => None,
            },
    {
        proof {
            use_type_invariant(self);
        }
        if self.text.len() > 0 && self.text[0] == 45 {
            let rest = tail(self.text.as_slice(), 1);
            match whole_of(rest.as_slice()) {
                Some(m) => {
                    if m <= 0x7fff_ffff_ffff_ffff_ffff_ffff_ffff_ffff {
                        Some(-(m as i128))
                    } else if m == 0x8000_0000_0000_0000_0000_0000_0000_0000 {
                        Some(i128::MIN)
                    } else {
                        None
                    }
                },
                None => None,
            }
        } else {
            match whole_of(self.text.as_slice()) {
                Some(m) => {
                    if m <= 0x7fff_ffff_ffff_ffff_ffff_ffff_ffff_ffff {
                        Some(m as i128)
                    } else {
                        None
                    }
                },
                None => None,
            }
        }
    }

    /// The number of opposite sign.
    pub fn negated(self) -> (r: Number)
        ensures
            r@ == negation(self@),
    {
        proof {
            use_type_invariant(&self);
        }
        let mut text = self.text;
        if text.len() > 0 && text[0] == 45 {
            let _ = text.remove(0);
            assert(text@ =~= negation(self@));
        } else {
            text.insert(0, 45);
            assert(text@ =~= negation(self@));
            assert(text@.skip(1) =~= self@);
        }
        Number { text }
    }

    /// The literal as a string.
    pub fn to_text(&self) -> (r: String)
        ensures
            r@ == as_chars(self@),
    {
        let mut out = String::new();
        push_bytes(&mut out, self.text.as_slice());
        assert(out@ =~= as_chars(self@));
        out
    }

    /// Whether the two numbers have the same literal.
    pub fn equals(&self, other: &Number) -> (r: bool)
        ensures
            r == (self@ == other@),
    {
        if self.text.len() != other.text.len() {
            return false;
        }
        let mut i: usize = 0;
        while i < self.text.len()
            invariant
                i <= self.text@.len(),
                self.text@.len() == other.text@.len(),
                self.text@.take(i as int) == other.text@.take(i as int),
            decreases self.text@.len() - i,
        {
            if self.text[i] != other.text[i] {
                return false;
            }
            assert(self.text@.take(i + 1) =~= self.text@.take(i as int).push(self.text@[i as int]));
            assert(other.text@.take(i + 1) =~= other.text@.take(i as int).push(
                other.text@[i as int],
            ));
            i += 1;
        }
        assert(self.text@ =~= self.text@.take(i as int));
        assert(other.text@ =~= other.text@.take(i as int));
        true
    }

    /// A copy of the number.
    pub fn duplicate(&self) -> (r: Number)
        ensures
            r@ == self@,
    {
        proof {
            use_type_invariant(self);
        }
        Number { text: self.text.clone() }
    }
}

impl Clone for Number {
    /// A number with the same literal.
    fn clone(&self) -> (r: Self)
        ensures
            r@ == self@,
    {
        self.duplicate()
    }
}

} // verus!
