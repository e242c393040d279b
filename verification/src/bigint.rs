//! Signed integers of arbitrary size, held in base ten.
//!
//! Amounts travel through decoding as decimal text and are only turned into
//! integers when they are accumulated, so the integer type is built for exactly
//! that: read decimal text, add, render decimal text.

use vstd::prelude::*;

verus! {

/// Ten to the power `n`.
pub open spec fn pow10(n: nat) -> nat
    decreases n,
{
    if n == 0 {
        1
    } else {
        10 * pow10((n - 1) as nat)
    }
}

/// Value of a run of decimal digits, least significant digit first.
pub open spec fn digits_value(digits: Seq<u8>) -> nat
    decreases digits.len(),
{
    if digits.len() == 0 {
        0
    } else {
        digits[0] as nat + 10 * digits_value(digits.skip(1))
    }
}

/// Every element is a decimal digit.
pub open spec fn all_decimal(digits: Seq<u8>) -> bool {
    forall|i: int| 0 <= i < digits.len() ==> #[trigger] digits[i] < 10
}

/// Decimal digits, least significant first, whose most significant digit is
/// not zero. Zero is the empty run.
pub open spec fn canonical(digits: Seq<u8>) -> bool {
    all_decimal(digits) && (digits.len() > 0 ==> digits.last() != 0)
}

/// The character of a decimal digit.
pub open spec fn digit_char(d: int) -> char {
    seq!['0', '1', '2', '3', '4', '5', '6', '7', '8', '9'][d]
}

/// The decimal digits of a natural number, most significant first, without
/// leading zeros; zero is the single digit `0`.
pub open spec fn decimal_digits(n: nat) -> Seq<char>
    decreases n,
{
    if n < 10 {
        seq![digit_char(n as int)]
    } else {
        decimal_digits(n / 10).push(digit_char((n % 10) as int))
    }
}

/// Base-10 rendering of an integer: a minus sign for a negative number, then
/// the digits of its magnitude.
pub open spec fn decimal_string(n: int) -> Seq<char> {
    if n < 0 {
        seq!['-'] + decimal_digits((-n) as nat)
    } else {
        decimal_digits(n as nat)
    }
}

/// The digits of a decimal text: the text itself, or what follows its minus
/// sign.
pub open spec fn decimal_body(text: Seq<char>) -> Seq<char> {
    if text.len() > 0 && text[0] == '-' {
        text.skip(1)
    } else {
        text
    }
}

/// A decimal text is an optional minus sign followed by at least one decimal
/// digit and nothing else. Leading zeros are allowed.
pub open spec fn is_decimal(text: Seq<char>) -> bool {
    let body = decimal_body(text);
    body.len() > 0 && forall|i: int| 0 <= i < body.len() ==> '0' <= #[trigger] body[i] <= '9'
}

/// Value of a run of digit characters, most significant first.
pub open spec fn body_value(body: Seq<char>) -> nat
    decreases body.len(),
{
    if body.len() == 0 {
        0
    } else {
        (10 * body_value(body.drop_last()) + (body.last() as int - '0' as int)) as nat
    }
}

/// The integer that a decimal text stands for.
pub open spec fn decimal_value(text: Seq<char>) -> int {
    if text.len() > 0 && text[0] == '-' {
        -(body_value(text.skip(1)) as int)
    } else {
        body_value(text) as int
    }
}

/// A digit put at the most significant end counts by the power of ten of its
/// place.
proof fn lemma_value_push(digits: Seq<u8>, d: u8)
    ensures
        digits_value(digits.push(d)) == digits_value(digits) + d * pow10(digits.len()),
    decreases digits.len(),
{
    let longer = digits.push(d);
    assert(digits_value(longer) == longer[0] as nat + 10 * digits_value(longer.skip(1)));
    if digits.len() == 0 {
        assert(longer.skip(1) =~= Seq::<u8>::empty());
        assert(digits_value(longer.skip(1)) == 0);
        assert(digits_value(digits) == 0);
        assert(pow10(digits.len()) == 1);
        assert(d * pow10(digits.len()) == d) by (nonlinear_arith)
            requires
                pow10(digits.len()) == 1,
        ;
    } else {
        let rest = digits.skip(1);
        assert(longer.skip(1) =~= rest.push(d));
        assert(longer[0] == digits[0]);
        lemma_value_push(rest, d);
        let p = pow10(rest.len());
        assert(pow10(digits.len()) == 10 * p);
        assert(10 * (d * p) == d * (10 * p)) by (nonlinear_arith);
        assert(digits_value(digits) == digits[0] as nat + 10 * digits_value(rest));
    }
}

/// A run of decimal digits stands for less than ten to the power of its
/// length.
proof fn lemma_value_bound(digits: Seq<u8>)
    requires
        all_decimal(digits),
    ensures
        digits_value(digits) < pow10(digits.len()),
    decreases digits.len(),
{
    if digits.len() > 0 {
        let rest = digits.skip(1);
        assert(all_decimal(rest)) by {
            assert forall|i: int| 0 <= i < rest.len() implies #[trigger] rest[i] < 10 by {
                assert(rest[i] == digits[i + 1]);
            }
        }
        lemma_value_bound(rest);
        assert(digits[0] < 10);
    }
}

/// The value of one digit more of a run.
proof fn lemma_value_take(digits: Seq<u8>, i: int)
    requires
        0 <= i < digits.len(),
    ensures
        digits_value(digits.take(i + 1)) == digits_value(digits.take(i)) + digits[i] * pow10(
            i as nat,
        ),
{
    assert(digits.take(i + 1) =~= digits.take(i).push(digits[i]));
    lemma_value_push(digits.take(i), digits[i]);
}

/// A canonical run that is not empty stands for a positive number.
proof fn lemma_canonical_positive(digits: Seq<u8>)
    requires
        canonical(digits),
        digits.len() > 0,
    ensures
        digits_value(digits) > 0,
    decreases digits.len(),
{
    if digits.len() > 1 {
        let rest = digits.skip(1);
        assert(rest.last() == digits.last());
        assert(all_decimal(rest)) by {
            assert forall|i: int| 0 <= i < rest.len() implies #[trigger] rest[i] < 10 by {
                assert(rest[i] == digits[i + 1]);
            }
        }
        lemma_canonical_positive(rest);
    } else {
        assert(digits[0] == digits.last());
        assert(digits.skip(1) =~= Seq::<u8>::empty());
    }
}

/// Two canonical digit runs of one value are the same run.
proof fn lemma_canonical_unique(a: Seq<u8>, b: Seq<u8>)
    requires
        canonical(a),
        canonical(b),
        digits_value(a) == digits_value(b),
    ensures
        a == b,
    decreases a.len(),
{
    if a.len() == 0 {
        if b.len() > 0 {
            lemma_canonical_positive(b);
        }
        assert(a =~= b);
    } else if b.len() == 0 {
        lemma_canonical_positive(a);
    } else {
        let ra = a.skip(1);
        let rb = b.skip(1);
        assert(a[0] < 10 && b[0] < 10);
        assert(a[0] == b[0]);
        assert(digits_value(ra) == digits_value(rb));
        assert(canonical(ra)) by {
            assert forall|i: int| 0 <= i < ra.len() implies #[trigger] ra[i] < 10 by {
                assert(ra[i] == a[i + 1]);
            }
            if ra.len() > 0 {
                assert(ra.last() == a.last());
            }
        }
        assert(canonical(rb)) by {
            assert forall|i: int| 0 <= i < rb.len() implies #[trigger] rb[i] < 10 by {
                assert(rb[i] == b[i + 1]);
            }
            if rb.len() > 0 {
                assert(rb.last() == b.last());
            }
        }
        lemma_canonical_unique(ra, rb);
        assert(a =~= seq![a[0]] + ra);
        assert(b =~= seq![b[0]] + rb);
    }
}

/// Drops the zeros at the most significant end.
fn trimmed(digits: Vec<u8>) -> (r: Vec<u8>)
    requires
        all_decimal(digits@),
    ensures
        canonical(r@),
        digits_value(r@) == digits_value(digits@),
{
    let mut r = digits;
    while r.len() > 0 && r[r.len() - 1] == 0
        invariant
            all_decimal(r@),
            digits_value(r@) == digits_value(digits@),
        decreases r.len(),
    {
        proof {
            let shorter = r@.drop_last();
            assert(r@ =~= shorter.push(0u8));
            lemma_value_push(shorter, 0u8);
        }
        r.pop();
    }
    r
}

/// The digit at `i`, or zero past the most significant digit.
fn digit_at(digits: &Vec<u8>, i: usize) -> (d: u8)
    requires
        all_decimal(digits@),
    ensures
        d < 10,
        d == (if i < digits@.len() {
            digits@[i as int]
        } else {
            0u8
        }),
{
    if i < digits.len() {
        digits[i]
    } else {
        0
    }
}

/// Value of the first `i` digits, or of all of them where there are fewer.
spec fn low_value(digits: Seq<u8>, i: int) -> nat {
    if i <= digits.len() {
        digits_value(digits.take(i))
    } else {
        digits_value(digits)
    }
}

/// At or past the length of a run the low value is the value.
proof fn lemma_low_value_all(digits: Seq<u8>, i: int)
    requires
        i >= digits.len(),
    ensures
        low_value(digits, i) == digits_value(digits),
{
    if i == digits.len() {
        assert(digits.take(i) =~= digits);
    }
}

/// The low value grows by the next digit at its place.
proof fn lemma_low_value_step(digits: Seq<u8>, i: int)
    requires
        0 <= i,
    ensures
        low_value(digits, i + 1) == low_value(digits, i) + (if i < digits.len() {
            digits[i]
        } else {
            0u8
        }) * pow10(i as nat),
{
    if i < digits.len() {
        lemma_value_take(digits, i);
        if i + 1 == digits.len() {
            assert(digits.take(i + 1) =~= digits);
        }
    } else {
        if i == digits.len() {
            assert(digits.take(i) =~= digits);
        }
    }
}

/// Sum of two magnitudes.
fn magnitude_sum(a: &Vec<u8>, b: &Vec<u8>) -> (r: Vec<u8>)
    requires
        all_decimal(a@),
        all_decimal(b@),
    ensures
        canonical(r@),
        digits_value(r@) == digits_value(a@) + digits_value(b@),
{
    let n = if a.len() >= b.len() {
        a.len()
    } else {
        b.len()
    };
    let mut r: Vec<u8> = Vec::new();
    let mut carry: u8 = 0;
    let mut i: usize = 0;
    proof {
        assert(a@.take(0) =~= Seq::<u8>::empty());
        assert(b@.take(0) =~= Seq::<u8>::empty());
    }
    while i < n
        invariant
            i <= n,
            n >= a@.len(),
            n >= b@.len(),
            all_decimal(a@),
            all_decimal(b@),
            all_decimal(r@),
            r@.len() == i,
            carry <= 1,
            digits_value(r@) + carry * pow10(i as nat) == low_value(a@, i as int) + low_value(
                b@,
                i as int,
            ),
        decreases n - i,
    {
        let da = digit_at(a, i);
        let db = digit_at(b, i);
        let total: u8 = da + db + carry;
        let digit: u8 = if total >= 10 {
            total - 10
        } else {
            total
        };
        let next: u8 = if total >= 10 {
            1
        } else {
            0
        };
        proof {
            let p = pow10(i as nat);
            lemma_low_value_step(a@, i as int);
            lemma_low_value_step(b@, i as int);
            lemma_value_push(r@, digit);
            assert(pow10((i + 1) as nat) == 10 * p);
            assert(digit * p + next * (10 * p) == (da + db + carry) * p) by (nonlinear_arith)
                requires
                    digit + 10 * next == da + db + carry,
            ;
            assert((da + db + carry) * p == da * p + db * p + carry * p) by (nonlinear_arith);
        }
        r.push(digit);
        carry = next;
        i = i + 1;
    }
    proof {
        lemma_value_push(r@, carry);
        lemma_low_value_all(a@, n as int);
        lemma_low_value_all(b@, n as int);
    }
    r.push(carry);
    trimmed(r)
}

/// Difference of two magnitudes, modulo the next power of ten: `borrowed`
/// tells that the second was the larger.
fn magnitude_difference(a: &Vec<u8>, b: &Vec<u8>) -> (r: (Vec<u8>, bool))
    requires
        all_decimal(a@),
        all_decimal(b@),
    ensures
        all_decimal(r.0@),
        r.1 <==> digits_value(a@) < digits_value(b@),
        !r.1 ==> digits_value(r.0@) == digits_value(a@) - digits_value(b@),
{
    let n = if a.len() >= b.len() {
        a.len()
    } else {
        b.len()
    };
    let mut r: Vec<u8> = Vec::new();
    let mut borrow: u8 = 0;
    let mut i: usize = 0;
    proof {
        assert(a@.take(0) =~= Seq::<u8>::empty());
        assert(b@.take(0) =~= Seq::<u8>::empty());
    }
    while i < n
        invariant
            i <= n,
            n >= a@.len(),
            n >= b@.len(),
            all_decimal(a@),
            all_decimal(b@),
            all_decimal(r@),
            r@.len() == i,
            borrow <= 1,
            digits_value(r@) - borrow * pow10(i as nat) == low_value(a@, i as int) - low_value(
                b@,
                i as int,
            ),
        decreases n - i,
    {
        let da = digit_at(a, i);
        let db = digit_at(b, i);
        let lowers = da < db + borrow;
        let digit: u8 = if lowers {
            da + 10 - db - borrow
        } else {
            da - db - borrow
        };
        let next: u8 = if lowers {
            1
        } else {
            0
        };
        proof {
            let p = pow10(i as nat);
            lemma_low_value_step(a@, i as int);
            lemma_low_value_step(b@, i as int);
            lemma_value_push(r@, digit);
            assert(pow10((i + 1) as nat) == 10 * p);
            assert(digit * p - next * (10 * p) == (da - db - borrow) * p) by (nonlinear_arith)
                requires
                    digit - 10 * next == da - db - borrow,
            ;
            assert((da - db - borrow) * p == da * p - db * p - borrow * p) by (nonlinear_arith);
        }
        r.push(digit);
        borrow = next;
        i = i + 1;
    }
    proof {
        lemma_value_bound(r@);
        lemma_low_value_all(a@, n as int);
        lemma_low_value_all(b@, n as int);
    }
    (r, borrow == 1)
}

/// The digits of a text body, least significant first.
spec fn body_digits(body: Seq<char>) -> Seq<u8> {
    Seq::new(body.len(), |k: int| (body[body.len() - 1 - k] as int - '0' as int) as u8)
}

/// The digits of a text body stand for the value of the body.
proof fn lemma_body_digits(body: Seq<char>)
    requires
        forall|i: int| 0 <= i < body.len() ==> '0' <= #[trigger] body[i] <= '9',
    ensures
        all_decimal(body_digits(body)),
        digits_value(body_digits(body)) == body_value(body),
    decreases body.len(),
{
    let digits = body_digits(body);
    if body.len() > 0 {
        let init = body.drop_last();
        assert(body_digits(init) =~= digits.skip(1));
        lemma_body_digits(init);
        assert(digits[0] as int == body.last() as int - '0' as int);
    }
}

/// The characters of a digit run, most significant first.
spec fn digits_text(digits: Seq<u8>) -> Seq<char> {
    Seq::new(digits.len(), |k: int| digit_char(digits[digits.len() - 1 - k] as int))
}

/// The decimal digits of the value of a canonical run are the characters of
/// the run.
proof fn lemma_digits_text(digits: Seq<u8>)
    requires
        canonical(digits),
        digits.len() > 0,
    ensures
        decimal_digits(digits_value(digits)) == digits_text(digits),
    decreases digits.len(),
{
    let rest = digits.skip(1);
    let value = digits_value(digits);
    assert(digits[0] < 10);
    assert(value == digits[0] as nat + 10 * digits_value(rest));
    if digits.len() == 1 {
        assert(rest =~= Seq::<u8>::empty());
        assert(digits_value(rest) == 0);
        assert(digits_text(digits) =~= seq![digit_char(digits[0] as int)]);
    } else {
        assert(canonical(rest)) by {
            assert forall|i: int| 0 <= i < rest.len() implies #[trigger] rest[i] < 10 by {
                assert(rest[i] == digits[i + 1]);
            }
            assert(rest.last() == digits.last());
        }
        lemma_canonical_positive(rest);
        lemma_digits_text(rest);
        assert(value / 10 == digits_value(rest));
        assert(value % 10 == digits[0] as nat);
        assert(digits_text(digits) =~= digits_text(rest).push(digit_char(digits[0] as int)));
    }
}

/// The one-character text of a decimal digit.
fn digit_text(d: u8) -> (text: &'static str)
    requires
        d < 10,
    ensures
        text@ == seq![digit_char(d as int)],
{
    proof {
        reveal_strlit("0");
        reveal_strlit("1");
        reveal_strlit("2");
        reveal_strlit("3");
        reveal_strlit("4");
        reveal_strlit("5");
        reveal_strlit("6");
        reveal_strlit("7");
        reveal_strlit("8");
        reveal_strlit("9");
    }
    let text = if d == 0 {
        "0"
    } else if d == 1 {
        "1"
    } else if d == 2 {
        "2"
    } else if d == 3 {
        "3"
    } else if d == 4 {
        "4"
    } else if d == 5 {
        "5"
    } else if d == 6 {
        "6"
    } else if d == 7 {
        "7"
    } else if d == 8 {
        "8"
    } else {
        "9"
    };
    assert(text@ =~= seq![digit_char(d as int)]);
    text
}

/// A signed integer of arbitrary size.
///
/// Its view is the integer it stands for.
#[derive(Debug, PartialEq, Eq)]
pub struct BigInt {
    negative: bool,
    digits: Vec<u8>,
}

impl View for BigInt {
    type V = int;

    closed spec fn view(&self) -> int {
        if self.negative {
            -(digits_value(self.digits@) as int)
        } else {
            digits_value(self.digits@) as int
        }
    }
}

impl BigInt {
    /// The magnitude has no leading zero, and zero carries no sign.
    #[verifier::type_invariant]
    spec fn well_formed(self) -> bool {
        canonical(self.digits@) && (self.negative ==> self.digits@.len() > 0)
    }

    /// The number of a sign and a magnitude; zeros at the most significant end
    /// are dropped, and zero gets no sign.
    fn from_parts(negative: bool, digits: Vec<u8>) -> (r: BigInt)
        requires
            all_decimal(digits@),
        ensures
            r@ == (if negative {
                -(digits_value(digits@) as int)
            } else {
                digits_value(digits@) as int
            }),
    {
        let digits = trimmed(digits);
        let negative = negative && digits.len() > 0;
        BigInt { negative, digits }
    }

    /// Zero.
    pub fn zero() -> (r: BigInt)
        ensures
            r@ == 0,
    {
        BigInt { negative: false, digits: Vec::new() }
    }

    /// The integer of an unsigned machine word.
    pub fn from_u64(n: u64) -> (r: BigInt)
        ensures
            r@ == n,
    {
        let mut digits: Vec<u8> = Vec::new();
        let mut rest: u64 = n;
        assert(rest * pow10(digits@.len()) == rest) by (nonlinear_arith)
            requires
                pow10(digits@.len()) == 1,
        ;
        while rest > 0
            invariant
                all_decimal(digits@),
                n == digits_value(digits@) + rest * pow10(digits@.len()),
            decreases rest,
        {
            let digit: u8 = (rest % 10) as u8;
            proof {
                let p = pow10(digits@.len());
                lemma_value_push(digits@, digit);
                assert(pow10((digits@.len() + 1) as nat) == 10 * p);
                assert(rest * p == digit * p + (rest / 10) * (10 * p)) by (nonlinear_arith)
                    requires
                        rest == digit + 10 * (rest / 10),
                ;
            }
            digits.push(digit);
            rest = rest / 10;
        }
        assert(rest * pow10(digits@.len()) == 0) by (nonlinear_arith)
            requires
                rest == 0,
        ;
        BigInt::from_parts(false, digits)
    }

    /// The integer of a signed machine word.
    pub fn from_i64(n: i64) -> (r: BigInt)
        ensures
            r@ == n,
    {
        if n >= 0 {
            BigInt::from_u64(n as u64)
        } else {
            let magnitude: u64 = (-(n + 1)) as u64 + 1;
            BigInt::from_u64(magnitude).negated()
        }
    }

    /// Reads a decimal text: an optional minus sign, then one or more decimal
    /// digits. Anything else is no integer and gives `None`.
    pub fn parse(text: &str) -> (r: Option<BigInt>)
        ensures
            r is Some <==> is_decimal(text@),
            r matches Some(v) ==> v@ == decimal_value(text@),
    {
        if !text.is_ascii() {
            proof {
                if is_decimal(text@) {
                    let body = decimal_body(text@);
                    assert forall|i: int| 0 <= i < text@.len() implies '\0' <= #[trigger] text@[i]
                        <= '\u{7f}' by {
                        if body.len() == text@.len() {
                            assert('0' <= body[i] <= '9');
                        } else if i > 0 {
                            assert(body[i - 1] == text@[i]);
                            assert('0' <= body[i - 1] <= '9');
                        }
                    }
                }
            }
            return None;
        }
        let bytes = text.as_bytes();
        proof {
            vstd::string::is_ascii_spec_bytes(text);
        }
        let n = bytes.len();
        let signed = n > 0 && bytes[0] == 45;
        let start: usize = if signed {
            1
        } else {
            0
        };
        let ghost body = decimal_body(text@);
        assert(signed <==> (text@.len() > 0 && text@[0] == '-'));
        assert(body.len() == n - start);
        if start == n {
            return None;
        }
        let mut digits: Vec<u8> = Vec::new();
        let mut i: usize = n;
        while i > start
            invariant
                start <= i <= n,
                n == text@.len(),
                n == bytes@.len(),
                body == decimal_body(text@),
                body.len() == n - start,
                forall|k: int| 0 <= k < n ==> bytes@[k] == text@[k] as u8,
                forall|k: int| 0 <= k < n ==> '\0' <= #[trigger] text@[k] <= '\u{7f}',
                forall|k: int| 0 <= k < body.len() ==> body[k] == text@[k + start],
                digits@.len() == n - i,
                forall|k: int| i - start <= k < body.len() ==> '0' <= #[trigger] body[k] <= '9',
                forall|k: int|
                    0 <= k < digits@.len() ==> #[trigger] digits@[k] == body_digits(body)[k],
            decreases i,
        {
            i = i - 1;
            let b = bytes[i];
            assert(b == text@[i as int] as u8);
            assert(body[i - start] == text@[i as int]);
            if b < 48 || b > 57 {
                assert(!('0' <= body[i - start] <= '9'));
                return None;
            }
            digits.push(b - 48);
        }
        proof {
            assert(digits@ =~= body_digits(body));
            lemma_body_digits(body);
        }
        Some(BigInt::from_parts(signed, digits))
    }

    /// Base-10 rendering: a minus sign for a negative number, then the digits
    /// without leading zeros.
    pub fn to_decimal(&self) -> (text: String)
        ensures
            text@ == decimal_string(self@),
    {
        proof {
            use_type_invariant(self);
        }
        let n = self.digits.len();
        if n == 0 {
            let text = String::from_str(digit_text(0));
            return text;
        }
        proof {
            lemma_digits_text(self.digits@);
            lemma_canonical_positive(self.digits@);
        }
        let mut text = String::new();
        if self.negative {
            proof {
                reveal_strlit("-");
            }
            text.append("-");
        }
        let ghost sign = text@;
        assert(sign =~= (if self.negative {
            seq!['-']
        } else {
            Seq::<char>::empty()
        }));
        let mut i: usize = n;
        while i > 0
            invariant
                i <= n,
                n == self.digits@.len(),
                all_decimal(self.digits@),
                text@ == sign + digits_text(self.digits@).take(n - i),
            decreases i,
        {
            i = i - 1;
            let piece = digit_text(self.digits[i]);
            text.append(piece);
            assert(text@ =~= sign + digits_text(self.digits@).take(n - i));
        }
        assert(digits_text(self.digits@).take(n as int) =~= digits_text(self.digits@));
        text
    }

    /// The number with its sign turned.
    pub fn negated(&self) -> (r: BigInt)
        ensures
            r@ == -self@,
    {
        proof {
            use_type_invariant(self);
        }
        let digits = self.digits.clone();
        assert(digits@ =~= self.digits@);
        BigInt::from_parts(!self.negative, digits)
    }

    /// The sum of two numbers.
    pub fn plus(&self, other: &BigInt) -> (r: BigInt)
        ensures
            r@ == self@ + other@,
    {
        proof {
            use_type_invariant(self);
            use_type_invariant(other);
        }
        if self.negative == other.negative {
            let digits = magnitude_sum(&self.digits, &other.digits);
            BigInt::from_parts(self.negative, digits)
        } else {
            let (digits, borrowed) = magnitude_difference(&self.digits, &other.digits);
            if !borrowed {
                BigInt::from_parts(self.negative, digits)
            } else {
                let (digits, _) = magnitude_difference(&other.digits, &self.digits);
                BigInt::from_parts(other.negative, digits)
            }
        }
    }

    /// Whether two numbers are the same integer.
    pub fn equals(&self, other: &BigInt) -> (r: bool)
        ensures
            r == (self@ == other@),
    {
        proof {
            use_type_invariant(self);
            use_type_invariant(other);
            if self.digits@.len() > 0 {
                lemma_canonical_positive(self.digits@);
            }
            if other.digits@.len() > 0 {
                lemma_canonical_positive(other.digits@);
            }
            if self@ == other@ {
                lemma_canonical_unique(self.digits@, other.digits@);
            }
        }
        self.negative == other.negative && same_digits(&self.digits, &other.digits)
    }

    /// Whether the number is zero.
    pub fn is_zero(&self) -> (r: bool)
        ensures
            r == (self@ == 0),
    {
        proof {
            use_type_invariant(self);
            if self.digits@.len() > 0 {
                lemma_canonical_positive(self.digits@);
            }
        }
        self.digits.len() == 0
    }

    /// Whether the number is below zero.
    pub fn is_negative(&self) -> (r: bool)
        ensures
            r == (self@ < 0),
    {
        proof {
            use_type_invariant(self);
            if self.digits@.len() > 0 {
                lemma_canonical_positive(self.digits@);
            }
        }
        self.negative
    }
}

impl Clone for BigInt {
    fn clone(&self) -> (r: BigInt)
        ensures
            r@ == self@,
    {
        proof {
            use_type_invariant(self);
        }
        let digits = self.digits.clone();
        assert(digits@ =~= self.digits@);
        BigInt { negative: self.negative, digits }
    }
}

/// Whether two digit runs hold the same digits.
fn same_digits(a: &Vec<u8>, b: &Vec<u8>) -> (r: bool)
    ensures
        r == (a@ == b@),
{
    if a.len() != b.len() {
        return false;
    }
    let mut i: usize = 0;
    while i < a.len()
        invariant
            i <= a@.len(),
            a@.len() == b@.len(),
            forall|k: int| 0 <= k < i ==> a@[k] == b@[k],
        decreases a@.len() - i,
    {
        if a[i] != b[i] {
            return false;
        }
        i = i + 1;
    }
    assert(a@ =~= b@);
    true
}

/// The decimal digits of a number are digits, at least one, and stand for the
/// number.
proof fn lemma_decimal_digits(n: nat)
    ensures
        decimal_digits(n).len() > 0,
        forall|i: int|
            0 <= i < decimal_digits(n).len() ==> '0' <= #[trigger] decimal_digits(n)[i] <= '9',
        body_value(decimal_digits(n)) == n,
    decreases n,
{
    let digits = decimal_digits(n);
    if n < 10 {
        assert(digits =~= seq![digit_char(n as int)]);
        assert(digits.drop_last() =~= Seq::<char>::empty());
        assert(body_value(digits.drop_last()) == 0);
        assert(digits.last() == digit_char(n as int));
        assert(digit_char(n as int) as int - '0' as int == n);
    } else {
        let init = decimal_digits(n / 10);
        lemma_decimal_digits(n / 10);
        let last = digit_char((n % 10) as int);
        assert(digits == init.push(last));
        assert(digits.drop_last() =~= init);
        assert(digits.last() == last);
        assert(last as int - '0' as int == n % 10);
        assert forall|i: int| 0 <= i < digits.len() implies '0' <= #[trigger] digits[i] <= '9' by {
            if i < init.len() {
                assert(digits[i] == init[i]);
            }
        }
    }
}

/// Rendering and reading agree: the rendering of an integer is a decimal text,
/// and the integer that it stands for is the one that was rendered.
pub proof fn lemma_decimal_round_trip(n: int)
    ensures
        is_decimal(decimal_string(n)),
        decimal_value(decimal_string(n)) == n,
{
    let text = decimal_string(n);
    if n < 0 {
        let digits = decimal_digits((-n) as nat);
        lemma_decimal_digits((-n) as nat);
        assert(text[0] == '-');
        assert(text.skip(1) =~= digits);
    } else {
        lemma_decimal_digits(n as nat);
        assert('0' <= text[0] <= '9');
    }
}

} // verus!
