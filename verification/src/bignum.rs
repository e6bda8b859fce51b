use vstd::prelude::*;
use vstd::arithmetic::div_mod::lemma_fundamental_div_mod;
use vstd::arithmetic::div_mod::lemma_fundamental_div_mod_converse;
use vstd::arithmetic::div_mod::lemma_mod_multiples_vanish;
use num_bigint::BigUint;
use num_bigint::RandBigInt;

verus! {

/// A non-negative arbitrary-precision integer, stored as little-endian
/// base-2^32 digits with no trailing zero digit.
pub struct BigNum {
    pub digits: Vec<u32>,
}

/// The integer denoted by a little-endian base-2^32 digit sequence.
pub open spec fn value_of(s: Seq<u32>) -> int
    decreases s.len(),
{
    if s.len() == 0 {
        0
    } else {
        s[0] + 0x1_0000_0000 * value_of(s.drop_first())
    }
}

impl View for BigNum {
    type V = int;

    open spec fn view(&self) -> int {
        value_of(self.digits@)
    }
}

impl BigNum {
    /// Canonical form: no trailing zero digit, so zero is the empty digit vector.
    pub open spec fn wf(&self) -> bool {
        self.digits@.len() > 0 ==> self.digits@.last() != 0
    }
}

pub proof fn lemma_value_nonneg(s: Seq<u32>)
    ensures
        value_of(s) >= 0,
    decreases s.len(),
{
    if s.len() > 0 {
        lemma_value_nonneg(s.drop_first());
    }
}

pub proof fn lemma_value_pos(s: Seq<u32>)
    requires
        s.len() > 0,
        s.last() != 0,
    ensures
        value_of(s) > 0,
    decreases s.len(),
{
    if s.len() == 1 {
        assert(value_of(s) == s[0] + 0x1_0000_0000 * value_of(s.drop_first()));
    } else {
        let t = s.drop_first();
        assert(t.last() == s.last());
        lemma_value_pos(t);
    }
}

/// In canonical form, the empty digit vector is the one representation of zero.
pub proof fn lemma_value_zero(n: BigNum)
    requires
        n.wf(),
    ensures
        n@ == 0 <==> n.digits@.len() == 0,
{
    if n.digits@.len() > 0 {
        lemma_value_pos(n.digits@);
    }
}

/// Canonical digit vectors are the unique representation of their value.
pub proof fn lemma_value_injective(a: Seq<u32>, b: Seq<u32>)
    requires
        a.len() > 0 ==> a.last() != 0,
        b.len() > 0 ==> b.last() != 0,
        value_of(a) == value_of(b),
    ensures
        a == b,
    decreases a.len(),
{
    if a.len() == 0 {
        if b.len() > 0 {
            lemma_value_pos(b);
        }
        assert(a =~= b);
    } else if b.len() == 0 {
        lemma_value_pos(a);
    } else {
        let ra = value_of(a.drop_first());
        let rb = value_of(b.drop_first());
        lemma_value_nonneg(a.drop_first());
        lemma_value_nonneg(b.drop_first());
        assert(value_of(a) == ra * 0x1_0000_0000 + a[0]);
        assert(value_of(b) == rb * 0x1_0000_0000 + b[0]);
        lemma_fundamental_div_mod_converse(value_of(a), 0x1_0000_0000, ra, a[0] as int);
        lemma_fundamental_div_mod_converse(value_of(b), 0x1_0000_0000, rb, b[0] as int);
        assert(a[0] == b[0]);
        assert(ra == rb);
        assert(a.len() > 1 ==> a.drop_first().last() == a.last());
        assert(b.len() > 1 ==> b.drop_first().last() == b.last());
        lemma_value_injective(a.drop_first(), b.drop_first());
        assert(a.len() == b.len());
        assert forall|i: int| 0 <= i < a.len() implies a[i] == b[i] by {
            if i > 0 {
                assert(a[i] == a.drop_first()[i - 1]);
                assert(b[i] == b.drop_first()[i - 1]);
            }
        }
        assert(a =~= b);
    }
}

/// The parity of a digit vector's value is the parity of its lowest digit.
pub proof fn lemma_value_parity(s: Seq<u32>)
    requires
        s.len() > 0,
    ensures
        value_of(s) % 2 == (s[0] as int) % 2,
{
    let r = value_of(s.drop_first());
    lemma_value_nonneg(s.drop_first());
    assert(value_of(s) == 2 * (0x8000_0000 * r) + s[0]);
    lemma_mod_multiples_vanish(0x8000_0000 * r, s[0] as int, 2);
}

impl Clone for BigNum {
    fn clone(&self) -> (r: Self)
        ensures
            r.digits@ == self.digits@,
    {
        let mut d: Vec<u32> = Vec::new();
        let mut i: usize = 0;
        while i < self.digits.len()
            invariant
                i <= self.digits@.len(),
                d@ == self.digits@.subrange(0, i as int),
            decreases self.digits@.len() - i,
        {
            d.push(self.digits[i]);
            i = i + 1;
            proof {
                assert(d@ =~= self.digits@.subrange(0, i as int));
            }
        }
        proof {
            assert(d@ =~= self.digits@);
        }
        BigNum { digits: d }
    }
}

impl BigNum {
    pub fn from_u64(x: u64) -> (r: BigNum)
        ensures
            r.wf(),
            r@ == x,
    {
        let lo: u32 = (x % 0x1_0000_0000) as u32;
        let hi: u32 = (x / 0x1_0000_0000) as u32;
        proof {
            lemma_fundamental_div_mod(x as int, 0x1_0000_0000);
            assert(x == 0x1_0000_0000 * (hi as int) + lo);
        }
        let mut d: Vec<u32> = Vec::new();
        if hi != 0 {
            d.push(lo);
            d.push(hi);
            proof {
                let t = d@.drop_first();
                assert(t =~= seq![hi as u32]);
                assert(t.drop_first() =~= Seq::<u32>::empty());
                assert(value_of(t.drop_first()) == 0);
                assert(value_of(t) == hi);
                assert(value_of(d@) == lo + 0x1_0000_0000 * (hi as int));
            }
        } else if lo != 0 {
            d.push(lo);
            proof {
                assert(d@.drop_first() =~= Seq::<u32>::empty());
                assert(value_of(Seq::<u32>::empty()) == 0);
                assert(value_of(d@) == lo + 0x1_0000_0000 * 0);
            }
        }
        BigNum { digits: d }
    }

    /// Decides whether this value is zero (the empty canonical digit vector).
    pub fn is_zero(&self) -> (r: bool)
        requires
            self.wf(),
        ensures
            r == (self@ == 0),
    {
        proof {
            lemma_value_zero(*self);
        }
        self.digits.len() == 0
    }
}

pub open spec fn is_digit_char(c: char) -> bool {
    c == '0' || c == '1' || c == '2' || c == '3' || c == '4' || c == '5' || c == '6' || c == '7'
        || c == '8' || c == '9'
}

pub open spec fn digit_val(c: char) -> int {
    if c == '0' {
        0
    } else if c == '1' {
        1
    } else if c == '2' {
        2
    } else if c == '3' {
        3
    } else if c == '4' {
        4
    } else if c == '5' {
        5
    } else if c == '6' {
        6
    } else if c == '7' {
        7
    } else if c == '8' {
        8
    } else {
        9
    }
}

pub open spec fn digit_char(d: int) -> char {
    if d == 0 {
        '0'
    } else if d == 1 {
        '1'
    } else if d == 2 {
        '2'
    } else if d == 3 {
        '3'
    } else if d == 4 {
        '4'
    } else if d == 5 {
        '5'
    } else if d == 6 {
        '6'
    } else if d == 7 {
        '7'
    } else if d == 8 {
        '8'
    } else {
        '9'
    }
}

/// A non-empty sequence of decimal digit characters.
pub open spec fn is_dec_seq(s: Seq<char>) -> bool {
    s.len() > 0 && forall|i: int| 0 <= i < s.len() ==> is_digit_char(#[trigger] s[i])
}

/// The number denoted by a sequence of decimal digits, most significant first.
pub open spec fn dec_seq_val(s: Seq<char>) -> int
    decreases s.len(),
{
    if s.len() == 0 {
        0
    } else {
        10 * dec_seq_val(s.drop_last()) + digit_val(s.last())
    }
}

/// Like `dec_seq_val`, but skipping `'_'` separator characters.
pub open spec fn dec_seq_val_sep(s: Seq<char>) -> int
    decreases s.len(),
{
    if s.len() == 0 {
        0
    } else if s.last() == '_' {
        dec_seq_val_sep(s.drop_last())
    } else {
        10 * dec_seq_val_sep(s.drop_last()) + digit_val(s.last())
    }
}

/// The canonical decimal representation of a non-negative number:
/// no sign, no leading zeros, and "0" for zero.
pub open spec fn dec_of(n: int) -> Seq<char>
    decreases n,
{
    if n < 10 {
        seq![digit_char(n)]
    } else {
        dec_of(n / 10).push(digit_char(n % 10))
    }
}

/// A single leading '+' not followed by another '+' is dropped before parsing.
pub open spec fn strip_sign(s: Seq<char>) -> Seq<char> {
    if s.len() > 0 && s[0] == '+' && !(s.len() > 1 && s[1] == '+') {
        s.drop_first()
    } else {
        s
    }
}

/// Exactly the strings that parse as a decimal natural number: after dropping
/// one optional leading '+', a non-empty run of digits and '_' separators that
/// does not start with a separator.
pub open spec fn valid_dec_str(s: Seq<char>) -> bool {
    let t = strip_sign(s);
    &&& t.len() > 0
    &&& t[0] != '_'
    &&& forall|i: int| 0 <= i < t.len() ==> is_digit_char(#[trigger] t[i]) || t[i] == '_'
}

/// The number a valid decimal string denotes.
pub open spec fn dec_str_val(s: Seq<char>) -> int {
    dec_seq_val_sep(strip_sign(s))
}

pub proof fn lemma_dec_of_is_dec_seq(n: int)
    requires
        n >= 0,
    ensures
        is_dec_seq(dec_of(n)),
    decreases n,
{
    if n < 10 {
        assert(dec_of(n) == seq![digit_char(n)]);
        assert(is_digit_char(dec_of(n)[0]));
    } else {
        lemma_dec_of_is_dec_seq(n / 10);
        let t = dec_of(n / 10);
        let s = dec_of(n);
        assert(s == t.push(digit_char(n % 10)));
        assert(forall|i: int| 0 <= i < s.len() ==> is_digit_char(#[trigger] s[i])) by {
            assert(forall|i: int| 0 <= i < t.len() ==> is_digit_char(#[trigger] t[i]));
            assert(is_digit_char(s[s.len() - 1]));
            assert(forall|i: int| 0 <= i < t.len() ==> s[i] == t[i]);
        }
    }
}

pub proof fn lemma_dec_of_val(n: int)
    requires
        n >= 0,
    ensures
        dec_seq_val(dec_of(n)) == n,
    decreases n,
{
    if n < 10 {
        let s = dec_of(n);
        assert(s.drop_last() =~= Seq::<char>::empty());
        assert(dec_seq_val(s.drop_last()) == 0);
        assert(s.last() == digit_char(n));
        assert(digit_val(digit_char(n)) == n);
    } else {
        lemma_dec_of_val(n / 10);
        let s = dec_of(n);
        assert(s.drop_last() =~= dec_of(n / 10));
        assert(s.last() == digit_char(n % 10));
        assert(digit_val(digit_char(n % 10)) == n % 10);
        lemma_fundamental_div_mod(n, 10);
    }
}

pub proof fn lemma_dec_seq_val_sep_eq(s: Seq<char>)
    requires
        forall|i: int| 0 <= i < s.len() ==> is_digit_char(#[trigger] s[i]),
    ensures
        dec_seq_val_sep(s) == dec_seq_val(s),
    decreases s.len(),
{
    if s.len() > 0 {
        assert(is_digit_char(s.last()));
        assert(s.last() != '_');
        lemma_dec_seq_val_sep_eq(s.drop_last());
    }
}

/// A plain digit string is parsed as-is: no sign to strip, no separators.
pub proof fn lemma_dec_seq_is_valid(s: Seq<char>)
    requires
        is_dec_seq(s),
    ensures
        valid_dec_str(s),
        dec_str_val(s) == dec_seq_val(s),
{
    assert(is_digit_char(s[0]));
    assert(s[0] != '+');
    assert(strip_sign(s) == s);
    lemma_dec_seq_val_sep_eq(s);
}

/// Relies on `num_bigint::BigUint::new` (little-endian base-2^32 digits,
/// normalized), the `Add` impl for `BigUint`, and `BigUint::to_u32_digits`
/// (little-endian digits with no trailing zero).
#[verifier::external_body]
pub(crate) fn nat_add(a: &BigNum, b: &BigNum) -> (r: BigNum)
    ensures
        r.wf(),
        r@ == a@ + b@,
{
    let x = BigUint::new(a.digits.clone());
    let y = BigUint::new(b.digits.clone());
    BigNum { digits: (x + y).to_u32_digits() }
}

/// Relies on the `Sub` impl for `BigUint`, which panics when the result would
/// be negative; the precondition rules that out.
#[verifier::external_body]
pub(crate) fn nat_sub(a: &BigNum, b: &BigNum) -> (r: BigNum)
    requires
        b@ <= a@,
    ensures
        r.wf(),
        r@ == a@ - b@,
{
    let x = BigUint::new(a.digits.clone());
    let y = BigUint::new(b.digits.clone());
    BigNum { digits: (x - y).to_u32_digits() }
}

/// Relies on the `Mul` impl for `BigUint`.
#[verifier::external_body]
pub(crate) fn nat_mul(a: &BigNum, b: &BigNum) -> (r: BigNum)
    ensures
        r.wf(),
        r@ == a@ * b@,
{
    let x = BigUint::new(a.digits.clone());
    let y = BigUint::new(b.digits.clone());
    BigNum { digits: (x * y).to_u32_digits() }
}

/// Relies on the `Rem` impl for `BigUint`: the remainder of unsigned division,
/// which agrees with the mathematical modulo for a positive divisor. Division
/// by zero panics; the precondition rules it out.
#[verifier::external_body]
pub(crate) fn nat_rem(a: &BigNum, b: &BigNum) -> (r: BigNum)
    requires
        b@ > 0,
    ensures
        r.wf(),
        r@ == a@ % b@,
{
    let x = BigUint::new(a.digits.clone());
    let y = BigUint::new(b.digits.clone());
    BigNum { digits: (x % y).to_u32_digits() }
}

/// Relies on the `Div` impl for `BigUint`: unsigned division rounding toward
/// zero, which for non-negative operands is the mathematical floor division.
/// Division by zero panics; the precondition rules it out.
#[verifier::external_body]
pub(crate) fn nat_div(a: &BigNum, b: &BigNum) -> (r: BigNum)
    requires
        b@ > 0,
    ensures
        r.wf(),
        r@ == a@ / b@,
{
    let x = BigUint::new(a.digits.clone());
    let y = BigUint::new(b.digits.clone());
    BigNum { digits: (x / y).to_u32_digits() }
}

/// Relies on `Ord` for `BigUint`, which orders normalized digit vectors by
/// length and then from the most significant digit, hence by value.
#[verifier::external_body]
pub(crate) fn nat_le(a: &BigNum, b: &BigNum) -> (r: bool)
    ensures
        r == (a@ <= b@),
{
    let x = BigUint::new(a.digits.clone());
    let y = BigUint::new(b.digits.clone());
    x <= y
}

/// Relies on the `Display` impl of `BigUint` (via `to_str_radix(10)`): plain
/// decimal digits, no sign, no leading zeros, and "0" for zero.
#[verifier::external_body]
fn nat_to_decimal(a: &BigNum) -> (r: String)
    ensures
        r@ == dec_of(a@),
{
    BigUint::new(a.digits.clone()).to_string()
}

/// Relies on `FromStr` for `BigUint` (`from_str_radix` with radix 10): one
/// leading '+' is dropped, '_' separators are skipped, anything else must be
/// a decimal digit, and at least one digit-or-separator must remain with a
/// digit first.
#[verifier::external_body]
fn nat_from_decimal(s: &str) -> (r: Option<BigNum>)
    ensures
        match r {
            Some(b) => b.wf() && valid_dec_str(s@) && b@ == dec_str_val(s@),
            None => !valid_dec_str(s@),
        },
{
    match s.parse::<BigUint>() {
        Ok(v) => Some(BigNum { digits: v.to_u32_digits() }),
        Err(_) => None,
    }
}

/// Relies on `BigUint::from_bytes_le`: the bytes are the little-endian
/// base-256 digits of the result.
#[verifier::external_body]
pub(crate) fn nat_from_bytes_le(b: &Vec<u8>) -> (r: BigNum)
    ensures
        r.wf(),
        r@ == bytes_val(b@),
{
    BigNum { digits: BigUint::from_bytes_le(b.as_slice()).to_u32_digits() }
}

/// The number whose little-endian base-256 digits are the given bytes.
pub open spec fn bytes_val(s: Seq<u8>) -> int
    decreases s.len(),
{
    if s.len() == 0 {
        0
    } else {
        s[0] + 256 * bytes_val(s.drop_first())
    }
}

/// Uniform sample from [low, high). Relies on `rand::thread_rng` (a
/// cryptographically secure generator) and
/// `num_bigint::RandBigInt::gen_biguint_range`, which panics unless
/// low < high; the precondition rules that out.
#[verifier::external_body]
pub fn generate_random_in_range(low: &BigNum, high: &BigNum) -> (r: BigNum)
    requires
        low@ < high@,
    ensures
        r.wf(),
        low@ <= r@ < high@,
{
    let l = BigUint::new(low.digits.clone());
    let h = BigUint::new(high.digits.clone());
    let mut rng = rand::thread_rng();
    BigNum { digits: rng.gen_biguint_range(&l, &h).to_u32_digits() }
}

impl BigNum {
    /// The canonical decimal string of this number.
    pub fn to_decimal(&self) -> (r: String)
        ensures
            r@ == dec_of(self@),
    {
        nat_to_decimal(self)
    }

    /// Parses a decimal string; returns None exactly on malformed input.
    pub fn from_decimal(s: &str) -> (r: Option<BigNum>)
        ensures
            match r {
                Some(b) => b.wf() && valid_dec_str(s@) && b@ == dec_str_val(s@),
                None => !valid_dec_str(s@),
            },
    {
        nat_from_decimal(s)
    }

    /// Value equality, decided digit by digit: canonical form makes the
    /// digit vectors the unique representation of their value.
    pub fn equals(&self, other: &BigNum) -> (r: bool)
        requires
            self.wf(),
            other.wf(),
        ensures
            r == (self@ == other@),
    {
        if self.digits.len() != other.digits.len() {
            proof {
                if self@ == other@ {
                    lemma_value_injective(self.digits@, other.digits@);
                }
            }
            return false;
        }
        let mut i: usize = 0;
        while i < self.digits.len()
            invariant
                i <= self.digits@.len(),
                self.digits@.len() == other.digits@.len(),
                self.wf(),
                other.wf(),
                forall|j: int| 0 <= j < i ==> self.digits@[j] == other.digits@[j],
            decreases self.digits@.len() - i,
        {
            if self.digits[i] != other.digits[i] {
                proof {
                    if self@ == other@ {
                        lemma_value_injective(self.digits@, other.digits@);
                    }
                }
                return false;
            }
            i = i + 1;
        }
        proof {
            assert(self.digits@ =~= other.digits@);
        }
        true
    }

    pub fn le(&self, other: &BigNum) -> (r: bool)
        ensures
            r == (self@ <= other@),
    {
        nat_le(self, other)
    }
}

} // verus!
