use vstd::prelude::*;
use vstd::arithmetic::power::pow;
use vstd::arithmetic::power::lemma_pow0;
use vstd::arithmetic::power::lemma_pow1;
use vstd::arithmetic::power::lemma_pow_adds;
use vstd::arithmetic::power::lemma_pow_multiplies;
use vstd::arithmetic::power::lemma_pow_mod_noop;
use vstd::arithmetic::power::lemma_square_is_pow2;
use vstd::arithmetic::div_mod::lemma_fundamental_div_mod;
use vstd::arithmetic::div_mod::lemma_mul_mod_noop_general;
use vstd::arithmetic::div_mod::lemma_small_mod;
use vstd::arithmetic::div_mod::lemma_mod_twice;
use vstd::arithmetic::div_mod::lemma_mod_add_multiples_vanish;
use vstd::arithmetic::div_mod::lemma_mod_sub_multiples_vanish;
use vstd::arithmetic::div_mod::lemma_add_mod_noop;
use vstd::arithmetic::div_mod::lemma_sub_mod_noop;
use vstd::arithmetic::mul::lemma_mul_is_commutative;
use vstd::arithmetic::mul::lemma_mul_is_associative;
use vstd::arithmetic::mul::lemma_mul_nonnegative;
use crate::bignum::BigNum;
use crate::bignum::nat_add;
use crate::bignum::nat_sub;
use crate::bignum::nat_mul;
use crate::bignum::nat_rem;
use crate::bignum::nat_div;
use crate::bignum::lemma_value_nonneg;
use crate::bignum::lemma_value_zero;
use crate::bignum::lemma_value_parity;

verus! {

/// What square-and-multiply computes: base^exponent mod modulus, except that
/// the accumulator starts at one, so a zero exponent yields one even for
/// modulus one.
pub open spec fn mod_exp_spec(b: int, e: int, m: int) -> int {
    if e <= 0 {
        1
    } else {
        pow(b, e as nat) % m
    }
}

/// For a modulus of at least two the accumulator quirk disappears.
pub proof fn lemma_mod_exp_spec_is_pow(b: int, e: int, m: int)
    requires
        m >= 2,
        e >= 0,
    ensures
        mod_exp_spec(b, e, m) == pow(b, e as nat) % m,
{
    if e == 0 {
        lemma_pow0(b);
        lemma_small_mod(1nat, m as nat);
    }
}

/// Square-and-multiply modular exponentiation: reduce the base once, then for
/// each low bit of the exponent multiply the accumulator in when the bit is
/// set, square the base, and halve the exponent.
pub fn mod_exp(base: &BigNum, exponent: &BigNum, modulus: &BigNum) -> (r: BigNum)
    requires
        base.wf(),
        exponent.wf(),
        modulus.wf(),
        modulus@ > 0,
    ensures
        r.wf(),
        r@ == mod_exp_spec(base@, exponent@, modulus@),
{
    proof {
        lemma_value_nonneg(base.digits@);
        lemma_value_nonneg(exponent.digits@);
        lemma_pow_mod_noop(base@, exponent@ as nat, modulus@);
    }
    let mut result = BigNum::from_u64(1);
    let mut b = nat_rem(base, modulus);
    let mut e = exponent.clone();
    let two = BigNum::from_u64(2);
    while e.digits.len() > 0
        invariant
            result.wf(),
            b.wf(),
            e.wf(),
            two.wf(),
            two@ == 2,
            modulus@ > 0,
            exponent@ >= 0,
            e@ >= 0,
            (result@ * pow(b@, e@ as nat)) % modulus@ == pow(base@, exponent@ as nat)
                % modulus@,
            e@ == 0 && exponent@ > 0 ==> result@ < modulus@,
            exponent@ == 0 ==> e@ == 0 && result@ == 1,
        decreases e@,
    {
        proof {
            lemma_value_zero(e);
            lemma_value_parity(e.digits@);
        }
        let ghost m = modulus@;
        let ghost r_old = result@;
        let ghost b_old = b@;
        let ghost e_old = e@;
        let odd = e.digits[0] % 2 == 1;
        if odd {
            result = nat_rem(&nat_mul(&result, &b), modulus);
        }
        let e_next = nat_div(&e, &two);
        let b_next = nat_rem(&nat_mul(&b, &b), modulus);
        e = e_next;
        b = b_next;
        proof {
            let h = e_old / 2;
            let bit = e_old % 2;
            lemma_fundamental_div_mod(e_old, 2);
            assert(e_old == 2 * h + bit);
            assert(e@ == h);
            // pow(b_old, e_old) == pow(b_old * b_old, h) * pow(b_old, bit)
            lemma_pow_adds(b_old, (2 * h) as nat, bit as nat);
            lemma_pow_multiplies(b_old, 2, h as nat);
            lemma_square_is_pow2(b_old);
            assert(pow(b_old, e_old as nat) == pow(b_old * b_old, h as nat) * pow(
                b_old,
                bit as nat,
            ));
            // replacing the squared base by its reduction preserves the product mod m
            lemma_pow_mod_noop(b_old * b_old, h as nat, m);
            assert(pow(b@, e@ as nat) % m == pow(b_old * b_old, h as nat) % m);
            let x = pow(b_old * b_old, h as nat);
            if odd {
                assert(bit == 1);
                lemma_pow1(b_old);
                // result@ == (r_old * b_old) % m
                lemma_mul_mod_noop_general(r_old * b_old, pow(b@, e@ as nat), m);
                lemma_mul_mod_noop_general(r_old * b_old, x, m);
                assert((result@ * pow(b@, e@ as nat)) % m == ((r_old * b_old) * x) % m);
                lemma_mul_is_associative(r_old, b_old, x);
                lemma_mul_is_commutative(b_old, x);
                lemma_mul_is_associative(r_old, x, b_old);
                assert((r_old * b_old) * x == (r_old * x) * b_old);
                assert(pow(b_old, e_old as nat) == x * b_old);
                assert(r_old * pow(b_old, e_old as nat) == (r_old * x) * b_old);
                assert((result@ * pow(b@, e@ as nat)) % m == (r_old * pow(b_old, e_old as nat))
                    % m);
            } else {
                assert(bit == 0);
                lemma_pow0(b_old);
                assert(pow(b_old, e_old as nat) == x);
                lemma_mul_mod_noop_general(r_old, pow(b@, e@ as nat), m);
                lemma_mul_mod_noop_general(r_old, x, m);
                assert((result@ * pow(b@, e@ as nat)) % m == (r_old * x) % m);
            }
            // termination and the reduced-accumulator bookkeeping
            assert(e@ < e_old);
            if e@ == 0 && exponent@ > 0 {
                assert(e_old == 1 ==> odd);
            }
        }
    }
    proof {
        assert(e@ == 0);
        lemma_pow0(b@);
        if exponent@ > 0 {
            lemma_value_nonneg(result.digits@);
            lemma_small_mod(result@ as nat, modulus@ as nat);
            assert(result@ == pow(base@, exponent@ as nat) % modulus@);
        }
    }
    result
}

/// The Chaum–Pedersen verification equation over the group parameters p, g, h:
/// g^s * y1^c and h^s * y2^c, reduced into [0, p-1], must equal the prover's
/// one-time commitments r1 and r2.
pub open spec fn verify_ok(
    p: int,
    g: int,
    h: int,
    y1: int,
    y2: int,
    r1: int,
    r2: int,
    c: int,
    s: int,
) -> bool {
    &&& (pow(g, s as nat) * pow(y1, c as nat)) % p == r1
    &&& r2 == (pow(h, s as nat) * pow(y2, c as nat)) % p
}

/// Runs the verification formula.
pub fn verify(
    p: &BigNum,
    g: &BigNum,
    h: &BigNum,
    y1: &BigNum,
    y2: &BigNum,
    r1: &BigNum,
    r2: &BigNum,
    c: &BigNum,
    s: &BigNum,
) -> (ok: bool)
    requires
        p.wf(),
        g.wf(),
        h.wf(),
        y1.wf(),
        y2.wf(),
        r1.wf(),
        r2.wf(),
        c.wf(),
        s.wf(),
        p@ >= 2,
    ensures
        ok == verify_ok(p@, g@, h@, y1@, y2@, r1@, r2@, c@, s@),
{
    proof {
        lemma_value_nonneg(s.digits@);
        lemma_value_nonneg(c.digits@);
    }
    let a1 = mod_exp(g, s, p);
    let a2 = mod_exp(y1, c, p);
    let t1 = nat_rem(&nat_mul(&a1, &a2), p);
    let res1 = nat_rem(&nat_add(&t1, p), p);
    let b1 = mod_exp(h, s, p);
    let b2 = mod_exp(y2, c, p);
    let t2 = nat_rem(&nat_mul(&b1, &b2), p);
    let res2 = nat_rem(&nat_add(&t2, p), p);
    proof {
        lemma_mod_exp_spec_is_pow(g@, s@, p@);
        lemma_mod_exp_spec_is_pow(y1@, c@, p@);
        lemma_mod_exp_spec_is_pow(h@, s@, p@);
        lemma_mod_exp_spec_is_pow(y2@, c@, p@);
        lemma_mul_mod_noop_general(pow(g@, s@ as nat), pow(y1@, c@ as nat), p@);
        lemma_mul_mod_noop_general(pow(h@, s@ as nat), pow(y2@, c@ as nat), p@);
        lemma_mod_add_multiples_vanish(t1@, p@);
        lemma_mod_add_multiples_vanish(t2@, p@);
        lemma_mod_twice(pow(g@, s@ as nat) * pow(y1@, c@ as nat), p@);
        lemma_mod_twice(pow(h@, s@ as nat) * pow(y2@, c@ as nat), p@);
    }
    let ok1 = r1.equals(&res1);
    let ok2 = r2.equals(&res2);
    ok1 && ok2
}

/// The prover's response: s = (k - c*x) mod q, normalized into [0, q-1].
/// Computed over non-negative values as ((k mod q) + q - (c*x mod q)) mod q.
pub fn compute_s(x: &BigNum, c: &BigNum, k: &BigNum, q: &BigNum) -> (r: BigNum)
    requires
        x.wf(),
        c.wf(),
        k.wf(),
        q.wf(),
        q@ > 0,
    ensures
        r.wf(),
        r@ == (k@ - c@ * x@) % q@,
{
    let t = nat_rem(&nat_mul(c, x), q);
    let u = nat_rem(k, q);
    let v = nat_sub(&nat_add(&u, q), &t);
    let r = nat_rem(&v, q);
    proof {
        lemma_sub_mod_noop(k@, c@ * x@, q@);
        lemma_mod_add_multiples_vanish(u@ - t@, q@);
        assert(v@ == q@ + (u@ - t@));
        lemma_mod_twice(k@ - c@ * x@, q@);
    }
    r
}

/// Powers of an element of order dividing q repeat with period q modulo p.
proof fn lemma_pow_mod_cycle(g: int, p: int, q: int, a: nat)
    requires
        p > 0,
        q >= 1,
        pow(g, q as nat) % p == 1,
    ensures
        pow(g, a) % p == pow(g, ((a as int) % q) as nat) % p,
    decreases a,
{
    if a >= q {
        let a1 = (a - q) as nat;
        lemma_pow_adds(g, a1, q as nat);
        lemma_mul_mod_noop_general(pow(g, a1), pow(g, q as nat), p);
        lemma_mod_twice(pow(g, a1), p);
        assert(pow(g, a) % p == pow(g, a1) % p);
        lemma_pow_mod_cycle(g, p, q, a1);
        lemma_mod_sub_multiples_vanish(a as int, q);
        assert((a as int) % q == (a1 as int) % q) by {
            assert(-q + a == a1);
        }
    } else {
        lemma_small_mod(a, q as nat);
    }
}

/// One generator's side of the completeness argument: with y = g^x mod p and
/// s = (k - c*x) mod q, the check value g^s * y^c mod p recovers g^k mod p.
proof fn lemma_completeness_side(p: int, q: int, g: int, x: int, c: int, k: int)
    requires
        p >= 2,
        q >= 1,
        x >= 0,
        c >= 0,
        k >= 0,
        pow(g, q as nat) % p == 1,
    ensures
        (pow(g, ((k - c * x) % q) as nat) * pow(pow(g, x as nat) % p, c as nat)) % p == pow(
            g,
            k as nat,
        ) % p,
{
    let s = (k - c * x) % q;
    let y = pow(g, x as nat) % p;
    lemma_mul_nonnegative(x, c);
    lemma_mul_is_commutative(x, c);
    // y^c mod p is g^(x*c) mod p
    lemma_pow_mod_noop(pow(g, x as nat), c as nat, p);
    lemma_pow_multiplies(g, x as nat, c as nat);
    assert(pow(y, c as nat) % p == pow(g, (x * c) as nat) % p);
    // fold the product into a single power of g
    lemma_mul_mod_noop_general(pow(g, s as nat), pow(y, c as nat), p);
    lemma_mul_mod_noop_general(pow(g, s as nat), pow(g, (x * c) as nat), p);
    lemma_pow_adds(g, s as nat, (x * c) as nat);
    assert((pow(g, s as nat) * pow(y, c as nat)) % p == pow(g, (s + x * c) as nat) % p);
    // both exponents agree modulo q
    lemma_pow_mod_cycle(g, p, q, (s + x * c) as nat);
    lemma_pow_mod_cycle(g, p, q, k as nat);
    lemma_mod_twice(k - c * x, q);
    lemma_add_mod_noop(s, x * c, q);
    lemma_add_mod_noop(k - c * x, x * c, q);
    assert((s + x * c) % q == k % q);
}

/// Completeness of the protocol: for any secret x, any nonce k, and any
/// challenge c, the honestly computed response s = (k - c*x) mod q makes the
/// verification equation accept the honest commitments, provided g and h have
/// order dividing q modulo p.
pub proof fn lemma_completeness(p: int, q: int, g: int, h: int, x: int, k: int, c: int)
    requires
        p >= 2,
        q >= 4,
        x >= 0,
        2 <= k <= q - 2,
        2 <= c <= q - 2,
        pow(g, q as nat) % p == 1,
        pow(h, q as nat) % p == 1,
    ensures
        verify_ok(
            p,
            g,
            h,
            pow(g, x as nat) % p,
            pow(h, x as nat) % p,
            pow(g, k as nat) % p,
            pow(h, k as nat) % p,
            c,
            (k - c * x) % q,
        ),
{
    lemma_completeness_side(p, q, g, x, c, k);
    lemma_completeness_side(p, q, h, x, c, k);
}

} // verus!
