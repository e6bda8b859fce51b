use vstd::prelude::*;
use crate::bignum::BigNum;
use crate::bignum::bytes_val;
use crate::bignum::dec_of;
use crate::bignum::dec_seq_val;
use crate::bignum::dec_str_val;
use crate::bignum::is_dec_seq;
use crate::bignum::is_digit_char;
use crate::bignum::valid_dec_str;
use crate::bignum::generate_random_in_range;
use crate::bignum::nat_sub;
use crate::bignum::nat_from_bytes_le;
use crate::bignum::lemma_value_nonneg;
use crate::bignum::lemma_dec_of_is_dec_seq;
use crate::bignum::lemma_dec_of_val;
use crate::bignum::lemma_dec_seq_is_valid;
use crate::modexp::mod_exp;
use crate::modexp::mod_exp_spec;
use crate::modexp::verify;
use crate::modexp::verify_ok;
use crate::modexp::lemma_completeness;
use vstd::arithmetic::power::pow;
use crate::store::Db;

verus! {

/// Inputs the core rejects outright, as opposed to credentials it merely
/// refuses.
#[derive(Clone, Copy, Debug, PartialEq, Eq, Structural)]
pub enum AuthError {
    /// A string that should have been a decimal integer did not parse.
    MalformedInput,
    /// No stored identity or challenge for the handle at verification time.
    NoSuchInteraction,
}

/// The fixed group configuration: a modulus p, the order q of the subgroup
/// generated by g and h, and the two generators.
pub struct GroupParams {
    pub p: BigNum,
    pub q: BigNum,
    pub g: BigNum,
    pub h: BigNum,
}

impl GroupParams {
    /// Structural side conditions the protocol needs: the challenge range
    /// [2, q-2] must be non-empty and exponents live below the modulus.
    pub open spec fn wf(&self) -> bool {
        &&& self.p.wf()
        &&& self.q.wf()
        &&& self.g.wf()
        &&& self.h.wf()
        &&& self.q@ >= 4
        &&& self.p@ > self.q@
    }

    /// Accepts supplied configuration only when the side conditions hold.
    pub fn try_new(p: BigNum, q: BigNum, g: BigNum, h: BigNum) -> (r: Option<GroupParams>)
        requires
            p.wf(),
            q.wf(),
            g.wf(),
            h.wf(),
        ensures
            match r {
                Some(gp) => gp.wf() && gp.p == p && gp.q == q && gp.g == g && gp.h == h,
                None => !(q@ >= 4 && p@ > q@),
            },
    {
        let four = BigNum::from_u64(4);
        let q_large_enough = four.le(&q);
        let p_above_q = !p.le(&q);
        if q_large_enough && p_above_q {
            Some(GroupParams { p, q, g, h })
        } else {
            None
        }
    }
}

/// The verifier: the group configuration plus the shared store.
pub struct AuthService {
    pub params: GroupParams,
    pub user_db: Db,
}

impl AuthService {
    /// Every stored identity and challenge field is a plain digit string, so
    /// verification can always read the numbers back.
    pub open spec fn wf(&self) -> bool {
        &&& self.params.wf()
        &&& forall|k: Seq<char>|
            (#[trigger] self.user_db.user_of(k)) matches Some(u) ==> is_dec_seq(u.y1@)
                && is_dec_seq(u.y2@)
        &&& forall|k: Seq<char>|
            (#[trigger] self.user_db.challenge_of(k)) matches Some(c) ==> is_dec_seq(c.r1@)
                && is_dec_seq(c.r2@) && is_dec_seq(c.challenge@)
    }

    /// The registered commitments of an identifier, as numbers.
    pub open spec fn commitments_of(&self, k: Seq<char>) -> Option<(int, int)> {
        match self.user_db.user_of(k) {
            Some(u) => Some((dec_seq_val(u.y1@), dec_seq_val(u.y2@))),
            None => None,
        }
    }

    /// The outstanding challenge of an identifier: the prover's one-time
    /// commitments and the issued challenge, as numbers.
    pub open spec fn challenge_state_of(&self, k: Seq<char>) -> Option<(int, int, int)> {
        match self.user_db.challenge_of(k) {
            Some(c) => Some((dec_seq_val(c.r1@), dec_seq_val(c.r2@), dec_seq_val(c.challenge@))),
            None => None,
        }
    }

    /// The logged verification outcome of an identifier.
    pub open spec fn session_of(&self, k: Seq<char>) -> Option<String> {
        self.user_db.session_of(k)
    }

    /// Whether a response value passes the verification equation against the
    /// stored identity and challenge of an identifier.
    pub open spec fn response_accepted(&self, k: Seq<char>, sv: int) -> bool {
        &&& self.commitments_of(k) matches Some(ids)
        &&& self.challenge_state_of(k) matches Some(ch)
        &&& verify_ok(
            self.params.p@,
            self.params.g@,
            self.params.h@,
            ids.0,
            ids.1,
            ch.0,
            ch.1,
            ch.2,
            sv,
        )
    }

    pub fn new(params: GroupParams) -> (r: AuthService)
        requires
            params.wf(),
        ensures
            r.wf(),
            r.params == params,
            forall|k: Seq<char>| r.commitments_of(k) is None,
            forall|k: Seq<char>| r.challenge_state_of(k) is None,
            forall|k: Seq<char>| r.session_of(k) is None,
    {
        AuthService { params, user_db: Db::new() }
    }
}

/// What a registration call does to the identity map: the first registration
/// of an identifier wins, later ones change nothing.
pub open spec fn register_transition(
    pre: AuthService,
    post: AuthService,
    user: Seq<char>,
    v1: int,
    v2: int,
) -> bool {
    if pre.commitments_of(user) is Some {
        post == pre
    } else {
        &&& post.commitments_of(user) == Some((v1, v2))
        &&& forall|k: Seq<char>| k != user ==> post.commitments_of(k) == pre.commitments_of(k)
    }
}

/// What a challenge issuance for a known identifier does to the challenge
/// map: the new record replaces any prior one for that identifier.
pub open spec fn challenge_transition(
    pre: AuthService,
    post: AuthService,
    user: Seq<char>,
    r1v: int,
    r2v: int,
    cv: int,
) -> bool {
    &&& post.challenge_state_of(user) == Some((r1v, r2v, cv))
    &&& forall|k: Seq<char>| k != user ==> post.challenge_state_of(k) == pre.challenge_state_of(k)
}

impl AuthService {
    /// Registration: parse the commitments, and store them for a new
    /// identifier; re-registration of an existing identifier is a no-op, so
    /// the first registration wins.
    pub fn register(&mut self, user: String, y1: String, y2: String) -> (r: Result<(), AuthError>)
        requires
            old(self).wf(),
        ensures
            final(self).wf(),
            final(self).params == old(self).params,
            match r {
                Ok(()) => valid_dec_str(y1@) && valid_dec_str(y2@) && register_transition(
                    *old(self),
                    *final(self),
                    user@,
                    dec_str_val(y1@),
                    dec_str_val(y2@),
                ) && final(self).user_db.challenges@ == old(self).user_db.challenges@
                    && final(self).user_db.sessions@ == old(self).user_db.sessions@,
                Err(e) => e == AuthError::MalformedInput
                    && !(valid_dec_str(y1@) && valid_dec_str(y2@))
                    && *final(self) == *old(self),
            },
    {
        let v1 = match BigNum::from_decimal(y1.as_str()) {
            Some(v) => v,
            None => {
                return Err(AuthError::MalformedInput);
            },
        };
        let v2 = match BigNum::from_decimal(y2.as_str()) {
            Some(v) => v,
            None => {
                return Err(AuthError::MalformedInput);
            },
        };
        if self.user_db.contains_user(&user) {
            return Ok(());
        }
        let s1 = v1.to_decimal();
        let s2 = v2.to_decimal();
        let ghost uv = user@;
        let ghost s1v = s1@;
        let ghost s2v = s2@;
        proof {
            lemma_value_nonneg(v1.digits@);
            lemma_value_nonneg(v2.digits@);
            lemma_dec_of_is_dec_seq(v1@);
            lemma_dec_of_is_dec_seq(v2@);
            lemma_dec_of_val(v1@);
            lemma_dec_of_val(v2@);
        }
        self.user_db.add_user(user, s1, s2);
        proof {
            assert forall|k: Seq<char>|
                (#[trigger] self.user_db.user_of(k)) matches Some(u) ==> is_dec_seq(u.y1@)
                && is_dec_seq(u.y2@) by {
                if k == uv {
                    assert(self.user_db.user_of(k) matches Some(u) && u.y1@ == s1v && u.y2@
                        == s2v);
                } else {
                    assert(self.user_db.user_of(k) == old(self).user_db.user_of(k));
                }
            };
            assert forall|k: Seq<char>|
                (#[trigger] self.user_db.challenge_of(k)) matches Some(c) ==> is_dec_seq(c.r1@)
                && is_dec_seq(c.r2@) && is_dec_seq(c.challenge@) by {
                assert(self.user_db.challenge_of(k) == old(self).user_db.challenge_of(k));
            };
        }
        Ok(())
    }

    /// Challenge issuance: for a known identifier, store the prover's
    /// one-time commitments with a fresh random challenge in [2, q-2]
    /// (overwriting any prior challenge) and echo the identifier as the
    /// interaction handle; for an unknown identifier, return the
    /// distinguished not-found handle and leave the store untouched. The
    /// challenge string is returned either way.
    pub fn create_authentication_challenge(&mut self, user: String, r1: String, r2: String) -> (res:
        Result<(String, String), AuthError>)
        requires
            old(self).wf(),
        ensures
            final(self).wf(),
            final(self).params == old(self).params,
            match res {
                Ok(hc) => {
                    &&& valid_dec_str(r1@)
                    &&& valid_dec_str(r2@)
                    &&& is_dec_seq(hc.1@)
                    &&& hc.1@ == dec_of(dec_seq_val(hc.1@))
                    &&& 2 <= dec_seq_val(hc.1@) <= old(self).params.q@ - 2
                    &&& if old(self).commitments_of(user@) is Some {
                        &&& hc.0@ == user@
                        &&& challenge_transition(
                            *old(self),
                            *final(self),
                            user@,
                            dec_str_val(r1@),
                            dec_str_val(r2@),
                            dec_seq_val(hc.1@),
                        )
                        &&& final(self).user_db.users@ == old(self).user_db.users@
                        &&& final(self).user_db.sessions@ == old(self).user_db.sessions@
                    } else {
                        &&& hc.0@ == "NotFound"@
                        &&& *final(self) == *old(self)
                    }
                },
                Err(e) => e == AuthError::MalformedInput
                    && !(valid_dec_str(r1@) && valid_dec_str(r2@))
                    && *final(self) == *old(self),
            },
    {
        let v1 = match BigNum::from_decimal(r1.as_str()) {
            Some(v) => v,
            None => {
                return Err(AuthError::MalformedInput);
            },
        };
        let v2 = match BigNum::from_decimal(r2.as_str()) {
            Some(v) => v,
            None => {
                return Err(AuthError::MalformedInput);
            },
        };
        let two = BigNum::from_u64(2);
        let one = BigNum::from_u64(1);
        let upper = nat_sub(&self.params.q, &one);
        let c = generate_random_in_range(&two, &upper);
        let cs = c.to_decimal();
        proof {
            lemma_dec_of_is_dec_seq(c@);
            lemma_dec_of_val(c@);
        }
        if self.user_db.contains_user(&user) {
            let handle = user.clone();
            let s1 = v1.to_decimal();
            let s2 = v2.to_decimal();
            proof {
                lemma_value_nonneg(v1.digits@);
                lemma_value_nonneg(v2.digits@);
                lemma_dec_of_is_dec_seq(v1@);
                lemma_dec_of_is_dec_seq(v2@);
                lemma_dec_of_val(v1@);
                lemma_dec_of_val(v2@);
            }
            let c_stored = cs.clone();
            let ghost uv = user@;
            let ghost s1v = s1@;
            let ghost s2v = s2@;
            let ghost csv = cs@;
            self.user_db.add_challenge_data(user, s1, s2, c_stored);
            proof {
                assert forall|k: Seq<char>|
                    (#[trigger] self.user_db.challenge_of(k)) matches Some(c) ==> is_dec_seq(
                    c.r1@,
                ) && is_dec_seq(c.r2@) && is_dec_seq(c.challenge@) by {
                    if k == uv {
                        assert(self.user_db.challenge_of(k) matches Some(c) && c.r1@ == s1v
                            && c.r2@ == s2v && c.challenge@ == csv);
                    } else {
                        assert(self.user_db.challenge_of(k) == old(self).user_db.challenge_of(k));
                    }
                };
                assert forall|k: Seq<char>|
                    (#[trigger] self.user_db.user_of(k)) matches Some(u) ==> is_dec_seq(u.y1@)
                    && is_dec_seq(u.y2@) by {
                    assert(self.user_db.user_of(k) == old(self).user_db.user_of(k));
                };
            }
            Ok((handle, cs))
        } else {
            Ok(("NotFound".to_owned(), cs))
        }
    }

    /// Verification: read the stored identity and challenge for the handle
    /// (failing with a typed no-such-interaction result when either is
    /// missing), check the verification equation against the response, and
    /// log and return either a fresh random session token in [2, q-2] or the
    /// rejection sentinel. The token can never equal either sentinel.
    pub fn verify_authentication(&mut self, auth_id: String, s: String) -> (res: Result<
        String,
        AuthError,
    >)
        requires
            old(self).wf(),
        ensures
            final(self).wf(),
            final(self).params == old(self).params,
            match res {
                Err(AuthError::NoSuchInteraction) => (old(self).challenge_state_of(auth_id@)
                    is None || old(self).commitments_of(auth_id@) is None)
                    && *final(self) == *old(self),
                Err(AuthError::MalformedInput) => old(self).challenge_state_of(auth_id@) is Some
                    && old(self).commitments_of(auth_id@) is Some && !valid_dec_str(s@)
                    && *final(self) == *old(self),
                Ok(token) => {
                    &&& old(self).challenge_state_of(auth_id@) is Some
                    &&& old(self).commitments_of(auth_id@) is Some
                    &&& valid_dec_str(s@)
                    &&& final(self).user_db.users@ == old(self).user_db.users@
                    &&& final(self).user_db.challenges@ == old(self).user_db.challenges@
                    &&& final(self).session_of(auth_id@) == Some(token)
                    &&& forall|k: Seq<char>|
                        k != auth_id@ ==> final(self).session_of(k) == old(self).session_of(k)
                    &&& if old(self).response_accepted(auth_id@, dec_str_val(s@)) {
                        &&& is_dec_seq(token@)
                        &&& token@ == dec_of(dec_seq_val(token@))
                        &&& 2 <= dec_seq_val(token@) <= old(self).params.q@ - 2
                        &&& token@ != "BAD CREDENTIALS"@
                        &&& token@ != "NotFound"@
                    } else {
                        token@ == "BAD CREDENTIALS"@
                    }
                },
            },
    {
        let chal = match self.user_db.get_challenge_data(auth_id.clone()) {
            Some(t) => t.1,
            None => {
                return Err(AuthError::NoSuchInteraction);
            },
        };
        let user = match self.user_db.get_user(auth_id.clone()) {
            Some(t) => t.1,
            None => {
                return Err(AuthError::NoSuchInteraction);
            },
        };
        let sv = match BigNum::from_decimal(s.as_str()) {
            Some(v) => v,
            None => {
                return Err(AuthError::MalformedInput);
            },
        };
        proof {
            lemma_dec_seq_is_valid(user.y1@);
            lemma_dec_seq_is_valid(user.y2@);
            lemma_dec_seq_is_valid(chal.r1@);
            lemma_dec_seq_is_valid(chal.r2@);
            lemma_dec_seq_is_valid(chal.challenge@);
        }
        let y1 = BigNum::from_decimal(user.y1.as_str()).unwrap();
        let y2 = BigNum::from_decimal(user.y2.as_str()).unwrap();
        let r1 = BigNum::from_decimal(chal.r1.as_str()).unwrap();
        let r2 = BigNum::from_decimal(chal.r2.as_str()).unwrap();
        let cv = BigNum::from_decimal(chal.challenge.as_str()).unwrap();
        let ok = verify(
            &self.params.p,
            &self.params.g,
            &self.params.h,
            &y1,
            &y2,
            &r1,
            &r2,
            &cv,
            &sv,
        );
        let token: String;
        if ok {
            let two = BigNum::from_u64(2);
            let one = BigNum::from_u64(1);
            let upper = nat_sub(&self.params.q, &one);
            let t = generate_random_in_range(&two, &upper);
            token = t.to_decimal();
            proof {
                lemma_dec_of_is_dec_seq(t@);
                lemma_dec_of_val(t@);
                reveal_strlit("BAD CREDENTIALS");
                reveal_strlit("NotFound");
                assert(is_digit_char(token@[0]));
                assert(token@ != "BAD CREDENTIALS"@) by {
                    if token@ == "BAD CREDENTIALS"@ {
                        assert(token@[0] == 'B');
                    }
                }
                assert(token@ != "NotFound"@) by {
                    if token@ == "NotFound"@ {
                        assert(token@[0] == 'N');
                    }
                }
            }
        } else {
            token = "BAD CREDENTIALS".to_owned();
        }
        let logged = token.clone();
        self.user_db.add_session(auth_id, logged);
        proof {
            assert forall|k: Seq<char>|
                (#[trigger] self.user_db.user_of(k)) matches Some(u) ==> is_dec_seq(u.y1@)
                && is_dec_seq(u.y2@) by {
                assert(self.user_db.user_of(k) == old(self).user_db.user_of(k));
            };
            assert forall|k: Seq<char>|
                (#[trigger] self.user_db.challenge_of(k)) matches Some(c) ==> is_dec_seq(c.r1@)
                && is_dec_seq(c.r2@) && is_dec_seq(c.challenge@) by {
                assert(self.user_db.challenge_of(k) == old(self).user_db.challenge_of(k));
            };
        }
        Ok(token)
    }
}

/// Idempotent registration: two successive registrations of the same
/// identifier, the second with any other secret's commitments, leave the
/// first call's commitments in place.
pub proof fn lemma_register_idempotent(
    s0: AuthService,
    s1: AuthService,
    s2: AuthService,
    user: Seq<char>,
    a1: int,
    a2: int,
    b1: int,
    b2: int,
)
    requires
        s0.commitments_of(user) is None,
        register_transition(s0, s1, user, a1, a2),
        register_transition(s1, s2, user, b1, b2),
    ensures
        s2.commitments_of(user) == Some((a1, a2)),
{
}

/// Challenge overwrite: after a second challenge issuance for the same
/// identifier, only the second challenge record is stored, so a later
/// verification consults the second challenge's values and not the first's.
pub proof fn lemma_challenge_overwrite(
    s0: AuthService,
    s1: AuthService,
    s2: AuthService,
    user: Seq<char>,
    r1a: int,
    r2a: int,
    ca: int,
    r1b: int,
    r2b: int,
    cb: int,
)
    requires
        challenge_transition(s0, s1, user, r1a, r2a, ca),
        challenge_transition(s1, s2, user, r1b, r2b, cb),
    ensures
        s2.challenge_state_of(user) == Some((r1b, r2b, cb)),
        forall|sv: int|
            #[trigger] s2.response_accepted(user, sv) ==> (
            s2.commitments_of(user) matches Some(ids) && verify_ok(
                s2.params.p@,
                s2.params.g@,
                s2.params.h@,
                ids.0,
                ids.1,
                r1b,
                r2b,
                cb,
                sv,
            )),
{
}

/// Completeness at the service level: when an identifier's stored commitments
/// and outstanding challenge are honestly computed from a secret x and a
/// nonce k, the response (k - c*x) mod q is accepted by the verification
/// equation, provided g and h have order dividing q modulo p.
pub proof fn lemma_service_completeness(
    svc: AuthService,
    user: Seq<char>,
    x: int,
    k: int,
    c: int,
)
    requires
        svc.wf(),
        x >= 0,
        2 <= k <= svc.params.q@ - 2,
        2 <= c <= svc.params.q@ - 2,
        pow(svc.params.g@, svc.params.q@ as nat) % svc.params.p@ == 1,
        pow(svc.params.h@, svc.params.q@ as nat) % svc.params.p@ == 1,
        svc.commitments_of(user) == Some(
            (
                pow(svc.params.g@, x as nat) % svc.params.p@,
                pow(svc.params.h@, x as nat) % svc.params.p@,
            ),
        ),
        svc.challenge_state_of(user) == Some(
            (
                pow(svc.params.g@, k as nat) % svc.params.p@,
                pow(svc.params.h@, k as nat) % svc.params.p@,
                c,
            ),
        ),
    ensures
        svc.response_accepted(user, (k - c * x) % svc.params.q@),
{
    lemma_completeness(
        svc.params.p@,
        svc.params.q@,
        svc.params.g@,
        svc.params.h@,
        x,
        k,
        c,
    );
}

/// Sentinel distinctness: a session token is the canonical decimal string of
/// a value drawn from [2, q-2], and such a string never equals the not-found
/// handle marker or the credentials-rejected sentinel, whatever the group
/// parameters are.
pub proof fn lemma_sentinel_distinctness(n: int)
    requires
        n >= 2,
    ensures
        dec_of(n) != "NotFound"@,
        dec_of(n) != "BAD CREDENTIALS"@,
{
    lemma_dec_of_is_dec_seq(n);
    reveal_strlit("NotFound");
    reveal_strlit("BAD CREDENTIALS");
    assert(is_digit_char(dec_of(n)[0]));
    assert(dec_of(n) != "NotFound"@) by {
        if dec_of(n) == "NotFound"@ {
            assert(dec_of(n)[0] == 'N');
        }
    }
    assert(dec_of(n) != "BAD CREDENTIALS"@) by {
        if dec_of(n) == "BAD CREDENTIALS"@ {
            assert(dec_of(n)[0] == 'B');
        }
    }
}

/// Client-side registration data: the secret derived from the password bytes
/// and the two public commitments as decimal strings.
pub fn prepare_register(params: &GroupParams, password: &Vec<u8>) -> (r: (BigNum, String, String))
    requires
        params.wf(),
    ensures
        r.0.wf(),
        r.0@ == bytes_val(password@),
        r.1@ == dec_of(mod_exp_spec(params.g@, bytes_val(password@), params.p@)),
        r.2@ == dec_of(mod_exp_spec(params.h@, bytes_val(password@), params.p@)),
{
    let x = nat_from_bytes_le(password);
    let y1 = mod_exp(&params.g, &x, &params.p);
    let y2 = mod_exp(&params.h, &x, &params.p);
    let s1 = y1.to_decimal();
    let s2 = y2.to_decimal();
    (x, s1, s2)
}

/// Client-side login data: the secret, a fresh random nonce k, and the
/// one-time commitments g^k mod p and h^k mod p as decimal strings.
pub fn prepare_login(params: &GroupParams, password: &Vec<u8>) -> (r: (BigNum, BigNum, String, String))
    requires
        params.wf(),
    ensures
        r.0.wf(),
        r.0@ == bytes_val(password@),
        r.1.wf(),
        2 <= r.1@ <= params.q@ - 2,
        r.2@ == dec_of(mod_exp_spec(params.g@, r.1@, params.p@)),
        r.3@ == dec_of(mod_exp_spec(params.h@, r.1@, params.p@)),
{
    let x = nat_from_bytes_le(password);
    let two = BigNum::from_u64(2);
    let one = BigNum::from_u64(1);
    let upper = nat_sub(&params.q, &one);
    let k = generate_random_in_range(&two, &upper);
    let r1 = mod_exp(&params.g, &k, &params.p);
    let r2 = mod_exp(&params.h, &k, &params.p);
    let s1 = r1.to_decimal();
    let s2 = r2.to_decimal();
    (x, k, s1, s2)
}

} // verus!

