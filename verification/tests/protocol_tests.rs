use zkp_auth::bignum::BigNum;
use zkp_auth::bignum::generate_random_in_range;
use zkp_auth::modexp::mod_exp;
use zkp_auth::modexp::verify;
use zkp_auth::modexp::compute_s;
use zkp_auth::protocol::AuthError;
use zkp_auth::protocol::AuthService;
use zkp_auth::protocol::GroupParams;
use zkp_auth::protocol::prepare_login;
use zkp_auth::protocol::prepare_register;
use zkp_auth::store::Db;

fn n(x: u64) -> BigNum {
    BigNum::from_u64(x)
}

fn toy_params() -> GroupParams {
    GroupParams::try_new(n(23), n(11), n(4), n(9)).unwrap()
}

#[test]
fn verify_mod_exp() {
    let base = n(4);
    let exp = n(6);
    let modulus = n(23);
    let res = mod_exp(&base, &exp, &modulus);
    assert_eq!(res.to_decimal(), "2");
}

#[test]
fn verify_test() {
    let r1 = n(13);
    let r2 = n(2);
    let c = n(3);
    let s = n(7);
    let y1 = n(9);
    let y2 = n(13);
    let res = verify(&n(23), &n(4), &n(9), &y1, &y2, &r1, &r2, &c, &s);
    assert_eq!(res, true);
}

#[test]
fn mod_exp_zero_exponent_is_one() {
    assert!(mod_exp(&n(5), &n(0), &n(7)).equals(&n(1)));
    assert!(mod_exp(&n(0), &n(0), &n(7)).equals(&n(1)));
    assert!(mod_exp(&n(12345), &n(0), &n(2)).equals(&n(1)));
}

#[test]
fn mod_exp_large_values() {
    // 2^64 mod (2^32 + 1) == 1, exercising multi-digit numbers
    let two_to_64 = BigNum::from_decimal("18446744073709551616").unwrap();
    let m = BigNum::from_decimal("4294967297").unwrap();
    assert!(mod_exp(&n(2), &n(64), &m).equals(&n(1)));
    assert_eq!(two_to_64.to_decimal(), "18446744073709551616");
}

#[test]
fn compute_s_worked_example() {
    // x = 8, k = 9, c = 3, q = 11: s = (9 - 24) mod 11 = 7
    let s = compute_s(&n(8), &n(3), &n(9), &n(11));
    assert!(s.equals(&n(7)));
    // and with c = 5: s = (9 - 40) mod 11 = 2
    let s2 = compute_s(&n(8), &n(5), &n(9), &n(11));
    assert!(s2.equals(&n(2)));
}

#[test]
fn completeness_full_flow() {
    let params = toy_params();
    let mut svc = AuthService::new(toy_params());
    let password: Vec<u8> = vec![7];
    let (x, y1, y2) = prepare_register(&params, &password);
    assert!(svc
        .register("alice@example.com".to_owned(), y1, y2)
        .is_ok());

    let (x2, k, r1, r2) = prepare_login(&params, &password);
    assert!(x.equals(&x2));
    let (handle, c_str) = svc
        .create_authentication_challenge("alice@example.com".to_owned(), r1, r2)
        .unwrap();
    assert_eq!(handle, "alice@example.com");
    let c = BigNum::from_decimal(c_str.as_str()).unwrap();
    let s = compute_s(&x, &c, &k, &params.q);
    let token = svc
        .verify_authentication(handle, s.to_decimal())
        .unwrap();
    assert_ne!(token, "BAD CREDENTIALS");
    assert_ne!(token, "NotFound");
    // the token is a fresh value in [2, q-2]
    let tv = BigNum::from_decimal(token.as_str()).unwrap();
    assert!(n(2).le(&tv));
    assert!(tv.le(&n(9)));
}

#[test]
fn soundness_unique_response() {
    // For the worked group and fixed (y1, y2, r1, r2, c), exactly one s in
    // [0, q-1] passes the verification equation.
    let mut accepted: Vec<u64> = Vec::new();
    for s in 0..11u64 {
        if verify(&n(23), &n(4), &n(9), &n(9), &n(13), &n(13), &n(2), &n(3), &n(s)) {
            accepted.push(s);
        }
    }
    assert_eq!(accepted, vec![7]);
}

#[test]
fn idempotent_registration() {
    let mut svc = AuthService::new(toy_params());
    assert!(svc
        .register("alice".to_owned(), "9".to_owned(), "13".to_owned())
        .is_ok());
    // second registration with a different secret's commitments is a no-op
    assert!(svc
        .register("alice".to_owned(), "5".to_owned(), "6".to_owned())
        .is_ok());
    let (_, data) = svc.user_db.get_user("alice".to_owned()).unwrap();
    assert_eq!(data.y1, "9");
    assert_eq!(data.y2, "13");
}

#[test]
fn challenge_overwrite_invalidates_first() {
    let mut svc = AuthService::new(toy_params());
    svc.register("alice".to_owned(), "9".to_owned(), "13".to_owned())
        .unwrap();
    // a challenge c = 3, answered correctly with s = 7, is accepted
    svc.user_db.add_challenge_data(
        "alice".to_owned(),
        "13".to_owned(),
        "2".to_owned(),
        "3".to_owned(),
    );
    let token = svc
        .verify_authentication("alice".to_owned(), "7".to_owned())
        .unwrap();
    assert_ne!(token, "BAD CREDENTIALS");
    // issuing a new challenge c = 5 overwrites the record ...
    svc.user_db.add_challenge_data(
        "alice".to_owned(),
        "13".to_owned(),
        "2".to_owned(),
        "5".to_owned(),
    );
    let (_, chal) = svc.user_db.get_challenge_data("alice".to_owned()).unwrap();
    assert_eq!(chal.challenge, "5");
    // ... so the response computed against c = 3 is now rejected
    let token2 = svc
        .verify_authentication("alice".to_owned(), "7".to_owned())
        .unwrap();
    assert_eq!(token2, "BAD CREDENTIALS");
    // and the rejection overwrote the session log
    let (_, session) = svc.user_db.get_session_data("alice".to_owned()).unwrap();
    assert_eq!(session, "BAD CREDENTIALS");
}

#[test]
fn unknown_user_gets_not_found_handle() {
    let mut svc = AuthService::new(toy_params());
    let (handle, c_str) = svc
        .create_authentication_challenge("ghost".to_owned(), "13".to_owned(), "2".to_owned())
        .unwrap();
    assert_eq!(handle, "NotFound");
    // a challenge value is produced either way, in [2, q-2]
    let c = BigNum::from_decimal(c_str.as_str()).unwrap();
    assert!(n(2).le(&c));
    assert!(c.le(&n(9)));
}

#[test]
fn malformed_inputs_are_rejected() {
    let mut svc = AuthService::new(toy_params());
    assert!(matches!(
        svc.register("bob".to_owned(), "abc".to_owned(), "9".to_owned()),
        Err(AuthError::MalformedInput)
    ));
    svc.register("bob".to_owned(), "9".to_owned(), "13".to_owned())
        .unwrap();
    assert!(matches!(
        svc.create_authentication_challenge("bob".to_owned(), "x1".to_owned(), "2".to_owned()),
        Err(AuthError::MalformedInput)
    ));
    svc.user_db.add_challenge_data(
        "bob".to_owned(),
        "13".to_owned(),
        "2".to_owned(),
        "3".to_owned(),
    );
    assert!(matches!(
        svc.verify_authentication("bob".to_owned(), "seven".to_owned()),
        Err(AuthError::MalformedInput)
    ));
}

#[test]
fn missing_interaction_state_is_typed() {
    let mut svc = AuthService::new(toy_params());
    assert!(matches!(
        svc.verify_authentication("nobody".to_owned(), "7".to_owned()),
        Err(AuthError::NoSuchInteraction)
    ));
    // an identity without an outstanding challenge is also no interaction
    svc.register("carol".to_owned(), "9".to_owned(), "13".to_owned())
        .unwrap();
    assert!(matches!(
        svc.verify_authentication("carol".to_owned(), "7".to_owned()),
        Err(AuthError::NoSuchInteraction)
    ));
}

#[test]
fn decimal_parsing_and_printing() {
    assert_eq!(BigNum::from_decimal("12345").unwrap().to_decimal(), "12345");
    assert_eq!(n(0).to_decimal(), "0");
    assert_eq!(n(4294967296).to_decimal(), "4294967296");
    // leading zeros and a single leading '+' are accepted on input
    assert!(BigNum::from_decimal("007").unwrap().equals(&n(7)));
    assert!(BigNum::from_decimal("+5").unwrap().equals(&n(5)));
    // '_' separators after a leading digit are skipped
    assert!(BigNum::from_decimal("1_0").unwrap().equals(&n(10)));
    // rejected inputs
    assert!(BigNum::from_decimal("").is_none());
    assert!(BigNum::from_decimal("-1").is_none());
    assert!(BigNum::from_decimal("12a").is_none());
    assert!(BigNum::from_decimal("_1").is_none());
    assert!(BigNum::from_decimal("++1").is_none());
}

#[test]
fn bignum_comparisons() {
    assert!(n(5).equals(&n(5)));
    assert!(!n(5).equals(&n(6)));
    assert!(n(5).le(&n(6)));
    assert!(n(5).le(&n(5)));
    assert!(!n(6).le(&n(5)));
    assert!(n(0).is_zero());
    assert!(!n(1).is_zero());
}

#[test]
fn secret_derived_from_password_bytes() {
    let params = toy_params();
    // little-endian bytes: [0, 1] denotes 256
    let password: Vec<u8> = vec![0, 1];
    let (x, y1, _) = prepare_register(&params, &password);
    assert!(x.equals(&n(256)));
    // y1 = 4^256 mod 23 agrees with mod_exp
    let expected = mod_exp(&n(4), &n(256), &n(23));
    assert_eq!(y1, expected.to_decimal());
}

#[test]
fn random_sampling_stays_in_range() {
    let low = n(2);
    let high = n(11);
    for _ in 0..50 {
        let r = generate_random_in_range(&low, &high);
        assert!(low.le(&r));
        assert!(!high.le(&r));
    }
}

#[test]
fn group_params_side_conditions() {
    assert!(GroupParams::try_new(n(23), n(11), n(4), n(9)).is_some());
    // q below 4 leaves no challenge range
    assert!(GroupParams::try_new(n(23), n(3), n(4), n(9)).is_none());
    // the modulus must exceed the subgroup order
    assert!(GroupParams::try_new(n(11), n(11), n(4), n(9)).is_none());
}

#[test]
fn store_basics() {
    let mut db = Db::new();
    assert!(!db.contains_user(&"a".to_owned()));
    assert!(db.get_user("a".to_owned()).is_none());
    db.add_user("a".to_owned(), "1".to_owned(), "2".to_owned());
    assert!(db.contains_user(&"a".to_owned()));
    let (key, u) = db.get_user("a".to_owned()).unwrap();
    assert_eq!(key, "a");
    assert_eq!(u.y1, "1");
    assert_eq!(u.y2, "2");
    assert!(db.get_session_data("a".to_owned()).is_none());
    db.add_session("a".to_owned(), "t1".to_owned());
    db.add_session("a".to_owned(), "t2".to_owned());
    let (_, s) = db.get_session_data("a".to_owned()).unwrap();
    assert_eq!(s, "t2");
    assert!(db.get_challenge_data("a".to_owned()).is_none());
}
