pub mod bignum;
pub mod modexp;
pub mod store;
pub mod protocol;
