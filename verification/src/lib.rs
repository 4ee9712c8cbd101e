//! One-out-of-two oblivious transfer over the group of squares modulo a safe
//! prime, and two extensions that stretch a few transfers in the group into
//! many transfers of messages.
//!
//! Every function states what it returns in its contract, over bit vectors
//! as sequences, numbers as naturals, and matrices as sequences of rows. The
//! arithmetic on residues, the hash and the pseudorandom streams come from
//! other crates; what is taken for granted of them stands above each of the
//! functions that call them.
pub mod bits;
pub mod common;
pub mod natural;
pub mod ot_better_network;
pub mod ot_primitive;
#[allow(non_snake_case)]
pub mod ote_IKNP;
