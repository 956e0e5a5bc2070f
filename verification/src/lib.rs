//! Polynomial commitment schemes over the Pallas curve, with machine-checked
//! contracts, and a small number-theoretic transform over word-sized moduli.
//!
//! A prover commits to the coefficients of a polynomial, later reveals the value
//! of the polynomial at a point together with an opening, and a verifier checks
//! the opening against the commitment. Two schemes implement the interface
//! [`Pcs`]: [`pedersen_pcs`] commits to every coefficient on its own,
//! [`bootle16_pcs`] to the rows of a square matrix.
//!
//! # What is proved and what is believed
//!
//! Every function states what it returns, and Verus proves it, down to the
//! arithmetic of the curve. That arithmetic is done by `pasta_curves`: the
//! functions of [`field`] and [`curve`] whose names begin with `fq_` and `ep_`
//! call it, and their contracts are believed, not proved. Of the scalar field
//! they say what the operations compute; of the group they only give names to
//! the results ([`curve::curve_add`], [`curve::curve_mul`],
//! [`curve::curve_hash`]).
//!
//! The laws of the schemes are proved in [`algebra`] terms. That an honest
//! opening is accepted holds in every [`algebra::Module`] that satisfies
//! [`algebra::Module::lawful`]; that a changed commitment or opening is
//! rejected holds in every module that satisfies
//! [`algebra::Module::prime_order`]. The curve is the instance
//! [`curve::pallas`]: `lemma_honest_opening_accepted` of each scheme states the
//! first law over the scheme's own generators. That the curve is lawful and of
//! prime order are the two facts about the group that the laws rest on, and
//! they are not proved here.

pub mod algebra;
pub mod bootle16_pcs;
pub mod curve;
pub mod fft;
pub mod field;
pub mod pedersen_pcs;

use crate::field::Scalar;
use vstd::prelude::*;

verus! {

/// Why a scheme turned an input down.
#[derive(Clone, Copy, Debug, PartialEq, Eq)]
pub enum PcsError {
    /// Nothing to commit to: the coefficient vector is empty.
    InvalidSize,
    /// The lengths inside a key, a commitment or an opening do not fit the scheme.
    MalformedInput,
}

/// A polynomial commitment scheme: a prover commits to coefficients, later opens
/// the commitment at a point, and a verifier checks the opening against the
/// commitment alone.
pub trait Pcs: Sized {
    /// What the verifier receives at commit time.
    type Commitment;

    /// What the prover keeps to open the commitment later.
    type CommitmentKey;

    /// What the verifier receives for one evaluation point.
    type Opening;

    /// The size hints for which `setup` can build the scheme on this machine.
    spec fn supports(size: usize) -> bool;

    /// Derives the public generators. `size` is a hint for the number of
    /// coefficients that will be committed to.
    fn setup(size: usize) -> (scheme: Self)
        requires
            Self::supports(size),
    ;

    /// Commits to `coefficients` with fresh blinding scalars. An empty vector
    /// is turned down, and nothing else is.
    fn commit(&self, coefficients: &[Scalar]) -> (r: Result<
        (Self::Commitment, Self::CommitmentKey),
        PcsError,
    >)
        ensures
            r.is_err() <==> coefficients@.len() == 0,
            r.is_err() ==> r == Err::<(Self::Commitment, Self::CommitmentKey), PcsError>(
                PcsError::InvalidSize,
            ),
    ;

    /// Opens the commitment behind `commitment_key` at the point `x`.
    fn open(&self, commitment_key: &Self::CommitmentKey, x: Scalar) -> (r: Result<
        Self::Opening,
        PcsError,
    >)
        ensures
            r.is_err() ==> r == Err::<Self::Opening, PcsError>(PcsError::MalformedInput),
    ;

    /// Checks `opening` against `commitment`.
    fn verify_open(&self, commitment: &Self::Commitment, opening: &Self::Opening) -> (r: Result<
        bool,
        PcsError,
    >)
        ensures
            r.is_err() ==> r == Err::<bool, PcsError>(PcsError::MalformedInput),
    ;
}

} // verus!
