//! A minimal decentralized-science incentive ledger.
//!
//! Three independent components, each a verified state-transition engine over
//! an explicit, typed store:
//!
//! - [`token::BioCreditToken`]: a per-account balance ledger for one internal
//!   credit type, mutated only by `mint` and `transfer`.
//! - [`registry::StudyRegistry`]: an immutable, content-addressed archive of
//!   study records with a derived owner index and metadata projections.
//! - [`payment::PaymentContract`]: a batch-payment distributor that fans out
//!   transfers on an external token ledger and reports one payment event per
//!   transfer actually performed.
//!
//! Every public operation either completes with the stated effect or fails
//! with an [`errors::Error`] and leaves the observable state unchanged.

pub mod errors;
pub mod payment;
pub mod registry;
pub mod store;
pub mod token;
