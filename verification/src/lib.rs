//! Amplitude-level simulation of a small quantum register together with the
//! classical number theory that turns a measured phase into a period.
//!
//! [`number`] holds the arithmetic of order finding: primality, greatest
//! common divisors, modular powers, perfect powers, continued fractions,
//! their convergents and the search for an order among them.
//!
//! [`quantum`] holds the register engine: growth by Kronecker products,
//! operator application, gate layouts, the inverse Fourier transform and the
//! readout of measured states. [`linear`] holds the vector and matrix
//! products under it.
//!
//! The library holds no floating-point arithmetic of its own. Registers are
//! written over an arbitrary amplitude type and phases over an arbitrary
//! type of real numbers; the caller supplies the arithmetic of those types
//! as closures, which [`closure`] reads as mathematical functions.
pub mod closure;
pub mod linear;
pub mod number;
pub mod quantum;
