//! Resolution protocol for git revision specifications: the value types that
//! cross the boundary, the capability traits a backend implements, and a
//! grammar driver that turns specification text into an ordered sequence of
//! calls on such a backend.
pub mod ascii;
pub mod delegate;
pub mod driver;
pub mod outside;
pub mod trace;
