//! Decimal fixed-point numbers over fixed-width unsigned integers.

pub mod convert_from_f64;
pub mod pn_128_64_d9;
pub mod pn_256_128_d12;
pub mod pn_256_128_d18;
pub mod pn_32_32_d3;
pub mod pn_64_32_d4;
pub mod pn_8_8_d1;
pub mod pn_approx;
pub mod pn_impl;
pub mod pn_muldiv;
pub mod pn_sqrt;
pub mod pn_sqrt_laws;

pub use pn_256_128_d12::PreciseNumber;
