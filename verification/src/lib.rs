//! Finite-field arithmetic, MAC algebra and the clear-text pieces of an
//! oblivious PRF built from the "crypto dark matter" weak PRF.
pub mod f3;
pub mod f3_serialize;
pub mod rng;
pub mod ct;
pub mod bytes;
pub mod f61p;
pub mod gf3poly;
pub mod f64t;
pub mod f82t;
pub mod gf2poly;
pub mod f256b;
pub mod poly61;
pub mod hd_quicksilver;
pub mod qs_range;
pub mod codes;
pub mod lpn;
pub mod input_encoding;
pub mod matrix_util;
pub mod cut_and_choose;
pub mod f3_triples;
pub mod habits;
pub mod d_bits;
pub mod convert;
pub mod semi;
pub mod c_wprf;
pub mod preprocessing;
pub mod digest;
pub mod vole_util;
pub mod endemic_ot;
pub mod oprf_types;
