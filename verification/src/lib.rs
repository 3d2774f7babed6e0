//! Bit-level encoding and decoding: a writer that packs bit fields most
//! significant bit first, a reader that takes them apart again, and codecs
//! for integers, strings, sequences, tuples and the standard wrappers, each
//! proved to read back what it writes.
pub mod bits;
pub mod codec;
pub mod counted;
pub mod cow;
pub mod dec;
pub mod deque;
pub mod enc;
pub mod error;
pub mod ints;
pub mod laws;
pub mod layout;
pub mod le;
pub mod net;
pub mod num;
pub mod primitive;
pub mod ranges;
pub mod seqs;
pub mod text;
pub mod time;
pub mod tuples;
pub mod var_len;
pub mod wrap;

pub use counted::{CountedSeq, LenHeader};
pub use dec::{BitDecode, BitReader};
pub use enc::{BitEncode, BitWriter};
pub use error::{CodecError, ErrorKind};
pub use primitive::BitInt;
pub use var_len::VarLen;
pub mod keyed;
pub mod wire;
