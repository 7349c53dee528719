pub mod codec;
pub mod blocks;
pub mod pointer;
pub mod fid;
pub mod bitvec;
pub mod index;
pub mod laws;

pub use blocks::rounded;
pub use bitvec::BitVector;
pub use codec::lex_next;
pub use codec::lex_num;
pub use index::Index;
pub use index::IndexError;
pub use pointer::LookupTable;
pub use pointer::PointerArray;
