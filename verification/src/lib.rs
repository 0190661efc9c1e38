//! A library of collections backed by flat contiguous arrays.

pub use array2::Array2;
pub use array2::InconsistentRowLength;
pub use ordvec::DuplicateKeyViolation;
pub use ordvec::OrdVec;
pub use ordvec::OrdVecKey;
pub use ordvec::OrdVecKeyFst;

mod array2;
mod ordvec;
