//! Tolerance matching and ranking over measurement tensors and point-set
//! distances.

pub mod tensor;
pub mod pixel;
pub mod rank;
pub mod assign;
