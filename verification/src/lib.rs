pub mod answer;
pub mod assemble;
pub mod bytes;
pub mod codec;
pub mod errors;
pub mod rank;
pub mod segment;
pub mod store;
