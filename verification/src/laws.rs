//! Properties of the library as a whole, stated over what goes in and what comes
//! out.
pub mod bars;
pub mod comparison;
pub mod drawings;
pub mod flames;
pub mod history;
pub mod inputs;
pub mod messages;
pub mod numbers;
pub mod ratios;
pub mod records;
pub mod runs;
pub mod texts;
pub mod trends;
