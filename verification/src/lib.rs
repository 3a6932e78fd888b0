pub mod personal;
pub mod tokenize;
pub mod recent;
pub mod cold_start;
pub mod artifacts;
pub mod clock;
pub mod readings;
pub mod transport;
pub mod protocol;
pub mod lm;
pub mod decoder;
pub mod lattice;
pub mod interner;
pub mod tables;
pub mod text;
