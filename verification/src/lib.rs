//! Parsing, brewing and leasing for a small language with permissions.
pub mod acceptance;
pub mod base;
pub mod bir;
pub mod brew;
pub mod brewery;
pub mod code_parser;
pub mod cursor;
pub mod diagnostic;
pub mod grammar;
pub mod graph;
pub mod growth;
pub mod itinerary;
pub mod layout;
pub mod lease;
pub mod machine;
pub mod meaning;
pub mod parser;
pub mod production;
pub mod progress;
pub mod provenance;
pub mod reach;
pub mod recipe;
pub mod recovery;
pub mod settled;
pub mod simulation;
pub mod spelling;
pub mod stack;
pub mod syntax;
pub mod token;
pub mod traversal;
pub mod validated;
pub mod writes;
