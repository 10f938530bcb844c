//! A term-frequency index over text documents, and the pieces of a TF-IDF
//! ranking engine that can be stated over integers.
//!
//! Text is split into tokens ([`lexer`]), the tokens of a document are
//! counted ([`term_freq`]), the counts of all documents make the index
//! ([`corpus`]), and the documents of an index are ranked for a query
//! ([`rank`]). Around these stand the stored form of an index ([`persist`]),
//! the text of an XML document ([`extract`]), the query of a request
//! ([`url`]), the page that answers it ([`render`]), and the command line
//! ([`command`], [`config`]).
//!
//! Every function in this crate carries a contract that Verus proves. The
//! few facts that are believed rather than proved are the ones stated about
//! `std` and about the crates this library calls; each of them is marked
//! `assume_specification` or `external_body` and documented where it stands.

pub mod text;
pub mod lexer;
pub mod term_freq;
pub mod corpus;
pub mod rank;
pub mod url;
pub mod command;
pub mod config;
pub mod extract;
pub mod persist;
pub mod render;
