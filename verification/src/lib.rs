//! A space-separated token collection, as a class-list attribute holds one:
//! an ordered collection of unique tokens with size, membership, insertion,
//! removal and toggling, each operation specified and verified.

pub mod laws;
pub mod token_list;

pub use token_list::DelegationFailure;
pub use token_list::TokenList;
