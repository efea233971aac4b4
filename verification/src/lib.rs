//! A verified core for a small todo-list web service.
//!
//! The library holds the parts of the service that are pure logic: the
//! storage model with its id-assignment invariant, the parsing of the
//! form bodies that the HTTP routes accept, and the mapping from each
//! handler outcome to an HTTP reply. The surrounding program (the HTTP
//! server, the backing database, the template renderer) performs the
//! outside work and hands plain values in and out of these functions.
pub mod form;
pub mod routes;
pub mod store;
