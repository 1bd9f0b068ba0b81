//! Predict-o-matic: the verified core of a small prediction-market webapp.
//!
//! The library holds the money arithmetic (amounts in micro-units and their
//! decimal text form), the ledger of accounts and transfers that markets are
//! built on, the market operations (deposit, trade, resolution), the
//! validation of user input, and the decisions of the web handlers: what a
//! form or a path says, and what a request does to the ledger.

pub mod config;
pub mod ledger;
pub mod text;
pub mod decimal;
pub mod model;
pub mod finance;
pub mod market;
pub mod endpoints;
pub mod routes;
pub mod server;
pub mod laws;
pub mod help;
pub mod ranking;
