//! Ledger and debt-netting engine for shared group expenses.

pub mod amount;
pub mod auth;
pub mod balance;
pub mod convert;
pub mod currency;
pub mod expense;
pub mod expire_map;
pub mod group;
pub mod laws;
pub mod ledger;
pub mod netting;
pub mod outside;
pub mod settle;
pub mod split;
pub mod user;
pub mod validators;
