//! Stream execution planning for operation fusion: the store of execution plans,
//! the policy that matches incoming operations against them, and the ordered
//! execution of the chosen plan.

pub mod activation;
pub mod doc;
pub mod operation;
pub mod ordering;
pub mod policy;
pub mod store;
pub mod strategy;
pub mod tracking;
pub mod triggers;
pub mod validator;
