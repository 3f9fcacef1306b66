pub mod diagnostics;
pub mod formatter;
pub mod ledger;
pub mod session;
pub mod text;
