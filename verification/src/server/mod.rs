//! The server's own logic: what each packet asks of it, which columns a player is owed,
//! whether an identity holds, what it sends for a column of world, and how far a login
//! sequence runs.
pub mod advertisement;
pub mod columns;
pub mod dispatch;
pub mod identity;
pub mod stage;
pub mod streaming;
pub mod server;
