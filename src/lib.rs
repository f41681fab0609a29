//! Lock a dynamically assembled set of resources without deadlock.
//!
//! Resources are registered with a [`Builder`], which hands back one
//! [`Token`] per resource. [`Builder::finish`] acquires every registered
//! resource in ascending identity order and yields a [`Locker`]; while the
//! `Locker` lives, tokens of the same session give access to their resource.
//! Releasing the `Locker` lets go of every resource it acquired, exactly once.
pub mod lock;
pub mod order;
pub mod session;
pub mod slots;

pub use lock::{multilock, Builder, Locker, RawLock, Token};
pub use session::SessionIds;
