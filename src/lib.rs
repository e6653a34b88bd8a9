pub mod seed;
pub mod crypto;
pub mod event;
pub mod codec;
pub mod passport;
pub mod identity;

pub use self::event::{Event, EventAction};
pub use self::identity::Identity;
pub use self::passport::{ImportError, Passport, PassportError};
pub use self::seed::{Seed, SeedError};
