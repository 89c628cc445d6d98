//! A small library for keeping named identity profiles (a display name and an
//! email under a profile key), persisting them as structured text, and
//! dispatching the commands of a profile-management tool against the store.

pub mod codec;
pub mod dispatch;
pub mod gitcfg;
pub mod store;
