//! The decisions of `protov`, a tool that keeps a vendored copy of protobuf
//! sources in step with where they come from and generates code out of it.
//!
//! Nothing in here touches the disk or starts a program. Every procedure that
//! has to is a run: a value that asks for one piece of outside work at a time
//! and is handed the reply. What a run does in whole, whatever the replies, is
//! stated as laws: in [`mirror`] of a copy, in [`cached`] of the cache, in
//! [`vendored`] of the vendor directory, in [`built`], [`emptied`] and [`undone`]
//! of the targets, in [`synced`] of a synchronisation, and next to the run itself
//! for the shorter ones. Which replies a run goes on after and which ones end it is
//! stated in [`followed`], and in [`updates`] and [`rounds`] for the cache and the
//! targets; [`parts`] says which smaller run a larger one is at.
//!
//! [`disk`] is a disk that answers what runs ask for. The laws in [`restored`] say
//! what cleaning up after builds leaves on it, and those in [`recopied`] what copying
//! does to it, once and twice.
pub mod actions;
pub mod built;
pub mod bytes;
pub mod cache;
pub mod cached;
pub mod checkout;
pub mod cleared;
pub mod command;
pub mod config;
pub mod copy;
pub mod disk;
pub mod emptied;
pub mod explored;
pub mod followed;
pub mod home;
pub mod index;
pub mod mirror;
pub mod order;
pub mod parts;
pub mod path;
pub mod protocol;
pub mod recopied;
pub mod removal;
pub mod restored;
pub mod rounds;
pub mod search;
pub mod seen;
pub mod stat;
pub mod sync;
pub mod synced;
pub mod targets;
pub mod templates;
pub mod undone;
pub mod updates;
pub mod vendor;
pub mod vendored;
pub mod walk;
