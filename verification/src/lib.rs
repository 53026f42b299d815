//! Finding the files of a directory tree by their extension, and making them
//! ready for display.
//!
//! The library does no input or output. Whoever uses it lists the tree and
//! reads the metadata of the files, and hands both over as plain values:
//!
//! - `listing` says what a directory listing is and which of its entries a
//!   search finds; `finder` searches a listing and keeps what it found;
//!   `index` groups the paths found by extension.
//! - `stated` turns paths and metadata into display records, with sizes as
//!   people read them.
//! - `coordinator` holds the state machines of a scan that runs in the
//!   background: the worker, the heartbeat and the owner. `protocol` puts
//!   them together and shows what the owner gets to see.
//! - `paths` and `text` read file names, extensions and lists of extensions
//!   out of texts; `setup` holds the preferences.

pub mod coordinator;
pub mod finder;
pub mod index;
pub mod listing;
pub mod paths;
pub mod protocol;
mod sequences;
pub mod setup;
pub mod stated;
pub mod text;
