//! Splitting one tar stream into size-bounded volumes.
//!
//! The modules hold the decisions of the splitter: when a volume is full,
//! which directories to write again at the head of a new volume, how a
//! volume is named, how it is closed or rolled back, and how an entry is
//! listed. Reading the input stream, writing archives, temporary files and
//! compression processes are driven by the caller, which carries out what
//! these decisions say.

pub mod dir_guarantees;
pub mod dirs;
pub mod entry;
pub mod guarantees;
pub mod lifecycle;
pub mod listing;
pub mod mode;
pub mod naming;
pub mod splitter;

pub use entry::{entry_type_char, parent_dir_of, EntryHeader, EntryKind, TAR_HEADER_SIZE};
pub use lifecycle::{VolumeLifecycle, VolumePhase};
pub use listing::{listing_line, print_header};
pub use mode::{decode_mod, format_flag_group, set_umasked_mode};
pub use naming::{target_path, volume_name};
pub use splitter::{SplitConfig, SplitError, Splitter, Step, TRAILER_SIZE};
