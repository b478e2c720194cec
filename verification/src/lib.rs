//! Archiving of chat media: message text is split into tokens, the tokens
//! decide where a file is stored, and captions of media groups are shared
//! among the items of a group.

pub mod captions;
pub mod decimal;
pub mod download;
pub mod parser;
pub mod router;
pub mod settings;
pub mod timestamp;
