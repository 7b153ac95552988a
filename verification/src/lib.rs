//! Verified core of a desktop activity tracker: the at-rest encryption
//! framing and key handling, and the icon lookup logic.

pub mod crypto;
pub mod hex;
pub mod icon;
pub mod key;
pub mod paths;
pub mod search;
pub mod text;
