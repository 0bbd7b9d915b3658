//! The three table-of-contents layouts as they sit on disk.

pub mod checksum;
pub mod common;
pub mod final_exam;
pub mod obscure1;
pub mod obscure2;
