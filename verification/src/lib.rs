//! Verified cores of a family of small Unix text and file utilities.
//! Each module holds the computing part of one tool; reading files,
//! walking directories and writing to the terminal happen outside.
pub mod text;
pub mod input;
pub mod catr;
pub mod wcr;
pub mod echor;
pub mod uniqr;
pub mod headr;
pub mod commr;
pub mod pattern;
pub mod grepr;
pub mod findr;
pub mod fortuner;
pub mod lsr;
