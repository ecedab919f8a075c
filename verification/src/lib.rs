pub mod aligned;
pub mod attribute;
pub mod binary_reader;
pub mod crc;
pub mod demo;
pub mod device;
pub mod engine;
pub mod endian;
pub mod error;
pub mod gpt;
pub mod heuristics;
pub mod imager;
pub mod mapfile;
pub mod maptext;
pub mod mbr;
pub mod mft;
pub mod partition;
pub mod recovery;
pub mod scanner;
pub mod signatures;
pub mod stats;
pub mod text;
pub mod tree;
pub mod types;
pub mod usn;
pub mod vbr;
