//! Find duplicate audio files by how they sound, not by filename or tags.
//!
//! A file goes through these steps:
//!
//! 1. [`scanner`] chooses the audio files that are new or have changed;
//! 2. [`fingerprint`] takes in their decoded audio and fingerprints it;
//! 3. [`database`] says what is stored, and whether it is still current;
//! 4. [`lsh`] and [`matcher`] find candidate pairs, verify them and link the files;
//! 5. [`group`] and [`classify`] order the groups and tell copies apart;
//! 6. [`output`], [`keep`] and [`exec`] report them or act on them.
//!
//! Reading files, talking to the database and the network, and floating point are left to
//! the program around the library.

pub mod acoustid;
pub mod classify;
pub mod cli;
pub mod container_repair;
pub mod database;
pub mod exec;
pub mod fingerprint;
pub mod fpcalc;
pub mod globs;
pub mod group;
pub mod hash;
pub mod identify;
pub mod keep;
pub mod lsh;
pub mod matcher;
pub mod order;
pub mod output;
pub mod path;
pub mod scanner;
pub mod tags;
pub mod text;
pub mod union_find;
pub mod web;
