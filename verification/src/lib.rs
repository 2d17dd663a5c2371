//! Ymir finds the projects below a directory and keeps what it found in a
//! cache file. This crate holds what Ymir decides and computes: the codec of
//! the cache file above all, and the orders, filters and keys of its project
//! list. Reading directories, asking git and drawing the screen are left to
//! the program around it.
//!
//! The cache file is the signature `YMIR`, a version byte, and a payload
//! compressed with a Huffman coder. The payload is a fixed binary layout of
//! the projects.
//!
//! - [`records`] says what the layout is, as functions on sequences of
//!   bytes; [`cache`] writes and reads it; [`cache_laws`] proves that reading
//!   undoes writing.
//! - [`huffman`] is the coder, from the byte frequencies over the code tree
//!   to the packed bit stream; [`tree_laws`] and [`huffman_laws`] prove that
//!   its codes are a prefix code and that decoding undoes encoding.
//! - [`frequency`], [`bits`] and [`wire`] are what both build on: counting
//!   bytes, packing bits, and integers as little-endian bytes.
//! - [`projects`], [`utils`] and [`config`] hold the data; [`sorting`] and
//!   [`app`] hold the project list and what keys do to it.

pub mod app;
pub mod bits;
pub mod cache;
pub mod cache_laws;
pub mod config;
pub mod error;
pub mod frequency;
pub mod huffman;
pub mod huffman_laws;
pub mod projects;
pub mod records;
pub mod sorting;
pub mod tree_laws;
pub mod utils;
pub mod wire;
