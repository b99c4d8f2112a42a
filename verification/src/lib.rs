//! Paladocs: a Typst slide presenter for terminals.
//!
//! The crate holds the logical slide-deck model, the pixel and cell primitives,
//! the Kitty graphics wire encoder, the ANSI cell writer and the pure decision
//! logic of the command-line presenter.
pub mod decimal;
pub mod deck;
pub mod pixel;
pub mod composite;
pub mod cell;
pub mod quantize;
pub mod base64;
pub mod ids;
pub mod medium;
pub mod geometry;
pub mod encode;
pub mod backend;
pub mod presenter;
pub mod cell_sink;
pub mod sgr_reader;
pub mod nav;
pub mod restore;
pub mod terminal;
pub mod letterbox;
pub mod cli;
pub mod mode;
pub mod protocol;
pub mod cache;
pub mod keys;
pub mod text;
pub mod diagnostic;
pub mod pdfpc;
pub mod convert;
pub mod project;
pub mod compiled;
pub mod stage;
pub mod diag;
pub mod error;
