//! A Klondike Solitaire rules and state engine.
//!
//! The library owns the four pile kinds of a standard Klondike layout
//! (stock, waste, seven tableau columns, four suit foundations), enforces
//! the legal-move rules, and tracks which tableau cards are face-up.
//! Rendering and input handling live outside the library and only read
//! snapshots of the state exposed here.

pub mod card;
pub mod display;
pub mod engine;
pub mod foundation;
pub mod location;
pub mod stock;
pub mod tableau;
pub mod utils;
pub mod waste;
