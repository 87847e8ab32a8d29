//! Core logic of a small turn-based battle demo and its rendering caches.
//!
//! The crate covers the battle state machine with its weighted random turn
//! ordering, the dynamic action/target menu flow, a glyph atlas cache coupling
//! a rectangle packer with least-recently-used eviction, incremental text
//! rebuild detection, and per-frame reconciliation of render instance buffers.
//! Window plumbing, GPU submission, text shaping and font rasterization are
//! external collaborators: their outputs enter the library as plain values.

pub mod actions;
pub mod atlas;
pub mod battle;
pub mod characters;
pub mod keymap;
pub mod pool;
pub mod text;
pub mod tools;
pub mod ui;
