//! A bridge between an entity-component runtime and the scene graph of the
//! Godot engine.
//!
//! The engine owns nodes, transforms and physics bodies; the runtime owns
//! entities. This crate holds the rules of the bridge: the mirror that keeps
//! one entity per node of the scene tree, the bookkeeping of collisions, the
//! decisions on which transforms are copied in which direction, and the
//! framing of the notifications that the engine sends. Every function is
//! stated over a mathematical model and proved against it.
pub mod autoload;
pub mod channel;
pub mod collisions;
pub mod connections;
pub mod entity;
pub mod godot_ref;
pub mod history;
pub mod input_event;
pub mod mirror;
mod order;
pub mod packed_scene;
pub mod reconcile;
pub mod scene_tree;
pub mod schedule;
pub mod signals;
pub mod time;
pub mod transforms;
pub mod traversal;
pub mod tree;
