//! The core of a small arcade game of asteroids.
//!
//! The library holds the entities of the game in a store of slots, runs the
//! systems of the game over them tick by tick, and finds the entities that
//! collide. Around that core stand the things a game is wired up with: named
//! commands, input schemes, events and their handlers, the game loop, the
//! scene and the render graphs.
//!
//! Nothing here locks, spawns a thread or computes with floating-point
//! numbers. Time, positions and shapes are the caller's: where the library
//! needs a decision about them, it asks the caller's functions and is proved
//! for whatever they answer.

pub mod assets;
pub mod channel;
pub mod commands;
pub mod dispatch;
pub mod ecs;
pub mod events;
pub mod game;
pub mod game_common;
pub mod game_loop;
pub mod handle;
pub mod input;
pub mod names;
pub mod physics;
pub mod random;
pub mod registry;
pub mod rendering;
pub mod scene;
pub mod table;
pub mod workers;

