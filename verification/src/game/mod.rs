pub mod controller;
pub mod entities;
pub mod players;
