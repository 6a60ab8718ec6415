pub mod buffer;
pub mod commands;
pub mod image;
pub mod physical_device;
pub mod pipeline;
pub mod render_graph;
pub mod renderer;
