pub mod canvas;
pub mod exporter;
pub mod hit;
pub mod matrix;
pub mod text;
