pub mod api;
pub mod universe;
pub mod observer;
