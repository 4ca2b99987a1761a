pub mod gf2;
pub mod cubical;
pub mod topology;
pub mod grid;
pub mod photon;
pub mod invariance;
pub mod translation;
