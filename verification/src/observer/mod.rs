pub mod depth_topology;
pub mod union_find;
