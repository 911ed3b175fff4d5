pub mod inclusion;
