pub mod connectivity;
pub mod graph;
pub mod optimality;
pub mod union_find;
