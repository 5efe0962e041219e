//! A best-first search engine with an 8-ary intrusive open list, a node
//! arena and a state directory. The engine searches 2-D grids: its states,
//! moves and costs are those of `maze_2d`; `space::Space` states the interface
//! a space offers, and the grid implements it.

pub mod derank;
pub mod fx;
pub mod heap_index;
pub mod heap_primitives;
pub mod maze_2d;
pub mod path;
pub mod search;
pub mod frontier;
pub mod dijkstra;
pub mod intrusive_heap;
pub mod astar;
pub mod maze_text;
pub mod maze_random;
pub mod maze_image;
pub mod debug;
pub mod space;
