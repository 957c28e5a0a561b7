//! Circuits on a grid: parts and wires on a breadboard, the nodes they
//! make, how boards are saved, the logic chips' rules and the challenges.

pub mod geom;
pub mod chars;
pub mod kind;
pub mod part;
pub mod board;
pub mod forest;
pub mod net;
pub mod numbers;
pub mod words;
pub mod order;
pub mod save;
pub mod reload;
pub mod chip;
pub mod lessons;
pub mod labels;
pub mod editor;
pub mod goals;
