//! Renders a directory hierarchy as a tree of box-drawing connectors, with
//! the sizes of the files where they are asked for.
//!
//! The library reads no directory and writes no line itself. A
//! [`walker::Walker`] decides, step by step, which directory is to be listed
//! next and which line is to be shown; its driver lists and shows. What the
//! steps add up to is stated in [`render`], over a snapshot of the hierarchy,
//! and proved in [`walk`].
//!
//! - [`entry`]: what a listing says of one child.
//! - [`order`]: the order of the children, by the bytes of their paths.
//! - [`size`]: byte counts in B, KB, MB and GB.
//! - [`line`]: connectors, prefixes and the text of a line.
//! - [`render`]: the tree of a snapshot, as a sequence of lines.
//! - [`walker`]: the walk, one step at a time.
//! - [`walk`]: a walker driven over a snapshot shows its tree.
//! - [`sink`]: where the lines go, and the fence round a saved tree.
//! - [`save`]: the path of the file that a tree is saved to.

pub mod entry;
pub mod line;
pub mod order;
pub mod render;
pub mod save;
pub mod sink;
pub mod size;
pub mod walk;
pub mod walker;
