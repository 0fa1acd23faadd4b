//! A tile map editor core: a rectangular grid of tile ids, the operations that edit
//! it, the palette of tiles, and the text files the map and the palette are saved in.
pub mod grid;
pub mod text;
pub mod flood;
pub mod map_file;
pub mod palette;
pub mod editor;
pub mod canvas;
