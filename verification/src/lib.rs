//! The core of `pdfsigner`: what is placed on the pages of a PDF, how the
//! placed overlays are edited, and how they are written back into the file.

pub mod app;
pub mod content;
pub mod drawing;
pub mod editor;
pub mod files;
pub mod font;
pub mod fontfile;
pub mod geom;
pub mod input;
pub mod intact;
pub mod laws;
pub mod load;
pub mod menus;
pub mod merge;
pub mod names;
pub mod numtext;
pub mod objects;
pub mod overlay;
pub mod pagedict;
pub mod pages;
pub mod pagetree;
pub mod panels;
pub mod picture;
pub mod pointer;
pub mod pruning;
pub mod save;
pub mod screen;
pub mod stamp;
pub mod text;
pub mod units;
pub mod words;
