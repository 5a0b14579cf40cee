//! Reader and writer for HSD `.dat` archives (GameCube HAL System
//! Development scene files): header and relocation table, struct graph with
//! alias identity, typed accessors, GX texture codecs and display lists.

pub mod offset_map;
pub mod be;
pub mod error;
pub mod hsd_struct;
pub mod gx;
pub mod accessor;
pub mod common;
pub mod dat;
pub mod writer;
pub mod gx_image;
pub mod pobj_writer;
pub mod gx_dl;
pub mod export;
pub mod import;
