//! Building one game-content archive from many overlapping mods: codecs for
//! the two configuration formats, the three-way structural merge, and the
//! rules by which mods are ordered and their conflicts resolved.

pub mod text;
pub mod git;
pub mod cfg_syntax;
pub mod stalker2_cfg;
pub mod text_laws;
pub mod cfg_laws;
pub mod unreal_ini;
pub mod json;
pub mod merge;
pub mod cfg_json;
pub mod conflict;
pub mod modpack;
pub mod cfg_parser;
