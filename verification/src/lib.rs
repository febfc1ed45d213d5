//! Rules of a turn-based tactics game: creatures made of parts, cards played from parts,
//! statuses that alter actions and react to events, and a hex map.

pub mod assoc;
pub mod id_map;
pub mod vec_set;
pub mod hex;
pub mod error;
pub mod action;
pub mod card;
pub mod creature;
pub mod entity;
pub mod mod_stack;
pub mod part;
pub mod status;
pub mod map;
pub mod open_set;
pub mod world;
pub mod boundary;
pub mod cell;
pub mod filter;
pub mod library;
pub mod npc;
pub mod random;
pub mod ts_data;
