//! The game's cards, creatures and player.
pub mod card;
pub mod npc;
pub mod player;
