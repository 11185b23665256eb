//! A verified model of a deck-building roguelike run: seeded random streams,
//! content tables, act setup with map generation, the out-of-combat run loop
//! and the combat card piles.

pub mod rng;
pub mod content;
pub mod state;
pub mod game;
pub mod relics;
pub mod expect;
pub mod map;
pub mod act;
pub mod piles;
pub mod deck;
pub mod rooms;
pub mod rewards;
pub mod encounters;
pub mod events;
pub mod crystal;
pub mod obtain;
pub mod screens;
pub mod fight_rewards;
pub mod laws;
