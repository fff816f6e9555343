//! A library for keeping a list of MAME games: reading the machine list that
//! MAME prints, verifying ROM sets, and managing the lists of games and favourites.
pub mod text;
pub mod sorting;
pub mod game;
pub mod config;
pub mod games;
pub mod xml;
pub mod ui;
