//! Tile-grid route finding for tick-driven simulations.
//!
//! A router turns "go to this tile" requests into shortest routes over the
//! tiles that currently exist, and a walker moves each actor along its route,
//! one tile per step.
//!
//! - [`tile`]: tile coordinates, distance and neighbours.
//! - [`map`]: the tiles of a full rectangular map.
//! - [`index`]: the lookup table from coordinates to search nodes.
//! - [`graph`]: the search nodes and the single moves of the search.
//! - [`pathfinding`]: requests, routes, the router and the route highlight.
//! - [`actor`]: actors and the walker.
//! - [`assets`]: the images of the player character.
//! - [`walk`], [`search`], [`model`], [`theorems`]: what a shortest route is,
//!   why the search finds one, and what follows for router and walker.

pub mod actor;
pub mod assets;
pub mod graph;
pub mod index;
pub mod map;
pub mod model;
pub mod pathfinding;
pub mod search;
pub mod theorems;
pub mod tile;
pub mod walk;
