//! The rules of a tank-battle round.
//!
//! The host owns the numbers that move: positions, velocities, timers,
//! damage, all single-precision, plus the physics solver and the renderer.
//! This crate owns what is decided from them: which slot an attacker takes,
//! who gives way, what a shot strikes first, what catches fire, who collects
//! a pickup, when a round ends and what is recorded about it. The host hands
//! over measurements as [`scalar::Scalar`]s, which the crate copies and
//! orders but never computes with, and does the arithmetic on its own side.
//!
//! Every function here carries a contract that is checked for all inputs.

pub mod arms;
pub mod blasts;
pub mod burning;
pub mod chain;
pub mod chart;
pub mod chassis;
pub mod clusters;
pub mod collecting;
pub mod combat;
pub mod command;
pub mod comms;
pub mod debug;
pub mod detonation;
pub mod dice;
pub mod driving;
pub mod effects;
pub mod endings;
pub mod enemies;
pub mod engage;
pub mod event;
pub mod field;
pub mod flame;
pub mod frame;
pub mod frog_phase;
pub mod frogs;
pub mod game;
pub mod hits;
pub mod input;
pub mod kinds;
pub mod kit;
pub mod layout;
pub mod missiles;
pub mod orders;
pub mod overlays;
pub mod perception;
pub mod pickups;
pub mod pieces;
pub mod placement;
pub mod portals;
pub mod predict;
pub mod props;
pub mod ramming;
pub mod ranking;
pub mod rings;
pub mod routes;
pub mod scalar;
pub mod seeking;
pub mod shots;
pub mod shoving;
pub mod streams;
pub mod supply;
pub mod terrain;
pub mod thinking;
pub mod ticking;
pub mod tiles;
pub mod travel;
pub mod turn;
pub mod views;
pub mod volley;
