//! A peer-to-peer messaging node: the rules by which its state changes.
use vstd::prelude::*;

pub mod admin_apps;
pub mod app_edge;
pub mod apply;
pub mod base32;
pub mod bootstrap;
pub mod cards;
pub mod change;
pub mod cross_user;
pub mod debug;
pub mod desk;
pub mod device_wire;
pub mod diagnostics;
pub mod dispatch;
pub mod effects;
pub mod election;
pub mod find;
pub mod following;
pub mod forms;
pub mod healing;
pub mod hosts;
pub mod http;
pub mod ids;
pub mod invite;
pub mod join_wire;
pub mod joining;
pub mod keys;
pub mod layout;
pub mod lists;
pub mod markup;
pub mod merge;
pub mod messages;
pub mod mint;
pub mod model;
pub mod modules;
pub mod numbers;
pub mod order;
pub mod outcomes;
pub mod pages;
pub mod passage;
pub mod public_state;
pub mod reading;
pub mod reconcile;
pub mod relay;
pub mod reunion;
pub mod routing;
pub mod scheduler;
pub mod sessions;
pub mod setup;
pub mod setup_pages;
pub mod sync;
pub mod telling;
pub mod tending;
pub mod text;
pub mod totp;
pub mod tunnels;
pub mod types;
pub mod ui;
pub mod upkeep;
pub mod watermark;
pub mod welcome;
pub mod winning;
pub mod wire;

verus! {

} // verus!
