use vstd::prelude::*;

pub mod ai;
pub mod art;
pub mod blob;
pub mod bridge;
pub mod bytes;
pub mod campaign;
pub mod cellmap;
pub mod col;
pub mod command;
pub mod config;
pub mod contact;
pub mod drop;
pub mod fort;
pub mod fortview;
pub mod generate;
pub mod gif;
pub mod grid;
pub mod install;
pub mod island;
pub mod isle;
pub mod map;
pub mod mission;
pub mod net;
pub mod path;
pub mod relay;
pub mod pieces;
pub mod rules;
pub mod scenario;
pub mod script;
pub mod shapes;
pub mod sheet;
pub mod shp;
pub mod strs;
pub mod structure;
pub mod tarc;
pub mod text;
pub mod trailer;
pub mod typefile;
pub mod unit;
pub mod world;

verus! {

} // verus!
