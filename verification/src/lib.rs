//! Link graph of an encyclopedia, and the games played on it.
//!
//! A dump is read in two passes: [`dump`] takes in its events, [`index`] finds
//! out which titles name articles, and [`edges`] which articles link where.
//! [`graph`] holds the result, [`agreement`] shows that it names articles as the
//! parse does, and [`paths`], [`sweep`] and [`search`] answer questions about
//! it; [`trails`] says which of several shortest paths is found. [`game`],
//! [`pools`], [`generate`] and [`daily`] set races, [`runs`] and [`board`] judge
//! and rank them, and [`service`], [`identity`], [`duel`], [`usage`] and
//! [`export`] are what a server around the game decides.
pub mod agreement;
pub mod board;
pub mod columns;
pub mod csr;
pub mod daily;
pub mod difficulty;
pub mod duel;
pub mod dump;
pub mod edges;
pub mod export;
pub mod extras;
pub mod fx;
pub mod game;
pub mod generate;
pub mod graph;
pub mod hubs;
pub mod identity;
pub mod index;
pub mod labels;
pub mod levels;
pub mod paths;
pub mod pools;
pub mod regions;
pub mod rng;
pub mod routes;
pub mod runs;
pub mod search;
pub mod service;
pub mod sorting;
pub mod sweep;
pub mod text;
pub mod titles;
pub mod trails;
pub mod unicode;
pub mod usage;
pub mod walks;
pub mod wikitext;
