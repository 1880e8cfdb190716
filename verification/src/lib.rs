//! Erasure coding, compression framing and terminal front-end logic for the
//! `sc` coding agent, with every function held to a machine-checked contract.
pub mod accounts;
pub mod app;
pub mod bulk;
pub mod cayley;
pub mod chrome;
pub mod commands;
pub mod complete;
pub mod compress;
pub mod conduct;
pub mod delta;
pub mod diff;
pub mod display;
pub mod draws;
pub mod fib_backoff;
pub mod fib_hash;
pub mod fit;
pub mod folds;
pub mod fountain;
pub mod frames;
pub mod gf256;
pub mod hierarchical;
pub mod homohash;
pub mod input;
pub mod keys;
pub mod linear;
pub mod markdown;
pub mod markup;
pub mod menu;
pub mod offers;
pub mod overlay;
pub mod paths;
pub mod placement;
pub mod pointer;
pub mod previews;
pub mod progress;
pub mod report;
pub mod rs;
pub mod screen;
pub mod shares;
pub mod slash;
pub mod styled;
pub mod text;
pub mod theme;
pub mod turn;
pub mod view;
pub mod words;
pub mod zeckendorf;
