//! A BitTorrent client for magnet links: the protocol logic.
#![allow(unused_imports)]

pub mod address;
pub mod bencode;
pub mod cli;
pub mod client;
pub mod clock;
pub mod config;
pub mod dht;
pub mod digest;
pub mod discovery;
pub mod entries;
pub mod error;
pub mod fetch;
pub mod magnet;
pub mod message;
pub mod metadata;
pub mod peer;
pub mod piece;
pub mod random;
pub mod requests;
pub mod text;
pub mod tracker;
pub mod udp_tacker;
pub mod web;
pub mod wire;
