//! Mailgraph builds a private graph of people, conversations and domains from mail archives.
//!
//! A scan ([`scanner`]) takes messages ([`archive`], [`headers`]) out of an archive
//! ([`readers`]) and puts them into an index ([`db`], [`tables`]). Addresses are normalized
//! ([`normalize`]), and senders that are not people are told from those that are
//! ([`classify`]). The index can be asked for its contacts in the order of their rank
//! ([`ranking`]) and for its numbers ([`stats`]). Lists of addresses from elsewhere can be
//! cleaned too ([`clean`]).
//!
//! What the library promises as a whole stands in modules of laws: on what is read ([`reading`],
//! [`exports`], [`finding`], [`senders`], [`words`]), on what is stored ([`storing`],
//! [`recording`]), on what is asked and told ([`asking`], [`listing`], [`tallies`], [`telling`]),
//! and on what is cleaned ([`sifting`]).
//!
//! Nothing in here touches the disk: the index is held in memory, and it keeps a list of the
//! rows that a store has to write down.

pub mod archive;
pub mod asking;
pub mod checking;
pub mod classify;
pub mod clean;
pub mod cli;
pub mod clock;
pub mod columns;
pub mod csv;
pub mod db;
pub mod exports;
pub mod finding;
pub mod headers;
pub mod indexing;
pub mod listing;
pub mod lists;
pub mod normalize;
pub mod numbers;
pub mod paths;
pub mod people;
pub mod pieces;
pub mod places;
pub mod ranking;
pub mod readers;
pub mod reading;
pub mod recording;
pub mod reports;
pub mod room;
pub mod scanner;
pub mod senders;
pub mod sifting;
pub mod sort;
pub mod soundness;
pub mod stats;
pub mod storing;
pub mod tables;
pub mod tallies;
pub mod telling;
pub mod terms;
pub mod text;
pub mod words;
