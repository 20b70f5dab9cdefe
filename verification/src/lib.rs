//! `lob`: a limit-order-book core, the event feed that drives it, and the
//! plumbing that carries its state to readers, with machine-checked contracts.

pub mod arbitrage;
pub mod binance2;
pub mod binance;
pub mod book;
pub mod btree;
pub mod bybit;
pub mod calendar;
pub mod capture;
pub mod cli;
pub mod clock;
pub mod corpus;
pub mod decimal;
pub mod engine;
pub mod event;
pub mod figures;
pub mod flat;
pub mod float;
pub mod gen_cli;
pub mod harness;
pub mod http;
pub mod hyperliquid;
pub mod json;
pub mod kraken;
pub mod ladder;
pub mod market;
pub mod measure;
pub mod metrics;
pub mod outbox;
pub mod pack;
pub mod price;
pub mod provenance;
pub mod recorder;
pub mod reply;
pub mod rev_vec;
pub mod ring;
pub mod ring_model;
pub mod rng;
pub mod schedule;
pub mod search;
pub mod seqlock;
pub mod session;
pub mod sorted_vec;
pub mod streams;
pub mod sweep;
pub mod synthetic;
pub mod table;
pub mod text;
pub mod wire;
pub mod workload;
