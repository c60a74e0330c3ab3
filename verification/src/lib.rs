//! A message broker for a partitioned, durable entity world.

pub mod adopt;
pub mod attention;
pub mod authority;
pub mod borders;
pub mod burial;
pub mod claims;
pub mod clock;
pub mod commands;
pub mod components;
pub mod connect;
pub mod control;
pub mod crc;
pub mod cut;
pub mod dispatch;
pub mod doc;
pub mod entity;
pub mod events;
pub mod failover;
pub mod fidelity;
pub mod float;
pub mod ghosts;
pub mod grants;
pub mod handoff;
pub mod interest;
pub mod journal;
pub mod json;
pub mod leases;
pub mod ledger;
pub mod lifecycle;
pub mod loads;
pub mod memory;
pub mod mesh;
pub mod moves;
pub mod order;
pub mod partition;
pub mod passage;
pub mod policy;
pub mod publish;
pub mod query;
pub mod readings;
pub mod rebalance;
pub mod receive;
pub mod recovery;
pub mod registry;
pub mod replay;
pub mod replay_tape;
pub mod report;
pub mod requests;
pub mod rights;
pub mod rounds;
pub mod schema;
pub mod sight;
pub mod signals;
pub mod spawn;
pub mod standing;
pub mod startup;
pub mod state;
pub mod steps;
pub mod strmap;
pub mod succession;
pub mod tape_events;
pub mod tenure;
pub mod text;
pub mod threshold;
pub mod topology;
pub mod transfers;
pub mod update;
pub mod wal;
pub mod wire;
pub mod works;
pub mod world;
