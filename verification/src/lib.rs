//! A verified core for aggregating order books across venues.

pub mod aggregator;
pub mod archive;
pub mod assign;
pub mod audit;
pub mod aws;
pub mod backoff;
pub mod book;
pub mod calendar;
pub mod channel;
pub mod cluster;
pub mod columnar;
pub mod counters;
pub mod cross;
pub mod cross_windows;
pub mod decimal;
pub mod decode;
pub mod event;
pub mod ingest;
pub mod keys;
pub mod kind;
pub mod ladder;
pub mod lease;
pub mod metrics;
pub mod net;
pub mod price;
pub mod reader;
pub mod record;
pub mod registry;
pub mod resync;
pub mod schema;
pub mod store;
pub mod stream;
pub mod tape;
pub mod text;
pub mod textmap;
pub mod time;
pub mod window;
pub mod writer;
