pub mod algorithms;
pub mod binary64;
pub mod clock;
pub mod counter;
pub mod engine;
pub mod evaluation;
pub mod export;
pub mod metrics;
pub mod network;
pub mod protocols;
pub mod replica;
pub mod rounds;
pub mod runner;
pub mod text;
pub mod topology;
pub mod workload;
