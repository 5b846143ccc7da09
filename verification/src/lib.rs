//! Decision logic of the Cardamon command-line tool: which configuration to
//! load, which external processes to observe, how region codes and carbon
//! intensity are obtained, how power metrics are paired into intervals and
//! how stored runs are selected and labelled.

pub mod pid;
pub mod processes;
pub mod order;
pub mod intervals;
pub mod clock;
pub mod stats;
pub mod startup;
