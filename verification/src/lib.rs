//! Plans the movements of a fleet of trains that pick packages up and
//! deliver them over a network of stations.
//!
//! The network is an undirected graph with distances; its path oracle gives
//! the shortest way from a station to every station it can reach, and
//! remembers the table of each source. The planner searches depth first
//! through the actions that are open in a state, a train committing to a
//! free package or running to the destination of one it has claimed, and
//! keeps the plan that ends earliest and, among those, moves the fewest
//! trains. Plans are remembered under the key of the state they were found
//! for.
//!
//! Every function is verified against a contract over the mathematical
//! values of its arguments: names are sequences of characters, tables are
//! sequences of records, and the search is the function `search::search`.

pub mod error;
pub mod names;
pub mod table;
pub mod sorting;
pub mod route;
pub mod min_heap;
pub mod destination;
pub mod paths;
pub mod frontier;
pub mod graph;
pub mod package;
pub mod train;
pub mod movement;
pub mod fingerprint;
pub mod candidates;
pub mod timeline;
pub mod search;
pub mod step;
pub mod validity;
pub mod soundness;
pub mod capacity;
pub mod loads;
pub mod sums;
pub mod deliveries;
pub mod once;
pub mod pickups;
pub mod origins;
pub mod plans;
pub mod input;
pub mod navigation;
