//! Peers: what a peer actor decides on the frames it reads and the requests
//! it writes, and how the pool of peer actors shares out the work.
pub mod peer_actor;
pub mod peer_actor_pool;
