//! # A2A Signal Chain
//!
//! Communication layer that routes messages between rooms.
//!
//! A [`SignalChain`] knows the registered rooms and the routes between them. A signal that a room
//! sends is put, route by route, into the queue of the room that the route leads to, unless the
//! deadband suppresses it or the routing algorithm of the route holds it back. What a chain is and
//! what each operation makes of it stands in [`model`]; what holds of the chain as a whole stands
//! in [`laws`], [`history`] and [`roundtrip`]. What each operation does, in terms of what goes in
//! and what comes out, stands in [`routing_laws`], [`number_laws`] and [`message_laws`].
//!
//! Double precision numbers are carried as their bit patterns (see [`double`]). What needs floating
//! point arithmetic, the distance between two embeddings and the decimal text of a component, is
//! handed in as a function.
pub mod a2a;
pub mod chain;
pub mod clock;
pub mod deadband;
pub mod double;
pub mod hex;
pub mod history;
pub mod json;
pub mod laws;
pub mod message_laws;
pub mod model;
pub mod number_laws;
pub mod path;
pub mod port;
pub mod roundtrip;
pub mod route;
pub mod routing_laws;
pub mod signal;
pub mod storm;
pub mod text;

pub use chain::SignalChain;
pub use deadband::apply_deadband;
pub use deadband::DeadbandConfig;
pub use model::ChainStats;
pub use port::FilterFn;
pub use port::Port;
pub use port::TransformFn;
pub use route::Route;
pub use route::RoutingAlgorithm;
pub use signal::IdCounter;
pub use signal::Signal;
pub use signal::SignalType;
