//! The simulation engine behind the Comline playground and tutorial. It wires
//! protocol instances together in memory, as a discrete-event simulation on a
//! single thread, so that a virtual clock can pause it.
//!
//! - [`rng`]: the seeded random numbers
//! - [`faults`]: the unreliable wire, and its [`chances`]
//! - [`frame`]: the frame tap that the inspector reads
//! - [`format`]: the wire formats of a body
//! - [`framing`]: the framings of a call, and the [`readings`] of its frames
//! - [`shape`]: the compiled project, and the [`zeros`] of its types
//! - [`clock`]: the virtual clock and its event queue, and when its [`timers`] fire
//! - [`wire`]: one connection's tapped, fault-injecting channel
//! - [`behavior`]: what a server instance does for one function, and its [`answers`]
//! - [`generic`]: a dispatcher driven by a protocol's shape
//! - [`model`]: the session: nodes, instances, connections and their operations,
//!   what its [`edits`] do, and the [`topology`] that they keep
//! - [`session_codec`]: the session as a shareable link, and where [`links`] hold it
//! - [`engine`]: many connections over one clock, the [`openings`] of its wires, [`laws`]
//!   of it, and of its [`runs`], the [`trips`] of a call, and what it [`waits`] for
//! - [`pump`]: one connection on its own, and what [`pumping`] does
//! - [`record`]: record & replay
//! - [`compare`]: the same call over every transport
//! - [`framedecode`]: a raw frame as the inspector shows it, and what an [`inspection`]
//!   tells
//! - [`facade`]: the surface that the playground drives, and what [`driving`] it does
//!
//! Beside them stand the parts: [`contract`], [`dict`], [`double`], its [`arith`]metic
//! and its [`rounding`], [`json`], [`pieces`], [`text`] and the [`writing`] of numbers,
//! and the chat of [`fixtures`].

pub mod answers;
pub mod arith;
pub mod behavior;
pub mod chances;
pub mod clock;
pub mod compare;
pub mod contract;
pub mod dict;
pub mod double;
pub mod driving;
pub mod edits;
pub mod engine;
pub mod facade;
pub mod faults;
pub mod fixtures;
pub mod format;
pub mod frame;
pub mod framedecode;
pub mod framing;
pub mod generic;
pub mod inspection;
pub mod json;
pub mod laws;
pub mod links;
pub mod model;
pub mod openings;
pub mod pieces;
pub mod pump;
pub mod pumping;
pub mod readings;
pub mod record;
pub mod rng;
pub mod rounding;
pub mod runs;
pub mod session_codec;
pub mod shape;
pub mod text;
pub mod timers;
pub mod topology;
pub mod trips;
pub mod waits;
pub mod wire;
pub mod writing;
pub mod zeros;

pub use facade::Sim;
