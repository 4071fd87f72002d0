//! A cooperative, single-threaded scheduler for a discrete-time production
//! economy: a table of pending computations that are polled once per tick,
//! and producers with priority queues, load balancing and backlog-driven
//! scale-up.
//!
//! The scheduler decides, and its host acts. Computations are data, and the
//! functions of the host that they run are named by numbers. Each tick the
//! host calls `GameState::tick_fwd`, and then `GameState::next_request`
//! until nothing is due any more: a poll that takes a function of the host
//! comes back as a [`scheduler::Request`], which the host answers with
//! `GameState::finish` or `GameState::chain`.
//! A computation is polled once when it is registered: one that needs no
//! function of the host and whose sources are finished is finished on
//! return, and one that needs a function of the host hands the request
//! back with its handle.
//! What the engine does in its own time, machines that turn inputs into
//! outputs and miners that mine, the host tells the scheduler through
//! [`machine::MultiMachine::complete_cycles`] and
//! [`machine::Territory::deposit`].

pub mod analysis;
pub mod machine;
pub mod recipes;
pub mod resources;
pub mod runtime;
pub mod scheduler;
pub mod table;
pub mod utils;
pub mod value;
