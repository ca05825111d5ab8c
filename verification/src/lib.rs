//! An in-memory graph whose vertices are addressed by paths of keys, whose
//! leaves carry scalar values, and whose writes are merged last-writer-wins.
//!
//! The library is a deterministic state machine. An operation takes the
//! [`NodeStore`] it works on, changes it, and hands back the [`Action`]s that
//! the caller owes the outside world: values to deliver to subscribers and
//! text frames to send to peers. The caller brings what the library cannot
//! know: the time of a write, and the seed of the message identifiers.
//!
//! - [`value`], [`json`] and [`stamp`] hold the data: values of the graph, JSON
//!   trees, and times.
//! - [`model`] is the graph as a mathematical value, over which every contract
//!   is stated; [`store`] is the store that has the model as its view.
//! - [`node`] goes down the graph, reads, writes and subscribes.
//! - [`codec`] builds and reads the frames that peers exchange, and [`merge`]
//!   takes frames from peers in.
//! - [`laws`] proves what holds of all of these together.

pub mod assoc;
pub mod codec;
pub mod ids;
pub mod json;
pub mod laws;
pub mod merge;
pub mod model;
pub mod node;
pub mod stamp;
pub mod store;
pub mod value;

pub use ids::get_id;
pub use json::{Json, JsonView};
pub use node::{Action, ActionView, Node, Notification};
pub use stamp::TICKS;
pub use store::NodeStore;
pub use value::{GunValue, Numeric, NumericView, ValueView};
