//! The client-side write path and the per-operator materialized state of a
//! dataflow-based streaming database.
//!
//! The writer of a base table checks the shape of what a client writes,
//! widens rows by the defaults of dropped columns, wraps the operations in
//! an envelope and splits the envelope over the shards of the table. The
//! materialized state of an operator holds its rows under one or more
//! indices, some of which may be partial.
//!
//! * [`value`]: column values and their mathematical model.
//! * [`hash`]: the stable hash of values and keys.
//! * [`keyed_state`]: one index, a hash map from keys to buckets of rows.
//! * [`model`]: the mathematical model of a materialized state.
//! * [`state`]: the materialized state.
//! * [`laws`]: what holds of a state whatever is done to it.
//! * [`ops`]: the operations on a base table and their envelope.
//! * [`dropped`]: compensation for dropped columns.
//! * [`mutator`]: the writer of a base table.
//! * [`shard`]: the partition of operations over shards, and one batch of
//!   writes.
//! * [`wire`]: the acknowledgement of a write as it stands on the wire.
//!
//! Every function states what it returns or changes over the models, and
//! every such statement is proved, but for the few functions that call
//! `vec_map`, `bincode`, `nom_sql` or `Rc::clone`: their statements are taken
//! from the documentation of what they call.

pub mod dropped;
pub mod hash;
pub mod keyed_state;
pub mod laws;
pub mod model;
pub mod mutator;
pub mod ops;
pub mod shard;
pub mod state;
pub mod value;
pub mod wire;
