pub mod cell;
pub mod cell_sink;
pub mod consistency;
pub mod detached;
pub mod graph;
pub mod is_cell;
pub mod is_stream;
pub mod lambda;
pub mod latch;
pub mod listener;
pub mod memo_lazy;
pub mod node;
pub mod operational;
pub mod propagate;
pub mod sodium_ctx;
pub mod stream;
pub mod stream_sink;
pub mod transaction;
pub mod laws;
