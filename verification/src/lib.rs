//! Verified building blocks from a collection of systems-programming exercises:
//! ring buffers, bounded channels, latches and barriers (as state machines that a
//! thin threaded shell drives), a battleship board, a line editor with regex
//! search, a switch tree, and a handful of small text and number utilities.

pub mod text;
pub mod ring_buffer;
pub mod battleship;
pub mod exchange;
pub mod executor;
pub mod prod_cons;
pub mod bounded_queue;
pub mod mpmc;
pub mod cancellable_latch;
pub mod countdown_lock;
pub mod latch;
pub mod barrier;
pub mod deadline;
pub mod delayed_queue;
pub mod delayed_executor;
pub mod node;
pub mod pangram;
pub mod slug;
pub mod primes;
pub mod game;
pub mod even_iter;
pub mod num_even_iter;
pub mod my_channel;
pub mod looper;
pub mod tree;
pub mod regex_support;
pub mod line_editor;
pub mod grep;
pub mod complex;
