//! # cc-queue
//! A CC Queue, which is:-
//! * Non-blocking
//! * Unbounded
//! * A FIFO for any number of producers and consumers
//! * Built on combining synchronization (CC-Synch)
//!
//! And suitable for use with multiple memory allocators.
//!
//! Callers register their operation in a registration list; one of them at a
//! time becomes the combiner and applies its own and a bounded number of other
//! pending operations to the shared queue state. There is one such list for
//! the enqueues and one for the dequeues, so that producers and consumers do
//! not hold each other up.
//!
//! ## To use it
//! 1. Create a new instance of [`cc_queue::CcQueue`].
//! 2. Create a handle per thread using `new_per_thread_handle`.
//! 3. Enqueue and dequeue through the handle.
//!
//! ## The model
//! Memory is a set of arenas of cells, addressed by the addresses that an
//! [`allocators::Allocator`] hands out; a pointer is an address, and the null
//! pointer is `None`. Every access to shared memory that the protocol makes is
//! part of exactly one step, and a step is one call on the queue, which takes
//! the queue by exclusive reference. Any interleaving of threads is thus a
//! sequence of such calls, in any order of the handles, and what is proved of
//! every call and every state holds of every interleaving. A thread that
//! would spin is told to wait and calls again.
//!
//! A step reads or writes shared memory at one point. Where it does both,
//! what it read cannot have changed before it writes, or the write commutes
//! with whatever another thread does in between: a request is staged before
//! the node that carries it is published in the same step, because nobody
//! reads the request before it sees the node; and the combiner marks the node
//! at which it stands ready in the step in which it finds no successor
//! there, because a successor that is published after the look and before the
//! mark leaves the same state as one that is published after the mark.
//!
//! [`queue_view::QueueView`] is the state machine that the queue follows, and
//! [`laws`] holds what is proved of it.
pub mod allocators;
pub mod arena;
pub mod cc_queue;
pub mod laws;
pub mod node;
pub mod payload;
pub mod per_queue_thread_handle;
pub mod per_queue_thread_handle_internal;
pub mod queue;
pub mod queue_internal;
pub mod queue_view;
pub mod status;
pub mod synch;
pub mod synch_handle;
pub mod synch_node;
pub mod synch_view;
