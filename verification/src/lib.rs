//! Fixed-capacity object pools whose slot accounting is machine-checked.
//!
//! A pool owns a fixed array of slots.  Allocation moves a value into a free
//! slot and hands back a `Box`: an owned handle that names the slot and
//! cannot be copied.  Giving the handle back destroys the value and frees the
//! slot.  A pool never hands out a slot twice and never loses one.
//!
//! The pools differ in how they find a free slot:
//!
//! * [`scan`] tries the lock of every slot in turn;
//! * [`locked`] keeps a free list whose head sits behind one lock;
//! * [`lockfree`] keeps a free list whose head is read and exchanged cell by
//!   cell, and [`lockfree::interleaving`] follows threads that do so at the
//!   same time;
//! * [`sharded`] splits the slots into shards and binds every thread to the
//!   least used one, by the counts kept in [`usage`].
//!
//! Every pool is driven through `&mut self`, so each operation is one
//! indivisible step; [`history`] states what holds after any sequence of
//! them.  To share a pool between threads is the business of whoever embeds
//! it.

pub mod align128;
pub mod chain;
pub mod error;
pub mod history;
pub mod locked;
pub mod lockfree;
pub mod mutex;
pub mod scan;
pub mod sharded;
pub mod usage;
pub mod view;
