//! The core of a garbage collector for a managed runtime: a full collector
//! that marks and compacts a generational heap, the large object space
//! beside it, a simple collector for a single list of objects, and the walks
//! of the stack that find the roots.

pub mod address;
pub mod card;
pub mod compact;
pub mod controller;
pub mod crossing;
pub mod ctxt;
pub mod full;
pub mod gc;
pub mod heap;
pub mod large;
pub mod laws;
pub mod mark;
pub mod mem;
pub mod object;
pub mod old_gen;
pub mod rootset;
pub mod x64;
pub mod young_gen;
