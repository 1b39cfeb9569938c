//! Cooperative green threads on one operating-system thread.
//!
//! The runtime is a value, [`runtime::Runtime`], that is handed to every
//! operation. Each operation changes that value and answers with the switch
//! that has to be carried out; saving and restoring the processor state is
//! left to the caller, who owns the machine-specific switch routine.

pub mod registers;
pub mod stack;
pub mod laws;
pub mod runtime;
pub mod preserve;
pub mod state;
pub mod ident;
pub mod mailbox;
