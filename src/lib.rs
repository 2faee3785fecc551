//! Resource schemes of a microkernel: a registry of named schemes, a root
//! scheme through which processes become providers of new schemes, a scheme
//! exposing interrupt lines, and an IP scheme that resolves routes and link
//! addresses before handing out network endpoints.
pub mod error;
pub mod registry;
pub mod root;
pub mod ip;
pub mod irq;
pub mod net;
pub mod text;
