//! Escrow logic of a freelance marketplace: jobs posted by clients, fixed
//! price services listed by freelancers, and a standalone arbitration desk.
//! Each contract is a state machine; a call either is refused with an
//! error and changes nothing, or moves to a new state and names the token
//! transfers and the event that the host is to carry out.
pub mod common;
pub mod marketplace;
pub mod service_listing;
pub mod dispute;
