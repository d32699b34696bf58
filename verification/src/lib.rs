//! DHCPv4 messages: the fixed BOOTP header, the options field, and the
//! option-overload rules that let options spill into the `sname` and `file`
//! header fields.
use vstd::prelude::*;

pub mod error;
pub mod header;
pub mod hex;
pub mod laws;
pub mod message;
pub mod options;
pub mod overload;
pub mod wire;

verus! {

} // verus!
