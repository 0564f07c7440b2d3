//! Expansion of host range expressions such as `node[1-3,5]-rack[1-2]` into the
//! host names they denote, and collapsing of host names back into such an
//! expression.

pub mod collapse;
pub mod error;
pub mod hostlist;
pub mod hostlistelem;
pub mod order;
pub mod parser;
pub mod range;
pub mod readback;
pub mod seqs;
pub mod simplerange;
pub mod text;
pub mod token;

pub use crate::collapse::collapse_hosts;
pub use crate::error::Error;
pub use crate::hostlist::{expand_hostlist, Hostlist};
