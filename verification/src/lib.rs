//! Input-method session logic for the Fcitx5 front end of Qingjian.
use vstd::prelude::*;

pub mod keys;
pub mod layout;
pub mod order;
pub mod paths;
pub mod rime;
pub mod session;
pub mod text;

verus! {

} // verus!
