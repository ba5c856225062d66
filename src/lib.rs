//! An owner-administered allow-list: a bounded, sorted set of identity keys
//! and the operations that grant, revoke and check membership.
pub mod access_list;
pub mod controller;
pub mod history;
pub mod key;

pub use access_list::{AccessList, MAX_ADDRS};
pub use controller::{
    AccessController, AddAccess, ErrorCode, Initialize, RECORD_SIZE, RemoveAccess, add_access,
    has_access, initialize, owner, remove_access,
};
pub use key::{KEY_LEN, KeyOrder, Pubkey};
