//! The access-controller record and its operations: initialize, grant,
//! revoke and check.
use vstd::prelude::*;

use crate::access_list::{AccessList, MAX_ADDRS, with_key, without_key};
use crate::key::{KEY_LEN, KeyOrder, Pubkey};

verus! {

/// Size in bytes of a stored record: the owner key, then every slot of the
/// list, then its one-byte length, with no padding.
pub const RECORD_SIZE: usize = KEY_LEN + MAX_ADDRS * KEY_LEN + 1;

/// Why an operation was refused.
#[derive(Clone, Copy, Debug, PartialEq, Eq, Structural)]
pub enum ErrorCode {
    /// The requester is not the record's owner.
    Unauthorized,
    /// The access list holds `MAX_ADDRS` keys already.
    Full,
}

impl ErrorCode {
    /// The error's message.
    pub fn msg(&self) -> (r: &'static str)
        ensures
            *self == ErrorCode::Unauthorized ==> r@ == "Unauthorized"@,
            *self == ErrorCode::Full ==> r@ == "Access list is full"@,
    {
        match self {
            ErrorCode::Unauthorized => "Unauthorized",
            ErrorCode::Full => "Access list is full",
        }
    }
}

/// The persistent record: one owner and the keys it has granted access to.
#[derive(Clone, Copy)]
pub struct AccessController {
    pub owner: Pubkey,
    pub access_list: AccessList,
}

impl AccessController {
    /// The record is well formed when its list is.
    pub open spec fn wf(&self) -> bool {
        self.access_list.wf()
    }

    /// Whether the record is well formed, checked on its stored list.
    pub fn is_well_formed(&self) -> (r: bool)
        ensures
            r == self.wf(),
    {
        self.access_list.is_well_formed()
    }

    /// A freshly allocated record: all bytes zero, so no owner and an empty list.
    pub fn zeroed() -> (r: AccessController)
        ensures
            r.wf(),
            r.owner@ == Seq::new(32, |i: int| 0u8),
            r.access_list@ == Seq::<Seq<u8>>::empty(),
    {
        let owner = Pubkey::new_from_array([0u8; 32]);
        assert(owner@ =~= Seq::new(32, |i: int| 0u8));
        AccessController { owner, access_list: AccessList::new() }
    }
}

/// The request that sets up a record: `owner` is the signer that becomes its owner.
#[derive(Clone, Copy, Debug)]
pub struct Initialize {
    pub owner: Pubkey,
}

/// A request by signer `owner` to grant access to `address`.
#[derive(Clone, Copy, Debug)]
pub struct AddAccess {
    pub owner: Pubkey,
    pub address: Pubkey,
}

/// A request by signer `owner` to revoke access from `address`.
#[derive(Clone, Copy, Debug)]
pub struct RemoveAccess {
    pub owner: Pubkey,
    pub address: Pubkey,
}

/// Admits `signer` only where it is the record's owner.
pub fn owner(state: &AccessController, signer: &Pubkey) -> (r: Result<(), ErrorCode>)
    ensures
        r == (if signer@ == state.owner@ {
            Ok::<(), ErrorCode>(())
        } else {
            Err(ErrorCode::Unauthorized)
        }),
{
    if signer.cmp_key(&state.owner) == KeyOrder::Equal {
        Ok(())
    } else {
        Err(ErrorCode::Unauthorized)
    }
}

/// Sets the record's owner to the initializing signer; the list is left as it is.
pub fn initialize(state: &mut AccessController, ctx: &Initialize)
    ensures
        final(state).owner == ctx.owner,
        final(state).access_list == old(state).access_list,
{
    state.owner = ctx.owner;
}

/// Grants `ctx.address` access. Refused with `Unauthorized` unless the signer
/// is the owner, then with `Full` where the list is at capacity; a refused
/// request changes nothing. A key already present is stored again.
pub fn add_access(state: &mut AccessController, ctx: &AddAccess) -> (r: Result<(), ErrorCode>)
    requires
        old(state).wf(),
    ensures
        final(state).wf(),
        ctx.owner@ != old(state).owner@ ==> r == Err::<(), ErrorCode>(ErrorCode::Unauthorized),
        ctx.owner@ == old(state).owner@ && old(state).access_list@.len() == MAX_ADDRS
            ==> r == Err::<(), ErrorCode>(ErrorCode::Full),
        ctx.owner@ == old(state).owner@ && old(state).access_list@.len() < MAX_ADDRS
            ==> r is Ok,
        r is Ok ==> old(state).access_list@.len() < MAX_ADDRS,
        r is Err ==> *final(state) == *old(state),
        r is Ok ==> final(state).owner == old(state).owner
            && final(state).access_list@ == with_key(old(state).access_list@, ctx.address@),
{
    owner(state, &ctx.owner)?;
    if state.access_list.remaining_capacity() == 0 {
        return Err(ErrorCode::Full);
    }
    state.access_list.insert(ctx.address);
    Ok(())
}

/// Revokes `ctx.address`'s access. Refused with `Unauthorized` unless the
/// signer is the owner; removing an absent key succeeds and changes nothing.
pub fn remove_access(
    state: &mut AccessController,
    ctx: &RemoveAccess,
) -> (r: Result<(), ErrorCode>)
    requires
        old(state).wf(),
    ensures
        final(state).wf(),
        ctx.owner@ != old(state).owner@ ==> r == Err::<(), ErrorCode>(ErrorCode::Unauthorized),
        ctx.owner@ == old(state).owner@ ==> r is Ok,
        r is Err ==> *final(state) == *old(state),
        r is Ok ==> final(state).owner == old(state).owner
            && final(state).access_list@ == without_key(old(state).access_list@, ctx.address@),
        !old(state).access_list@.contains(ctx.address@) ==> *final(state) == *old(state),
{
    owner(state, &ctx.owner)?;
    proof {
        state.access_list@.index_of_first_ensures(ctx.address@);
    }
    if let Some(index) = state.access_list.find(&ctx.address) {
        state.access_list.remove_at(index);
    }
    Ok(())
}

/// Whether `address` is on the record's access list.
pub fn has_access(state: &AccessController, address: &Pubkey) -> (r: bool)
    requires
        state.wf(),
    ensures
        r == state.access_list@.contains(address@),
{
    state.access_list.contains_sorted(address)
}

} // verus!
