use access_controller::{
    AccessController, AddAccess, ErrorCode, Initialize, KeyOrder, Pubkey, RemoveAccess,
    MAX_ADDRS, add_access, has_access, initialize, owner, remove_access,
};

fn key(b: u8) -> Pubkey {
    Pubkey::new_from_array([b; 32])
}

fn key_with_last(first: u8, last: u8) -> Pubkey {
    let mut bytes = [first; 32];
    bytes[31] = last;
    Pubkey::new_from_array(bytes)
}

fn setup(o: Pubkey) -> AccessController {
    let mut state = AccessController::zeroed();
    initialize(&mut state, &Initialize { owner: o });
    state
}

fn grant(state: &mut AccessController, by: Pubkey, target: Pubkey) -> Result<(), ErrorCode> {
    add_access(state, &AddAccess { owner: by, address: target })
}

fn revoke(state: &mut AccessController, by: Pubkey, target: Pubkey) -> Result<(), ErrorCode> {
    remove_access(state, &RemoveAccess { owner: by, address: target })
}

fn stored(state: &AccessController) -> Vec<[u8; 32]> {
    state.access_list.to_vec().iter().map(|k| k.to_bytes()).collect()
}

fn assert_strictly_ascending(state: &AccessController) {
    let v = stored(state);
    for w in v.windows(2) {
        assert!(w[0] < w[1]);
    }
}

#[test]
fn scenario_grant_then_check() {
    let o = key(9);
    let x = key(4);
    let mut state = setup(o);
    assert_eq!(state.owner, o);
    assert!(!has_access(&state, &x));
    assert_eq!(grant(&mut state, o, x), Ok(()));
    assert!(has_access(&state, &x));
}

#[test]
fn scenario_full_after_capacity() {
    let o = key(200);
    let mut state = setup(o);
    for i in 0..32u8 {
        assert_eq!(grant(&mut state, o, key_with_last(1, i)), Ok(()));
    }
    assert_eq!(state.access_list.len(), 32);
    assert_eq!(state.access_list.remaining_capacity(), 0);
    let before = stored(&state);
    assert_eq!(grant(&mut state, o, key_with_last(2, 33)), Err(ErrorCode::Full));
    assert_eq!(state.access_list.len(), 32);
    assert_eq!(stored(&state), before);
    assert!(!has_access(&state, &key_with_last(2, 33)));
}

#[test]
fn scenario_attacker_refused() {
    let o = key(1);
    let attacker = key(2);
    let x = key(3);
    let mut state = setup(o);
    assert_eq!(grant(&mut state, attacker, x), Err(ErrorCode::Unauthorized));
    assert_eq!(state.access_list.len(), 0);
    assert!(!has_access(&state, &x));
}

#[test]
fn scenario_descending_grants_stored_ascending() {
    let o = key(0xee);
    let x = key(30);
    let y = key(20);
    let z = key(10);
    let mut state = setup(o);
    assert_eq!(grant(&mut state, o, x), Ok(()));
    assert_eq!(grant(&mut state, o, y), Ok(()));
    assert_eq!(grant(&mut state, o, z), Ok(()));
    assert_eq!(stored(&state), vec![[10u8; 32], [20u8; 32], [30u8; 32]]);
}

#[test]
fn scenario_remove_absent_is_noop() {
    let o = key(5);
    let mut state = setup(o);
    assert_eq!(grant(&mut state, o, key(7)), Ok(()));
    let before = stored(&state);
    assert_eq!(revoke(&mut state, o, key(8)), Ok(()));
    assert_eq!(stored(&state), before);
    assert_eq!(state.access_list.len(), 1);
}

#[test]
fn remove_present_key() {
    let o = key(5);
    let mut state = setup(o);
    for b in [3u8, 1, 2] {
        assert_eq!(grant(&mut state, o, key(b)), Ok(()));
    }
    assert_eq!(revoke(&mut state, o, key(2)), Ok(()));
    assert_eq!(stored(&state), vec![[1u8; 32], [3u8; 32]]);
    assert!(!has_access(&state, &key(2)));
    assert!(has_access(&state, &key(1)));
    assert!(has_access(&state, &key(3)));
}

#[test]
fn remove_by_non_owner_refused() {
    let o = key(5);
    let mut state = setup(o);
    assert_eq!(grant(&mut state, o, key(6)), Ok(()));
    assert_eq!(revoke(&mut state, key(6), key(6)), Err(ErrorCode::Unauthorized));
    assert!(has_access(&state, &key(6)));
}

#[test]
fn full_list_refuses_non_owner_first() {
    let o = key(200);
    let mut state = setup(o);
    for i in 0..32u8 {
        assert_eq!(grant(&mut state, o, key_with_last(1, i)), Ok(()));
    }
    assert_eq!(grant(&mut state, key(3), key(4)), Err(ErrorCode::Unauthorized));
}

#[test]
fn duplicate_grant_is_stored_twice() {
    let o = key(5);
    let mut state = setup(o);
    assert_eq!(grant(&mut state, o, key(6)), Ok(()));
    assert_eq!(grant(&mut state, o, key(6)), Ok(()));
    assert_eq!(state.access_list.len(), 2);
    assert_eq!(revoke(&mut state, o, key(6)), Ok(()));
    assert!(has_access(&state, &key(6)));
    assert_eq!(revoke(&mut state, o, key(6)), Ok(()));
    assert!(!has_access(&state, &key(6)));
}

#[test]
fn sorted_after_mixed_operations() {
    let o = key(0xff);
    let mut state = setup(o);
    let order = [17u8, 3, 250, 99, 3, 42, 0, 128];
    for (i, b) in order.iter().enumerate() {
        let k = key_with_last(*b, i as u8);
        assert_eq!(grant(&mut state, o, k), Ok(()));
        assert_strictly_ascending(&state);
    }
    assert_eq!(revoke(&mut state, o, key_with_last(250, 2)), Ok(()));
    assert_strictly_ascending(&state);
    assert_eq!(revoke(&mut state, o, key_with_last(3, 1)), Ok(()));
    assert_strictly_ascending(&state);
    assert_eq!(state.access_list.len(), order.len() - 2);
}

#[test]
fn membership_follows_history() {
    let o = key(1);
    let mut state = setup(o);
    let a = key(10);
    let b = key(20);
    assert_eq!(grant(&mut state, o, a), Ok(()));
    assert_eq!(grant(&mut state, o, b), Ok(()));
    assert_eq!(revoke(&mut state, o, a), Ok(()));
    assert!(!has_access(&state, &a));
    assert!(has_access(&state, &b));
    assert_eq!(grant(&mut state, o, a), Ok(()));
    assert!(has_access(&state, &a));
    assert!(!has_access(&state, &key(15)));
}

#[test]
fn lookup_in_full_list() {
    let o = key(200);
    let mut state = setup(o);
    for i in (0..32u8).rev() {
        assert_eq!(grant(&mut state, o, key_with_last(7, i * 2)), Ok(()));
    }
    for i in 0..32u8 {
        assert!(has_access(&state, &key_with_last(7, i * 2)));
        assert!(!has_access(&state, &key_with_last(7, i * 2 + 1)));
    }
    assert_eq!(state.access_list.get(0).to_bytes()[31], 0);
    assert_eq!(state.access_list.get(31).to_bytes()[31], 62);
}

#[test]
fn key_comparison_first_byte_decides() {
    let mut a = [0u8; 32];
    let mut b = [0u8; 32];
    a[0] = 1;
    b[1] = 200;
    let a = Pubkey::new_from_array(a);
    let b = Pubkey::new_from_array(b);
    assert_eq!(a.cmp_key(&b), KeyOrder::Greater);
    assert_eq!(b.cmp_key(&a), KeyOrder::Less);
    assert_eq!(a.cmp_key(&a), KeyOrder::Equal);
}

#[test]
fn owner_guard() {
    let state = setup(key(3));
    assert_eq!(owner(&state, &key(3)), Ok(()));
    assert_eq!(owner(&state, &key(4)), Err(ErrorCode::Unauthorized));
}

#[test]
fn zeroed_record_and_initialize() {
    let mut state = AccessController::zeroed();
    assert_eq!(state.owner.to_bytes(), [0u8; 32]);
    assert_eq!(state.access_list.len(), 0);
    assert_eq!(state.access_list.remaining_capacity(), MAX_ADDRS);
    initialize(&mut state, &Initialize { owner: key(8) });
    assert_eq!(state.owner, key(8));
    assert_eq!(state.access_list.len(), 0);
}

#[test]
fn error_messages() {
    assert_eq!(ErrorCode::Unauthorized.msg(), "Unauthorized");
    assert_eq!(ErrorCode::Full.msg(), "Access list is full");
}
