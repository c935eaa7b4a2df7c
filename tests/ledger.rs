use bizon_matrix::ident::{classify_referral, ReferralKind};
use bizon_matrix::matrix::{BizonMatrix, MatrixError, StorageKey, DAY, ENTRY_FEE, MONTH};
use bizon_matrix::pools::split;

fn s(t: &str) -> String {
    t.to_string()
}

fn ledger() -> BizonMatrix {
    BizonMatrix::new(s("owner.near"))
}

fn enter(m: &mut BizonMatrix, who: &str, referral: Option<&str>) {
    assert!(m.has_room_for_entry());
    let r = m.join(s(who), ENTRY_FEE, 5, referral.map(s));
    assert_eq!(r, Ok(()));
}

#[test]
fn split_of_entry_fee_is_exact() {
    let f = split(ENTRY_FEE);
    assert_eq!(f.daily, 900_000_000_000_000_000_000_000);
    assert_eq!(f.monthly, 90_000_000_000_000_000_000_000);
    assert_eq!(f.yearly, 10_000_000_000_000_000_000_000);
    assert_eq!(f.remainder, 0);
}

#[test]
fn split_of_one_hundred() {
    let f = split(100);
    assert_eq!((f.daily, f.monthly, f.yearly, f.remainder), (90, 9, 1, 0));
}

#[test]
fn split_rounding_goes_to_remainder() {
    let f = split(7);
    assert_eq!((f.daily, f.monthly, f.yearly, f.remainder), (6, 0, 0, 1));
    let g = split(199);
    assert_eq!((g.daily, g.monthly, g.yearly, g.remainder), (179, 17, 1, 2));
}

#[test]
fn split_of_largest_fee_conserves() {
    let f = split(u128::MAX);
    assert_eq!(f.daily + f.monthly + f.yearly + f.remainder, u128::MAX);
    assert_eq!(f.yearly, u128::MAX / 100);
}

#[test]
fn split_of_zero() {
    let f = split(0);
    assert_eq!((f.daily, f.monthly, f.yearly, f.remainder), (0, 0, 0, 0));
}

#[test]
fn entry_credits_pools() {
    let mut m = ledger();
    enter(&mut m, "alice.near", None);
    assert_eq!(m.daily_pool, 900_000_000_000_000_000_000_000);
    assert_eq!(m.monthly_pool, 90_000_000_000_000_000_000_000);
    assert_eq!(m.yearly_pool, 10_000_000_000_000_000_000_000);
    assert_eq!(m.global_pool, 0);
}

#[test]
fn first_entry_fills_own_matrix() {
    let mut m = ledger();
    enter(&mut m, "alice.near", None);
    assert_eq!(m.total_players, 1);
    assert_eq!(m.next_id, 2);
    assert_eq!(m.matrix_fill, vec![1]);
    assert_eq!(
        m.get_my_profile(&s("alice.near")),
        Some((s("ID1"), 0, 0, 1, 0))
    );
}

#[test]
fn nine_entries_leave_matrix_one_short() {
    let mut m = ledger();
    for _ in 0..9 {
        enter(&mut m, "alice.near", None);
    }
    assert_eq!(m.get_my_profile(&s("alice.near")), Some((s("ID1"), 0, 0, 9, 0)));
}

#[test]
fn tenth_entry_completes_matrix() {
    let mut m = ledger();
    for _ in 0..10 {
        enter(&mut m, "alice.near", None);
    }
    assert_eq!(m.get_my_profile(&s("alice.near")), Some((s("ID1"), 1, 0, 0, 0)));
    assert_eq!(m.total_players, 1);
}

#[test]
fn hundred_entries_make_one_cycle() {
    let mut m = ledger();
    for _ in 0..90 {
        enter(&mut m, "alice.near", None);
    }
    assert_eq!(m.get_my_profile(&s("alice.near")), Some((s("ID1"), 9, 0, 0, 0)));
    for _ in 0..10 {
        enter(&mut m, "alice.near", None);
    }
    assert_eq!(m.get_my_profile(&s("alice.near")), Some((s("ID1"), 0, 1, 0, 0)));
}

#[test]
fn new_participant_takes_the_emptiest_matrix() {
    let mut m = ledger();
    enter(&mut m, "alice.near", None);
    enter(&mut m, "bob.near", None);
    assert_eq!(m.matrix_fill, vec![1, 1]);
    enter(&mut m, "alice.near", None);
    assert_eq!(m.matrix_fill, vec![2, 1]);
    assert_eq!(m.find_least_filled(), s("bob.near"));
}

#[test]
fn completed_owner_with_lowest_fill_is_not_placed_again() {
    let mut m = ledger();
    enter(&mut m, "alice.near", None);
    enter(&mut m, "bob.near", None);
    for _ in 0..26 {
        enter(&mut m, "carol.near", None);
    }
    // carol's first entry went to her own empty matrix; then the three
    // matrices filled up in turn until alice's completed, and hers, emptied,
    // was the least filled.
    let a = m.get_my_profile(&s("alice.near")).unwrap();
    let b = m.get_my_profile(&s("bob.near")).unwrap();
    let c = m.get_my_profile(&s("carol.near")).unwrap();
    assert_eq!((a.1, a.3), (1, 0));
    assert_eq!((b.1, b.3), (0, 9));
    assert_eq!((c.1, c.3), (0, 9));
}

#[test]
fn least_filled_of_empty_ledger_is_owner() {
    let m = ledger();
    assert_eq!(m.find_least_filled(), s("owner.near"));
}

#[test]
fn least_filled_ties_go_to_earliest() {
    let mut m = ledger();
    enter(&mut m, "alice.near", None);
    enter(&mut m, "bob.near", None);
    assert_eq!(m.find_least_filled(), s("alice.near"));
}

#[test]
fn wrong_payment_is_rejected() {
    let mut m = ledger();
    let r = m.join(s("alice.near"), ENTRY_FEE - 1, 5, None);
    assert_eq!(r, Err(MatrixError::InvalidPayment));
    assert_eq!(m.total_players, 0);
    assert_eq!(m.daily_pool, 0);
    assert_eq!(m.next_id, 1);
}

#[test]
fn ids_are_sequential_and_stable() {
    let mut m = ledger();
    enter(&mut m, "alice.near", None);
    enter(&mut m, "bob.near", None);
    enter(&mut m, "alice.near", None);
    enter(&mut m, "carol.near", None);
    assert_eq!(m.get_my_id(&s("alice.near")), Some(s("ID1")));
    assert_eq!(m.get_my_id(&s("bob.near")), Some(s("ID2")));
    assert_eq!(m.get_my_id(&s("carol.near")), Some(s("ID3")));
    assert_eq!(m.get_my_id(&s("dave.near")), None);
    assert_eq!(m.total_players, 3);
}

#[test]
fn ids_past_nine_have_two_digits() {
    let mut m = ledger();
    let names = ["a1", "a2", "a3", "a4", "a5", "a6", "a7", "a8", "a9", "a10", "a11"];
    for n in names.iter() {
        enter(&mut m, n, None);
    }
    assert_eq!(m.get_my_id(&s("a10")), Some(s("ID10")));
    assert_eq!(m.get_my_id(&s("a11")), Some(s("ID11")));
}

#[test]
fn referral_by_public_id() {
    let mut m = ledger();
    enter(&mut m, "alice.near", None);
    enter(&mut m, "bob.near", Some("ID1"));
    assert_eq!(m.players[1].referrer, Some(s("alice.near")));
    assert_eq!(m.players[0].referrer, None);
}

#[test]
fn referral_by_unknown_id_is_none() {
    let mut m = ledger();
    enter(&mut m, "alice.near", None);
    enter(&mut m, "bob.near", Some("ID7"));
    assert_eq!(m.players[1].referrer, None);
}

#[test]
fn referral_by_account() {
    let mut m = ledger();
    enter(&mut m, "alice.near", Some("zed.testnet"));
    assert_eq!(m.players[0].referrer, Some(s("zed.testnet")));
}

#[test]
fn self_referral_by_account_is_dropped() {
    let mut m = ledger();
    enter(&mut m, "alice.near", Some("alice.near"));
    assert_eq!(m.players[0].referrer, None);
}

#[test]
fn self_referral_by_own_new_id_is_dropped() {
    let mut m = ledger();
    enter(&mut m, "alice.near", Some("ID1"));
    assert_eq!(m.players[0].referrer, None);
}

#[test]
fn referral_only_recorded_at_first_entry() {
    let mut m = ledger();
    enter(&mut m, "alice.near", None);
    enter(&mut m, "alice.near", Some("zed.near"));
    assert_eq!(m.players[0].referrer, None);
}

#[test]
fn resolve_referral_shapes() {
    let mut m = ledger();
    enter(&mut m, "alice.near", None);
    assert_eq!(m.resolve_referral(&s("ID1")), Some(s("alice.near")));
    assert_eq!(m.resolve_referral(&s("ID2")), None);
    assert_eq!(m.resolve_referral(&s("bob.near")), Some(s("bob.near")));
    assert_eq!(m.resolve_referral(&s("bob.testnet")), Some(s("bob.testnet")));
    assert_eq!(m.resolve_referral(&s("bob.tg")), None);
    assert_eq!(m.resolve_referral(&s("Bob.near")), None);
    assert_eq!(m.resolve_referral(&s("bob..near")), None);
    assert_eq!(m.resolve_referral(&s("bob")), None);
    assert_eq!(m.resolve_referral(&s("")), None);
}

#[test]
fn classify_referral_shapes() {
    assert_eq!(classify_referral("ID12"), ReferralKind::PublicId);
    assert_eq!(classify_referral("ID.near"), ReferralKind::PublicId);
    assert_eq!(classify_referral("user.tg"), ReferralKind::ExternalAlias);
    assert_eq!(classify_referral("user.near"), ReferralKind::NetworkAccount);
    assert_eq!(classify_referral("user.testnet"), ReferralKind::NetworkAccount);
    assert_eq!(classify_referral("user.com"), ReferralKind::Unrecognized);
    assert_eq!(classify_referral(""), ReferralKind::Unrecognized);
    assert_eq!(classify_referral("I"), ReferralKind::Unrecognized);
}

#[test]
fn distribution_without_participants_is_rejected() {
    let mut m = ledger();
    assert_eq!(m.distribute_daily(DAY), Err(MatrixError::NoParticipants));
    assert_eq!(m.last_daily_ts, 0);
}

#[test]
fn distribution_credits_equal_shares() {
    let mut m = ledger();
    enter(&mut m, "alice.near", None);
    enter(&mut m, "bob.near", None);
    assert_eq!(m.distribute_daily(DAY), Ok(()));
    assert_eq!(m.daily_pool, 0);
    assert_eq!(m.last_daily_ts, DAY);
    assert_eq!(m.players[0].pending_balance, 900_000_000_000_000_000_000_000);
    assert_eq!(m.players[1].pending_balance, 900_000_000_000_000_000_000_000);
    assert_eq!(m.global_pool, 0);
}

#[test]
fn distribution_before_a_day_does_nothing() {
    let mut m = ledger();
    enter(&mut m, "alice.near", None);
    assert_eq!(m.distribute_daily(DAY - 1), Ok(()));
    assert_eq!(m.daily_pool, 900_000_000_000_000_000_000_000);
    assert_eq!(m.last_daily_ts, 0);
    assert_eq!(m.players[0].pending_balance, 0);
}

#[test]
fn second_distribution_in_window_does_nothing() {
    let mut m = ledger();
    enter(&mut m, "alice.near", None);
    assert_eq!(m.distribute_daily(DAY), Ok(()));
    enter(&mut m, "bob.near", None);
    assert_eq!(m.distribute_daily(2 * DAY - 1), Ok(()));
    assert_eq!(m.last_daily_ts, DAY);
    assert_eq!(m.daily_pool, 900_000_000_000_000_000_000_000);
    assert_eq!(m.players[0].pending_balance, 900_000_000_000_000_000_000_000);
    assert_eq!(m.players[1].pending_balance, 0);
    assert_eq!(m.distribute_daily(2 * DAY), Ok(()));
    assert_eq!(m.players[0].pending_balance, 1_350_000_000_000_000_000_000_000);
    assert_eq!(m.players[1].pending_balance, 450_000_000_000_000_000_000_000);
}

#[test]
fn small_pool_moves_to_global() {
    let mut m = ledger();
    enter(&mut m, "alice.near", None);
    enter(&mut m, "bob.near", None);
    enter(&mut m, "carol.near", None);
    m.global_pool = 0;
    m.daily_pool = 2;
    assert_eq!(m.distribute_daily(DAY), Ok(()));
    assert_eq!(m.daily_pool, 0);
    assert_eq!(m.global_pool, 2);
    assert_eq!(m.last_daily_ts, DAY);
    assert_eq!(m.players[0].pending_balance, 0);
}

#[test]
fn division_dust_stays_undistributed() {
    let mut m = ledger();
    enter(&mut m, "alice.near", None);
    enter(&mut m, "bob.near", None);
    enter(&mut m, "carol.near", None);
    m.daily_pool = 10;
    assert_eq!(m.distribute_daily(DAY), Ok(()));
    assert_eq!(m.daily_pool, 0);
    assert_eq!(m.global_pool, 0);
    for p in m.players.iter() {
        assert_eq!(p.pending_balance, 3);
    }
}

#[test]
fn empty_pool_only_advances_time() {
    let mut m = ledger();
    enter(&mut m, "alice.near", None);
    m.daily_pool = 0;
    assert_eq!(m.distribute_daily(3 * DAY), Ok(()));
    assert_eq!(m.last_daily_ts, 3 * DAY);
    assert_eq!(m.players[0].pending_balance, 0);
}

#[test]
fn monthly_distribution_waits_a_month() {
    let mut m = ledger();
    enter(&mut m, "alice.near", None);
    assert_eq!(m.distribute_monthly(DAY), Ok(()));
    assert_eq!(m.monthly_pool, 90_000_000_000_000_000_000_000);
    assert_eq!(m.distribute_monthly(MONTH), Ok(()));
    assert_eq!(m.monthly_pool, 0);
    assert_eq!(m.last_monthly_ts, MONTH);
    assert_eq!(m.players[0].pending_balance, 90_000_000_000_000_000_000_000);
}

#[test]
fn yearly_distribution_waits_a_year() {
    let mut m = ledger();
    enter(&mut m, "alice.near", None);
    assert_eq!(m.distribute_yearly(MONTH), Ok(()));
    assert_eq!(m.yearly_pool, 10_000_000_000_000_000_000_000);
    assert_eq!(m.distribute_yearly(365 * DAY), Ok(()));
    assert_eq!(m.yearly_pool, 0);
    assert_eq!(m.players[0].pending_balance, 10_000_000_000_000_000_000_000);
}

#[test]
fn claim_drains_exactly_once() {
    let mut m = ledger();
    enter(&mut m, "alice.near", None);
    assert_eq!(m.distribute_daily(DAY), Ok(()));
    assert_eq!(
        m.claim_all(&s("alice.near")),
        Ok(900_000_000_000_000_000_000_000)
    );
    assert_eq!(m.players[0].pending_balance, 0);
    assert_eq!(m.claim_all(&s("alice.near")), Err(MatrixError::NothingToClaim));
}

#[test]
fn claim_without_record_is_rejected() {
    let mut m = ledger();
    assert_eq!(m.claim_all(&s("alice.near")), Err(MatrixError::NothingToClaim));
}

#[test]
fn claim_with_zero_balance_is_rejected() {
    let mut m = ledger();
    enter(&mut m, "alice.near", None);
    assert_eq!(m.claim_all(&s("alice.near")), Err(MatrixError::NothingToClaim));
}

#[test]
fn reinvest_rate_is_checked_and_stored() {
    let mut m = ledger();
    enter(&mut m, "alice.near", None);
    assert_eq!(m.set_reinvest_rate(&s("alice.near"), 101), Err(MatrixError::InvalidRate));
    assert_eq!(m.players[0].reinvest_rate, 0);
    assert_eq!(m.set_reinvest_rate(&s("alice.near"), 100), Ok(()));
    assert_eq!(m.players[0].reinvest_rate, 100);
}

#[test]
fn reinvest_rate_of_unknown_caller_is_ignored() {
    let mut m = ledger();
    enter(&mut m, "alice.near", None);
    assert_eq!(m.set_reinvest_rate(&s("bob.near"), 40), Ok(()));
    assert_eq!(m.players[0].reinvest_rate, 0);
}

#[test]
fn only_owner_disables_owner() {
    let mut m = ledger();
    assert_eq!(m.disable_owner(&s("bob.near")), Err(MatrixError::NotAuthorized));
    assert_eq!(m.owner_id, s("owner.near"));
    assert_eq!(m.disable_owner(&s("owner.near")), Ok(()));
    assert_eq!(m.owner_id, s(""));
    assert_eq!(m.disable_owner(&s("owner.near")), Err(MatrixError::NotAuthorized));
}

#[test]
fn profile_of_unknown_caller_is_none() {
    let m = ledger();
    assert_eq!(m.get_my_profile(&s("alice.near")), None);
}

#[test]
fn room_for_entry_reflects_held_value() {
    let mut m = ledger();
    enter(&mut m, "alice.near", None);
    assert!(m.has_room_for_entry());
    m.global_pool = u128::MAX - ENTRY_FEE - m.daily_pool - m.monthly_pool - m.yearly_pool;
    assert!(m.has_room_for_entry());
    m.global_pool += 1;
    assert!(!m.has_room_for_entry());
}

#[test]
fn room_for_entry_needs_cycle_headroom() {
    let mut m = ledger();
    enter(&mut m, "alice.near", None);
    m.players[0].cycles = u32::MAX;
    assert!(!m.has_room_for_entry());
}

#[test]
fn storage_prefixes_are_distinct() {
    assert_eq!(StorageKey::Players.prefix(), 0);
    assert_eq!(StorageKey::MatrixFill.prefix(), 1);
    assert_eq!(StorageKey::IdToAccount.prefix(), 2);
    assert_eq!(StorageKey::AccountToId.prefix(), 3);
}
