//! Properties of the ledger that relate several operations or hold of every
//! state.

use vstd::prelude::*;

use crate::ident::{id_text, lemma_id_text_injective};
use crate::matrix::{
    account_index, claimed, distributed, due, fill_one, first_min, has_account, joined,
    last_of, lemma_first_min, level_up, pending_of, period, placed, referrer_for, registered,
    credited, room_for_entry, wf, MatrixView, PlayerView, PoolKind, LEVELS_PER_CYCLE,
    MATRIX_SLOTS, ENTRY_FEE,
};
use crate::pools::split_of;

verus! {

/// `k` matrix completions of one participant in a row.
pub open spec fn completions(p: PlayerView, k: nat) -> PlayerView
    decreases k,
{
    if k == 0 {
        p
    } else {
        level_up(completions(p, (k - 1) as nat))
    }
}

/// Ten completions in a row bring a participant back to the level it had,
/// one cycle further; nine completions from level 0 reach level 9 in the
/// same cycle.
pub proof fn lemma_cycle_arithmetic(p: PlayerView)
    requires
        p.level < LEVELS_PER_CYCLE,
        p.cycles < u32::MAX,
    ensures
        completions(p, 10).level == p.level,
        completions(p, 10).cycles == p.cycles + 1,
        p.level == 0 ==> completions(p, 9).level == 9 && completions(p, 9).cycles == p.cycles,
{
    reveal_with_fuel(completions, 11);
}

/// Between operations every matrix holds fewer than ten entries.
pub proof fn lemma_fill_bound(v: MatrixView)
    requires
        wf(v),
    ensures
        forall|i: int| 0 <= i < v.fills.len() ==> 0 <= #[trigger] v.fills[i] < MATRIX_SLOTS,
{
}

/// Distinct participants have distinct public identifiers.
pub proof fn lemma_ids_distinct(v: MatrixView, i: int, j: int)
    requires
        wf(v),
        0 <= i < v.players.len(),
        0 <= j < v.players.len(),
        v.accounts[i] != v.accounts[j],
    ensures
        v.players[i].id != v.players[j].id,
{
    assert(v.players[i].id == id_text((i + 1) as nat));
    assert(v.players[j].id == id_text((j + 1) as nat));
    if v.players[i].id == v.players[j].id {
        lemma_id_text_injective((i + 1) as nat, (j + 1) as nat);
    }
}

proof fn lemma_placed_keeps(w: MatrixView)
    requires
        w.players.len() > 0,
        w.fills.len() == w.players.len(),
    ensures
        placed(w).accounts == w.accounts,
        placed(w).players.len() == w.players.len(),
        forall|i: int|
            0 <= i < w.players.len() ==> (#[trigger] placed(w).players[i]).id == w.players[i].id
                && placed(w).players[i].referrer == w.players[i].referrer,
{
    lemma_first_min(w.fills);
    let o = first_min(w.fills);
    let w1 = fill_one(w, o);
    lemma_first_min(w1.fills);
}

/// A participant's public identifier never changes: any later entry, by
/// itself or by anyone else, leaves it where it was.
pub proof fn lemma_id_stable(
    v: MatrixView,
    a: Seq<char>,
    caller: Seq<char>,
    input: Option<Seq<char>>,
    now: u64,
)
    requires
        wf(v),
        room_for_entry(v),
        has_account(v, a),
    ensures
        has_account(joined(v, caller, input, now), a),
        account_index(joined(v, caller, input, now), a) == account_index(v, a),
        joined(v, caller, input, now).players[account_index(v, a)].id == v.players[account_index(
            v,
            a,
        )].id,
{
    let c = credited(v, split_of(ENTRY_FEE as int));
    let r = registered(c, caller, referrer_for(v, caller, input), now);
    let w = joined(v, caller, input, now);
    let i = account_index(v, a);
    lemma_placed_keeps(r);
    assert(r.accounts[i] == a);
    assert(w.accounts[i] == a);
    let k = account_index(w, a);
    if k != i {
        if k < v.accounts.len() {
            assert(v.accounts[k] == a);
            assert(v.accounts[i] != v.accounts[k]);
        } else {
            assert(!has_account(v, caller));
            assert(w.accounts[k] == caller);
        }
    }
}

/// An entry gives the entrant a record, whose referrer is never the entrant.
pub proof fn lemma_no_self_referral(
    v: MatrixView,
    caller: Seq<char>,
    input: Option<Seq<char>>,
    now: u64,
)
    requires
        wf(v),
        room_for_entry(v),
        !has_account(v, caller),
    ensures
        has_account(joined(v, caller, input, now), caller),
        joined(v, caller, input, now).players[account_index(
            joined(v, caller, input, now),
            caller,
        )].referrer != Some(caller),
{
    let c = credited(v, split_of(ENTRY_FEE as int));
    let r = registered(c, caller, referrer_for(v, caller, input), now);
    let w = joined(v, caller, input, now);
    let n = v.accounts.len() as int;
    lemma_placed_keeps(r);
    assert(r.accounts[n] == caller);
    assert(w.accounts[n] == caller);
    let k = account_index(w, caller);
    if k != n {
        assert(v.accounts[k] == caller);
    }
}

/// A second distribution within the same period changes nothing: neither
/// after a distribution that took place, nor while the period since the
/// last one is still running.
pub proof fn lemma_distribution_window(v: MatrixView, k: PoolKind, first: u64, second: u64)
    requires
        first <= second,
        (due(v, k, first) && second < first + period(k)) || second < last_of(v, k) + period(k),
    ensures
        distributed(distributed(v, k, first), k, second) == distributed(v, k, first),
{
}

/// After a claim the claimant's pending balance is zero, so that a second
/// claim finds nothing.
pub proof fn lemma_claim_drains(v: MatrixView, a: Seq<char>)
    requires
        wf(v),
        pending_of(v, a) > 0,
    ensures
        pending_of(claimed(v, a), a) == 0,
{
    let w = claimed(v, a);
    let i = account_index(v, a);
    assert(w.accounts == v.accounts);
    assert(has_account(w, a));
    assert(account_index(w, a) == i);
}

} // verus!
