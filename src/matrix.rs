//! The ledger: participants, matrix fills, pools and balances.

use vstd::prelude::*;

use crate::ident::{
    classify_referral, format_id, id_text, parse_account_id, referral_kind, valid_account_id,
    ReferralKind,
};
use crate::pools::{split, split_of, FeeSplit};

verus! {

/// The fixed entry fee, in the smallest unit of the host's currency.
pub const ENTRY_FEE: u128 = 1_000_000_000_000_000_000_000_000;

/// Number of slots in one matrix.
pub const MATRIX_SLOTS: u8 = 10;

/// Number of matrix completions that make one cycle.
pub const LEVELS_PER_CYCLE: u8 = 10;

/// One day in host time units (nanoseconds).
pub const DAY: u64 = 86_400_000_000_000;

/// The monthly cadence: thirty days.
pub const MONTH: u64 = 2_592_000_000_000_000;

/// The yearly cadence: 365 days.
pub const YEAR: u64 = 31_536_000_000_000_000;

/// Why an operation was rejected; a rejected operation changes nothing.
#[derive(PartialEq, Eq, Structural, Clone, Copy, Debug)]
pub enum MatrixError {
    /// The attached amount is not the entry fee.
    InvalidPayment,
    /// The caller is not the owner.
    NotAuthorized,
    /// The caller has no pending balance, or no participant record.
    NothingToClaim,
    /// A distribution was asked for while nobody has entered.
    NoParticipants,
    /// A reinvestment rate above 100.
    InvalidRate,
}

/// The ledger's stores, each kept by the host under its own key prefix.
#[derive(PartialEq, Eq, Structural, Clone, Copy, Debug)]
pub enum StorageKey {
    Players,
    MatrixFill,
    IdToAccount,
    AccountToId,
}

impl StorageKey {
    /// The one-byte key prefix of the store: its position in the list.
    pub fn prefix(&self) -> (r: u8)
        ensures
            *self == StorageKey::Players ==> r == 0,
            *self == StorageKey::MatrixFill ==> r == 1,
            *self == StorageKey::IdToAccount ==> r == 2,
            *self == StorageKey::AccountToId ==> r == 3,
    {
        match self {
            StorageKey::Players => 0,
            StorageKey::MatrixFill => 1,
            StorageKey::IdToAccount => 2,
            StorageKey::AccountToId => 3,
        }
    }
}

/// Which time-bucketed pool a distribution drains.
#[derive(PartialEq, Eq, Structural, Clone, Copy, Debug)]
pub enum PoolKind {
    Daily,
    Monthly,
    Yearly,
}

/// A participant's record.
pub struct Player {
    /// Public identifier, "ID" followed by the sequence number.
    pub bizon_id: String,
    /// The account that referred this participant, never the participant.
    pub referrer: Option<String>,
    /// Time of the first entry.
    pub join_ts: u64,
    /// Matrix completions in the current cycle, below 10.
    pub level: u8,
    /// Completed cycles of ten levels.
    pub cycles: u32,
    /// Accrued and not yet claimed.
    pub pending_balance: u128,
    /// Percentage meant for reinvestment, at most 100.
    pub reinvest_rate: u8,
}

/// The mathematical model of a participant's record.
pub struct PlayerView {
    pub id: Seq<char>,
    pub referrer: Option<Seq<char>>,
    pub join_ts: u64,
    pub level: u8,
    pub cycles: u32,
    pub pending: u128,
    pub rate: u8,
}

pub open spec fn view_of_account(a: Option<String>) -> Option<Seq<char>> {
    match a {
        Some(s) => Some(s@),
        None => None,
    }
}

impl View for Player {
    type V = PlayerView;

    open spec fn view(&self) -> PlayerView {
        PlayerView {
            id: self.bizon_id@,
            referrer: view_of_account(self.referrer),
            join_ts: self.join_ts,
            level: self.level,
            cycles: self.cycles,
            pending: self.pending_balance,
            rate: self.reinvest_rate,
        }
    }
}

/// The whole ledger. Participants, their accounts and their matrix fills are
/// kept side by side, in order of first entry.
pub struct BizonMatrix {
    pub accounts: Vec<String>,
    pub players: Vec<Player>,
    pub matrix_fill: Vec<u8>,
    /// Sequence number of the next public identifier.
    pub next_id: u64,
    pub daily_pool: u128,
    pub monthly_pool: u128,
    pub yearly_pool: u128,
    /// Remainders and undistributable amounts.
    pub global_pool: u128,
    pub total_players: u64,
    pub last_daily_ts: u64,
    pub last_monthly_ts: u64,
    pub last_yearly_ts: u64,
    /// The placement sink when no matrix exists; empty once disabled.
    pub owner_id: String,
}

/// The mathematical model of the ledger.
pub struct MatrixView {
    pub accounts: Seq<Seq<char>>,
    pub players: Seq<PlayerView>,
    pub fills: Seq<u8>,
    pub next_id: u64,
    pub daily_pool: u128,
    pub monthly_pool: u128,
    pub yearly_pool: u128,
    pub global_pool: u128,
    pub total_players: u64,
    pub last_daily_ts: u64,
    pub last_monthly_ts: u64,
    pub last_yearly_ts: u64,
    pub owner: Seq<char>,
}

impl View for BizonMatrix {
    type V = MatrixView;

    open spec fn view(&self) -> MatrixView {
        MatrixView {
            accounts: self.accounts@.map_values(|s: String| s@),
            players: self.players@.map_values(|p: Player| p@),
            fills: self.matrix_fill@,
            next_id: self.next_id,
            daily_pool: self.daily_pool,
            monthly_pool: self.monthly_pool,
            yearly_pool: self.yearly_pool,
            global_pool: self.global_pool,
            total_players: self.total_players,
            last_daily_ts: self.last_daily_ts,
            last_monthly_ts: self.last_monthly_ts,
            last_yearly_ts: self.last_yearly_ts,
            owner: self.owner_id@,
        }
    }
}

/// Sum of the pending balances of `ps`.
pub open spec fn pending_sum(ps: Seq<PlayerView>) -> int
    decreases ps.len(),
{
    if ps.len() == 0 {
        0
    } else {
        pending_sum(ps.drop_last()) + ps.last().pending
    }
}

/// All value the ledger holds: the four pools and every pending balance.
pub open spec fn held(v: MatrixView) -> int {
    v.daily_pool + v.monthly_pool + v.yearly_pool + v.global_pool + pending_sum(v.players)
}

/// Whether `a` has a participant record.
pub open spec fn has_account(v: MatrixView, a: Seq<char>) -> bool {
    exists|i: int| 0 <= i < v.accounts.len() && v.accounts[i] == a
}

/// The position of `a`'s record, where it has one.
pub open spec fn account_index(v: MatrixView, a: Seq<char>) -> int {
    choose|i: int| 0 <= i < v.accounts.len() && v.accounts[i] == a
}

/// The ledger's invariant.
pub open spec fn wf(v: MatrixView) -> bool {
    &&& v.accounts.len() == v.players.len()
    &&& v.fills.len() == v.players.len()
    &&& v.total_players == v.players.len()
    &&& v.next_id == v.players.len() + 1
    &&& forall|i: int, j: int|
        #![trigger v.accounts[i], v.accounts[j]]
        0 <= i < v.accounts.len() && 0 <= j < v.accounts.len() && i != j ==> v.accounts[i]
            != v.accounts[j]
    &&& forall|i: int| 0 <= i < v.players.len() ==> #[trigger] v.players[i].id == id_text((i + 1) as nat)
    &&& forall|i: int| 0 <= i < v.fills.len() ==> #[trigger] v.fills[i] < MATRIX_SLOTS
    &&& forall|i: int| 0 <= i < v.players.len() ==> #[trigger] v.players[i].level < LEVELS_PER_CYCLE
    &&& forall|i: int| 0 <= i < v.players.len() ==> #[trigger] v.players[i].rate <= 100
    &&& forall|i: int|
        0 <= i < v.players.len() ==> #[trigger] v.players[i].referrer != Some(v.accounts[i])
    &&& held(v) <= u128::MAX
}

/// Whether one more entry fits the ledger's integer widths.
pub open spec fn room_for_entry(v: MatrixView) -> bool {
    &&& held(v) + ENTRY_FEE <= u128::MAX
    &&& v.next_id < u64::MAX
    &&& forall|i: int| 0 <= i < v.players.len() ==> #[trigger] v.players[i].cycles < u32::MAX
}

/// The position of the strictly smallest fill, the first one among equals.
pub open spec fn first_min(fills: Seq<u8>) -> int
    decreases fills.len(),
{
    if fills.len() <= 1 {
        0
    } else {
        let k = first_min(fills.drop_last());
        if fills.last() < fills[k] {
            fills.len() - 1
        } else {
            k
        }
    }
}

/// A completed matrix: one level up, and a new cycle after ten levels.
pub open spec fn level_up(p: PlayerView) -> PlayerView {
    if p.level + 1 >= LEVELS_PER_CYCLE {
        PlayerView { level: 0, cycles: (p.cycles + 1) as u32, ..p }
    } else {
        PlayerView { level: (p.level + 1) as u8, ..p }
    }
}

/// One more slot of `o`'s matrix taken; a full matrix completes and empties.
pub open spec fn fill_one(v: MatrixView, o: int) -> MatrixView {
    if v.fills[o] + 1 >= MATRIX_SLOTS {
        MatrixView {
            fills: v.fills.update(o, 0),
            players: v.players.update(o, level_up(v.players[o])),
            ..v
        }
    } else {
        MatrixView { fills: v.fills.update(o, (v.fills[o] + 1) as u8), ..v }
    }
}

/// One placement: into the least-filled matrix; where that completes it, the
/// emptied owner is placed once more into the least-filled matrix, unless that
/// is its own.
pub open spec fn placed(v: MatrixView) -> MatrixView {
    let o = first_min(v.fills);
    let v1 = fill_one(v, o);
    let e = first_min(v1.fills);
    if v.fills[o] + 1 >= MATRIX_SLOTS && e != o {
        fill_one(v1, e)
    } else {
        v1
    }
}

/// The account whose public identifier is `raw`, if any.
pub open spec fn id_owner(v: MatrixView, raw: Seq<char>) -> Option<Seq<char>> {
    if exists|i: int| 0 <= i < v.players.len() && v.players[i].id == raw {
        Some(v.accounts[choose|i: int| 0 <= i < v.players.len() && v.players[i].id == raw])
    } else {
        None
    }
}

/// The account that a referral input resolves to.
pub open spec fn resolved(v: MatrixView, raw: Seq<char>) -> Option<Seq<char>> {
    match referral_kind(raw) {
        ReferralKind::PublicId => id_owner(v, raw),
        ReferralKind::NetworkAccount => if valid_account_id(raw) {
            Some(raw)
        } else {
            None
        },
        _ => None,
    }
}

/// The referrer recorded for `caller`: the resolved account, unless it is
/// the caller.
pub open spec fn referrer_for(v: MatrixView, caller: Seq<char>, input: Option<Seq<char>>) -> Option<
    Seq<char>,
> {
    match input {
        Some(raw) => match resolved(v, raw) {
            Some(a) => if a == caller {
                None
            } else {
                Some(a)
            },
            None => None,
        },
        None => None,
    }
}

/// The pools after one fee split `f`.
pub open spec fn credited(v: MatrixView, f: FeeSplit) -> MatrixView {
    MatrixView {
        daily_pool: (v.daily_pool + f.daily) as u128,
        monthly_pool: (v.monthly_pool + f.monthly) as u128,
        yearly_pool: (v.yearly_pool + f.yearly) as u128,
        global_pool: (v.global_pool + f.remainder) as u128,
        ..v
    }
}

/// The record of a new participant.
pub open spec fn new_player(id: nat, referrer: Option<Seq<char>>, now: u64) -> PlayerView {
    PlayerView { id: id_text(id), referrer, join_ts: now, level: 0, cycles: 0, pending: 0, rate: 0 }
}

/// `caller` given a record, a public identifier and an empty matrix, unless
/// it has them already.
pub open spec fn registered(
    v: MatrixView,
    caller: Seq<char>,
    referrer: Option<Seq<char>>,
    now: u64,
) -> MatrixView {
    if has_account(v, caller) {
        v
    } else {
        MatrixView {
            accounts: v.accounts.push(caller),
            players: v.players.push(new_player(v.next_id as nat, referrer, now)),
            fills: v.fills.push(0),
            next_id: (v.next_id + 1) as u64,
            total_players: (v.total_players + 1) as u64,
            ..v
        }
    }
}

/// The ledger after a paid entry by `caller`.
pub open spec fn joined(
    v: MatrixView,
    caller: Seq<char>,
    input: Option<Seq<char>>,
    now: u64,
) -> MatrixView {
    placed(registered(credited(v, split_of(ENTRY_FEE as int)), caller, referrer_for(v, caller, input), now))
}

/// The cadence of a pool.
pub open spec fn period(k: PoolKind) -> u64 {
    match k {
        PoolKind::Daily => DAY,
        PoolKind::Monthly => MONTH,
        PoolKind::Yearly => YEAR,
    }
}

/// The balance of a pool.
pub open spec fn pool_of(v: MatrixView, k: PoolKind) -> u128 {
    match k {
        PoolKind::Daily => v.daily_pool,
        PoolKind::Monthly => v.monthly_pool,
        PoolKind::Yearly => v.yearly_pool,
    }
}

/// When a pool was last distributed.
pub open spec fn last_of(v: MatrixView, k: PoolKind) -> u64 {
    match k {
        PoolKind::Daily => v.last_daily_ts,
        PoolKind::Monthly => v.last_monthly_ts,
        PoolKind::Yearly => v.last_yearly_ts,
    }
}

/// Whether a full period has passed since the pool's last distribution.
pub open spec fn due(v: MatrixView, k: PoolKind, now: u64) -> bool {
    now >= last_of(v, k) + period(k)
}

/// The ledger with pool `k` set to `amount`, last distributed at `last`.
pub open spec fn with_pool(v: MatrixView, k: PoolKind, amount: u128, last: u64) -> MatrixView {
    match k {
        PoolKind::Daily => MatrixView { daily_pool: amount, last_daily_ts: last, ..v },
        PoolKind::Monthly => MatrixView { monthly_pool: amount, last_monthly_ts: last, ..v },
        PoolKind::Yearly => MatrixView { yearly_pool: amount, last_yearly_ts: last, ..v },
    }
}

/// A participant credited with `share`.
pub open spec fn credit_player(p: PlayerView, share: u128) -> PlayerView {
    PlayerView { pending: (p.pending + share) as u128, ..p }
}

/// Every participant credited with `share`.
pub open spec fn credit_all(ps: Seq<PlayerView>, share: u128) -> Seq<PlayerView> {
    ps.map_values(|p: PlayerView| credit_player(p, share))
}

/// The ledger after a distribution of pool `k` at time `now`: nothing
/// before the period is over; otherwise the pool is emptied and its time
/// advanced, after an equal share of it is credited to every participant,
/// or, where that share rounds to zero, the whole pool moves to the global
/// pool. What the division leaves over stays undistributed.
pub open spec fn distributed(v: MatrixView, k: PoolKind, now: u64) -> MatrixView {
    let pool = pool_of(v, k);
    let share = (pool as int / v.total_players as int) as u128;
    if !due(v, k, now) {
        v
    } else if pool == 0 {
        with_pool(v, k, 0, now)
    } else if share == 0 {
        MatrixView { global_pool: (v.global_pool + pool) as u128, ..with_pool(v, k, 0, now) }
    } else {
        MatrixView { players: credit_all(v.players, share), ..with_pool(v, k, 0, now) }
    }
}

/// The initial ledger of `owner`.
pub open spec fn initial(owner: Seq<char>) -> MatrixView {
    MatrixView {
        accounts: Seq::empty(),
        players: Seq::empty(),
        fills: Seq::empty(),
        next_id: 1,
        daily_pool: 0,
        monthly_pool: 0,
        yearly_pool: 0,
        global_pool: 0,
        total_players: 0,
        last_daily_ts: 0,
        last_monthly_ts: 0,
        last_yearly_ts: 0,
        owner,
    }
}

/// The pending balance of `a`, zero without a record.
pub open spec fn pending_of(v: MatrixView, a: Seq<char>) -> u128 {
    if has_account(v, a) {
        v.players[account_index(v, a)].pending
    } else {
        0
    }
}

/// The ledger after `a` claimed its whole pending balance.
pub open spec fn claimed(v: MatrixView, a: Seq<char>) -> MatrixView {
    let i = account_index(v, a);
    MatrixView { players: v.players.update(i, PlayerView { pending: 0, ..v.players[i] }), ..v }
}

/// The ledger after `a` chose reinvestment rate `rate`; unchanged without a
/// record of `a`.
pub open spec fn with_rate(v: MatrixView, a: Seq<char>, rate: u8) -> MatrixView {
    if has_account(v, a) {
        let i = account_index(v, a);
        MatrixView { players: v.players.update(i, PlayerView { rate, ..v.players[i] }), ..v }
    } else {
        v
    }
}

/// The account that the next placement goes to: the owner of the
/// least-filled matrix, or the scheme owner while no matrix exists.
pub open spec fn least_filled_owner(v: MatrixView) -> Seq<char> {
    if v.fills.len() == 0 {
        v.owner
    } else {
        v.accounts[first_min(v.fills)]
    }
}

pub proof fn lemma_first_min(fills: Seq<u8>)
    requires
        fills.len() > 0,
    ensures
        0 <= first_min(fills) < fills.len(),
        forall|j: int| 0 <= j < fills.len() ==> fills[first_min(fills)] <= #[trigger] fills[j],
        forall|j: int| 0 <= j < first_min(fills) ==> fills[first_min(fills)] < #[trigger] fills[j],
    decreases fills.len(),
{
    if fills.len() > 1 {
        let d = fills.drop_last();
        lemma_first_min(d);
        assert forall|j: int| 0 <= j < d.len() implies d[j] == fills[j] by {}
    }
}

proof fn lemma_pending_sum_update(s: Seq<PlayerView>, i: int, p: PlayerView)
    requires
        0 <= i < s.len(),
    ensures
        pending_sum(s.update(i, p)) == pending_sum(s) - s[i].pending + p.pending,
    decreases s.len(),
{
    let t = s.update(i, p);
    if i == s.len() - 1 {
        assert(t.drop_last() =~= s.drop_last());
    } else {
        lemma_pending_sum_update(s.drop_last(), i, p);
        assert(t.drop_last() =~= s.drop_last().update(i, p));
    }
}

proof fn lemma_pending_sum_elem(s: Seq<PlayerView>, i: int)
    requires
        0 <= i < s.len(),
    ensures
        s[i].pending <= pending_sum(s),
        0 <= pending_sum(s),
    decreases s.len(),
{
    lemma_pending_sum_nonneg(s.drop_last());
    if i < s.len() - 1 {
        lemma_pending_sum_elem(s.drop_last(), i);
    }
}

proof fn lemma_pending_sum_nonneg(s: Seq<PlayerView>)
    ensures
        0 <= pending_sum(s),
    decreases s.len(),
{
    if s.len() > 0 {
        lemma_pending_sum_nonneg(s.drop_last());
    }
}

proof fn lemma_fill_one_wf(v: MatrixView, o: int)
    requires
        wf(v),
        0 <= o < v.players.len(),
        v.players[o].cycles < u32::MAX,
    ensures
        wf(fill_one(v, o)),
        held(fill_one(v, o)) == held(v),
        fill_one(v, o).accounts == v.accounts,
        fill_one(v, o).players.len() == v.players.len(),
        forall|i: int| 0 <= i < v.players.len() && i != o ==> fill_one(v, o).players[i] == v.players[i],
        fill_one(v, o).players[o].cycles <= v.players[o].cycles + 1,
{
    let w = fill_one(v, o);
    if v.fills[o] + 1 >= MATRIX_SLOTS {
        lemma_pending_sum_update(v.players, o, level_up(v.players[o]));
    }
    assert forall|i: int| 0 <= i < w.players.len() implies #[trigger] w.players[i].id == id_text((i + 1) as nat) by {
        assert(v.players[i].id == id_text((i + 1) as nat));
    }
    assert forall|i: int| 0 <= i < w.players.len() implies #[trigger] w.players[i].referrer != Some(w.accounts[i]) by {
        assert(v.players[i].referrer != Some(v.accounts[i]));
    }
    assert forall|i: int| 0 <= i < w.players.len() implies #[trigger] w.players[i].level < LEVELS_PER_CYCLE by {
        assert(v.players[i].level < LEVELS_PER_CYCLE);
    }
    assert forall|i: int| 0 <= i < w.players.len() implies #[trigger] w.players[i].rate <= 100 by {
        assert(v.players[i].rate <= 100);
    }
    assert forall|i: int| 0 <= i < w.fills.len() implies #[trigger] w.fills[i] < MATRIX_SLOTS by {
        assert(v.fills[i] < MATRIX_SLOTS);
    }
}

proof fn lemma_pending_sum_prefix(s: Seq<PlayerView>, i: int)
    requires
        0 <= i <= s.len(),
    ensures
        pending_sum(s.subrange(0, i)) <= pending_sum(s),
    decreases s.len() - i,
{
    if i < s.len() {
        lemma_pending_sum_prefix(s, i + 1);
        assert(s.subrange(0, i + 1).drop_last() =~= s.subrange(0, i));
    } else {
        assert(s.subrange(0, i) =~= s);
    }
}

impl BizonMatrix {
    /// The position of the least-filled matrix.
    fn least_filled_index(&self) -> (r: usize)
        requires
            self.matrix_fill@.len() > 0,
        ensures
            r == first_min(self@.fills),
    {
        let n = self.matrix_fill.len();
        let mut best: usize = 0;
        let mut i: usize = 1;
        while i < n
            invariant
                n == self.matrix_fill@.len(),
                1 <= i <= n,
                best == first_min(self.matrix_fill@.subrange(0, i as int)),
            decreases n - i,
        {
            let ghost s = self.matrix_fill@.subrange(0, i + 1);
            proof {
                assert(s.drop_last() =~= self.matrix_fill@.subrange(0, i as int));
                lemma_first_min(self.matrix_fill@.subrange(0, i as int));
            }
            if self.matrix_fill[i] < self.matrix_fill[best] {
                best = i;
            }
            i += 1;
        }
        assert(self.matrix_fill@.subrange(0, n as int) =~= self.matrix_fill@);
        best
    }

    /// Takes one slot of matrix `o`, completing it when it fills.
    fn fill_slot(&mut self, o: usize)
        requires
            wf(old(self)@),
            o < old(self)@.players.len(),
            old(self)@.players[o as int].cycles < u32::MAX,
        ensures
            final(self)@ == fill_one(old(self)@, o as int),
    {
        assert(old(self)@.players[o as int].level < LEVELS_PER_CYCLE);
        assert(old(self)@.fills[o as int] < MATRIX_SLOTS);
        let f = self.matrix_fill[o] + 1;
        if f >= MATRIX_SLOTS {
            self.matrix_fill.set(o, 0);
            if self.players[o].level + 1 >= LEVELS_PER_CYCLE {
                self.players[o].level = 0;
                self.players[o].cycles = self.players[o].cycles + 1;
            } else {
                self.players[o].level = self.players[o].level + 1;
            }
        } else {
            self.matrix_fill.set(o, f);
        }
        assert(self@.players =~= fill_one(old(self)@, o as int).players);
        assert(self@.fills =~= fill_one(old(self)@, o as int).fills);
        assert(self@.accounts =~= old(self)@.accounts);
    }

    /// Places one entry into the least-filled matrix, with the cascade of a
    /// completed matrix.
    fn place(&mut self)
        requires
            wf(old(self)@),
            old(self)@.players.len() > 0,
            forall|i: int| 0 <= i < old(self)@.players.len() ==> #[trigger] old(self)@.players[i].cycles < u32::MAX,
        ensures
            final(self)@ == placed(old(self)@),
            wf(final(self)@),
            held(final(self)@) == held(old(self)@),
    {
        let ghost v = self@;
        let o = self.least_filled_index();
        proof {
            lemma_first_min(v.fills);
            lemma_fill_one_wf(v, o as int);
        }
        let completes = self.matrix_fill[o] + 1 >= MATRIX_SLOTS;
        self.fill_slot(o);
        if completes {
            let e = self.least_filled_index();
            if e != o {
                proof {
                    lemma_first_min(self@.fills);
                    assert(self@.fills[e as int] <= self@.fills[o as int]);
                    assert(self@.players[e as int] == v.players[e as int]);
                    lemma_fill_one_wf(self@, e as int);
                }
                self.fill_slot(e);
            }
        }
    }

    /// The account whose public identifier is `raw`.
    fn lookup_public_id(&self, raw: &String) -> (r: Option<String>)
        requires
            wf(self@),
        ensures
            view_of_account(r) == id_owner(self@, raw@),
    {
        let n = self.players.len();
        let mut i: usize = 0;
        while i < n
            invariant
                wf(self@),
                n == self@.players.len(),
                i <= n,
                forall|j: int| 0 <= j < i ==> self@.players[j].id != raw@,
            decreases n - i,
        {
            if self.players[i].bizon_id == *raw {
                proof {
                    assert(self@.players[i as int].id == raw@);
                    let k = choose|k: int| 0 <= k < self@.players.len() && self@.players[k].id == raw@;
                    assert(self@.players[k].id == id_text((k + 1) as nat));
                    assert(self@.players[i as int].id == id_text((i + 1) as nat));
                    crate::ident::lemma_id_text_injective((k + 1) as nat, (i + 1) as nat);
                }
                return Some(self.accounts[i].clone());
            }
            i += 1;
        }
        None
    }

    /// Resolves a referral input to an account: a public identifier of this
    /// ledger, or a well-formed network account id. The caller decides what
    /// a resolution to itself means.
    pub fn resolve_referral(&self, raw: &String) -> (r: Option<String>)
        requires
            wf(self@),
        ensures
            view_of_account(r) == resolved(self@, raw@),
    {
        match classify_referral(raw.as_str()) {
            ReferralKind::PublicId => self.lookup_public_id(raw),
            ReferralKind::NetworkAccount => parse_account_id(raw.as_str()),
            _ => None,
        }
    }

    /// Credits the four pools with the parts of `f`.
    fn credit(&mut self, f: FeeSplit)
        requires
            wf(old(self)@),
            held(old(self)@) + f.daily + f.monthly + f.yearly + f.remainder <= u128::MAX,
        ensures
            final(self)@ == credited(old(self)@, f),
            held(final(self)@) == held(old(self)@) + f.daily + f.monthly + f.yearly + f.remainder,
    {
        proof {
            lemma_pending_sum_nonneg(self@.players);
        }
        self.daily_pool = self.daily_pool + f.daily;
        self.monthly_pool = self.monthly_pool + f.monthly;
        self.yearly_pool = self.yearly_pool + f.yearly;
        self.global_pool = self.global_pool + f.remainder;
    }

    /// Gives `caller` a public identifier, a record and an empty matrix.
    fn register(&mut self, caller: &String, referrer: Option<String>, now: u64)
        requires
            wf(old(self)@),
            !has_account(old(self)@, caller@),
            old(self).next_id < u64::MAX,
            view_of_account(referrer) != Some(caller@),
        ensures
            final(self)@ == registered(old(self)@, caller@, view_of_account(referrer), now),
            wf(final(self)@),
            held(final(self)@) == held(old(self)@),
    {
        let ghost v = self@;
        let bizon_id = format_id(self.next_id);
        self.next_id = self.next_id + 1;
        let p = Player {
            bizon_id,
            referrer,
            join_ts: now,
            level: 0,
            cycles: 0,
            pending_balance: 0,
            reinvest_rate: 0,
        };
        self.players.push(p);
        self.accounts.push(caller.clone());
        self.matrix_fill.push(0);
        self.total_players = self.total_players + 1;
        let ghost w = registered(v, caller@, view_of_account(referrer), now);
        assert(self@.players =~= w.players);
        assert(self@.accounts =~= w.accounts);
        assert(self@.fills =~= w.fills);
        assert(self@.players.drop_last() =~= v.players);
        assert forall|i: int, j: int|
            #![trigger self@.accounts[i], self@.accounts[j]]
            0 <= i < self@.accounts.len() && 0 <= j < self@.accounts.len() && i != j implies self@.accounts[i]
                != self@.accounts[j] by {
            if i < v.accounts.len() && j < v.accounts.len() {
                assert(v.accounts[i] != v.accounts[j]);
            }
        }
    }

    /// A paid entry by `caller`: the fee is split into the pools, a first
    /// entry creates the caller's record (with the referrer that `ref_raw`
    /// resolves to, unless that is the caller), and one placement follows.
    pub fn join(&mut self, caller: String, deposit: u128, now: u64, ref_raw: Option<String>) -> (r:
        Result<(), MatrixError>)
        requires
            wf(old(self)@),
            room_for_entry(old(self)@),
        ensures
            wf(final(self)@),
            deposit != ENTRY_FEE ==> r == Err::<(), MatrixError>(MatrixError::InvalidPayment)
                && final(self)@ == old(self)@,
            deposit == ENTRY_FEE ==> r is Ok && final(self)@ == joined(
                old(self)@,
                caller@,
                view_of_account(ref_raw),
                now,
            ),
            deposit == ENTRY_FEE ==> held(final(self)@) == held(old(self)@) + ENTRY_FEE,
    {
        if deposit != ENTRY_FEE {
            return Err(MatrixError::InvalidPayment);
        }
        let ghost v = self@;
        let referrer = match &ref_raw {
            Some(raw) => match self.resolve_referral(raw) {
                Some(a) => if a == caller {
                    None
                } else {
                    Some(a)
                },
                None => None,
            },
            None => None,
        };
        assert(view_of_account(referrer) == referrer_for(v, caller@, view_of_account(ref_raw)));
        let f = split(ENTRY_FEE);
        proof {
            crate::pools::lemma_split_conserves(ENTRY_FEE);
        }
        self.credit(f);
        let ghost c = self@;
        assert(wf(c));
        if self.find_account(&caller).is_none() {
            self.register(&caller, referrer, now);
        }
        assert(self@ == registered(c, caller@, referrer_for(v, caller@, view_of_account(ref_raw)), now));
        assert forall|i: int| 0 <= i < self@.players.len() implies #[trigger] self@.players[i].cycles < u32::MAX by {
            if i < v.players.len() {
                assert(v.players[i].cycles < u32::MAX);
            }
        }
        self.place();
        Ok(())
    }

    /// Sets pool `k` to `amount` and its last distribution to `last`.
    fn set_pool(&mut self, k: PoolKind, amount: u128, last: u64)
        ensures
            final(self)@ == with_pool(old(self)@, k, amount, last),
    {
        match k {
            PoolKind::Daily => {
                self.daily_pool = amount;
                self.last_daily_ts = last;
            },
            PoolKind::Monthly => {
                self.monthly_pool = amount;
                self.last_monthly_ts = last;
            },
            PoolKind::Yearly => {
                self.yearly_pool = amount;
                self.last_yearly_ts = last;
            },
        }
    }

    /// Distributes pool `k` at time `now`; see `distributed`. Rejected while
    /// nobody has entered.
    pub fn distribute(&mut self, k: PoolKind, now: u64) -> (r: Result<(), MatrixError>)
        requires
            wf(old(self)@),
        ensures
            wf(final(self)@),
            old(self).total_players == 0 ==> r == Err::<(), MatrixError>(MatrixError::NoParticipants)
                && final(self)@ == old(self)@,
            old(self).total_players > 0 ==> r is Ok && final(self)@ == distributed(old(self)@, k, now),
            held(final(self)@) <= held(old(self)@),
    {
        if self.total_players == 0 {
            return Err(MatrixError::NoParticipants);
        }
        let (pool, last, cadence) = match k {
            PoolKind::Daily => (self.daily_pool, self.last_daily_ts, DAY),
            PoolKind::Monthly => (self.monthly_pool, self.last_monthly_ts, MONTH),
            PoolKind::Yearly => (self.yearly_pool, self.last_yearly_ts, YEAR),
        };
        if now < last || now - last < cadence {
            return Ok(());
        }
        if pool == 0 {
            self.set_pool(k, 0, now);
            return Ok(());
        }
        let n = self.players.len();
        let share = pool / (self.total_players as u128);
        proof {
            lemma_pending_sum_nonneg(self@.players);
        }
        if share == 0 {
            self.global_pool = self.global_pool + pool;
            self.set_pool(k, 0, now);
            return Ok(());
        }
        let ghost v = self@;
        proof {
            assert(share * n <= pool) by (nonlinear_arith)
                requires
                    share == pool as int / n as int,
                    n > 0,
            ;
        }
        let mut i: usize = 0;
        while i < n
            invariant
                n == v.players.len(),
                n > 0,
                i <= n,
                self@.players.len() == n,
                (MatrixView { players: v.players, ..self@ }) == v,
                forall|j: int| 0 <= j < i ==> self@.players[j] == credit_player(v.players[j], share),
                forall|j: int| i <= j < n ==> self@.players[j] == v.players[j],
                pending_sum(self@.players) == pending_sum(v.players) + i * share,
                share * n <= pool,
                pending_sum(v.players) + pool <= u128::MAX,
            decreases n - i,
        {
            proof {
                lemma_pending_sum_elem(self@.players, i as int);
                assert((i + 1) * share <= n * share) by (nonlinear_arith)
                    requires
                        i < n,
                        share >= 0,
                ;
                assert(i * share + share == (i + 1) * share) by (nonlinear_arith);
            }
            let ghost cur = self@.players;
            let b = self.players[i].pending_balance;
            self.players[i].pending_balance = b + share;
            proof {
                lemma_pending_sum_update(cur, i as int, credit_player(cur[i as int], share));
                assert(self@.players =~= cur.update(i as int, credit_player(cur[i as int], share)));
                assert(self@.players[i as int] == credit_player(v.players[i as int], share));
            }
            i += 1;
        }
        proof {
            assert(self@.players =~= credit_all(v.players, share));
            assert(n * share == share * n) by (nonlinear_arith);
        }
        self.set_pool(k, 0, now);
        proof {
            let w = self@;
            assert forall|j: int| 0 <= j < w.players.len() implies #[trigger] w.players[j].id == id_text((j + 1) as nat) by {
                assert(v.players[j].id == id_text((j + 1) as nat));
            }
            assert forall|j: int| 0 <= j < w.players.len() implies #[trigger] w.players[j].referrer != Some(w.accounts[j]) by {
                assert(v.players[j].referrer != Some(v.accounts[j]));
            }
            assert forall|j: int| 0 <= j < w.players.len() implies #[trigger] w.players[j].level < LEVELS_PER_CYCLE by {
                assert(v.players[j].level < LEVELS_PER_CYCLE);
            }
            assert forall|j: int| 0 <= j < w.players.len() implies #[trigger] w.players[j].rate <= 100 by {
                assert(v.players[j].rate <= 100);
            }
        }
        Ok(())
    }

    /// An empty ledger whose placement sink is `owner_id`.
    pub fn new(owner_id: String) -> (r: Self)
        ensures
            r@ == initial(owner_id@),
            wf(r@),
    {
        let r = BizonMatrix {
            accounts: Vec::new(),
            players: Vec::new(),
            matrix_fill: Vec::new(),
            next_id: 1,
            daily_pool: 0,
            monthly_pool: 0,
            yearly_pool: 0,
            global_pool: 0,
            total_players: 0,
            last_daily_ts: 0,
            last_monthly_ts: 0,
            last_yearly_ts: 0,
            owner_id,
        };
        assert(r@.accounts =~= Seq::<Seq<char>>::empty());
        assert(r@.players =~= Seq::<PlayerView>::empty());
        r
    }

    /// Whether one more entry fits the integer widths of the ledger; an
    /// entry is accepted only then.
    pub fn has_room_for_entry(&self) -> (r: bool)
        requires
            wf(self@),
        ensures
            r == room_for_entry(self@),
    {
        if self.next_id == u64::MAX {
            return false;
        }
        proof {
            lemma_pending_sum_nonneg(self@.players);
        }
        let mut total: u128 = self.daily_pool + self.monthly_pool + self.yearly_pool
            + self.global_pool;
        let n = self.players.len();
        let mut i: usize = 0;
        while i < n
            invariant
                wf(self@),
                n == self@.players.len(),
                i <= n,
                total == self.daily_pool + self.monthly_pool + self.yearly_pool + self.global_pool
                    + pending_sum(self@.players.subrange(0, i as int)),
                forall|j: int| 0 <= j < i ==> #[trigger] self@.players[j].cycles < u32::MAX,
            decreases n - i,
        {
            proof {
                assert(self@.players.subrange(0, i + 1).drop_last() =~= self@.players.subrange(0, i as int));
                lemma_pending_sum_prefix(self@.players, i + 1);
            }
            if self.players[i].cycles == u32::MAX {
                assert(self@.players[i as int].cycles == u32::MAX);
                return false;
            }
            total = total + self.players[i].pending_balance;
            i += 1;
        }
        assert(self@.players.subrange(0, n as int) =~= self@.players);
        total <= u128::MAX - ENTRY_FEE
    }

    /// Changes the caller's reinvestment rate; without a record of the
    /// caller nothing changes.
    pub fn set_reinvest_rate(&mut self, caller: &String, rate: u8) -> (r: Result<(), MatrixError>)
        requires
            wf(old(self)@),
        ensures
            wf(final(self)@),
            rate > 100 ==> r == Err::<(), MatrixError>(MatrixError::InvalidRate) && final(self)@
                == old(self)@,
            rate <= 100 ==> r is Ok && final(self)@ == with_rate(old(self)@, caller@, rate),
    {
        if rate > 100 {
            return Err(MatrixError::InvalidRate);
        }
        let ghost v = self@;
        match self.find_account(caller) {
            Some(i) => {
                self.players[i].reinvest_rate = rate;
                proof {
                    let w = with_rate(v, caller@, rate);
                    assert(self@.players =~= w.players);
                    lemma_pending_sum_update(v.players, i as int, w.players[i as int]);
                    assert forall|j: int| 0 <= j < w.players.len() implies #[trigger] w.players[j].id == id_text((j + 1) as nat) by {
                        assert(v.players[j].id == id_text((j + 1) as nat));
                    }
                    assert forall|j: int| 0 <= j < w.players.len() implies #[trigger] w.players[j].referrer != Some(w.accounts[j]) by {
                        assert(v.players[j].referrer != Some(v.accounts[j]));
                    }
                    assert forall|j: int| 0 <= j < w.players.len() implies #[trigger] w.players[j].level < LEVELS_PER_CYCLE by {
                        assert(v.players[j].level < LEVELS_PER_CYCLE);
                    }
                    assert forall|j: int| 0 <= j < w.players.len() implies #[trigger] w.players[j].rate <= 100 by {
                        assert(v.players[j].rate <= 100);
                    }
                }
            },
            None => {},
        }
        Ok(())
    }

    /// Pays out the caller's whole pending balance: the balance drops to
    /// zero and the amount is returned for the host to transfer.
    pub fn claim_all(&mut self, caller: &String) -> (r: Result<u128, MatrixError>)
        requires
            wf(old(self)@),
        ensures
            wf(final(self)@),
            pending_of(old(self)@, caller@) == 0 ==> r == Err::<u128, MatrixError>(
                MatrixError::NothingToClaim,
            ) && final(self)@ == old(self)@,
            pending_of(old(self)@, caller@) > 0 ==> r == Ok::<u128, MatrixError>(
                pending_of(old(self)@, caller@),
            ) && final(self)@ == claimed(old(self)@, caller@),
            r matches Ok(amount) ==> held(final(self)@) == held(old(self)@) - amount,
    {
        let ghost v = self@;
        match self.find_account(caller) {
            None => Err(MatrixError::NothingToClaim),
            Some(i) => {
                let amount = self.players[i].pending_balance;
                if amount == 0 {
                    return Err(MatrixError::NothingToClaim);
                }
                self.players[i].pending_balance = 0;
                proof {
                    let w = claimed(v, caller@);
                    assert(self@.players =~= w.players);
                    lemma_pending_sum_update(v.players, i as int, w.players[i as int]);
                    assert forall|j: int| 0 <= j < w.players.len() implies #[trigger] w.players[j].id == id_text((j + 1) as nat) by {
                        assert(v.players[j].id == id_text((j + 1) as nat));
                    }
                    assert forall|j: int| 0 <= j < w.players.len() implies #[trigger] w.players[j].referrer != Some(w.accounts[j]) by {
                        assert(v.players[j].referrer != Some(v.accounts[j]));
                    }
                    assert forall|j: int| 0 <= j < w.players.len() implies #[trigger] w.players[j].level < LEVELS_PER_CYCLE by {
                        assert(v.players[j].level < LEVELS_PER_CYCLE);
                    }
                    assert forall|j: int| 0 <= j < w.players.len() implies #[trigger] w.players[j].rate <= 100 by {
                        assert(v.players[j].rate <= 100);
                    }
                }
                Ok(amount)
            },
        }
    }

    /// The caller's public identifier, level, cycles, matrix fill and
    /// pending balance.
    pub fn get_my_profile(&self, caller: &String) -> (r: Option<(String, u8, u32, u8, u128)>)
        requires
            wf(self@),
        ensures
            r is None <==> !has_account(self@, caller@),
            r matches Some(t) ==> {
                let i = account_index(self@, caller@);
                &&& t.0@ == self@.players[i].id
                &&& t.1 == self@.players[i].level
                &&& t.2 == self@.players[i].cycles
                &&& t.3 == self@.fills[i]
                &&& t.4 == self@.players[i].pending
            },
    {
        match self.find_account(caller) {
            None => None,
            Some(i) => {
                let p = &self.players[i];
                Some((p.bizon_id.clone(), p.level, p.cycles, self.matrix_fill[i], p.pending_balance))
            },
        }
    }

    /// The caller's public identifier.
    pub fn get_my_id(&self, caller: &String) -> (r: Option<String>)
        requires
            wf(self@),
        ensures
            r is None <==> !has_account(self@, caller@),
            r matches Some(id) ==> id@ == self@.players[account_index(self@, caller@)].id,
    {
        match self.find_account(caller) {
            None => None,
            Some(i) => Some(self.players[i].bizon_id.clone()),
        }
    }

    /// The owner gives up the owner role for good: the owner becomes empty.
    pub fn disable_owner(&mut self, caller: &String) -> (r: Result<(), MatrixError>)
        requires
            wf(old(self)@),
        ensures
            wf(final(self)@),
            caller@ != old(self)@.owner ==> r == Err::<(), MatrixError>(MatrixError::NotAuthorized)
                && final(self)@ == old(self)@,
            caller@ == old(self)@.owner ==> r is Ok && final(self)@ == (MatrixView {
                owner: Seq::empty(),
                ..old(self)@
            }),
    {
        if *caller != self.owner_id {
            return Err(MatrixError::NotAuthorized);
        }
        self.owner_id = String::new();
        Ok(())
    }

    /// The account that the next placement goes to.
    pub fn find_least_filled(&self) -> (r: String)
        requires
            wf(self@),
        ensures
            r@ == least_filled_owner(self@),
    {
        if self.matrix_fill.len() == 0 {
            self.owner_id.clone()
        } else {
            let i = self.least_filled_index();
            proof {
                lemma_first_min(self@.fills);
            }
            self.accounts[i].clone()
        }
    }

    /// Distributes the daily pool at time `now`.
    pub fn distribute_daily(&mut self, now: u64) -> (r: Result<(), MatrixError>)
        requires
            wf(old(self)@),
        ensures
            wf(final(self)@),
            old(self).total_players == 0 ==> r == Err::<(), MatrixError>(MatrixError::NoParticipants)
                && final(self)@ == old(self)@,
            old(self).total_players > 0 ==> r is Ok && final(self)@ == distributed(
                old(self)@,
                PoolKind::Daily,
                now,
            ),
            held(final(self)@) <= held(old(self)@),
    {
        self.distribute(PoolKind::Daily, now)
    }

    /// Distributes the monthly pool at time `now`.
    pub fn distribute_monthly(&mut self, now: u64) -> (r: Result<(), MatrixError>)
        requires
            wf(old(self)@),
        ensures
            wf(final(self)@),
            old(self).total_players == 0 ==> r == Err::<(), MatrixError>(MatrixError::NoParticipants)
                && final(self)@ == old(self)@,
            old(self).total_players > 0 ==> r is Ok && final(self)@ == distributed(
                old(self)@,
                PoolKind::Monthly,
                now,
            ),
            held(final(self)@) <= held(old(self)@),
    {
        self.distribute(PoolKind::Monthly, now)
    }

    /// Distributes the yearly pool at time `now`.
    pub fn distribute_yearly(&mut self, now: u64) -> (r: Result<(), MatrixError>)
        requires
            wf(old(self)@),
        ensures
            wf(final(self)@),
            old(self).total_players == 0 ==> r == Err::<(), MatrixError>(MatrixError::NoParticipants)
                && final(self)@ == old(self)@,
            old(self).total_players > 0 ==> r is Ok && final(self)@ == distributed(
                old(self)@,
                PoolKind::Yearly,
                now,
            ),
            held(final(self)@) <= held(old(self)@),
    {
        self.distribute(PoolKind::Yearly, now)
    }

    /// The position of `a`'s record, if it has one.
    fn find_account(&self, a: &String) -> (r: Option<usize>)
        requires
            wf(self@),
        ensures
            r matches Some(i) ==> i < self@.accounts.len() && self@.accounts[i as int] == a@
                && i == account_index(self@, a@),
            r is None <==> !has_account(self@, a@),
    {
        let n = self.accounts.len();
        let mut i: usize = 0;
        while i < n
            invariant
                wf(self@),
                n == self@.accounts.len(),
                i <= n,
                forall|j: int| 0 <= j < i ==> self@.accounts[j] != a@,
            decreases n - i,
        {
            if self.accounts[i] == *a {
                proof {
                    let k = account_index(self@, a@);
                    assert(self@.accounts[i as int] == a@);
                    assert(0 <= k < self@.accounts.len() && self@.accounts[k] == a@);
                    if k != i as int {
                        assert(self@.accounts[i as int] != self@.accounts[k]);
                    }
                }
                return Some(i);
            }
            i += 1;
        }
        None
    }
}

} // verus!
