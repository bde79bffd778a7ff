use crate::bytesord::{
    cmp_str, pair_below, lemma_triple_below_trans, lemma_triple_trichotomy, triple_below, Rel,
};
use crate::error::ContractError;
use crate::msg::{Coin, CoinV, JobId, JobInfo, JobInfoV};
use crate::seqsum::{
    lemma_wsum_prefix_bound, lemma_wsum_remove, lemma_wsum_take_step, lemma_wsum_update, wsum,
};
use vstd::prelude::*;

verus! {

/// One forward ledger record: the positive balance held by `owner` for `job_id`
/// in denomination `denom`. A balance of zero is never stored; absence means
/// zero.
pub struct BalanceEntry {
    pub owner: String,
    pub job_id: String,
    pub denom: String,
    pub amount: u128,
}

pub ghost struct BalanceEntryV {
    pub owner: Seq<char>,
    pub job_id: Seq<char>,
    pub denom: Seq<char>,
    pub amount: u128,
}

impl View for BalanceEntry {
    type V = BalanceEntryV;

    open spec fn view(&self) -> BalanceEntryV {
        BalanceEntryV {
            owner: self.owner@,
            job_id: self.job_id@,
            denom: self.denom@,
            amount: self.amount,
        }
    }
}

/// One reverse-index record: a presence marker keyed job-first.
pub struct RevKey {
    pub job_id: String,
    pub owner: String,
    pub denom: String,
}

pub ghost struct RevKeyV {
    pub job_id: Seq<char>,
    pub owner: Seq<char>,
    pub denom: Seq<char>,
}

impl View for RevKey {
    type V = RevKeyV;

    open spec fn view(&self) -> RevKeyV {
        RevKeyV { job_id: self.job_id@, owner: self.owner@, denom: self.denom@ }
    }
}

/// The key of a forward record: `(owner, job, denom)`.
pub open spec fn ekey(e: BalanceEntryV) -> (Seq<char>, Seq<char>, Seq<char>) {
    (e.owner, e.job_id, e.denom)
}

/// The key of a reverse record: `(job, owner, denom)`.
pub open spec fn ikey(r: RevKeyV) -> (Seq<char>, Seq<char>, Seq<char>) {
    (r.job_id, r.owner, r.denom)
}

/// Swap the first two components of a key, turning a forward key into the
/// matching reverse key and back.
pub open spec fn flip(k: (Seq<char>, Seq<char>, Seq<char>)) -> (Seq<char>, Seq<char>, Seq<char>) {
    (k.1, k.0, k.2)
}

pub open spec fn entries_view(s: Seq<BalanceEntry>) -> Seq<BalanceEntryV> {
    s.map_values(|e: BalanceEntry| e@)
}

pub open spec fn index_view(s: Seq<RevKey>) -> Seq<RevKeyV> {
    s.map_values(|r: RevKey| r@)
}

/// Forward records sorted strictly ascending by key, so keys are unique.
pub open spec fn entries_sorted(s: Seq<BalanceEntryV>) -> bool {
    forall|i: int, j: int|
        0 <= i < j < s.len() ==> triple_below(ekey(#[trigger] s[i]), ekey(#[trigger] s[j]))
}

/// Reverse records sorted strictly ascending by key.
pub open spec fn index_sorted(s: Seq<RevKeyV>) -> bool {
    forall|i: int, j: int|
        0 <= i < j < s.len() ==> triple_below(ikey(#[trigger] s[i]), ikey(#[trigger] s[j]))
}

/// Every stored balance is positive.
pub open spec fn entries_positive(s: Seq<BalanceEntryV>) -> bool {
    forall|i: int| 0 <= i < s.len() ==> (#[trigger] s[i]).amount > 0
}

/// Some forward record has this key.
pub open spec fn has_ekey(s: Seq<BalanceEntryV>, k: (Seq<char>, Seq<char>, Seq<char>)) -> bool {
    exists|i: int| 0 <= i < s.len() && ekey(#[trigger] s[i]) == k
}

/// Some reverse record has this key.
pub open spec fn has_ikey(s: Seq<RevKeyV>, k: (Seq<char>, Seq<char>, Seq<char>)) -> bool {
    exists|i: int| 0 <= i < s.len() && ikey(#[trigger] s[i]) == k
}

/// The balance map a forward-record sequence denotes.
pub open spec fn map_of(s: Seq<BalanceEntryV>) -> Map<(Seq<char>, Seq<char>, Seq<char>), u128>
    decreases s.len(),
{
    if s.len() == 0 {
        Map::empty()
    } else {
        map_of(s.drop_last()).insert(ekey(s.last()), s.last().amount)
    }
}

/// The balance at a key in a map, with absence meaning zero.
pub open spec fn balance_at(
    m: Map<(Seq<char>, Seq<char>, Seq<char>), u128>,
    k: (Seq<char>, Seq<char>, Seq<char>),
) -> u128 {
    if m.dom().contains(k) {
        m[k]
    } else {
        0
    }
}

/// Keys are pairwise distinct.
pub open spec fn ekeys_unique(s: Seq<BalanceEntryV>) -> bool {
    forall|i: int, j: int|
        0 <= i < j < s.len() ==> ekey(#[trigger] s[i]) != ekey(#[trigger] s[j])
}

/// Strictly sorted records have unique keys.
pub proof fn lemma_sorted_unique(s: Seq<BalanceEntryV>)
    requires
        entries_sorted(s),
    ensures
        ekeys_unique(s),
{
    assert forall|i: int, j: int| 0 <= i < j < s.len() implies ekey(#[trigger] s[i]) != ekey(
        #[trigger] s[j],
    ) by {
        lemma_triple_trichotomy(ekey(s[i]), ekey(s[j]));
    }
}

/// With unique keys, the denoted map has exactly the records' keys in its
/// domain, each bound to that record's amount.
pub proof fn lemma_map_of_props(s: Seq<BalanceEntryV>)
    requires
        ekeys_unique(s),
    ensures
        forall|k: (Seq<char>, Seq<char>, Seq<char>)|
            #[trigger] map_of(s).dom().contains(k) == has_ekey(s, k),
        forall|i: int| 0 <= i < s.len() ==> map_of(s)[ekey(#[trigger] s[i])] == s[i].amount,
    decreases s.len(),
{
    if s.len() > 0 {
        lemma_map_of_props(s.drop_last());
        assert forall|k: (Seq<char>, Seq<char>, Seq<char>)|
            #[trigger] map_of(s).dom().contains(k) == has_ekey(s, k) by {
            if map_of(s).dom().contains(k) {
                if k == ekey(s.last()) {
                    assert(ekey(s[s.len() - 1]) == k);
                } else {
                    assert(map_of(s.drop_last()).dom().contains(k));
                    assert(has_ekey(s.drop_last(), k));
                    let i = choose|i: int|
                        0 <= i < s.drop_last().len() && ekey(#[trigger] s.drop_last()[i]) == k;
                    assert(ekey(s[i]) == k);
                }
            }
            if has_ekey(s, k) {
                let i = choose|i: int| 0 <= i < s.len() && ekey(#[trigger] s[i]) == k;
                if i < s.len() - 1 {
                    assert(ekey(s.drop_last()[i]) == k);
                    assert(has_ekey(s.drop_last(), k));
                }
            }
        }
        assert forall|i: int| 0 <= i < s.len() implies map_of(s)[ekey(#[trigger] s[i])]
            == s[i].amount by {
            if i < s.len() - 1 {
                assert(ekey(s[i]) != ekey(s[s.len() - 1]));
                assert(ekey(s.drop_last()[i]) == ekey(s[i]));
            }
        }
    }
}

/// Updating one record in place, key unchanged, updates the map at that key.
proof fn lemma_map_of_update(s: Seq<BalanceEntryV>, i: int, e: BalanceEntryV)
    requires
        ekeys_unique(s),
        0 <= i < s.len(),
        ekey(e) == ekey(s[i]),
    ensures
        map_of(s.update(i, e)) == map_of(s).insert(ekey(e), e.amount),
    decreases s.len(),
{
    let s2 = s.update(i, e);
    if i == s.len() - 1 {
        assert(s2.drop_last() =~= s.drop_last());
        assert(s2.last() == e);
        assert(map_of(s2) =~= map_of(s).insert(ekey(e), e.amount));
    } else {
        assert(s2.drop_last() =~= s.drop_last().update(i, e));
        assert(s2.last() == s.last());
        lemma_map_of_update(s.drop_last(), i, e);
        assert(map_of(s2) == map_of(s.drop_last()).insert(ekey(e), e.amount).insert(
            ekey(s.last()),
            s.last().amount,
        ));
        assert(ekey(e) != ekey(s.last()));
        assert(map_of(s.drop_last()).insert(ekey(e), e.amount).insert(
            ekey(s.last()),
            s.last().amount,
        ) =~= map_of(s.drop_last()).insert(ekey(s.last()), s.last().amount).insert(
            ekey(e),
            e.amount,
        ));
    }
}

/// Inserting a record with a fresh key adds that key to the map.
proof fn lemma_map_of_insert(s: Seq<BalanceEntryV>, p: int, e: BalanceEntryV)
    requires
        0 <= p <= s.len(),
        !has_ekey(s, ekey(e)),
    ensures
        map_of(s.insert(p, e)) == map_of(s).insert(ekey(e), e.amount),
    decreases s.len(),
{
    let s2 = s.insert(p, e);
    if p == s.len() {
        assert(s2.drop_last() =~= s);
        assert(s2.last() == e);
    } else {
        assert(s2.drop_last() =~= s.drop_last().insert(p, e));
        assert(s2.last() == s.last());
        assert(!has_ekey(s.drop_last(), ekey(e))) by {
            if has_ekey(s.drop_last(), ekey(e)) {
                let i = choose|i: int|
                    0 <= i < s.drop_last().len() && ekey(#[trigger] s.drop_last()[i]) == ekey(e);
                assert(ekey(s[i]) == ekey(e));
            }
        }
        lemma_map_of_insert(s.drop_last(), p, e);
        assert(ekey(s.last()) != ekey(e)) by {
            assert(ekey(s[s.len() - 1]) == ekey(s.last()));
        }
        assert(map_of(s.drop_last()).insert(ekey(e), e.amount).insert(
            ekey(s.last()),
            s.last().amount,
        ) =~= map_of(s.drop_last()).insert(ekey(s.last()), s.last().amount).insert(
            ekey(e),
            e.amount,
        ));
    }
}

/// Removing a record removes its key from the map.
proof fn lemma_map_of_remove(s: Seq<BalanceEntryV>, i: int)
    requires
        ekeys_unique(s),
        0 <= i < s.len(),
    ensures
        map_of(s.remove(i)) == map_of(s).remove(ekey(s[i])),
    decreases s.len(),
{
    let s2 = s.remove(i);
    if i == s.len() - 1 {
        assert(s2 =~= s.drop_last());
        lemma_map_of_props(s.drop_last());
        assert(!has_ekey(s.drop_last(), ekey(s[i]))) by {
            if has_ekey(s.drop_last(), ekey(s[i])) {
                let j = choose|j: int|
                    0 <= j < s.drop_last().len() && ekey(#[trigger] s.drop_last()[j]) == ekey(
                        s[i],
                    );
                assert(ekey(s[j]) == ekey(s[i]));
            }
        }
        assert(map_of(s.drop_last()).insert(ekey(s.last()), s.last().amount).remove(ekey(s[i]))
            =~= map_of(s.drop_last()));
    } else {
        assert(s2.drop_last() =~= s.drop_last().remove(i));
        assert(s2.last() == s.last());
        lemma_map_of_remove(s.drop_last(), i);
        assert(ekey(s[i]) != ekey(s.last())) by {
            assert(ekey(s[s.len() - 1]) == ekey(s.last()));
        }
        assert(ekey(s.drop_last()[i]) == ekey(s[i]));
        assert(map_of(s.drop_last()).remove(ekey(s[i])).insert(ekey(s.last()), s.last().amount)
            =~= map_of(s.drop_last()).insert(ekey(s.last()), s.last().amount).remove(
            ekey(s[i]),
        ));
    }
}

pub open spec fn coins_view(s: Seq<Coin>) -> Seq<CoinV> {
    s.map_values(|c: Coin| c@)
}

pub open spec fn jobinfos_view(s: Seq<JobInfo>) -> Seq<JobInfoV> {
    s.map_values(|w: JobInfo| w@)
}

/// Every coin in the batch has amount zero.
pub open spec fn all_zero(coins: Seq<CoinV>) -> bool {
    forall|i: int| 0 <= i < coins.len() ==> (#[trigger] coins[i]).amount == 0
}

/// The effect of a deposit batch on the balance map, applied coin by coin in
/// order. Zero-amount coins are no-ops. `None` when some running balance
/// would overflow an unsigned 128-bit integer.
pub open spec fn apply_coins(
    m: Map<(Seq<char>, Seq<char>, Seq<char>), u128>,
    owner: Seq<char>,
    job: Seq<char>,
    coins: Seq<CoinV>,
) -> Option<Map<(Seq<char>, Seq<char>, Seq<char>), u128>>
    decreases coins.len(),
{
    if coins.len() == 0 {
        Some(m)
    } else {
        match apply_coins(m, owner, job, coins.drop_last()) {
            None => None,
            Some(m1) => {
                let c = coins.last();
                if c.amount == 0 {
                    Some(m1)
                } else {
                    let k = (owner, job, c.denom);
                    if balance_at(m1, k) + c.amount > u128::MAX {
                        None
                    } else {
                        Some(m1.insert(k, (balance_at(m1, k) + c.amount) as u128))
                    }
                }
            },
        }
    }
}

/// The effect of a withdrawal batch on the balance map, applied entry by
/// entry in order; a later entry sees the balance already reduced by an
/// earlier one. A balance brought to exactly zero is deleted. `None` when an
/// entry asks for more than the balance it finds.
pub open spec fn apply_withdrawals(
    m: Map<(Seq<char>, Seq<char>, Seq<char>), u128>,
    owner: Seq<char>,
    ws: Seq<JobInfoV>,
) -> Option<Map<(Seq<char>, Seq<char>, Seq<char>), u128>>
    decreases ws.len(),
{
    if ws.len() == 0 {
        Some(m)
    } else {
        match apply_withdrawals(m, owner, ws.drop_last()) {
            None => None,
            Some(m1) => {
                let w = ws.last();
                let k = (owner, w.job_id, w.coin.denom);
                if w.coin.amount > balance_at(m1, k) {
                    None
                } else if balance_at(m1, k) - w.coin.amount == 0 {
                    Some(m1.remove(k))
                } else {
                    Some(m1.insert(k, (balance_at(m1, k) - w.coin.amount) as u128))
                }
            },
        }
    }
}

/// Once a prefix of the batch fails, the whole batch fails.
proof fn lemma_apply_coins_extends_none(
    m: Map<(Seq<char>, Seq<char>, Seq<char>), u128>,
    owner: Seq<char>,
    job: Seq<char>,
    coins: Seq<CoinV>,
    n: int,
)
    requires
        0 <= n <= coins.len(),
        apply_coins(m, owner, job, coins.take(n)) is None,
    ensures
        apply_coins(m, owner, job, coins) is None,
    decreases coins.len() - n,
{
    if n == coins.len() {
        assert(coins.take(n) =~= coins);
    } else {
        assert(coins.take(n + 1).drop_last() =~= coins.take(n));
        lemma_apply_coins_extends_none(m, owner, job, coins, n + 1);
    }
}

/// Once a prefix of the batch fails, the whole batch fails.
proof fn lemma_apply_withdrawals_extends_none(
    m: Map<(Seq<char>, Seq<char>, Seq<char>), u128>,
    owner: Seq<char>,
    ws: Seq<JobInfoV>,
    n: int,
)
    requires
        0 <= n <= ws.len(),
        apply_withdrawals(m, owner, ws.take(n)) is None,
    ensures
        apply_withdrawals(m, owner, ws) is None,
    decreases ws.len() - n,
{
    if n == ws.len() {
        assert(ws.take(n) =~= ws);
    } else {
        assert(ws.take(n + 1).drop_last() =~= ws.take(n));
        lemma_apply_withdrawals_extends_none(m, owner, ws, n + 1);
    }
}

/// The weight of a forward record toward one denomination's total.
pub open spec fn denom_w(d: Seq<char>) -> spec_fn(BalanceEntryV) -> int {
    |e: BalanceEntryV|
        if e.denom == d {
            e.amount as int
        } else {
            0
        }
}

/// The total stored balance in one denomination, across all keys.
pub open spec fn denom_total(s: Seq<BalanceEntryV>, d: Seq<char>) -> int {
    wsum(s, denom_w(d))
}

/// The weight of a withdrawal entry toward one denomination's request.
pub open spec fn wd_w(d: Seq<char>) -> spec_fn(JobInfoV) -> int {
    |w: JobInfoV|
        if w.coin.denom == d {
            w.coin.amount as int
        } else {
            0
        }
}

/// The total amount a withdrawal batch requests in one denomination.
pub open spec fn requested_total(ws: Seq<JobInfoV>, d: Seq<char>) -> int {
    wsum(ws, wd_w(d))
}

/// The weight of a coin toward one denomination's total.
pub open spec fn coin_w(d: Seq<char>) -> spec_fn(CoinV) -> int {
    |c: CoinV|
        if c.denom == d {
            c.amount as int
        } else {
            0
        }
}

/// The weight of a withdrawal entry toward one `(job, denom)` position.
pub open spec fn jinfo_w(j: Seq<char>, d: Seq<char>) -> spec_fn(JobInfoV) -> int {
    |w: JobInfoV|
        if w.job_id == j && w.coin.denom == d {
            w.coin.amount as int
        } else {
            0
        }
}

/// Law: a successful deposit batch raises the balance at every key by
/// exactly the sum of the batch's coins for that key — the owner's and
/// job's own coins of that denomination — and leaves every other key
/// untouched.
pub proof fn lemma_deposit_accounting(
    m: Map<(Seq<char>, Seq<char>, Seq<char>), u128>,
    owner: Seq<char>,
    job: Seq<char>,
    coins: Seq<CoinV>,
    k: (Seq<char>, Seq<char>, Seq<char>),
)
    requires
        apply_coins(m, owner, job, coins) is Some,
    ensures
        balance_at(apply_coins(m, owner, job, coins).unwrap(), k) as int == balance_at(m, k) as int
            + if k.0 == owner && k.1 == job {
            wsum(coins, coin_w(k.2))
        } else {
            0
        },
    decreases coins.len(),
{
    if coins.len() == 0 {
        crate::seqsum::lemma_wsum_zero(coins, coin_w(k.2));
    } else {
        lemma_deposit_accounting(m, owner, job, coins.drop_last(), k);
        crate::seqsum::lemma_wsum_push(coins.drop_last(), coin_w(k.2), coins.last());
        assert(coins.drop_last().push(coins.last()) =~= coins);
        let m1 = apply_coins(m, owner, job, coins.drop_last()).unwrap();
        let c = coins.last();
        let kk = (owner, job, c.denom);
        if k.0 == owner && k.1 == job {
            if k == kk {
                assert(coin_w(k.2)(c) == c.amount as int);
            } else {
                assert(k.2 != c.denom);
                assert(coin_w(k.2)(c) == 0);
            }
        } else {
            assert(k != kk);
        }
    }
}

/// Law: a successful withdrawal batch lowers the balance at every key by
/// exactly the sum of the batch's entries for that key — the owner's own
/// entries for that job and denomination — and leaves every other key
/// untouched. Together with `lemma_deposit_accounting`, a stored balance is
/// always the sum of its deposits minus the sum of its withdrawals.
pub proof fn lemma_withdraw_accounting(
    m: Map<(Seq<char>, Seq<char>, Seq<char>), u128>,
    owner: Seq<char>,
    ws: Seq<JobInfoV>,
    k: (Seq<char>, Seq<char>, Seq<char>),
)
    requires
        apply_withdrawals(m, owner, ws) is Some,
    ensures
        balance_at(apply_withdrawals(m, owner, ws).unwrap(), k) as int == balance_at(m, k) as int
            - if k.0 == owner {
            wsum(ws, jinfo_w(k.1, k.2))
        } else {
            0
        },
    decreases ws.len(),
{
    if ws.len() == 0 {
        crate::seqsum::lemma_wsum_zero(ws, jinfo_w(k.1, k.2));
    } else {
        lemma_withdraw_accounting(m, owner, ws.drop_last(), k);
        crate::seqsum::lemma_wsum_push(ws.drop_last(), jinfo_w(k.1, k.2), ws.last());
        assert(ws.drop_last().push(ws.last()) =~= ws);
        let m1 = apply_withdrawals(m, owner, ws.drop_last()).unwrap();
        let w = ws.last();
        let kk = (owner, w.job_id, w.coin.denom);
        if k.0 == owner {
            if k == kk {
                assert(jinfo_w(k.1, k.2)(w) == w.coin.amount as int);
            } else {
                assert(k.1 != w.job_id || k.2 != w.coin.denom);
                assert(jinfo_w(k.1, k.2)(w) == 0);
            }
        } else {
            assert(k != kk);
        }
    }
}

/// One ledger operation, as the dispatcher receives it.
pub ghost enum LedgerOp {
    Deposit { owner: Seq<char>, job: Seq<char>, coins: Seq<CoinV> },
    Withdraw { owner: Seq<char>, ws: Seq<JobInfoV> },
}

/// The state an operation leaves behind: its effect when it succeeds, the
/// old state untouched when it is rejected for any reason.
pub open spec fn op_apply(
    m: Map<(Seq<char>, Seq<char>, Seq<char>), u128>,
    op: LedgerOp,
) -> Map<(Seq<char>, Seq<char>, Seq<char>), u128> {
    match op {
        LedgerOp::Deposit { owner, job, coins } => {
            if all_zero(coins) {
                m
            } else {
                match apply_coins(m, owner, job, coins) {
                    Some(m2) => m2,
                    None => m,
                }
            }
        },
        LedgerOp::Withdraw { owner, ws } => {
            if ws.len() == 0 {
                m
            } else {
                match apply_withdrawals(m, owner, ws) {
                    Some(m2) => m2,
                    None => m,
                }
            }
        },
    }
}

/// What an operation adds to one key's balance: the deposited sum for that
/// key, minus the withdrawn sum, and nothing at all when the operation is
/// rejected.
pub open spec fn op_delta(
    m: Map<(Seq<char>, Seq<char>, Seq<char>), u128>,
    op: LedgerOp,
    k: (Seq<char>, Seq<char>, Seq<char>),
) -> int {
    match op {
        LedgerOp::Deposit { owner, job, coins } => {
            if !all_zero(coins) && apply_coins(m, owner, job, coins) is Some && k.0 == owner && k.1
                == job {
                wsum(coins, coin_w(k.2))
            } else {
                0
            }
        },
        LedgerOp::Withdraw { owner, ws } => {
            if ws.len() > 0 && apply_withdrawals(m, owner, ws) is Some && k.0 == owner {
                -wsum(ws, jinfo_w(k.1, k.2))
            } else {
                0
            }
        },
    }
}

/// The state after a whole sequence of operations.
pub open spec fn run_ops(
    m: Map<(Seq<char>, Seq<char>, Seq<char>), u128>,
    ops: Seq<LedgerOp>,
) -> Map<(Seq<char>, Seq<char>, Seq<char>), u128>
    decreases ops.len(),
{
    if ops.len() == 0 {
        m
    } else {
        op_apply(run_ops(m, ops.drop_last()), ops.last())
    }
}

/// What a whole sequence of operations adds to one key's balance.
pub open spec fn net_of(
    m: Map<(Seq<char>, Seq<char>, Seq<char>), u128>,
    ops: Seq<LedgerOp>,
    k: (Seq<char>, Seq<char>, Seq<char>),
) -> int
    decreases ops.len(),
{
    if ops.len() == 0 {
        0
    } else {
        net_of(m, ops.drop_last(), k) + op_delta(run_ops(m, ops.drop_last()), ops.last(), k)
    }
}

/// Law: after any sequence of deposit and withdrawal operations, the balance
/// stored at a key is the initial balance plus every deposit made to that
/// key and minus every withdrawal taken from it, counting only the
/// operations that succeeded.
pub proof fn lemma_ledger_accounting(
    m: Map<(Seq<char>, Seq<char>, Seq<char>), u128>,
    ops: Seq<LedgerOp>,
    k: (Seq<char>, Seq<char>, Seq<char>),
)
    ensures
        balance_at(run_ops(m, ops), k) as int == balance_at(m, k) as int + net_of(m, ops, k),
    decreases ops.len(),
{
    if ops.len() > 0 {
        lemma_ledger_accounting(m, ops.drop_last(), k);
        let m1 = run_ops(m, ops.drop_last());
        match ops.last() {
            LedgerOp::Deposit { owner, job, coins } => {
                if !all_zero(coins) && apply_coins(m1, owner, job, coins) is Some {
                    lemma_deposit_accounting(m1, owner, job, coins, k);
                }
            },
            LedgerOp::Withdraw { owner, ws } => {
                if ws.len() > 0 && apply_withdrawals(m1, owner, ws) is Some {
                    lemma_withdraw_accounting(m1, owner, ws, k);
                }
            },
        }
    }
}

/// The weight of a forward record toward one `(job, denom)` total.
pub open spec fn jd_w(j: Seq<char>, d: Seq<char>) -> spec_fn(BalanceEntryV) -> int {
    |e: BalanceEntryV|
        if e.job_id == j && e.denom == d {
            e.amount as int
        } else {
            0
        }
}

/// The aggregate balance for a job in one denomination, across all owners.
pub open spec fn job_denom_total(s: Seq<BalanceEntryV>, j: Seq<char>, d: Seq<char>) -> int {
    wsum(s, jd_w(j, d))
}

/// The weight of a reverse record toward one `(job, denom)` total: the
/// forward balance it points at.
pub open spec fn ix_w(
    m: Map<(Seq<char>, Seq<char>, Seq<char>), u128>,
    j: Seq<char>,
    d: Seq<char>,
) -> spec_fn(RevKeyV) -> int {
    |rk: RevKeyV|
        if rk.job_id == j && rk.denom == d {
            balance_at(m, flip(ikey(rk))) as int
        } else {
            0
        }
}

/// Two duplicate-free sequences with the same members have the same multiset.
proof fn lemma_nodup_same_members_multiset<A>(s1: Seq<A>, s2: Seq<A>)
    requires
        forall|i: int, j: int| 0 <= i < j < s1.len() ==> s1[i] != s1[j],
        forall|i: int, j: int| 0 <= i < j < s2.len() ==> s2[i] != s2[j],
        forall|x: A| s1.contains(x) == s2.contains(x),
    ensures
        s1.to_multiset() == s2.to_multiset(),
{
    broadcast use vstd::seq_lib::group_to_multiset_ensures;

    s1.lemma_multiset_has_no_duplicates();
    s2.lemma_multiset_has_no_duplicates();
    assert forall|x: A| s1.to_multiset().count(x) == s2.to_multiset().count(x) by {
        if s1.contains(x) {
            assert(s1.to_multiset().count(x) == 1);
            assert(s2.to_multiset().count(x) == 1);
        } else {
            assert(s1.to_multiset().count(x) == 0);
            assert(s2.to_multiset().count(x) == 0);
        }
    }
    assert(s1.to_multiset() =~= s2.to_multiset());
}

/// Summing a `(job, denom)` total by walking the reverse index and loading
/// each forward record gives the same answer as walking the forward records.
proof fn lemma_index_entry_sum(
    s: Seq<BalanceEntryV>,
    ix: Seq<RevKeyV>,
    j: Seq<char>,
    d: Seq<char>,
)
    requires
        entries_sorted(s),
        index_sorted(ix),
        forall|x: (Seq<char>, Seq<char>, Seq<char>)| #[trigger] has_ekey(s, x) == has_ikey(
            ix,
            flip(x),
        ),
    ensures
        wsum(ix, ix_w(map_of(s), j, d)) == job_denom_total(s, j, d),
{
    let m = map_of(s);
    lemma_sorted_unique(s);
    lemma_map_of_props(s);
    let fk = ix.map_values(|rk: RevKeyV| flip(ikey(rk)));
    let ek = s.map_values(|e: BalanceEntryV| ekey(e));
    assert forall|a: int, b: int| 0 <= a < b < fk.len() implies fk[a] != fk[b] by {
        lemma_triple_trichotomy(ikey(ix[a]), ikey(ix[b]));
        assert(fk[a] == flip(ikey(ix[a])));
        assert(fk[b] == flip(ikey(ix[b])));
    }
    assert forall|a: int, b: int| 0 <= a < b < ek.len() implies ek[a] != ek[b] by {
        lemma_triple_trichotomy(ekey(s[a]), ekey(s[b]));
        assert(ek[a] == ekey(s[a]));
        assert(ek[b] == ekey(s[b]));
    }
    assert forall|x: (Seq<char>, Seq<char>, Seq<char>)| fk.contains(x) == ek.contains(x) by {
        if fk.contains(x) {
            let a = choose|a: int| 0 <= a < fk.len() && fk[a] == x;
            assert(ikey(ix[a]) == flip(x));
            assert(has_ikey(ix, flip(x)));
            assert(has_ekey(s, x));
            let b = choose|b: int| 0 <= b < s.len() && ekey(#[trigger] s[b]) == x;
            assert(ek[b] == x);
        }
        if ek.contains(x) {
            let b = choose|b: int| 0 <= b < ek.len() && ek[b] == x;
            assert(ekey(s[b]) == x);
            assert(has_ekey(s, x));
            assert(has_ikey(ix, flip(x)));
            let a = choose|a: int| 0 <= a < ix.len() && ikey(#[trigger] ix[a]) == flip(x);
            assert(fk[a] == x);
        }
    }
    lemma_nodup_same_members_multiset(fk, ek);
    let kw = |k: (Seq<char>, Seq<char>, Seq<char>)|
        if k.1 == j && k.2 == d {
            balance_at(m, k) as int
        } else {
            0
        };
    crate::seqsum::lemma_wsum_pointwise(ix, fk, ix_w(m, j, d), kw);
    crate::seqsum::lemma_wsum_permutation(fk, ek, kw);
    assert forall|b: int| 0 <= b < ek.len() implies kw(#[trigger] ek[b]) == jd_w(j, d)(
        #[trigger] s[b],
    ) by {
        assert(ek[b] == ekey(s[b]));
        assert(m.dom().contains(ekey(s[b])));
        assert(m[ekey(s[b])] == s[b].amount);
    }
    crate::seqsum::lemma_wsum_pointwise(ek, s, kw, jd_w(j, d));
}

/// Three-way comparison of two `(first, second, third)` string keys.
fn cmp_key3(a1: &str, a2: &str, a3: &str, b1: &str, b2: &str, b3: &str) -> (r: Rel)
    ensures
        (r == Rel::Below) == triple_below((a1@, a2@, a3@), (b1@, b2@, b3@)),
        (r == Rel::Equal) == ((a1@, a2@, a3@) == (b1@, b2@, b3@)),
        (r == Rel::Above) == triple_below((b1@, b2@, b3@), (a1@, a2@, a3@)),
{
    match cmp_str(a1, b1) {
        Rel::Below => Rel::Below,
        Rel::Above => Rel::Above,
        Rel::Equal => match cmp_str(a2, b2) {
            Rel::Below => Rel::Below,
            Rel::Above => Rel::Above,
            Rel::Equal => cmp_str(a3, b3),
        },
    }
}

/// Find a forward record by key: `Ok` with its position, or `Err` with the
/// position where it would be inserted.
fn entry_pos(entries: &Vec<BalanceEntry>, owner: &str, job_id: &str, denom: &str) -> (r: Result<
    usize,
    usize,
>)
    requires
        entries_sorted(entries_view(entries@)),
    ensures
        ({
            let s = entries_view(entries@);
            let k = (owner@, job_id@, denom@);
            match r {
                Ok(i) => i < s.len() && ekey(s[i as int]) == k,
                Err(p) => {
                    &&& p <= s.len()
                    &&& !has_ekey(s, k)
                    &&& forall|j: int| 0 <= j < p ==> triple_below(ekey(#[trigger] s[j]), k)
                    &&& p < s.len() ==> triple_below(k, ekey(s[p as int]))
                },
            }
        }),
{
    let ghost s = entries_view(entries@);
    let ghost k = (owner@, job_id@, denom@);
    let mut p: usize = 0;
    while p < entries.len()
        invariant
            p <= s.len(),
            s == entries_view(entries@),
            s.len() == entries@.len(),
            entries_sorted(s),
            k == (owner@, job_id@, denom@),
            forall|j: int| 0 <= j < p ==> triple_below(ekey(#[trigger] s[j]), k),
        decreases s.len() - p,
    {
        let e = &entries[p];
        proof {
            assert(s[p as int] == e@);
        }
        match cmp_key3(
            e.owner.as_str(),
            e.job_id.as_str(),
            e.denom.as_str(),
            owner,
            job_id,
            denom,
        ) {
            Rel::Below => {
                p = p + 1;
            },
            Rel::Equal => {
                return Ok(p);
            },
            Rel::Above => {
                proof {
                    assert forall|j: int| 0 <= j < s.len() implies ekey(#[trigger] s[j]) != k by {
                        if j < p {
                            lemma_triple_trichotomy(ekey(s[j]), k);
                        } else if j == p {
                            lemma_triple_trichotomy(k, ekey(s[j]));
                        } else {
                            lemma_triple_below_trans(k, ekey(s[p as int]), ekey(s[j]));
                            lemma_triple_trichotomy(k, ekey(s[j]));
                        }
                    }
                }
                return Err(p);
            },
        }
    }
    proof {
        assert forall|j: int| 0 <= j < s.len() implies ekey(#[trigger] s[j]) != k by {
            lemma_triple_trichotomy(ekey(s[j]), k);
        }
    }
    Err(p)
}

/// Find a reverse record by key, as `entry_pos` does for forward records.
fn index_pos(index: &Vec<RevKey>, job_id: &str, owner: &str, denom: &str) -> (r: Result<
    usize,
    usize,
>)
    requires
        index_sorted(index_view(index@)),
    ensures
        ({
            let s = index_view(index@);
            let k = (job_id@, owner@, denom@);
            match r {
                Ok(i) => i < s.len() && ikey(s[i as int]) == k,
                Err(p) => {
                    &&& p <= s.len()
                    &&& !has_ikey(s, k)
                    &&& forall|j: int| 0 <= j < p ==> triple_below(ikey(#[trigger] s[j]), k)
                    &&& p < s.len() ==> triple_below(k, ikey(s[p as int]))
                },
            }
        }),
{
    let ghost s = index_view(index@);
    let ghost k = (job_id@, owner@, denom@);
    let mut p: usize = 0;
    while p < index.len()
        invariant
            p <= s.len(),
            s == index_view(index@),
            s.len() == index@.len(),
            index_sorted(s),
            k == (job_id@, owner@, denom@),
            forall|j: int| 0 <= j < p ==> triple_below(ikey(#[trigger] s[j]), k),
        decreases s.len() - p,
    {
        let e = &index[p];
        proof {
            assert(s[p as int] == e@);
        }
        match cmp_key3(
            e.job_id.as_str(),
            e.owner.as_str(),
            e.denom.as_str(),
            job_id,
            owner,
            denom,
        ) {
            Rel::Below => {
                p = p + 1;
            },
            Rel::Equal => {
                return Ok(p);
            },
            Rel::Above => {
                proof {
                    assert forall|j: int| 0 <= j < s.len() implies ikey(#[trigger] s[j]) != k by {
                        if j < p {
                            lemma_triple_trichotomy(ikey(s[j]), k);
                        } else if j == p {
                            lemma_triple_trichotomy(k, ikey(s[j]));
                        } else {
                            lemma_triple_below_trans(k, ikey(s[p as int]), ikey(s[j]));
                            lemma_triple_trichotomy(k, ikey(s[j]));
                        }
                    }
                }
                return Err(p);
            },
        }
    }
    proof {
        assert forall|j: int| 0 <= j < s.len() implies ikey(#[trigger] s[j]) != k by {
            lemma_triple_trichotomy(ikey(s[j]), k);
        }
    }
    Err(p)
}

/// Create or overwrite the forward record at a key.
fn upsert_entry(entries: &mut Vec<BalanceEntry>, owner: &str, job_id: &str, denom: &str, amount: u128)
    requires
        entries_sorted(entries_view(old(entries)@)),
    ensures
        entries_sorted(entries_view(final(entries)@)),
        map_of(entries_view(final(entries)@)) == map_of(entries_view(old(entries)@)).insert(
            (owner@, job_id@, denom@),
            amount,
        ),
        has_ekey(entries_view(old(entries)@), (owner@, job_id@, denom@)) ==> exists|i: int|
            0 <= i < entries_view(old(entries)@).len() && ekey(
                #[trigger] entries_view(old(entries)@)[i],
            ) == (owner@, job_id@, denom@) && entries_view(final(entries)@) == entries_view(
                old(entries)@,
            ).update(
                i,
                BalanceEntryV { owner: owner@, job_id: job_id@, denom: denom@, amount },
            ),
        !has_ekey(entries_view(old(entries)@), (owner@, job_id@, denom@)) ==> exists|p: int|
            0 <= p <= entries_view(old(entries)@).len() && entries_view(final(entries)@)
                == entries_view(old(entries)@).insert(
                p,
                BalanceEntryV { owner: owner@, job_id: job_id@, denom: denom@, amount },
            ),
        forall|x: (Seq<char>, Seq<char>, Seq<char>)|
            #[trigger] has_ekey(entries_view(final(entries)@), x) == (has_ekey(
                entries_view(old(entries)@),
                x,
            ) || x == (owner@, job_id@, denom@)),
{
    let ghost s = entries_view(entries@);
    let ghost k = (owner@, job_id@, denom@);
    let ghost e = BalanceEntryV { owner: owner@, job_id: job_id@, denom: denom@, amount };
    proof {
        lemma_sorted_unique(s);
    }
    match entry_pos(entries, owner, job_id, denom) {
        Ok(i) => {
            let fresh = BalanceEntry {
                owner: owner.to_owned(),
                job_id: job_id.to_owned(),
                denom: denom.to_owned(),
                amount,
            };
            entries.set(i, fresh);
            proof {
                let s2 = entries_view(entries@);
                assert(s2 =~= s.update(i as int, e));
                lemma_map_of_update(s, i as int, e);
                assert forall|a: int, b: int| 0 <= a < b < s2.len() implies triple_below(
                    ekey(#[trigger] s2[a]),
                    ekey(#[trigger] s2[b]),
                ) by {
                    assert(ekey(s2[a]) == ekey(s[a]));
                    assert(ekey(s2[b]) == ekey(s[b]));
                }
                assert forall|x: (Seq<char>, Seq<char>, Seq<char>)|
                    #[trigger] has_ekey(s2, x) == (has_ekey(s, x) || x == k) by {
                    if has_ekey(s2, x) {
                        let a = choose|a: int| 0 <= a < s2.len() && ekey(#[trigger] s2[a]) == x;
                        if a == i as int {
                            assert(x == k);
                        } else {
                            assert(ekey(s[a]) == x);
                        }
                    }
                    if has_ekey(s, x) {
                        let a = choose|a: int| 0 <= a < s.len() && ekey(#[trigger] s[a]) == x;
                        if a == i as int {
                            assert(ekey(s2[a]) == k);
                            assert(x == k);
                        } else {
                            assert(ekey(s2[a]) == x);
                        }
                    }
                    if x == k {
                        assert(ekey(s2[i as int]) == k);
                    }
                }
            }
        },
        Err(p) => {
            let fresh = BalanceEntry {
                owner: owner.to_owned(),
                job_id: job_id.to_owned(),
                denom: denom.to_owned(),
                amount,
            };
            entries.insert(p, fresh);
            proof {
                let s2 = entries_view(entries@);
                let pi = p as int;
                assert(s2 =~= s.insert(pi, e));
                lemma_map_of_insert(s, pi, e);
                assert forall|a: int, b: int| 0 <= a < b < s2.len() implies triple_below(
                    ekey(#[trigger] s2[a]),
                    ekey(#[trigger] s2[b]),
                ) by {
                    if a < pi && b == pi {
                        assert(s2[a] == s[a]);
                    } else if a == pi && b > pi {
                        assert(s2[b] == s[b - 1]);
                        assert(pi < s.len());
                        if b - 1 > pi {
                            lemma_triple_below_trans(k, ekey(s[pi]), ekey(s[b - 1]));
                        }
                    } else if a < pi && b > pi {
                        assert(s2[a] == s[a]);
                        assert(s2[b] == s[b - 1]);
                        if a == b - 1 {
                        } else {
                            assert(triple_below(ekey(s[a]), ekey(s[b - 1])));
                        }
                    } else if a > pi {
                        assert(s2[a] == s[a - 1]);
                        assert(s2[b] == s[b - 1]);
                    } else {
                        assert(s2[a] == s[a]);
                        assert(s2[b] == s[b]);
                    }
                }
                assert forall|x: (Seq<char>, Seq<char>, Seq<char>)|
                    #[trigger] has_ekey(s2, x) == (has_ekey(s, x) || x == k) by {
                    if has_ekey(s2, x) {
                        let a = choose|a: int| 0 <= a < s2.len() && ekey(#[trigger] s2[a]) == x;
                        if a < pi {
                            assert(ekey(s[a]) == x);
                        } else if a == pi {
                            assert(x == k);
                        } else {
                            assert(ekey(s[a - 1]) == x);
                        }
                    }
                    if has_ekey(s, x) {
                        let a = choose|a: int| 0 <= a < s.len() && ekey(#[trigger] s[a]) == x;
                        if a < pi {
                            assert(ekey(s2[a]) == x);
                        } else {
                            assert(ekey(s2[a + 1]) == x);
                        }
                    }
                    if x == k {
                        assert(ekey(s2[pi]) == k);
                    }
                }
            }
        },
    }
}

/// Delete the forward record at a position.
fn remove_entry_at(entries: &mut Vec<BalanceEntry>, i: usize)
    requires
        entries_sorted(entries_view(old(entries)@)),
        i < old(entries)@.len(),
    ensures
        entries_sorted(entries_view(final(entries)@)),
        entries_view(final(entries)@) == entries_view(old(entries)@).remove(i as int),
        map_of(entries_view(final(entries)@)) == map_of(entries_view(old(entries)@)).remove(
            ekey(entries_view(old(entries)@)[i as int]),
        ),
        forall|x: (Seq<char>, Seq<char>, Seq<char>)|
            #[trigger] has_ekey(entries_view(final(entries)@), x) == (has_ekey(
                entries_view(old(entries)@),
                x,
            ) && x != ekey(entries_view(old(entries)@)[i as int])),
{
    let ghost s = entries_view(entries@);
    let ghost k = ekey(s[i as int]);
    proof {
        lemma_sorted_unique(s);
    }
    entries.remove(i);
    proof {
        let s2 = entries_view(entries@);
        let pi = i as int;
        assert(s2 =~= s.remove(pi));
        lemma_map_of_remove(s, pi);
        assert forall|a: int, b: int| 0 <= a < b < s2.len() implies triple_below(
            ekey(#[trigger] s2[a]),
            ekey(#[trigger] s2[b]),
        ) by {
            if a < pi && b < pi {
                assert(s2[a] == s[a]);
                assert(s2[b] == s[b]);
            } else if a < pi {
                assert(s2[a] == s[a]);
                assert(s2[b] == s[b + 1]);
            } else {
                assert(s2[a] == s[a + 1]);
                assert(s2[b] == s[b + 1]);
            }
        }
        assert forall|x: (Seq<char>, Seq<char>, Seq<char>)|
            #[trigger] has_ekey(s2, x) == (has_ekey(s, x) && x != k) by {
            if has_ekey(s2, x) {
                let a = choose|a: int| 0 <= a < s2.len() && ekey(#[trigger] s2[a]) == x;
                if a < pi {
                    assert(ekey(s[a]) == x);
                    assert(x != k);
                } else {
                    assert(ekey(s[a + 1]) == x);
                    assert(x != k);
                }
            }
            if has_ekey(s, x) && x != k {
                let a = choose|a: int| 0 <= a < s.len() && ekey(#[trigger] s[a]) == x;
                if a < pi {
                    assert(ekey(s2[a]) == x);
                } else if a > pi {
                    assert(ekey(s2[a - 1]) == x);
                }
            }
        }
    }
}

/// Write the reverse record for a key; writing an existing one is a no-op.
fn insert_index(index: &mut Vec<RevKey>, job_id: &str, owner: &str, denom: &str)
    requires
        index_sorted(index_view(old(index)@)),
    ensures
        index_sorted(index_view(final(index)@)),
        forall|x: (Seq<char>, Seq<char>, Seq<char>)|
            #[trigger] has_ikey(index_view(final(index)@), x) == (has_ikey(
                index_view(old(index)@),
                x,
            ) || x == (job_id@, owner@, denom@)),
{
    let ghost s = index_view(index@);
    let ghost k = (job_id@, owner@, denom@);
    match index_pos(index, job_id, owner, denom) {
        Ok(i) => {
            proof {
                assert(ikey(s[i as int]) == k);
                assert forall|x: (Seq<char>, Seq<char>, Seq<char>)|
                    #[trigger] has_ikey(s, x) == (has_ikey(s, x) || x == k) by {
                    if x == k {
                        assert(has_ikey(s, x));
                    }
                }
            }
        },
        Err(p) => {
            let fresh = RevKey {
                job_id: job_id.to_owned(),
                owner: owner.to_owned(),
                denom: denom.to_owned(),
            };
            index.insert(p, fresh);
            proof {
                let s2 = index_view(index@);
                let pi = p as int;
                let e = RevKeyV { job_id: job_id@, owner: owner@, denom: denom@ };
                assert(s2 =~= s.insert(pi, e));
                assert forall|a: int, b: int| 0 <= a < b < s2.len() implies triple_below(
                    ikey(#[trigger] s2[a]),
                    ikey(#[trigger] s2[b]),
                ) by {
                    if a < pi && b == pi {
                        assert(s2[a] == s[a]);
                    } else if a == pi && b > pi {
                        assert(s2[b] == s[b - 1]);
                        assert(pi < s.len());
                        if b - 1 > pi {
                            lemma_triple_below_trans(k, ikey(s[pi]), ikey(s[b - 1]));
                        }
                    } else if a < pi && b > pi {
                        assert(s2[a] == s[a]);
                        assert(s2[b] == s[b - 1]);
                        if a == b - 1 {
                        } else {
                            assert(triple_below(ikey(s[a]), ikey(s[b - 1])));
                        }
                    } else if a > pi {
                        assert(s2[a] == s[a - 1]);
                        assert(s2[b] == s[b - 1]);
                    } else {
                        assert(s2[a] == s[a]);
                        assert(s2[b] == s[b]);
                    }
                }
                assert forall|x: (Seq<char>, Seq<char>, Seq<char>)|
                    #[trigger] has_ikey(s2, x) == (has_ikey(s, x) || x == k) by {
                    if has_ikey(s2, x) {
                        let a = choose|a: int| 0 <= a < s2.len() && ikey(#[trigger] s2[a]) == x;
                        if a < pi {
                            assert(ikey(s[a]) == x);
                        } else if a == pi {
                            assert(x == k);
                        } else {
                            assert(ikey(s[a - 1]) == x);
                        }
                    }
                    if has_ikey(s, x) {
                        let a = choose|a: int| 0 <= a < s.len() && ikey(#[trigger] s[a]) == x;
                        if a < pi {
                            assert(ikey(s2[a]) == x);
                        } else {
                            assert(ikey(s2[a + 1]) == x);
                        }
                    }
                    if x == k {
                        assert(ikey(s2[pi]) == k);
                    }
                }
            }
        },
    }
}

/// Delete the reverse record for a key; deleting an absent one is a no-op.
fn remove_index(index: &mut Vec<RevKey>, job_id: &str, owner: &str, denom: &str)
    requires
        index_sorted(index_view(old(index)@)),
    ensures
        index_sorted(index_view(final(index)@)),
        forall|x: (Seq<char>, Seq<char>, Seq<char>)|
            #[trigger] has_ikey(index_view(final(index)@), x) == (has_ikey(
                index_view(old(index)@),
                x,
            ) && x != (job_id@, owner@, denom@)),
{
    let ghost s = index_view(index@);
    let ghost k = (job_id@, owner@, denom@);
    proof {
        assert forall|i: int, j: int| 0 <= i < j < s.len() implies ikey(#[trigger] s[i]) != ikey(
            #[trigger] s[j],
        ) by {
            lemma_triple_trichotomy(ikey(s[i]), ikey(s[j]));
        }
    }
    match index_pos(index, job_id, owner, denom) {
        Ok(i) => {
            index.remove(i);
            proof {
                let s2 = index_view(index@);
                let pi = i as int;
                assert(s2 =~= s.remove(pi));
                assert forall|a: int, b: int| 0 <= a < b < s2.len() implies triple_below(
                    ikey(#[trigger] s2[a]),
                    ikey(#[trigger] s2[b]),
                ) by {
                    if a < pi && b < pi {
                        assert(s2[a] == s[a]);
                        assert(s2[b] == s[b]);
                    } else if a < pi {
                        assert(s2[a] == s[a]);
                        assert(s2[b] == s[b + 1]);
                    } else {
                        assert(s2[a] == s[a + 1]);
                        assert(s2[b] == s[b + 1]);
                    }
                }
                assert forall|x: (Seq<char>, Seq<char>, Seq<char>)|
                    #[trigger] has_ikey(s2, x) == (has_ikey(s, x) && x != k) by {
                    if has_ikey(s2, x) {
                        let a = choose|a: int| 0 <= a < s2.len() && ikey(#[trigger] s2[a]) == x;
                        if a < pi {
                            assert(ikey(s[a]) == x);
                        } else {
                            assert(ikey(s[a + 1]) == x);
                        }
                    }
                    if has_ikey(s, x) && x != k {
                        let a = choose|a: int| 0 <= a < s.len() && ikey(#[trigger] s[a]) == x;
                        if a < pi {
                            assert(ikey(s2[a]) == x);
                        } else if a > pi {
                            assert(ikey(s2[a - 1]) == x);
                        }
                    }
                }
            }
        },
        Err(_) => {
            proof {
                assert forall|x: (Seq<char>, Seq<char>, Seq<char>)|
                    #[trigger] has_ikey(s, x) == (has_ikey(s, x) && x != k) by {
                    if has_ikey(s, x) && x == k {
                        assert(false);
                    }
                }
            }
        },
    }
}

/// Find the line with the given denomination in an accumulating coin list.
fn find_denom(r: &Vec<Coin>, d: &str) -> (res: Option<usize>)
    ensures
        match res {
            Some(p) => p < r@.len() && coins_view(r@)[p as int].denom == d@,
            None => forall|q: int| 0 <= q < r@.len() ==> (#[trigger] coins_view(r@)[q]).denom != d@,
        },
{
    let mut n: usize = 0;
    while n < r.len()
        invariant
            n <= r@.len(),
            forall|q: int| 0 <= q < n ==> (#[trigger] coins_view(r@)[q]).denom != d@,
        decreases r@.len() - n,
    {
        proof {
            assert(coins_view(r@)[n as int] == r@[n as int]@);
        }
        match cmp_str(r[n].denom.as_str(), d) {
            Rel::Equal => {
                return Some(n);
            },
            _ => {},
        }
        n = n + 1;
    }
    None
}

/// The dual-indexed balance ledger: forward records keyed
/// `(owner, job, denom)` and a reverse index keyed `(job, owner, denom)`,
/// kept consistent with each other.
pub struct Ledger {
    entries: Vec<BalanceEntry>,
    index: Vec<RevKey>,
}

impl Ledger {
    /// The forward records, sorted ascending by `(owner, job, denom)`.
    pub closed spec fn entries_seq(&self) -> Seq<BalanceEntryV> {
        entries_view(self.entries@)
    }

    /// The reverse records, sorted ascending by `(job, owner, denom)`.
    pub closed spec fn index_seq(&self) -> Seq<RevKeyV> {
        index_view(self.index@)
    }

    /// The balance map this ledger denotes.
    pub open spec fn balances(&self) -> Map<(Seq<char>, Seq<char>, Seq<char>), u128> {
        map_of(self.entries_seq())
    }

    /// Well-formedness: both sides strictly sorted, no zero balances stored,
    /// and a forward record exists at `(owner, job, denom)` exactly when a
    /// reverse record exists at `(job, owner, denom)`.
    pub open spec fn wf(&self) -> bool {
        &&& entries_sorted(self.entries_seq())
        &&& entries_positive(self.entries_seq())
        &&& index_sorted(self.index_seq())
        &&& forall|x: (Seq<char>, Seq<char>, Seq<char>)|
            #[trigger] has_ekey(self.entries_seq(), x) == has_ikey(self.index_seq(), flip(x))
    }

    /// An empty ledger.
    pub fn new() -> (r: Ledger)
        ensures
            r.wf(),
            r.entries_seq() == Seq::<BalanceEntryV>::empty(),
            r.balances() == Map::<(Seq<char>, Seq<char>, Seq<char>), u128>::empty(),
    {
        let r = Ledger { entries: Vec::new(), index: Vec::new() };
        proof {
            assert(r.entries_seq() =~= Seq::<BalanceEntryV>::empty());
            assert(r.index_seq() =~= Seq::<RevKeyV>::empty());
        }
        r
    }

    /// A record-for-record copy with the same abstract value.
    pub fn duplicate(&self) -> (r: Ledger)
        ensures
            r.entries_seq() == self.entries_seq(),
            r.index_seq() == self.index_seq(),
    {
        let mut entries: Vec<BalanceEntry> = Vec::new();
        let mut i: usize = 0;
        while i < self.entries.len()
            invariant
                i <= self.entries@.len(),
                entries_view(entries@) =~= entries_view(self.entries@).take(i as int),
            decreases self.entries@.len() - i,
        {
            let e = &self.entries[i];
            let fresh = BalanceEntry {
                owner: e.owner.clone(),
                job_id: e.job_id.clone(),
                denom: e.denom.clone(),
                amount: e.amount,
            };
            proof {
                assert(fresh@ == self.entries@[i as int]@);
            }
            let ghost b = entries@;
            entries.push(fresh);
            proof {
                assert(entries_view(entries@) =~= entries_view(b).push(
                    self.entries@[i as int]@,
                ));
                assert(entries_view(self.entries@).take(i as int).push(
                    self.entries@[i as int]@,
                ) =~= entries_view(self.entries@).take(i as int + 1));
            }
            i = i + 1;
        }
        let mut index: Vec<RevKey> = Vec::new();
        let mut j: usize = 0;
        while j < self.index.len()
            invariant
                j <= self.index@.len(),
                index_view(index@) =~= index_view(self.index@).take(j as int),
            decreases self.index@.len() - j,
        {
            let e = &self.index[j];
            let fresh = RevKey {
                job_id: e.job_id.clone(),
                owner: e.owner.clone(),
                denom: e.denom.clone(),
            };
            proof {
                assert(fresh@ == self.index@[j as int]@);
            }
            let ghost b = index@;
            index.push(fresh);
            proof {
                assert(index_view(index@) =~= index_view(b).push(self.index@[j as int]@));
                assert(index_view(self.index@).take(j as int).push(self.index@[j as int]@)
                    =~= index_view(self.index@).take(j as int + 1));
            }
            j = j + 1;
        }
        proof {
            assert(entries_view(entries@) =~= entries_view(self.entries@));
            assert(index_view(index@) =~= index_view(self.index@));
        }
        Ledger { entries, index }
    }

    /// Add the attached coins to the balances under `(owner, job_id)`.
    ///
    /// Fails when every attached coin is zero, or when a running balance
    /// would overflow; a failed deposit leaves the ledger unchanged.
    pub fn deposit(&mut self, owner: &str, job_id: &JobId, funds: &Vec<Coin>) -> (r: Result<
        (),
        ContractError,
    >)
        requires
            old(self).wf(),
        ensures
            final(self).wf(),
            all_zero(coins_view(funds@)) ==> r == Err::<(), ContractError>(
                ContractError::ZeroDeposit,
            ),
            !all_zero(coins_view(funds@)) && apply_coins(
                old(self).balances(),
                owner@,
                job_id@,
                coins_view(funds@),
            ) is None ==> r == Err::<(), ContractError>(ContractError::ArithmeticOverflow),
            !all_zero(coins_view(funds@)) && apply_coins(
                old(self).balances(),
                owner@,
                job_id@,
                coins_view(funds@),
            ) is Some ==> r is Ok,
            r is Ok ==> Some(final(self).balances()) == apply_coins(
                old(self).balances(),
                owner@,
                job_id@,
                coins_view(funds@),
            ),
            r is Err ==> *final(self) == *old(self),
    {
        let ghost m0 = self.balances();
        let ghost cv = coins_view(funds@);
        let ghost ov = owner@;
        let ghost jv = job_id@;
        let mut work = self.duplicate();
        let mut nonzero = false;
        let mut i: usize = 0;
        proof {
            assert(cv.take(0) =~= Seq::<CoinV>::empty());
        }
        while i < funds.len()
            invariant
                i <= cv.len(),
                cv == coins_view(funds@),
                cv.len() == funds@.len(),
                ov == owner@,
                jv == job_id@,
                work.wf(),
                self.wf(),
                self.entries_seq() == old(self).entries_seq(),
                self.index_seq() == old(self).index_seq(),
                m0 == old(self).balances(),
                apply_coins(m0, ov, jv, cv.take(i as int)) == Some(work.balances()),
                nonzero == !all_zero(cv.take(i as int)),
            decreases cv.len() - i,
        {
            let c = &funds[i];
            proof {
                assert(cv[i as int] == c@);
                assert(cv.take(i as int + 1).drop_last() =~= cv.take(i as int));
                assert(cv.take(i as int + 1).last() == cv[i as int]);
            }
            if c.amount > 0 {
                nonzero = true;
                let ghost k = (ov, jv, c.denom@);
                proof {
                    lemma_sorted_unique(work.entries_seq());
                    lemma_map_of_props(work.entries_seq());
                }
                let prev: u128 = match entry_pos(&work.entries, owner, job_id.0.as_str(), &c.denom)
                    {
                    Ok(idx) => {
                        proof {
                            assert(ekey(work.entries_seq()[idx as int]) == k);
                            assert(work.balances().dom().contains(k));
                            assert(work.balances()[k] == work.entries_seq()[idx as int].amount);
                        }
                        work.entries[idx].amount
                    },
                    Err(_) => {
                        proof {
                            assert(!work.balances().dom().contains(k));
                        }
                        0u128
                    },
                };
                proof {
                    assert(prev == balance_at(work.balances(), k));
                }
                match prev.checked_add(c.amount) {
                    None => {
                        proof {
                            lemma_apply_coins_extends_none(m0, ov, jv, cv, i as int + 1);
                            assert(!all_zero(cv)) by {
                                assert(cv[i as int].amount > 0);
                            }
                        }
                        return Err(ContractError::ArithmeticOverflow);
                    },
                    Some(total) => {
                        let ghost before = work.entries_seq();
                        upsert_entry(&mut work.entries, owner, job_id.0.as_str(), &c.denom, total);
                        insert_index(&mut work.index, job_id.0.as_str(), owner, &c.denom);
                        proof {
                            let after = work.entries_seq();
                            let e = BalanceEntryV {
                                owner: ov,
                                job_id: jv,
                                denom: c.denom@,
                                amount: total,
                            };
                            assert(entries_positive(after)) by {
                                if has_ekey(before, k) {
                                    let idx = choose|idx: int|
                                        0 <= idx < before.len() && ekey(#[trigger] before[idx])
                                            == k && after == before.update(idx, e);
                                    assert forall|a: int| 0 <= a < after.len() implies (
                                    #[trigger] after[a]).amount > 0 by {
                                        if a != idx {
                                            assert(after[a] == before[a]);
                                        }
                                    }
                                } else {
                                    let p = choose|p: int|
                                        0 <= p <= before.len() && after == before.insert(p, e);
                                    assert forall|a: int| 0 <= a < after.len() implies (
                                    #[trigger] after[a]).amount > 0 by {
                                        if a < p {
                                            assert(after[a] == before[a]);
                                        } else if a > p {
                                            assert(after[a] == before[a - 1]);
                                        }
                                    }
                                }
                            }
                            assert forall|x: (Seq<char>, Seq<char>, Seq<char>)|
                                #[trigger] has_ekey(after, x) == has_ikey(
                                    work.index_seq(),
                                    flip(x),
                                ) by {
                                assert(has_ekey(after, x) == (has_ekey(before, x) || x == k));
                                assert(flip(x) == flip(k) ==> x == k);
                            }
                        }
                    },
                }
            } else {
                proof {
                    assert(apply_coins(m0, ov, jv, cv.take(i as int + 1)) == Some(
                        work.balances(),
                    ));
                    assert(nonzero == !all_zero(cv.take(i as int + 1))) by {
                        if !nonzero {
                            assert forall|a: int| 0 <= a < i as int + 1 implies (
                            #[trigger] cv.take(i as int + 1)[a]).amount == 0 by {
                                if a < i as int {
                                    assert(cv.take(i as int)[a].amount == 0);
                                }
                            }
                        } else {
                            let a = choose|a: int|
                                0 <= a < i as int && (#[trigger] cv.take(i as int)[a]).amount > 0;
                            assert(cv.take(i as int + 1)[a].amount > 0);
                        }
                    }
                }
            }
            i = i + 1;
        }
        proof {
            assert(cv.take(i as int) =~= cv);
        }
        if !nonzero {
            return Err(ContractError::ZeroDeposit);
        }
        let Ledger { entries, index } = work;
        self.entries = entries;
        self.index = index;
        Ok(())
    }

    /// Withdraw the listed amounts from the caller's balances, entry by
    /// entry in order; a later entry sees the balance already reduced by an
    /// earlier one. Returns one outbound line item per entry.
    ///
    /// Fails when the list is empty or when any entry exceeds the balance it
    /// finds; a failed withdrawal leaves the ledger unchanged.
    pub fn withdraw(&mut self, owner: &str, withdrawals: &Vec<JobInfo>) -> (r: Result<
        Vec<Coin>,
        ContractError,
    >)
        requires
            old(self).wf(),
        ensures
            final(self).wf(),
            withdrawals@.len() == 0 ==> r == Err::<Vec<Coin>, ContractError>(
                ContractError::EmptyWithdrawal,
            ),
            withdrawals@.len() > 0 && apply_withdrawals(
                old(self).balances(),
                owner@,
                jobinfos_view(withdrawals@),
            ) is None ==> r == Err::<Vec<Coin>, ContractError>(ContractError::InsufficientFunds),
            withdrawals@.len() > 0 && apply_withdrawals(
                old(self).balances(),
                owner@,
                jobinfos_view(withdrawals@),
            ) is Some ==> r is Ok,
            r matches Ok(coins) ==> {
                &&& Some(final(self).balances()) == apply_withdrawals(
                    old(self).balances(),
                    owner@,
                    jobinfos_view(withdrawals@),
                )
                &&& coins@.len() == withdrawals@.len()
                &&& forall|n: int|
                    0 <= n < coins@.len() ==> (#[trigger] coins_view(coins@)[n]).denom
                        == jobinfos_view(withdrawals@)[n].coin.denom && coins_view(coins@)[n].amount
                        == jobinfos_view(withdrawals@)[n].coin.amount
            },
            r is Ok ==> forall|d: Seq<char>|
                #[trigger] denom_total(final(self).entries_seq(), d) == denom_total(
                    old(self).entries_seq(),
                    d,
                ) - requested_total(jobinfos_view(withdrawals@), d),
            r is Err ==> *final(self) == *old(self),
    {
        let ghost m0 = self.balances();
        let ghost wv = jobinfos_view(withdrawals@);
        let ghost ov = owner@;
        let ghost s0 = self.entries_seq();
        if withdrawals.len() == 0 {
            return Err(ContractError::EmptyWithdrawal);
        }
        let mut work = self.duplicate();
        let mut coins: Vec<Coin> = Vec::new();
        let mut i: usize = 0;
        proof {
            assert(wv.take(0) =~= Seq::<JobInfoV>::empty());
            assert forall|d: Seq<char>|
                #[trigger] denom_total(work.entries_seq(), d) == denom_total(s0, d)
                    - requested_total(wv.take(0), d) by {
                crate::seqsum::lemma_wsum_push(wv.take(0), wd_w(d), wv[0]);
            }
        }
        while i < withdrawals.len()
            invariant
                i <= wv.len(),
                wv == jobinfos_view(withdrawals@),
                wv.len() == withdrawals@.len(),
                ov == owner@,
                work.wf(),
                self.wf(),
                self.entries_seq() == old(self).entries_seq(),
                self.index_seq() == old(self).index_seq(),
                m0 == old(self).balances(),
                s0 == old(self).entries_seq(),
                apply_withdrawals(m0, ov, wv.take(i as int)) == Some(work.balances()),
                coins@.len() == i,
                forall|n: int|
                    0 <= n < i ==> (#[trigger] coins_view(coins@)[n]).denom == wv[n].coin.denom
                        && coins_view(coins@)[n].amount == wv[n].coin.amount,
                forall|d: Seq<char>|
                    #[trigger] denom_total(work.entries_seq(), d) == denom_total(s0, d)
                        - requested_total(wv.take(i as int), d),
            decreases wv.len() - i,
        {
            let w = &withdrawals[i];
            proof {
                assert(wv[i as int] == w@);
                assert(wv.take(i as int + 1).drop_last() =~= wv.take(i as int));
                assert(wv.take(i as int + 1).last() == wv[i as int]);
            }
            let ghost k = (ov, w.job_id@, w.coin.denom@);
            proof {
                lemma_sorted_unique(work.entries_seq());
                lemma_map_of_props(work.entries_seq());
            }
            let slot = entry_pos(&work.entries, owner, w.job_id.0.as_str(), &w.coin.denom);
            let prev: u128 = match slot {
                Ok(idx) => {
                    proof {
                        assert(ekey(work.entries_seq()[idx as int]) == k);
                        assert(work.balances().dom().contains(k));
                        assert(work.balances()[k] == work.entries_seq()[idx as int].amount);
                    }
                    work.entries[idx].amount
                },
                Err(_) => {
                    proof {
                        assert(!work.balances().dom().contains(k));
                    }
                    0u128
                },
            };
            let ghost before = work.entries_seq();
            let ghost before_ix = work.index_seq();
            proof {
                assert(prev == balance_at(work.balances(), k));
                assert(map_of(before) == work.balances());
                assert(prev == balance_at(map_of(before), k));
                if prev > 0 {
                    assert(map_of(before).dom().contains(k));
                    assert(has_ekey(before, k));
                }
            }
            if w.coin.amount > prev {
                proof {
                    lemma_apply_withdrawals_extends_none(m0, ov, wv, i as int + 1);
                }
                return Err(ContractError::InsufficientFunds);
            }
            let rem = prev - w.coin.amount;
            if rem == 0 {
                match slot {
                    Ok(idx) => {
                        remove_entry_at(&mut work.entries, idx);
                        remove_index(&mut work.index, w.job_id.0.as_str(), owner, &w.coin.denom);
                        proof {
                            let after = work.entries_seq();
                            assert(after == before.remove(idx as int));
                            assert(entries_positive(after)) by {
                                assert forall|a: int| 0 <= a < after.len() implies (
                                #[trigger] after[a]).amount > 0 by {
                                    if a < idx as int {
                                        assert(after[a] == before[a]);
                                    } else {
                                        assert(after[a] == before[a + 1]);
                                    }
                                }
                            }
                            assert forall|x: (Seq<char>, Seq<char>, Seq<char>)|
                                #[trigger] has_ekey(after, x) == has_ikey(
                                    work.index_seq(),
                                    flip(x),
                                ) by {
                                assert(has_ekey(after, x) == (has_ekey(before, x) && x != k));
                                assert(flip(x) == flip(k) ==> x == k);
                            }
                            assert(Some(work.balances()) == apply_withdrawals(
                                m0,
                                ov,
                                wv.take(i as int + 1),
                            ));
                            assert forall|d: Seq<char>|
                                #[trigger] denom_total(work.entries_seq(), d) == denom_total(
                                    s0,
                                    d,
                                ) - requested_total(wv.take(i as int + 1), d) by {
                                assert(denom_total(before, d) == denom_total(s0, d)
                                    - requested_total(wv.take(i as int), d));
                                lemma_wsum_remove(before, idx as int, denom_w(d));
                                lemma_wsum_take_step(wv, wd_w(d), i as int);
                                assert(denom_w(d)(before[idx as int]) == wd_w(d)(wv[i as int]));
                            }
                        }
                    },
                    Err(_) => {
                        proof {
                            assert(prev == 0);
                            assert(w@.coin.amount == 0);
                            assert(!work.balances().dom().contains(k));
                            assert(work.balances().remove(k) =~= work.balances());
                            assert(Some(work.balances()) == apply_withdrawals(
                                m0,
                                ov,
                                wv.take(i as int + 1),
                            ));
                            assert forall|d: Seq<char>|
                                #[trigger] denom_total(work.entries_seq(), d) == denom_total(
                                    s0,
                                    d,
                                ) - requested_total(wv.take(i as int + 1), d) by {
                                lemma_wsum_take_step(wv, wd_w(d), i as int);
                                assert(wd_w(d)(wv[i as int]) == 0);
                            }
                        }
                    },
                }
            } else {
                upsert_entry(&mut work.entries, owner, w.job_id.0.as_str(), &w.coin.denom, rem);
                proof {
                    let after = work.entries_seq();
                    let e = BalanceEntryV {
                        owner: ov,
                        job_id: w.job_id@,
                        denom: w.coin.denom@,
                        amount: rem,
                    };
                    assert(prev > 0);
                    assert(has_ekey(before, k));
                    let idx = choose|idx: int|
                        0 <= idx < before.len() && ekey(#[trigger] before[idx]) == k && after
                            == before.update(idx, e);
                    assert(entries_positive(after)) by {
                        assert forall|a: int| 0 <= a < after.len() implies (
                        #[trigger] after[a]).amount > 0 by {
                            if a != idx {
                                assert(after[a] == before[a]);
                            }
                        }
                    }
                    assert forall|x: (Seq<char>, Seq<char>, Seq<char>)|
                        #[trigger] has_ekey(after, x) == has_ikey(work.index_seq(), flip(x)) by {
                        assert(has_ekey(after, x) == (has_ekey(before, x) || x == k));
                        assert(has_ekey(before, k));
                    }
                    assert(Some(work.balances()) == apply_withdrawals(
                        m0,
                        ov,
                        wv.take(i as int + 1),
                    ));
                    assert forall|d: Seq<char>|
                        #[trigger] denom_total(work.entries_seq(), d) == denom_total(s0, d)
                            - requested_total(wv.take(i as int + 1), d) by {
                        assert(denom_total(before, d) == denom_total(s0, d) - requested_total(
                            wv.take(i as int),
                            d,
                        ));
                        lemma_wsum_update(before, idx, e, denom_w(d));
                        lemma_wsum_take_step(wv, wd_w(d), i as int);
                        assert(before[idx].amount == prev);
                        assert(denom_w(d)(before[idx]) - denom_w(d)(e) == wd_w(d)(wv[i as int]));
                    }
                }
            }
            let ghost coins_before = coins_view(coins@);
            coins.push(Coin { denom: w.coin.denom.clone(), amount: w.coin.amount });
            proof {
                assert(coins_view(coins@) =~= coins_before.push(
                    CoinV { denom: w@.coin.denom, amount: w@.coin.amount },
                ));
                assert forall|n: int| 0 <= n < i as int + 1 implies (
                #[trigger] coins_view(coins@)[n]).denom == wv[n].coin.denom && coins_view(
                    coins@,
                )[n].amount == wv[n].coin.amount by {
                    if n < i as int {
                        assert(coins_view(coins@)[n] == coins_before[n]);
                    }
                }
            }
            i = i + 1;
        }
        proof {
            assert(wv.take(i as int) =~= wv);
        }
        let Ledger { entries, index } = work;
        self.entries = entries;
        self.index = index;
        Ok(coins)
    }


}


/// Each line of the deposits answer is one of the first `i` forward records,
/// owned by `ov`.
spec fn dep_lists(s: Seq<BalanceEntryV>, ov: Seq<char>, i: int, rv: Seq<JobInfoV>) -> bool {
    forall|n: int|
        #![trigger rv[n]]
        0 <= n < rv.len() ==> exists|a: int|
            0 <= a < i && #[trigger] s[a] == (BalanceEntryV {
                owner: ov,
                job_id: rv[n].job_id,
                denom: rv[n].coin.denom,
                amount: rv[n].coin.amount,
            })
}

/// Each of the first `i` forward records owned by `ov` appears in the answer.
spec fn dep_covers(s: Seq<BalanceEntryV>, ov: Seq<char>, i: int, rv: Seq<JobInfoV>) -> bool {
    forall|a: int|
        0 <= a < i && (#[trigger] s[a]).owner == ov ==> exists|n: int|
            0 <= n < rv.len() && (#[trigger] rv[n]).job_id == s[a].job_id && rv[n].coin.denom
                == s[a].denom
}

/// The answer is strictly ascending by `(job, denom)`.
spec fn dep_ordered(rv: Seq<JobInfoV>) -> bool {
    forall|n1: int, n2: int|
        0 <= n1 < n2 < rv.len() ==> pair_below(
            ((#[trigger] rv[n1]).job_id, rv[n1].coin.denom),
            ((#[trigger] rv[n2]).job_id, rv[n2].coin.denom),
        )
}

/// The running state of the deposits query after the first `i` records.
#[verifier::opaque]
spec fn deposits_inv(s: Seq<BalanceEntryV>, ov: Seq<char>, i: int, rv: Seq<JobInfoV>) -> bool {
    dep_lists(s, ov, i, rv) && dep_covers(s, ov, i, rv) && dep_ordered(rv)
}

proof fn lemma_dep_lists_push(
    s: Seq<BalanceEntryV>,
    ov: Seq<char>,
    i: int,
    rv_old: Seq<JobInfoV>,
    rv: Seq<JobInfoV>,
)
    requires
        0 <= i < s.len(),
        s[i].owner == ov,
        dep_lists(s, ov, i, rv_old),
        rv == rv_old.push(
            JobInfoV {
                coin: CoinV { denom: s[i].denom, amount: s[i].amount },
                job_id: s[i].job_id,
            },
        ),
    ensures
        dep_lists(s, ov, i + 1, rv),
{
    assert forall|n: int| #![trigger rv[n]] 0 <= n < rv.len() implies exists|a: int|
        0 <= a < i + 1 && #[trigger] s[a] == (BalanceEntryV {
            owner: ov,
            job_id: rv[n].job_id,
            denom: rv[n].coin.denom,
            amount: rv[n].coin.amount,
        }) by {
        if n < rv_old.len() {
            assert(rv[n] == rv_old[n]);
            let a = choose|a: int|
                0 <= a < i && #[trigger] s[a] == (BalanceEntryV {
                    owner: ov,
                    job_id: rv_old[n].job_id,
                    denom: rv_old[n].coin.denom,
                    amount: rv_old[n].coin.amount,
                });
            assert(s[a] == (BalanceEntryV {
                owner: ov,
                job_id: rv[n].job_id,
                denom: rv[n].coin.denom,
                amount: rv[n].coin.amount,
            }));
        } else {
            assert(s[i] == (BalanceEntryV {
                owner: ov,
                job_id: rv[n].job_id,
                denom: rv[n].coin.denom,
                amount: rv[n].coin.amount,
            }));
        }
    }
}

proof fn lemma_dep_covers_push(
    s: Seq<BalanceEntryV>,
    ov: Seq<char>,
    i: int,
    rv_old: Seq<JobInfoV>,
    rv: Seq<JobInfoV>,
)
    requires
        0 <= i < s.len(),
        s[i].owner == ov,
        dep_covers(s, ov, i, rv_old),
        rv == rv_old.push(
            JobInfoV {
                coin: CoinV { denom: s[i].denom, amount: s[i].amount },
                job_id: s[i].job_id,
            },
        ),
    ensures
        dep_covers(s, ov, i + 1, rv),
{
    assert forall|a: int| 0 <= a < i + 1 && (#[trigger] s[a]).owner == ov implies exists|n: int|
        0 <= n < rv.len() && (#[trigger] rv[n]).job_id == s[a].job_id && rv[n].coin.denom
            == s[a].denom by {
        if a < i {
            let n = choose|n: int|
                0 <= n < rv_old.len() && (#[trigger] rv_old[n]).job_id == s[a].job_id
                    && rv_old[n].coin.denom == s[a].denom;
            assert(rv[n].job_id == s[a].job_id && rv[n].coin.denom == s[a].denom);
        } else {
            assert(rv[rv.len() - 1].job_id == s[a].job_id && rv[rv.len() - 1].coin.denom
                == s[a].denom);
        }
    }
}

proof fn lemma_dep_ordered_push(
    s: Seq<BalanceEntryV>,
    ov: Seq<char>,
    i: int,
    rv_old: Seq<JobInfoV>,
    rv: Seq<JobInfoV>,
)
    requires
        entries_sorted(s),
        0 <= i < s.len(),
        s[i].owner == ov,
        dep_lists(s, ov, i, rv_old),
        dep_ordered(rv_old),
        rv == rv_old.push(
            JobInfoV {
                coin: CoinV { denom: s[i].denom, amount: s[i].amount },
                job_id: s[i].job_id,
            },
        ),
    ensures
        dep_ordered(rv),
{
    assert forall|n1: int, n2: int| 0 <= n1 < n2 < rv.len() implies pair_below(
        ((#[trigger] rv[n1]).job_id, rv[n1].coin.denom),
        ((#[trigger] rv[n2]).job_id, rv[n2].coin.denom),
    ) by {
        if n2 == rv.len() - 1 {
            assert(rv[n1] == rv_old[n1]);
            let a = choose|a: int|
                0 <= a < i && #[trigger] s[a] == (BalanceEntryV {
                    owner: ov,
                    job_id: rv_old[n1].job_id,
                    denom: rv_old[n1].coin.denom,
                    amount: rv_old[n1].coin.amount,
                });
            assert(triple_below(ekey(s[a]), ekey(s[i])));
            crate::bytesord::lemma_str_trichotomy(ov, ov);
        } else {
            assert(rv[n1] == rv_old[n1]);
            assert(rv[n2] == rv_old[n2]);
        }
    }
}

proof fn lemma_deposits_push(
    s: Seq<BalanceEntryV>,
    ov: Seq<char>,
    i: int,
    rv_old: Seq<JobInfoV>,
    rv: Seq<JobInfoV>,
)
    requires
        entries_sorted(s),
        0 <= i < s.len(),
        s[i].owner == ov,
        deposits_inv(s, ov, i, rv_old),
        rv == rv_old.push(
            JobInfoV {
                coin: CoinV { denom: s[i].denom, amount: s[i].amount },
                job_id: s[i].job_id,
            },
        ),
    ensures
        deposits_inv(s, ov, i + 1, rv),
{
    reveal(deposits_inv);
    lemma_dep_lists_push(s, ov, i, rv_old, rv);
    lemma_dep_covers_push(s, ov, i, rv_old, rv);
    lemma_dep_ordered_push(s, ov, i, rv_old, rv);
}

proof fn lemma_deposits_skip(s: Seq<BalanceEntryV>, ov: Seq<char>, i: int, rv: Seq<JobInfoV>)
    requires
        0 <= i < s.len(),
        s[i].owner != ov,
        deposits_inv(s, ov, i, rv),
    ensures
        deposits_inv(s, ov, i + 1, rv),
{
    reveal(deposits_inv);
    assert(dep_lists(s, ov, i + 1, rv)) by {
        assert forall|n: int| #![trigger rv[n]] 0 <= n < rv.len() implies exists|a: int|
            0 <= a < i + 1 && #[trigger] s[a] == (BalanceEntryV {
                owner: ov,
                job_id: rv[n].job_id,
                denom: rv[n].coin.denom,
                amount: rv[n].coin.amount,
            }) by {
            let a = choose|a: int|
                0 <= a < i && #[trigger] s[a] == (BalanceEntryV {
                    owner: ov,
                    job_id: rv[n].job_id,
                    denom: rv[n].coin.denom,
                    amount: rv[n].coin.amount,
                });
            assert(0 <= a < i + 1);
        }
    }
    assert(dep_covers(s, ov, i + 1, rv)) by {
        assert forall|a: int| 0 <= a < i + 1 && (#[trigger] s[a]).owner == ov implies exists|
            n: int,
        |
            0 <= n < rv.len() && (#[trigger] rv[n]).job_id == s[a].job_id && rv[n].coin.denom
                == s[a].denom by {
            assert(a < i);
            let n = choose|n: int|
                0 <= n < rv.len() && (#[trigger] rv[n]).job_id == s[a].job_id && rv[n].coin.denom
                    == s[a].denom;
        }
    }
}

/// What the completed deposits walk guarantees, in terms of the balance map.
proof fn lemma_deposits_post(s: Seq<BalanceEntryV>, ov: Seq<char>, rv: Seq<JobInfoV>)
    requires
        entries_sorted(s),
        deposits_inv(s, ov, s.len() as int, rv),
    ensures
        forall|n: int|
            0 <= n < rv.len() ==> #[trigger] map_of(s).dom().contains(
                (ov, rv[n].job_id, rv[n].coin.denom),
            ) && map_of(s)[(ov, rv[n].job_id, rv[n].coin.denom)] == rv[n].coin.amount,
        forall|k: (Seq<char>, Seq<char>, Seq<char>)|
            #[trigger] map_of(s).dom().contains(k) && k.0 == ov ==> exists|n: int|
                0 <= n < rv.len() && (#[trigger] rv[n]).job_id == k.1 && rv[n].coin.denom == k.2,
        forall|n1: int, n2: int|
            0 <= n1 < n2 < rv.len() ==> pair_below(
                ((#[trigger] rv[n1]).job_id, rv[n1].coin.denom),
                ((#[trigger] rv[n2]).job_id, rv[n2].coin.denom),
            ),
{
    reveal(deposits_inv);
    lemma_sorted_unique(s);
    lemma_map_of_props(s);
    assert forall|n: int| 0 <= n < rv.len() implies #[trigger] map_of(s).dom().contains(
        (ov, rv[n].job_id, rv[n].coin.denom),
    ) && map_of(s)[(ov, rv[n].job_id, rv[n].coin.denom)] == rv[n].coin.amount by {
        let a = choose|a: int|
            0 <= a < s.len() && #[trigger] s[a] == (BalanceEntryV {
                owner: ov,
                job_id: rv[n].job_id,
                denom: rv[n].coin.denom,
                amount: rv[n].coin.amount,
            });
        assert(ekey(s[a]) == (ov, rv[n].job_id, rv[n].coin.denom));
        assert(has_ekey(s, ekey(s[a])));
    }
    assert forall|k: (Seq<char>, Seq<char>, Seq<char>)|
        #[trigger] map_of(s).dom().contains(k) && k.0 == ov implies exists|n: int|
        0 <= n < rv.len() && (#[trigger] rv[n]).job_id == k.1 && rv[n].coin.denom == k.2 by {
        assert(has_ekey(s, k));
        let a = choose|a: int| 0 <= a < s.len() && ekey(#[trigger] s[a]) == k;
        assert(s[a].owner == ov);
        let n = choose|n: int|
            0 <= n < rv.len() && (#[trigger] rv[n]).job_id == s[a].job_id && rv[n].coin.denom
                == s[a].denom;
    }
}

/// The balance map holds some record under this job and denomination.
pub open spec fn job_has_denom(
    m: Map<(Seq<char>, Seq<char>, Seq<char>), u128>,
    j: Seq<char>,
    d: Seq<char>,
) -> bool {
    exists|k: (Seq<char>, Seq<char>, Seq<char>)|
        #[trigger] m.dom().contains(k) && k.1 == j && k.2 == d
}

/// Some line of the answer carries this denomination.
pub open spec fn answer_has_denom(rv: Seq<CoinV>, d: Seq<char>) -> bool {
    exists|n: int| 0 <= n < rv.len() && (#[trigger] rv[n]).denom == d
}

/// What the deposits query answers for one owner: every line is a stored
/// record of that owner with its exact balance, every record of that owner
/// has a line, and the lines ascend strictly by `(job, denom)`.
pub open spec fn deposits_answer(l: Ledger, owner: Seq<char>, rv: Seq<JobInfoV>) -> bool {
    &&& forall|n: int|
        #![trigger rv[n]]
        0 <= n < rv.len() ==> l.balances().dom().contains((owner, rv[n].job_id, rv[n].coin.denom))
            && l.balances()[(owner, rv[n].job_id, rv[n].coin.denom)] == rv[n].coin.amount
    &&& forall|k: (Seq<char>, Seq<char>, Seq<char>)|
        #[trigger] l.balances().dom().contains(k) && k.0 == owner ==> exists|n: int|
            0 <= n < rv.len() && (#[trigger] rv[n]).job_id == k.1 && rv[n].coin.denom == k.2
    &&& forall|n1: int, n2: int|
        0 <= n1 < n2 < rv.len() ==> pair_below(
            ((#[trigger] rv[n1]).job_id, rv[n1].coin.denom),
            ((#[trigger] rv[n2]).job_id, rv[n2].coin.denom),
        )
}

/// What the job-balance query answers: one line per denomination held under
/// the job, each with the total over all owners, and nothing else.
pub open spec fn balances_answer(l: Ledger, job: Seq<char>, rv: Seq<CoinV>) -> bool {
    &&& forall|n1: int, n2: int|
        0 <= n1 < n2 < rv.len() ==> (#[trigger] rv[n1]).denom != (#[trigger] rv[n2]).denom
    &&& forall|n: int|
        #![trigger rv[n]]
        0 <= n < rv.len() ==> rv[n].amount as int == job_denom_total(
            l.entries_seq(),
            job,
            rv[n].denom,
        )
    &&& forall|n: int|
        0 <= n < rv.len() ==> job_has_denom(l.balances(), job, (#[trigger] rv[n]).denom)
    &&& forall|k: (Seq<char>, Seq<char>, Seq<char>)|
        #[trigger] l.balances().dom().contains(k) && k.1 == job ==> answer_has_denom(rv, k.2)
}

/// Some denomination total for the job would overflow an unsigned 128-bit
/// integer.
pub open spec fn job_total_overflows(l: Ledger, job: Seq<char>) -> bool {
    exists|k: (Seq<char>, Seq<char>, Seq<char>)|
        #[trigger] l.balances().dom().contains(k) && k.1 == job && job_denom_total(
            l.entries_seq(),
            job,
            k.2,
        ) > u128::MAX
}

/// Each line of the job-balance answer holds the partial total over the
/// first `t` reverse records for its denomination.
spec fn bal_amounts(
    ix: Seq<RevKeyV>,
    m: Map<(Seq<char>, Seq<char>, Seq<char>), u128>,
    jv: Seq<char>,
    t: int,
    rv: Seq<CoinV>,
) -> bool {
    forall|n: int|
        #![trigger rv[n]]
        0 <= n < rv.len() ==> rv[n].amount as int == wsum(ix.take(t), ix_w(m, jv, rv[n].denom))
}

/// No two lines of the answer share a denomination.
spec fn bal_distinct(rv: Seq<CoinV>) -> bool {
    forall|n1: int, n2: int|
        0 <= n1 < n2 < rv.len() ==> (#[trigger] rv[n1]).denom != (#[trigger] rv[n2]).denom
}

/// The ghost bookkeeping that links the answer lines to the reverse
/// records: `wits[n]` is a processed reverse record that introduced line
/// `n`'s denomination, and `cov` maps each answer denomination to its line.
spec fn bal_linked(
    ix: Seq<RevKeyV>,
    jv: Seq<char>,
    t: int,
    rv: Seq<CoinV>,
    wits: Seq<int>,
    cov: Map<Seq<char>, int>,
) -> bool {
    &&& wits.len() == rv.len()
    &&& forall|n: int|
        0 <= n < rv.len() ==> 0 <= #[trigger] wits[n] < t && ix[wits[n]].job_id == jv
            && ix[wits[n]].denom == rv[n].denom
    &&& forall|n: int|
        0 <= n < rv.len() ==> cov.dom().contains((#[trigger] rv[n]).denom) && cov[rv[n].denom]
            == n
    &&& forall|a: int|
        0 <= a < t && (#[trigger] ix[a]).job_id == jv ==> cov.dom().contains(ix[a].denom) && 0
            <= cov[ix[a].denom] < rv.len() && rv[cov[ix[a].denom]].denom == ix[a].denom
}

/// The running state of the job-balance query after the first `t` reverse
/// records.
#[verifier::opaque]
spec fn balances_inv(
    ix: Seq<RevKeyV>,
    m: Map<(Seq<char>, Seq<char>, Seq<char>), u128>,
    jv: Seq<char>,
    t: int,
    rv: Seq<CoinV>,
    wits: Seq<int>,
    cov: Map<Seq<char>, int>,
) -> bool {
    bal_amounts(ix, m, jv, t, rv) && bal_distinct(rv) && bal_linked(ix, jv, t, rv, wits, cov)
}

proof fn lemma_balances_skip(
    ix: Seq<RevKeyV>,
    m: Map<(Seq<char>, Seq<char>, Seq<char>), u128>,
    jv: Seq<char>,
    t: int,
    rv: Seq<CoinV>,
    wits: Seq<int>,
    cov: Map<Seq<char>, int>,
)
    requires
        0 <= t < ix.len(),
        ix[t].job_id != jv,
        balances_inv(ix, m, jv, t, rv, wits, cov),
    ensures
        balances_inv(ix, m, jv, t + 1, rv, wits, cov),
{
    reveal(balances_inv);
    assert(bal_amounts(ix, m, jv, t + 1, rv)) by {
        assert forall|n: int| #![trigger rv[n]] 0 <= n < rv.len() implies rv[n].amount as int
            == wsum(ix.take(t + 1), ix_w(m, jv, rv[n].denom)) by {
            lemma_wsum_take_step(ix, ix_w(m, jv, rv[n].denom), t);
            assert(ix_w(m, jv, rv[n].denom)(ix[t]) == 0);
        }
    }
}

proof fn lemma_balances_update(
    ix: Seq<RevKeyV>,
    m: Map<(Seq<char>, Seq<char>, Seq<char>), u128>,
    jv: Seq<char>,
    t: int,
    rv_old: Seq<CoinV>,
    rv: Seq<CoinV>,
    pos: int,
    total: u128,
    wits: Seq<int>,
    cov: Map<Seq<char>, int>,
)
    requires
        0 <= t < ix.len(),
        ix[t].job_id == jv,
        balances_inv(ix, m, jv, t, rv_old, wits, cov),
        0 <= pos < rv_old.len(),
        rv_old[pos].denom == ix[t].denom,
        total as int == rv_old[pos].amount as int + ix_w(m, jv, ix[t].denom)(ix[t]),
        rv == rv_old.update(pos, CoinV { denom: rv_old[pos].denom, amount: total }),
    ensures
        balances_inv(ix, m, jv, t + 1, rv, wits, cov),
{
    reveal(balances_inv);
    assert(bal_amounts(ix, m, jv, t + 1, rv)) by {
        assert forall|n: int| #![trigger rv[n]] 0 <= n < rv.len() implies rv[n].amount as int
            == wsum(ix.take(t + 1), ix_w(m, jv, rv[n].denom)) by {
            lemma_wsum_take_step(ix, ix_w(m, jv, rv[n].denom), t);
            if n != pos {
                assert(rv[n] == rv_old[n]);
                assert(ix_w(m, jv, rv[n].denom)(ix[t]) == 0);
            } else {
                assert(rv[n].denom == rv_old[pos].denom);
            }
        }
    }
    assert(bal_distinct(rv)) by {
        assert forall|n1: int, n2: int| 0 <= n1 < n2 < rv.len() implies (
        #[trigger] rv[n1]).denom != (#[trigger] rv[n2]).denom by {
            assert(rv[n1].denom == rv_old[n1].denom);
            assert(rv[n2].denom == rv_old[n2].denom);
        }
    }
    assert(bal_linked(ix, jv, t + 1, rv, wits, cov)) by {
        assert forall|n: int| 0 <= n < rv.len() implies 0 <= #[trigger] wits[n] < t + 1
            && ix[wits[n]].job_id == jv && ix[wits[n]].denom == rv[n].denom by {
            assert(rv[n].denom == rv_old[n].denom);
        }
        assert forall|n: int| 0 <= n < rv.len() implies cov.dom().contains(
            (#[trigger] rv[n]).denom,
        ) && cov[rv[n].denom] == n by {
            assert(rv[n].denom == rv_old[n].denom);
        }
        assert forall|a: int| 0 <= a < t + 1 && (#[trigger] ix[a]).job_id == jv implies
            cov.dom().contains(ix[a].denom) && 0 <= cov[ix[a].denom] < rv.len()
                && rv[cov[ix[a].denom]].denom == ix[a].denom by {
            if a < t {
                assert(rv[cov[ix[a].denom]].denom == rv_old[cov[ix[a].denom]].denom);
            } else {
                assert(ix[a].denom == rv_old[pos].denom);
                assert(cov.dom().contains(rv_old[pos].denom) && cov[rv_old[pos].denom] == pos);
                assert(rv[pos].denom == ix[a].denom);
            }
        }
    }
}

proof fn lemma_balances_push(
    ix: Seq<RevKeyV>,
    m: Map<(Seq<char>, Seq<char>, Seq<char>), u128>,
    jv: Seq<char>,
    t: int,
    rv_old: Seq<CoinV>,
    rv: Seq<CoinV>,
    amt: u128,
    wits_old: Seq<int>,
    wits: Seq<int>,
    cov_old: Map<Seq<char>, int>,
    cov: Map<Seq<char>, int>,
)
    requires
        0 <= t < ix.len(),
        ix[t].job_id == jv,
        balances_inv(ix, m, jv, t, rv_old, wits_old, cov_old),
        forall|q: int| 0 <= q < rv_old.len() ==> (#[trigger] rv_old[q]).denom != ix[t].denom,
        amt as int == ix_w(m, jv, ix[t].denom)(ix[t]),
        rv == rv_old.push(CoinV { denom: ix[t].denom, amount: amt }),
        wits == wits_old.push(t),
        cov == cov_old.insert(ix[t].denom, rv_old.len() as int),
    ensures
        balances_inv(ix, m, jv, t + 1, rv, wits, cov),
{
    reveal(balances_inv);
    let d = ix[t].denom;
    assert(wsum(ix.take(t), ix_w(m, jv, d)) == 0) by {
        assert forall|a: int| 0 <= a < ix.take(t).len() implies ix_w(m, jv, d)(
            #[trigger] ix.take(t)[a],
        ) == 0 by {
            assert(ix.take(t)[a] == ix[a]);
            if ix[a].job_id == jv && ix[a].denom == d {
                assert(rv_old[cov_old[ix[a].denom]].denom == ix[a].denom);
                assert(false);
            }
        }
        crate::seqsum::lemma_wsum_zero(ix.take(t), ix_w(m, jv, d));
    }
    assert(bal_amounts(ix, m, jv, t + 1, rv)) by {
        assert forall|n: int| #![trigger rv[n]] 0 <= n < rv.len() implies rv[n].amount as int
            == wsum(ix.take(t + 1), ix_w(m, jv, rv[n].denom)) by {
            lemma_wsum_take_step(ix, ix_w(m, jv, rv[n].denom), t);
            if n < rv_old.len() {
                assert(rv[n] == rv_old[n]);
                assert(ix_w(m, jv, rv[n].denom)(ix[t]) == 0);
            } else {
                assert(rv[n].denom == d);
            }
        }
    }
    assert(bal_distinct(rv)) by {
        assert forall|n1: int, n2: int| 0 <= n1 < n2 < rv.len() implies (
        #[trigger] rv[n1]).denom != (#[trigger] rv[n2]).denom by {
            if n2 == rv.len() - 1 {
                assert(rv[n1] == rv_old[n1]);
            } else {
                assert(rv[n1] == rv_old[n1]);
                assert(rv[n2] == rv_old[n2]);
            }
        }
    }
    assert(bal_linked(ix, jv, t + 1, rv, wits, cov)) by {
        assert forall|n: int| 0 <= n < rv.len() implies 0 <= #[trigger] wits[n] < t + 1
            && ix[wits[n]].job_id == jv && ix[wits[n]].denom == rv[n].denom by {
            if n < rv_old.len() {
                assert(wits[n] == wits_old[n]);
                assert(rv[n] == rv_old[n]);
            } else {
                assert(wits[n] == t);
                assert(rv[n].denom == d);
            }
        }
        assert forall|n: int| 0 <= n < rv.len() implies cov.dom().contains(
            (#[trigger] rv[n]).denom,
        ) && cov[rv[n].denom] == n by {
            if n < rv_old.len() {
                assert(rv[n] == rv_old[n]);
                assert(rv_old[n].denom != d);
                assert(cov_old.dom().contains(rv_old[n].denom) && cov_old[rv_old[n].denom] == n);
            } else {
                assert(rv[n].denom == d);
            }
        }
        assert forall|a: int| 0 <= a < t + 1 && (#[trigger] ix[a]).job_id == jv implies
            cov.dom().contains(ix[a].denom) && 0 <= cov[ix[a].denom] < rv.len()
                && rv[cov[ix[a].denom]].denom == ix[a].denom by {
            if a < t {
                if ix[a].denom == d {
                    assert(rv_old[cov_old[ix[a].denom]].denom == ix[a].denom);
                    assert(false);
                } else {
                    assert(cov[ix[a].denom] == cov_old[ix[a].denom]);
                    assert(rv[cov_old[ix[a].denom]] == rv_old[cov_old[ix[a].denom]]);
                }
            } else {
                assert(cov[d] == rv_old.len() as int);
                assert(rv[rv_old.len() as int].denom == d);
            }
        }
    }
}

/// What the completed job-balance walk guarantees.
proof fn lemma_balances_post(
    s: Seq<BalanceEntryV>,
    ix: Seq<RevKeyV>,
    jv: Seq<char>,
    rv: Seq<CoinV>,
    wits: Seq<int>,
    cov: Map<Seq<char>, int>,
)
    requires
        entries_sorted(s),
        index_sorted(ix),
        forall|x: (Seq<char>, Seq<char>, Seq<char>)| #[trigger] has_ekey(s, x) == has_ikey(
            ix,
            flip(x),
        ),
        balances_inv(ix, map_of(s), jv, ix.len() as int, rv, wits, cov),
    ensures
        forall|n1: int, n2: int|
            0 <= n1 < n2 < rv.len() ==> (#[trigger] rv[n1]).denom != (#[trigger] rv[n2]).denom,
        forall|n: int|
            0 <= n < rv.len() ==> (#[trigger] rv[n]).amount as int == job_denom_total(
                s,
                jv,
                rv[n].denom,
            ),
        forall|n: int|
            0 <= n < rv.len() ==> job_has_denom(map_of(s), jv, (#[trigger] rv[n]).denom),
        forall|k: (Seq<char>, Seq<char>, Seq<char>)|
            #[trigger] map_of(s).dom().contains(k) && k.1 == jv ==> answer_has_denom(rv, k.2),
        !(exists|k: (Seq<char>, Seq<char>, Seq<char>)|
            #[trigger] map_of(s).dom().contains(k) && k.1 == jv && job_denom_total(s, jv, k.2)
                > u128::MAX),
{
    reveal(balances_inv);
    lemma_sorted_unique(s);
    lemma_map_of_props(s);
    let m = map_of(s);
    assert(ix.take(ix.len() as int) =~= ix);
    assert forall|n: int| 0 <= n < rv.len() implies (#[trigger] rv[n]).amount as int
        == job_denom_total(s, jv, rv[n].denom) by {
        lemma_index_entry_sum(s, ix, jv, rv[n].denom);
    }
    assert forall|n: int| 0 <= n < rv.len() implies job_has_denom(
        map_of(s),
        jv,
        (#[trigger] rv[n]).denom,
    ) by {
        let a = wits[n];
        assert(ix[a].job_id == jv && ix[a].denom == rv[n].denom);
        assert(has_ikey(ix, ikey(ix[a])));
        assert(flip(flip(ikey(ix[a]))) == ikey(ix[a]));
        assert(has_ekey(s, flip(ikey(ix[a]))));
        assert(map_of(s).dom().contains(flip(ikey(ix[a]))));
        assert(flip(ikey(ix[a])).1 == jv && flip(ikey(ix[a])).2 == rv[n].denom);
    }
    assert forall|k: (Seq<char>, Seq<char>, Seq<char>)|
        #[trigger] map_of(s).dom().contains(k) && k.1 == jv implies answer_has_denom(rv, k.2) by {
        assert(has_ekey(s, k));
        assert(has_ikey(ix, flip(k)));
        let a = choose|a: int| 0 <= a < ix.len() && ikey(#[trigger] ix[a]) == flip(k);
        assert(ix[a].job_id == jv && ix[a].denom == k.2);
        let n = cov[ix[a].denom];
        assert(0 <= n < rv.len() && rv[n].denom == ix[a].denom);
    }
    assert(!(exists|k: (Seq<char>, Seq<char>, Seq<char>)|
        #[trigger] m.dom().contains(k) && k.1 == jv && job_denom_total(s, jv, k.2)
            > u128::MAX)) by {
        if exists|k: (Seq<char>, Seq<char>, Seq<char>)|
            #[trigger] m.dom().contains(k) && k.1 == jv && job_denom_total(s, jv, k.2)
                > u128::MAX {
            let k = choose|k: (Seq<char>, Seq<char>, Seq<char>)|
                #[trigger] m.dom().contains(k) && k.1 == jv && job_denom_total(s, jv, k.2)
                    > u128::MAX;
            assert(answer_has_denom(rv, k.2));
            let n = choose|n: int| 0 <= n < rv.len() && (#[trigger] rv[n]).denom == k.2;
            assert(rv[n].amount as int == job_denom_total(s, jv, k.2));
            assert(false);
        }
    }
}

impl Ledger {
    /// The coins deposited by one owner, one line per `(job, denom)` pair,
    /// ascending by job id and then denomination.
    pub fn deposits_of(&self, owner: &str) -> (r: Vec<JobInfo>)
        requires
            self.wf(),
        ensures
            deposits_answer(*self, owner@, jobinfos_view(r@)),
    {
        let ghost s = self.entries_seq();
        let ghost ov = owner@;
        let mut r: Vec<JobInfo> = Vec::new();
        let mut i: usize = 0;
        proof {
            reveal(deposits_inv);
        }
        while i < self.entries.len()
            invariant
                i <= s.len(),
                s == self.entries_seq(),
                s.len() == self.entries@.len(),
                entries_sorted(s),
                ov == owner@,
                deposits_inv(s, ov, i as int, jobinfos_view(r@)),
            decreases s.len() - i,
        {
            let e = &self.entries[i];
            proof {
                assert(s[i as int] == e@);
            }
            let is_owner = match cmp_str(e.owner.as_str(), owner) {
                Rel::Equal => true,
                _ => false,
            };
            if is_owner {
                let ghost rv_old = jobinfos_view(r@);
                r.push(
                    JobInfo {
                        coin: Coin { denom: e.denom.clone(), amount: e.amount },
                        job_id: JobId(e.job_id.clone()),
                    },
                );
                proof {
                    assert(jobinfos_view(r@) =~= rv_old.push(
                        JobInfoV {
                            coin: CoinV { denom: e@.denom, amount: e@.amount },
                            job_id: e@.job_id,
                        },
                    ));
                    lemma_deposits_push(s, ov, i as int, rv_old, jobinfos_view(r@));
                }
            } else {
                proof {
                    lemma_deposits_skip(s, ov, i as int, jobinfos_view(r@));
                }
            }
            i = i + 1;
        }
        proof {
            lemma_deposits_post(s, ov, jobinfos_view(r@));
            assert(self.balances() == map_of(s));
            assert(deposits_answer(*self, owner@, jobinfos_view(r@)));
        }
        r
    }

    /// The aggregate balance held for a job, one line per denomination,
    /// summed across all owners by walking the reverse index. The order of
    /// the lines is not specified.
    pub fn balances_of(&self, job_id: &JobId) -> (r: Result<Vec<Coin>, ContractError>)
        requires
            self.wf(),
        ensures
            r matches Ok(coins) ==> balances_answer(*self, job_id@, coins_view(coins@)),
            (r is Err) == job_total_overflows(*self, job_id@),
            r matches Err(e) ==> e == ContractError::ArithmeticOverflow,
    {
        let ghost s = self.entries_seq();
        let ghost ix = self.index_seq();
        let ghost jv = job_id@;
        let ghost m0 = self.balances();
        let mut r: Vec<Coin> = Vec::new();
        let mut t: usize = 0;
        let ghost mut wits: Seq<int> = Seq::empty();
        let ghost mut cov: Map<Seq<char>, int> = Map::empty();
        proof {
            reveal(balances_inv);
        }
        while t < self.index.len()
            invariant
                t <= ix.len(),
                s == self.entries_seq(),
                ix == self.index_seq(),
                ix.len() == self.index@.len(),
                jv == job_id@,
                m0 == self.balances(),
                self.wf(),
                balances_inv(ix, m0, jv, t as int, coins_view(r@), wits, cov),
            decreases ix.len() - t,
        {
            let rk = &self.index[t];
            proof {
                assert(ix[t as int] == rk@);
            }
            let job_matches = match cmp_str(rk.job_id.as_str(), job_id.0.as_str()) {
                Rel::Equal => true,
                _ => false,
            };
            if job_matches {
                proof {
                    lemma_sorted_unique(s);
                    lemma_map_of_props(s);
                    assert(has_ikey(ix, ikey(ix[t as int])));
                    assert(flip(flip(ikey(ix[t as int]))) == ikey(ix[t as int]));
                    assert(has_ekey(s, flip(ikey(ix[t as int]))));
                }
                let amount: u128 = match entry_pos(
                    &self.entries,
                    rk.owner.as_str(),
                    rk.job_id.as_str(),
                    rk.denom.as_str(),
                ) {
                    Ok(idx) => {
                        proof {
                            assert(ekey(s[idx as int]) == flip(ikey(ix[t as int])));
                            assert(m0.dom().contains(ekey(s[idx as int])));
                            assert(m0[ekey(s[idx as int])] == s[idx as int].amount);
                        }
                        self.entries[idx].amount
                    },
                    Err(_) => {
                        proof {
                            assert(false);
                        }
                        0u128
                    },
                };
                proof {
                    assert(amount as int == ix_w(m0, jv, rk@.denom)(ix[t as int]));
                }
                match find_denom(&r, rk.denom.as_str()) {
                    Some(pos) => {
                        let ghost rv_old = coins_view(r@);
                        let cur = r[pos].amount;
                        match cur.checked_add(amount) {
                            None => {
                                proof {
                                    reveal(balances_inv);
                                    assert forall|a: int| 0 <= a < ix.len() implies ix_w(
                                        m0,
                                        jv,
                                        rk@.denom,
                                    )(#[trigger] ix[a]) >= 0 by {}
                                    lemma_wsum_take_step(ix, ix_w(m0, jv, rk@.denom), t as int);
                                    lemma_wsum_prefix_bound(
                                        ix,
                                        ix_w(m0, jv, rk@.denom),
                                        t as int + 1,
                                    );
                                    lemma_index_entry_sum(s, ix, jv, rk@.denom);
                                    assert(job_denom_total(s, jv, rk@.denom) > u128::MAX);
                                    assert(m0.dom().contains(flip(ikey(ix[t as int]))));
                                    assert(self.balances().dom().contains(
                                        flip(ikey(ix[t as int])),
                                    ) && flip(ikey(ix[t as int])).1 == job_id@
                                        && job_denom_total(
                                        self.entries_seq(),
                                        job_id@,
                                        flip(ikey(ix[t as int])).2,
                                    ) > u128::MAX);
                                    assert(job_total_overflows(*self, job_id@));
                                }
                                return Err(ContractError::ArithmeticOverflow);
                            },
                            Some(total) => {
                                let updated = Coin { denom: r[pos].denom.clone(), amount: total };
                                proof {
                                    assert(updated@.denom == rv_old[pos as int].denom);
                                }
                                r.set(pos, updated);
                                proof {
                                    assert(coins_view(r@) =~= rv_old.update(
                                        pos as int,
                                        CoinV { denom: rv_old[pos as int].denom, amount: total },
                                    ));
                                    lemma_balances_update(
                                        ix,
                                        m0,
                                        jv,
                                        t as int,
                                        rv_old,
                                        coins_view(r@),
                                        pos as int,
                                        total,
                                        wits,
                                        cov,
                                    );
                                }
                            },
                        }
                    },
                    None => {
                        let ghost rv_old = coins_view(r@);
                        r.push(Coin { denom: rk.denom.clone(), amount });
                        proof {
                            assert(coins_view(r@) =~= rv_old.push(
                                CoinV { denom: rk@.denom, amount },
                            ));
                            let wits_old = wits;
                            let cov_old = cov;
                            wits = wits.push(t as int);
                            cov = cov.insert(rk@.denom, rv_old.len() as int);
                            lemma_balances_push(
                                ix,
                                m0,
                                jv,
                                t as int,
                                rv_old,
                                coins_view(r@),
                                amount,
                                wits_old,
                                wits,
                                cov_old,
                                cov,
                            );
                        }
                    },
                }
            } else {
                proof {
                    assert(rk@.job_id != jv);
                    lemma_balances_skip(ix, m0, jv, t as int, coins_view(r@), wits, cov);
                }
            }
            t = t + 1;
        }
        proof {
            lemma_balances_post(s, ix, jv, coins_view(r@), wits, cov);
            assert(self.balances() == map_of(s));
            assert(self.entries_seq() == s);
            let rv = coins_view(r@);
            assert(forall|n: int|
                #![trigger rv[n]]
                0 <= n < rv.len() ==> rv[n].amount as int == job_denom_total(
                    self.entries_seq(),
                    job_id@,
                    rv[n].denom,
                ));
            assert(forall|n: int|
                0 <= n < rv.len() ==> job_has_denom(
                    self.balances(),
                    job_id@,
                    (#[trigger] rv[n]).denom,
                ));
            assert forall|k: (Seq<char>, Seq<char>, Seq<char>)|
                #[trigger] self.balances().dom().contains(k) && k.1 == job_id@ implies
                answer_has_denom(rv, k.2) by {
                assert(map_of(s).dom().contains(k) && k.1 == jv);
            }
            assert(balances_answer(*self, job_id@, rv));
            assert(!job_total_overflows(*self, job_id@)) by {
                if job_total_overflows(*self, job_id@) {
                    let k = choose|k: (Seq<char>, Seq<char>, Seq<char>)|
                        #[trigger] self.balances().dom().contains(k) && k.1 == job_id@
                            && job_denom_total(self.entries_seq(), job_id@, k.2) > u128::MAX;
                    assert(map_of(s).dom().contains(k) && k.1 == jv && job_denom_total(
                        s,
                        jv,
                        k.2,
                    ) > u128::MAX);
                }
            }
        }
        Ok(r)
    }
}

} // verus!
