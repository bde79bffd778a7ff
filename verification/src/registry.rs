use crate::bytesord::{
    bytes_lt, cmp_bytes, cmp_str, lemma_bytes_lt_trans, lemma_bytes_trichotomy,
    lemma_str_below_trans, lemma_str_trichotomy, str_below, Rel,
};
use crate::error::ContractError;
use crate::msg::{Validator, ValidatorV};
use crate::seqsum::{
    lemma_insert_multiset, lemma_wsum_permutation, lemma_wsum_prefix_bound, lemma_wsum_take_step,
    wsum,
};
use crate::validation::{PubKey, ValKey, ValKeyV};
use vstd::prelude::*;

verus! {

/// The abstract value of a stored validator sequence.
pub open spec fn vals_view(s: Seq<ValKey>) -> Seq<ValKeyV> {
    s.map_values(|v: ValKey| v@)
}

/// The abstract value of a validator-set request.
pub open spec fn valset_view(s: Seq<Validator>) -> Seq<ValidatorV> {
    s.map_values(|v: Validator| v@)
}

/// The stored entry each requested validator turns into.
pub open spec fn valset_keys(s: Seq<ValidatorV>) -> Seq<ValKeyV> {
    s.map_values(|v: ValidatorV| ValKeyV { pubkey: v.public_key, stake: v.stake })
}

/// Validators are kept sorted ascending by public key. Duplicate keys are not
/// rejected, so the order is non-strict.
pub open spec fn vals_sorted(s: Seq<ValKeyV>) -> bool {
    forall|i: int, j: int| 0 <= i < j < s.len() ==> !bytes_lt(s[j].pubkey, s[i].pubkey)
}

/// No two stored validators share a public key.
pub open spec fn vals_unique(s: Seq<ValKeyV>) -> bool {
    forall|i: int, j: int| 0 <= i < j < s.len() ==> s[i].pubkey != s[j].pubkey
}

/// Some stored validator has this public key.
pub open spec fn has_pubkey(s: Seq<ValKeyV>, pk: Seq<u8>) -> bool {
    exists|i: int| 0 <= i < s.len() && s[i].pubkey == pk
}

/// The stake behind a public key, zero for an unknown key. When the key is
/// held by several stored entries, one of their stakes.
pub open spec fn stake_of(s: Seq<ValKeyV>, pk: Seq<u8>) -> u128 {
    if has_pubkey(s, pk) {
        let i = choose|i: int| 0 <= i < s.len() && s[i].pubkey == pk;
        s[i].stake
    } else {
        0
    }
}

/// The weight a validator entry contributes to the total stake.
pub open spec fn stake_w() -> spec_fn(ValKeyV) -> int {
    |v: ValKeyV| v.stake as int
}

/// The total stake of a validator sequence.
pub open spec fn sum_stakes(s: Seq<ValKeyV>) -> int {
    wsum(s, stake_w())
}

/// Trusted addresses are kept sorted strictly ascending, so the sequence is
/// duplicate-free.
pub open spec fn addrs_sorted(s: Seq<Seq<char>>) -> bool {
    forall|i: int, j: int| 0 <= i < j < s.len() ==> str_below(s[i], s[j])
}

/// The address occurs in the trusted sequence.
pub open spec fn addr_listed(s: Seq<Seq<char>>, a: Seq<char>) -> bool {
    exists|i: int| 0 <= i < s.len() && s[i] == a
}

/// Every address named anywhere in a validator-set request.
pub open spec fn valset_addrs(vs: Seq<ValidatorV>) -> Set<Seq<char>> {
    Set::new(
        |a: Seq<char>|
            exists|i: int, j: int|
                0 <= i < vs.len() && 0 <= j < vs[i].address.len() && vs[i].address[j] == a,
    )
}

/// Binary search for the stake behind a public key.
///
/// With a duplicate-free validator set the answer is exactly `stake_of`; with
/// duplicate keys it is the stake of one matching entry.
pub fn find_stake(validators: &Vec<ValKey>, pk: &PubKey) -> (r: Option<u128>)
    requires
        vals_sorted(vals_view(validators@)),
    ensures
        match r {
            Some(w) => exists|i: int|
                0 <= i < vals_view(validators@).len() && vals_view(validators@)[i].pubkey == pk@
                    && vals_view(validators@)[i].stake == w,
            None => !has_pubkey(vals_view(validators@), pk@),
        },
        vals_unique(vals_view(validators@)) && has_pubkey(vals_view(validators@), pk@) ==> r
            == Some(stake_of(vals_view(validators@), pk@)),
{
    let ghost s = vals_view(validators@);
    let mut lo: usize = 0;
    let mut hi: usize = validators.len();
    while lo < hi
        invariant
            lo <= hi <= s.len(),
            s == vals_view(validators@),
            s.len() == validators@.len(),
            vals_sorted(s),
            forall|i: int| 0 <= i < lo ==> bytes_lt(#[trigger] s[i].pubkey, pk@),
            forall|i: int| hi <= i < s.len() ==> bytes_lt(pk@, #[trigger] s[i].pubkey),
        decreases hi - lo,
    {
        let mid = lo + (hi - lo) / 2;
        let v = &validators[mid];
        match cmp_bytes(v.pubkey.0.as_slice(), pk.0.as_slice()) {
            Rel::Equal => {
                proof {
                    assert(s[mid as int].pubkey == pk@);
                    if vals_unique(s) {
                        let i0 = choose|i: int| 0 <= i < s.len() && s[i].pubkey == pk@;
                        assert(i0 == mid as int);
                    }
                }
                return Some(v.stake);
            },
            Rel::Below => {
                proof {
                    assert forall|i: int| 0 <= i <= mid implies bytes_lt(
                        #[trigger] s[i].pubkey,
                        pk@,
                    ) by {
                        lemma_bytes_trichotomy(s[i].pubkey, s[mid as int].pubkey);
                        if bytes_lt(s[i].pubkey, s[mid as int].pubkey) {
                            lemma_bytes_lt_trans(s[i].pubkey, s[mid as int].pubkey, pk@);
                        }
                    }
                }
                lo = mid + 1;
            },
            Rel::Above => {
                proof {
                    assert forall|i: int| mid <= i < s.len() implies bytes_lt(
                        pk@,
                        #[trigger] s[i].pubkey,
                    ) by {
                        lemma_bytes_trichotomy(s[mid as int].pubkey, s[i].pubkey);
                        if bytes_lt(s[mid as int].pubkey, s[i].pubkey) {
                            lemma_bytes_lt_trans(pk@, s[mid as int].pubkey, s[i].pubkey);
                        }
                    }
                }
                hi = mid;
            },
        }
    }
    proof {
        assert forall|i: int| 0 <= i < s.len() implies s[i].pubkey != pk@ by {
            lemma_bytes_trichotomy(s[i].pubkey, pk@);
        }
    }
    None
}

/// Binary search over the sorted trusted-address list.
pub fn addr_is_trusted(trusted: &Vec<String>, address: &str) -> (r: bool)
    requires
        addrs_sorted(trusted.deep_view()),
    ensures
        r == addr_listed(trusted.deep_view(), address@),
{
    let ghost s = trusted.deep_view();
    let mut lo: usize = 0;
    let mut hi: usize = trusted.len();
    while lo < hi
        invariant
            lo <= hi <= s.len(),
            s == trusted.deep_view(),
            s.len() == trusted@.len(),
            addrs_sorted(s),
            forall|i: int| 0 <= i < lo ==> str_below(#[trigger] s[i], address@),
            forall|i: int| hi <= i < s.len() ==> str_below(address@, #[trigger] s[i]),
        decreases hi - lo,
    {
        let mid = lo + (hi - lo) / 2;
        let a = &trusted[mid];
        proof {
            assert(s[mid as int] == a@);
        }
        match cmp_str(a.as_str(), address) {
            Rel::Equal => {
                proof {
                    assert(s[mid as int] == address@);
                }
                return true;
            },
            Rel::Below => {
                proof {
                    assert forall|i: int| 0 <= i <= mid implies str_below(
                        #[trigger] s[i],
                        address@,
                    ) by {
                        if i < mid {
                            lemma_str_below_trans(s[i], s[mid as int], address@);
                        }
                    }
                }
                lo = mid + 1;
            },
            Rel::Above => {
                proof {
                    assert forall|i: int| mid <= i < s.len() implies str_below(
                        address@,
                        #[trigger] s[i],
                    ) by {
                        if mid < i {
                            lemma_str_below_trans(address@, s[mid as int], s[i]);
                        }
                    }
                }
                hi = mid;
            },
        }
    }
    proof {
        assert forall|i: int| 0 <= i < s.len() implies s[i] != address@ by {
            lemma_str_trichotomy(s[i], address@);
        }
    }
    false
}

/// The total stake of the stored validator set, recomputed on demand.
pub fn total_stake(validators: &Vec<ValKey>) -> (r: u128)
    requires
        sum_stakes(vals_view(validators@)) <= u128::MAX,
    ensures
        r as int == sum_stakes(vals_view(validators@)),
{
    let ghost s = vals_view(validators@);
    let mut acc: u128 = 0;
    let mut i: usize = 0;
    while i < validators.len()
        invariant
            i <= s.len(),
            s == vals_view(validators@),
            s.len() == validators@.len(),
            acc as int == wsum(s.take(i as int), stake_w()),
            wsum(s, stake_w()) <= u128::MAX,
        decreases s.len() - i,
    {
        proof {
            lemma_wsum_take_step(s, stake_w(), i as int);
            lemma_wsum_prefix_bound(s, stake_w(), i as int + 1);
        }
        acc = acc + validators[i].stake;
        i = i + 1;
    }
    proof {
        assert(s.take(i as int) =~= s);
    }
    acc
}

/// The position a new validator entry belongs at in a pubkey-sorted list.
fn valkey_pos(vals: &Vec<ValKey>, pk: &PubKey) -> (p: usize)
    requires
        vals_sorted(vals_view(vals@)),
    ensures
        p <= vals@.len(),
        forall|j: int| 0 <= j < p ==> !bytes_lt(pk@, #[trigger] vals_view(vals@)[j].pubkey),
        p < vals@.len() ==> bytes_lt(pk@, vals_view(vals@)[p as int].pubkey),
{
    let ghost s = vals_view(vals@);
    let mut p: usize = 0;
    while p < vals.len()
        invariant
            p <= s.len(),
            s == vals_view(vals@),
            s.len() == vals@.len(),
            forall|j: int| 0 <= j < p ==> !bytes_lt(pk@, #[trigger] s[j].pubkey),
        decreases s.len() - p,
    {
        match cmp_bytes(vals[p].pubkey.0.as_slice(), pk.0.as_slice()) {
            Rel::Above => {
                return p;
            },
            _ => {
                proof {
                    lemma_bytes_trichotomy(pk@, s[p as int].pubkey);
                }
                p = p + 1;
            },
        }
    }
    p
}

/// Insert a validator entry into a pubkey-sorted sequence, keeping it sorted.
fn insert_valkey(vals: &mut Vec<ValKey>, key: ValKey)
    requires
        vals_sorted(vals_view(old(vals)@)),
    ensures
        vals_sorted(vals_view(final(vals)@)),
        vals_view(final(vals)@).to_multiset() == vals_view(old(vals)@).to_multiset().insert(key@),
{
    let ghost s = vals_view(vals@);
    let p = valkey_pos(vals, &key.pubkey);
    vals.insert(p, key);
    proof {
        assert(vals_view(vals@) =~= s.insert(p as int, key@));
        lemma_insert_multiset(s, p as int, key@);
        let s2 = s.insert(p as int, key@);
        let pi = p as int;
        assert forall|i: int, j: int| 0 <= i < j < s2.len() implies !bytes_lt(
            s2[j].pubkey,
            s2[i].pubkey,
        ) by {
            if i < pi && j == pi {
                lemma_bytes_trichotomy(key@.pubkey, s[i].pubkey);
            } else if i == pi && j > pi {
                lemma_bytes_trichotomy(s[j - 1].pubkey, key@.pubkey);
                if bytes_lt(s[j - 1].pubkey, key@.pubkey) {
                    lemma_bytes_lt_trans(s[j - 1].pubkey, key@.pubkey, s[pi].pubkey);
                    lemma_bytes_trichotomy(s[j - 1].pubkey, s[pi].pubkey);
                }
            }
        }
    }
}

/// Where an address belongs in the sorted trusted list, or `None` when it is
/// already there.
fn addr_pos(addrs: &Vec<String>, a: &String) -> (r: Option<usize>)
    requires
        addrs_sorted(addrs.deep_view()),
    ensures
        match r {
            None => addr_listed(addrs.deep_view(), a@),
            Some(p) => {
                &&& p <= addrs@.len()
                &&& forall|j: int| 0 <= j < p ==> str_below(#[trigger] addrs.deep_view()[j], a@)
                &&& p < addrs@.len() ==> str_below(a@, addrs.deep_view()[p as int])
            },
        },
{
    let ghost s = addrs.deep_view();
    let mut p: usize = 0;
    while p < addrs.len()
        invariant
            p <= s.len(),
            s == addrs.deep_view(),
            s.len() == addrs@.len(),
            forall|j: int| 0 <= j < p ==> str_below(#[trigger] s[j], a@),
        decreases s.len() - p,
    {
        proof {
            assert(s[p as int] == addrs@[p as int]@);
        }
        match cmp_str(addrs[p].as_str(), a.as_str()) {
            Rel::Below => {
                p = p + 1;
            },
            Rel::Equal => {
                proof {
                    assert(s[p as int] == a@);
                }
                return None;
            },
            Rel::Above => {
                return Some(p);
            },
        }
    }
    Some(p)
}

/// Insert an address into the sorted trusted list unless it is already there.
pub(crate) fn insert_addr(addrs: &mut Vec<String>, a: String)
    requires
        addrs_sorted(old(addrs).deep_view()),
    ensures
        addrs_sorted(final(addrs).deep_view()),
        forall|x: Seq<char>|
            addr_listed(final(addrs).deep_view(), x) == (addr_listed(old(addrs).deep_view(), x) || x
                == a@),
{
    let ghost s = addrs.deep_view();
    let p = match addr_pos(addrs, &a) {
        None => {
            proof {
                assert forall|x: Seq<char>|
                    addr_listed(s, x) == (addr_listed(s, x) || x == a@) by {
                    if x == a@ {
                        assert(addr_listed(s, x));
                    }
                }
            }
            return ;
        },
        Some(p) => p,
    };
    addrs.insert(p, a);
    proof {
        let s2 = addrs.deep_view();
        assert(s2 =~= s.insert(p as int, a@));
        let pi = p as int;
        assert forall|i: int, j: int| 0 <= i < j < s2.len() implies str_below(s2[i], s2[j]) by {
            if i < pi && j == pi {
                assert(s2[i] == s[i]);
                assert(str_below(s[i], a@));
            } else if i == pi && j > pi {
                assert(s2[j] == s[j - 1]);
                assert(pi < s.len());
                assert(str_below(a@, s[pi]));
                if j - 1 > pi {
                    assert(str_below(s[pi], s[j - 1]));
                    lemma_str_below_trans(a@, s[pi], s[j - 1]);
                }
            } else if i < pi && j > pi {
                assert(s2[i] == s[i]);
                assert(s2[j] == s[j - 1]);
                if i < j - 1 {
                    assert(str_below(s[i], s[j - 1]));
                } else {
                    assert(str_below(s[i], a@));
                    assert(pi < s.len());
                    assert(str_below(a@, s[pi]));
                }
            } else if i > pi {
                assert(s2[i] == s[i - 1]);
                assert(s2[j] == s[j - 1]);
            } else {
                assert(s2[i] == s[i]);
                assert(s2[j] == s[j]);
            }
        }
        assert forall|x: Seq<char>| addr_listed(s2, x) == (addr_listed(s, x) || x == a@) by {
            if addr_listed(s2, x) {
                let i = choose|i: int| 0 <= i < s2.len() && s2[i] == x;
                if i < pi {
                    assert(s[i] == x);
                } else if i == pi {
                } else {
                    assert(s[i - 1] == x);
                }
            }
            if addr_listed(s, x) {
                let i = choose|i: int| 0 <= i < s.len() && s[i] == x;
                if i < pi {
                    assert(s2[i] == x);
                } else {
                    assert(s2[i + 1] == x);
                }
            }
            if x == a@ {
                assert(s2[pi] == x);
            }
        }
    }
}

/// Turn a validator-set request into the stored form: the validator entries
/// sorted ascending by public key, and the flattened, sorted, deduplicated
/// trusted-address list. Fails only when the total stake would overflow an
/// unsigned 128-bit integer.
pub fn build_valset(valset: &Vec<Validator>) -> (r: Result<(Vec<ValKey>, Vec<String>), ContractError>)
    ensures
        (r is Err) == (sum_stakes(valset_keys(valset_view(valset@))) > u128::MAX),
        r matches Err(e) ==> e == ContractError::ArithmeticOverflow,
        r matches Ok(pair) ==> {
            &&& vals_sorted(vals_view(pair.0@))
            &&& vals_view(pair.0@).to_multiset() == valset_keys(valset_view(valset@)).to_multiset()
            &&& sum_stakes(vals_view(pair.0@)) <= u128::MAX
            &&& addrs_sorted(pair.1.deep_view())
            &&& forall|x: Seq<char>|
                addr_listed(pair.1.deep_view(), x) == valset_addrs(valset_view(valset@)).contains(x)
        },
{
    let ghost req = valset_view(valset@);
    let mut vals: Vec<ValKey> = Vec::new();
    let mut addrs: Vec<String> = Vec::new();
    let mut i: usize = 0;
    proof {
        assert(vals_view(vals@) =~= Seq::<ValKeyV>::empty());
        assert(valset_keys(req.take(0)) =~= Seq::<ValKeyV>::empty());
        assert(vals_view(vals@).to_multiset() =~= valset_keys(req.take(0)).to_multiset());
    }
    while i < valset.len()
        invariant
            i <= req.len(),
            req == valset_view(valset@),
            req.len() == valset@.len(),
            vals_sorted(vals_view(vals@)),
            vals_view(vals@).to_multiset() == valset_keys(req.take(i as int)).to_multiset(),
            addrs_sorted(addrs.deep_view()),
            forall|x: Seq<char>|
                addr_listed(addrs.deep_view(), x) == valset_addrs(req.take(i as int)).contains(x),
        decreases req.len() - i,
    {
        let v = &valset[i];
        proof {
            assert(req[i as int] == v@);
        }
        let key = ValKey { pubkey: v.public_key.duplicate(), stake: v.stake };
        insert_valkey(&mut vals, key);
        proof {
            assert(valset_keys(req.take(i as int + 1)) =~= valset_keys(req.take(i as int)).push(
                ValKeyV { pubkey: v@.public_key, stake: v@.stake },
            ));
            broadcast use vstd::seq_lib::group_to_multiset_ensures;

        }
        let mut j: usize = 0;
        while j < v.address.len()
            invariant
                j <= v.address@.len(),
                v@ == req[i as int],
                0 <= i < req.len(),
                v@.address.len() == v.address@.len(),
                addrs_sorted(addrs.deep_view()),
                forall|x: Seq<char>|
                    addr_listed(addrs.deep_view(), x) == (valset_addrs(req.take(i as int)).contains(
                        x,
                    ) || exists|k: int| 0 <= k < j && v@.address[k] == x),
            decreases v.address@.len() - j,
        {
            proof {
                assert(v@.address[j as int] == v.address@[j as int]@);
            }
            insert_addr(&mut addrs, v.address[j].clone());
            proof {
                assert forall|x: Seq<char>|
                    addr_listed(addrs.deep_view(), x) == (valset_addrs(req.take(i as int)).contains(
                        x,
                    ) || exists|k: int| 0 <= k < j + 1 && v@.address[k] == x) by {
                    if exists|k: int| 0 <= k < j + 1 && v@.address[k] == x {
                        let k = choose|k: int| 0 <= k < j + 1 && v@.address[k] == x;
                    }
                }
            }
            j = j + 1;
        }
        proof {
            let prev = req.take(i as int);
            let cur = req.take(i as int + 1);
            assert forall|x: Seq<char>|
                addr_listed(addrs.deep_view(), x) == valset_addrs(cur).contains(x) by {
                if valset_addrs(cur).contains(x) {
                    let (a, b): (int, int) = choose|a: int, b: int|
                        0 <= a < cur.len() && 0 <= b < cur[a].address.len() && (#[trigger] cur[a].address[b])
                            == x;
                    if a < i as int {
                        assert(prev[a].address[b] == x);
                        assert(valset_addrs(prev).contains(x));
                    } else {
                        assert(v@.address[b] == x);
                    }
                }
                if valset_addrs(prev).contains(x) {
                    let (a, b): (int, int) = choose|a: int, b: int|
                        0 <= a < prev.len() && 0 <= b < prev[a].address.len() && (#[trigger] prev[a].address[b])
                            == x;
                    assert(cur[a].address[b] == x);
                    assert(valset_addrs(cur).contains(x));
                }
                if exists|k: int| 0 <= k < v@.address.len() && v@.address[k] == x {
                    let k = choose|k: int| 0 <= k < v@.address.len() && v@.address[k] == x;
                    assert(cur[i as int].address[k] == x);
                    assert(valset_addrs(cur).contains(x));
                }
            }
        }
        i = i + 1;
    }
    proof {
        assert(req.take(i as int) =~= req);
    }
    let total = checked_total(&vals);
    proof {
        lemma_wsum_permutation(vals_view(vals@), valset_keys(req), stake_w());
    }
    match total {
        Some(_) => Ok((vals, addrs)),
        None => Err(ContractError::ArithmeticOverflow),
    }
}

/// Sum the stakes of a validator sequence, detecting overflow.
fn checked_total(vals: &Vec<ValKey>) -> (r: Option<u128>)
    ensures
        match r {
            Some(t) => t as int == sum_stakes(vals_view(vals@)) && sum_stakes(vals_view(vals@))
                <= u128::MAX,
            None => sum_stakes(vals_view(vals@)) > u128::MAX,
        },
{
    let ghost s = vals_view(vals@);
    let mut acc: u128 = 0;
    let mut i: usize = 0;
    while i < vals.len()
        invariant
            i <= s.len(),
            s == vals_view(vals@),
            s.len() == vals@.len(),
            acc as int == wsum(s.take(i as int), stake_w()),
        decreases s.len() - i,
    {
        proof {
            lemma_wsum_take_step(s, stake_w(), i as int);
        }
        match acc.checked_add(vals[i].stake) {
            Some(next) => {
                acc = next;
            },
            None => {
                proof {
                    lemma_wsum_prefix_bound(s, stake_w(), i as int + 1);
                }
                return None;
            },
        }
        i = i + 1;
    }
    proof {
        assert(s.take(i as int) =~= s);
    }
    Some(acc)
}

} // verus!
