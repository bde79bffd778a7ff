use crate::crypto::{hash, secp256k1_check, signed_digest, verify_signature};
use crate::error::ContractError;
use crate::registry::{
    find_stake, has_pubkey, stake_of, stake_w, sum_stakes, total_stake, vals_sorted, vals_unique,
    vals_view,
};
use crate::seqsum::{
    lemma_wsum_nonneg, lemma_wsum_permutation, lemma_wsum_prefix_bound, lemma_wsum_take_step, wsum,
};
use vstd::prelude::*;

verus! {

/// A validator's public key: a compressed curve point, kept as opaque bytes.
#[derive(Clone, Debug, PartialEq, Eq)]
pub struct PubKey(pub Vec<u8>);

impl View for PubKey {
    type V = Seq<u8>;

    open spec fn view(&self) -> Seq<u8> {
        self.0@
    }
}

impl PubKey {
    /// A copy with the same abstract value.
    pub fn duplicate(&self) -> (r: PubKey)
        ensures
            r@ == self@,
    {
        let bytes = self.0.clone();
        proof {
            assert(bytes@ =~= self.0@);
        }
        PubKey(bytes)
    }
}

/// A stored validator entry: a public key and the stake behind it.
#[derive(Clone, Debug, PartialEq, Eq)]
pub struct ValKey {
    pub pubkey: PubKey,
    pub stake: u128,
}

pub ghost struct ValKeyV {
    pub pubkey: Seq<u8>,
    pub stake: u128,
}

impl View for ValKey {
    type V = ValKeyV;

    open spec fn view(&self) -> ValKeyV {
        ValKeyV { pubkey: self.pubkey@, stake: self.stake }
    }
}

/// One candidate signature over a privileged message, with the public key it
/// claims to come from.
#[derive(Clone, Debug, PartialEq, Eq)]
pub struct Signature {
    pub pubkey: PubKey,
    pub signature: Vec<u8>,
}

pub ghost struct SignatureV {
    pub pubkey: Seq<u8>,
    pub signature: Seq<u8>,
}

impl View for Signature {
    type V = SignatureV;

    open spec fn view(&self) -> SignatureV {
        SignatureV { pubkey: self.pubkey@, signature: self.signature@ }
    }
}

impl Signature {
    /// A copy with the same abstract value.
    pub fn duplicate(&self) -> (r: Signature)
        ensures
            r@ == self@,
    {
        let sig_bytes = self.signature.clone();
        proof {
            assert(sig_bytes@ =~= self.signature@);
        }
        Signature { pubkey: self.pubkey.duplicate(), signature: sig_bytes }
    }
}

/// The abstract value of a signature list.
pub open spec fn sigs_view(s: Seq<Signature>) -> Seq<SignatureV> {
    s.map_values(|x: Signature| x@)
}

/// The abstract value of a weighted signature list.
pub open spec fn wsigs_view(s: Seq<(u128, Signature)>) -> Seq<(u128, SignatureV)> {
    s.map_values(|p: (u128, Signature)| (p.0, p.1@))
}

/// The signatures whose claimed public key belongs to a stored validator,
/// each paired with that validator's stake; the others are discarded.
pub open spec fn surviving(sigs: Seq<SignatureV>, vals: Seq<ValKeyV>) -> Seq<(u128, SignatureV)>
    decreases sigs.len(),
{
    if sigs.len() == 0 {
        Seq::empty()
    } else if has_pubkey(vals, sigs.last().pubkey) {
        surviving(sigs.drop_last(), vals).push((stake_of(vals, sigs.last().pubkey), sigs.last()))
    } else {
        surviving(sigs.drop_last(), vals)
    }
}

/// The stake a surviving signature contributes: its validator's stake when
/// the primitive accepts the signature, nothing otherwise.
pub open spec fn sig_w(digest: Seq<u8>) -> spec_fn((u128, SignatureV)) -> int {
    |p: (u128, SignatureV)|
        if secp256k1_check(digest, p.1.signature, p.1.pubkey) == Some(true) {
            p.0 as int
        } else {
            0
        }
}

/// The total stake behind the signatures that verify against the digest. A
/// validator that signed more than once is counted once per signature; this
/// known weakness is preserved deliberately.
pub open spec fn verified_weight(sigs: Seq<SignatureV>, vals: Seq<ValKeyV>, digest: Seq<u8>) -> int {
    wsum(surviving(sigs, vals), sig_w(digest))
}

/// A strict supermajority: the verified weight is more than half the total
/// stake. Exactly half is not enough, and an empty validator set never
/// reaches quorum.
pub open spec fn quorum(sigs: Seq<SignatureV>, vals: Seq<ValKeyV>, digest: Seq<u8>) -> bool {
    2 * verified_weight(sigs, vals, digest) > sum_stakes(vals)
}

/// The verification primitive accepts the encoding of every signature that
/// names a stored validator.
pub open spec fn all_decodable(sigs: Seq<SignatureV>, vals: Seq<ValKeyV>, digest: Seq<u8>) -> bool {
    forall|i: int|
        0 <= i < sigs.len() && has_pubkey(vals, (#[trigger] sigs[i]).pubkey) ==> secp256k1_check(
            digest,
            sigs[i].signature,
            sigs[i].pubkey,
        ) is Some
}

/// Every weighted signature is one of the submitted signatures, and its
/// claimed key belongs to a stored validator.
pub open spec fn corresponds(
    pv: Seq<(u128, SignatureV)>,
    sigs: Seq<SignatureV>,
    vals: Seq<ValKeyV>,
) -> bool {
    forall|m: int|
        0 <= m < pv.len() ==> exists|n: int|
            0 <= n < sigs.len() && sigs[n] == (#[trigger] pv[m]).1 && has_pubkey(
                vals,
                pv[m].1.pubkey,
            )
}

/// Sorted by stake descending, heaviest first.
pub open spec fn desc_sorted(s: Seq<(u128, SignatureV)>) -> bool {
    forall|i: int, j: int| 0 <= i < j < s.len() ==> (#[trigger] s[i]).0 >= (#[trigger] s[j]).0
}

/// Insert a weighted signature into a stake-descending list, keeping it
/// sorted.
fn insert_desc(v: &mut Vec<(u128, Signature)>, e: (u128, Signature))
    requires
        desc_sorted(wsigs_view(old(v)@)),
    ensures
        desc_sorted(wsigs_view(final(v)@)),
        wsigs_view(final(v)@).to_multiset() == wsigs_view(old(v)@).to_multiset().insert(
            (e.0, e.1@),
        ),
{
    let ghost s = wsigs_view(v@);
    let w = e.0;
    let mut p: usize = 0;
    while p < v.len() && v[p].0 >= w
        invariant
            p <= s.len(),
            s == wsigs_view(v@),
            s.len() == v@.len(),
            forall|j: int| 0 <= j < p ==> (#[trigger] s[j]).0 >= w,
        decreases s.len() - p,
    {
        p = p + 1;
    }
    v.insert(p, e);
    proof {
        let s2 = wsigs_view(v@);
        let pi = p as int;
        assert(s2 =~= s.insert(pi, (w, e.1@)));
        crate::seqsum::lemma_insert_multiset(s, pi, (w, e.1@));
        assert forall|i: int, j: int| 0 <= i < j < s2.len() implies (#[trigger] s2[i]).0 >= (
        #[trigger] s2[j]).0 by {
            if i < pi && j == pi {
                assert(s2[i] == s[i]);
            } else if i == pi && j > pi {
                assert(s2[j] == s[j - 1]);
                if j - 1 >= pi && pi < s.len() {
                    assert(s[pi].0 < w || p as int == s.len());
                }
            } else if i < pi && j > pi {
                assert(s2[i] == s[i]);
                assert(s2[j] == s[j - 1]);
            } else if i > pi {
                assert(s2[i] == s[i - 1]);
                assert(s2[j] == s[j - 1]);
            } else {
                assert(s2[i] == s[i]);
                assert(s2[j] == s[j]);
            }
        }
    }
}

/// Discarding splits over concatenation of signature lists.
proof fn lemma_surviving_concat(a: Seq<SignatureV>, b: Seq<SignatureV>, vals: Seq<ValKeyV>)
    ensures
        surviving(a + b, vals) == surviving(a, vals) + surviving(b, vals),
    decreases b.len(),
{
    if b.len() == 0 {
        assert(a + b =~= a);
        assert(surviving(a, vals) + surviving(b, vals) =~= surviving(a, vals));
    } else {
        lemma_surviving_concat(a, b.drop_last(), vals);
        assert((a + b).drop_last() =~= a + b.drop_last());
        assert((a + b).last() == b.last());
        if has_pubkey(vals, b.last().pubkey) {
            assert(surviving(a, vals) + surviving(b.drop_last(), vals).push(
                (stake_of(vals, b.last().pubkey), b.last()),
            ) =~= (surviving(a, vals) + surviving(b.drop_last(), vals)).push(
                (stake_of(vals, b.last().pubkey), b.last()),
            ));
        }
    }
}

/// Law: for a fixed validator set and digest, adding more signatures never
/// lowers the verified weight, so a signature set that reaches quorum still
/// reaches it after more signatures are added.
pub proof fn lemma_quorum_monotonic(
    sigs1: Seq<SignatureV>,
    sigs2: Seq<SignatureV>,
    vals: Seq<ValKeyV>,
    digest: Seq<u8>,
)
    ensures
        verified_weight(sigs1 + sigs2, vals, digest) >= verified_weight(sigs1, vals, digest),
        quorum(sigs1, vals, digest) ==> quorum(sigs1 + sigs2, vals, digest),
{
    lemma_surviving_concat(sigs1, sigs2, vals);
    crate::seqsum::lemma_wsum_concat(
        surviving(sigs1, vals),
        surviving(sigs2, vals),
        sig_w(digest),
    );
    assert forall|m: int| 0 <= m < surviving(sigs2, vals).len() implies sig_w(digest)(
        #[trigger] surviving(sigs2, vals)[m],
    ) >= 0 by {}
    lemma_wsum_nonneg(surviving(sigs2, vals), sig_w(digest));
}

/// Law: a signature set whose verified weight is exactly half the total
/// stake does not reach quorum.
pub proof fn lemma_no_quorum_at_half(sigs: Seq<SignatureV>, vals: Seq<ValKeyV>, digest: Seq<u8>)
    requires
        2 * verified_weight(sigs, vals, digest) == sum_stakes(vals),
    ensures
        !quorum(sigs, vals, digest),
{
}

/// Decide whether the supplied signatures over `raw_json` and `message_id`
/// represent a strict supermajority of the stored validators' stake.
///
/// Signatures from unknown public keys are discarded. A surviving signature
/// that the primitive rejects as a verification failure is skipped; one whose
/// encoding the primitive cannot read at all fails the whole check, which can
/// cut the walk short. Heavier stakes are tried first so that quorum is
/// reached with as few verification calls as possible.
pub fn is_signed(
    validators: &Vec<ValKey>,
    message_id: &str,
    raw_json: &str,
    signatures: &Vec<Signature>,
) -> (r: Result<bool, ContractError>)
    requires
        vals_sorted(vals_view(validators@)),
        sum_stakes(vals_view(validators@)) <= u128::MAX,
    ensures
        vals_unique(vals_view(validators@)) ==> (r matches Ok(b) ==> b == quorum(
            sigs_view(signatures@),
            vals_view(validators@),
            signed_digest(message_id@, raw_json@),
        )),
        vals_unique(vals_view(validators@)) && all_decodable(
            sigs_view(signatures@),
            vals_view(validators@),
            signed_digest(message_id@, raw_json@),
        ) ==> r is Ok,
        r matches Err(e) ==> e == ContractError::MalformedSignature && exists|i: int|
            0 <= i < sigs_view(signatures@).len() && has_pubkey(
                vals_view(validators@),
                (#[trigger] sigs_view(signatures@)[i]).pubkey,
            ) && secp256k1_check(
                signed_digest(message_id@, raw_json@),
                sigs_view(signatures@)[i].signature,
                sigs_view(signatures@)[i].pubkey,
            ) is None,
{
    let ghost sigs = sigs_view(signatures@);
    let ghost vals = vals_view(validators@);
    let ghost d = signed_digest(message_id@, raw_json@);
    let digest = hash(message_id, raw_json);
    let total = total_stake(validators);

    let mut pairs: Vec<(u128, Signature)> = Vec::new();
    let mut i: usize = 0;
    proof {
        assert(wsigs_view(pairs@) =~= Seq::<(u128, SignatureV)>::empty());
        assert(surviving(sigs.take(0), vals) =~= Seq::<(u128, SignatureV)>::empty());
    }
    while i < signatures.len()
        invariant
            i <= sigs.len(),
            sigs == sigs_view(signatures@),
            vals == vals_view(validators@),
            sigs.len() == signatures@.len(),
            vals_sorted(vals),
            vals_unique(vals) ==> wsigs_view(pairs@) == surviving(sigs.take(i as int), vals),
            corresponds(wsigs_view(pairs@), sigs, vals),
        decreases sigs.len() - i,
    {
        let sig = &signatures[i];
        proof {
            assert(sigs[i as int] == sig@);
        }
        let ghost pv_old = wsigs_view(pairs@);
        match find_stake(validators, &sig.pubkey) {
            Some(w) => {
                pairs.push((w, sig.duplicate()));
                proof {
                    assert(wsigs_view(pairs@) =~= pv_old.push((w, sig@)));
                    if vals_unique(vals) {
                        assert(sigs.take(i as int + 1).drop_last() =~= sigs.take(i as int));
                        assert(sigs.take(i as int + 1).last() == sigs[i as int]);
                        assert(w == stake_of(vals, sig@.pubkey));
                    }
                    assert forall|k: int| 0 <= k < wsigs_view(pairs@).len() implies exists|n: int|
                        0 <= n < sigs.len() && sigs[n] == (#[trigger] wsigs_view(pairs@)[k]).1
                            && has_pubkey(vals, wsigs_view(pairs@)[k].1.pubkey) by {
                        if k < pv_old.len() {
                            assert(wsigs_view(pairs@)[k] == pv_old[k]);
                            assert((pv_old[k]).1 == (wsigs_view(pairs@)[k]).1);
                        } else {
                            assert(wsigs_view(pairs@)[k].1 == sigs[i as int]);
                        }
                    }
                    assert(corresponds(wsigs_view(pairs@), sigs, vals));
                }
            },
            None => {
                proof {
                    if vals_unique(vals) {
                        assert(sigs.take(i as int + 1).drop_last() =~= sigs.take(i as int));
                        assert(sigs.take(i as int + 1).last() == sigs[i as int]);
                    }
                }
            },
        }
        i = i + 1;
    }
    proof {
        assert(sigs.take(i as int) =~= sigs);
    }

    let ghost pv = wsigs_view(pairs@);
    let mut sorted_sigs: Vec<(u128, Signature)> = Vec::new();
    let mut j: usize = 0;
    proof {
        broadcast use vstd::seq_lib::group_to_multiset_ensures;

        assert(wsigs_view(sorted_sigs@) =~= Seq::<(u128, SignatureV)>::empty());
        assert(pv.take(0) =~= Seq::<(u128, SignatureV)>::empty());
        assert(wsigs_view(sorted_sigs@).to_multiset() =~= pv.take(0).to_multiset());
    }
    while j < pairs.len()
        invariant
            j <= pv.len(),
            pv == wsigs_view(pairs@),
            pv.len() == pairs@.len(),
            desc_sorted(wsigs_view(sorted_sigs@)),
            wsigs_view(sorted_sigs@).to_multiset() == pv.take(j as int).to_multiset(),
        decreases pv.len() - j,
    {
        let w = pairs[j].0;
        let sg = pairs[j].1.duplicate();
        proof {
            assert(pv[j as int] == (w, sg@));
        }
        insert_desc(&mut sorted_sigs, (w, sg));
        proof {
            broadcast use vstd::seq_lib::group_to_multiset_ensures;

            assert(pv.take(j as int + 1) =~= pv.take(j as int).push(pv[j as int]));
        }
        j = j + 1;
    }
    proof {
        assert(pv.take(j as int) =~= pv);
    }

    let ghost sv = wsigs_view(sorted_sigs@);
    proof {
        if vals_unique(vals) {
            lemma_wsum_permutation(sv, surviving(sigs, vals), sig_w(d));
        }
        lemma_wsum_nonneg(vals, stake_w());
        assert(corresponds(pv, sigs, vals));
    }

    let mut total_weight: u128 = 0;
    let mut k: usize = 0;
    while k < sorted_sigs.len()
        invariant
            k <= sv.len(),
            sv == wsigs_view(sorted_sigs@),
            sv.len() == sorted_sigs@.len(),
            vals == vals_view(validators@),
            sigs == sigs_view(signatures@),
            digest@ == d,
            d == signed_digest(message_id@, raw_json@),
            total as int == sum_stakes(vals),
            sum_stakes(vals) <= u128::MAX,
            sum_stakes(vals) >= 0,
            vals_unique(vals) ==> total_weight as int == wsum(sv.take(k as int), sig_w(d)),
            vals_unique(vals) ==> wsum(sv, sig_w(d)) == verified_weight(sigs, vals, d),
            vals_unique(vals) ==> !(2 * wsum(sv.take(k as int), sig_w(d)) > sum_stakes(vals)),
            sv.to_multiset() == pv.to_multiset(),
            pv == wsigs_view(pairs@),
            corresponds(pv, sigs, vals),
        decreases sv.len() - k,
    {
        let w = sorted_sigs[k].0;
        let sg = &sorted_sigs[k].1;
        proof {
            assert(sv[k as int] == (w, sg@));
        }
        match verify_signature(&digest, &sg.signature, &sg.pubkey.0) {
            Err(e) => {
                proof {
                    broadcast use vstd::seq_lib::group_to_multiset_ensures;

                    let elem = sv[k as int];
                    assert(sv.contains(elem));
                    assert(sv.to_multiset().count(elem) > 0);
                    assert(pv.contains(elem));
                    let m = choose|m: int| 0 <= m < pv.len() && pv[m] == elem;
                    assert((pv[m]).1 == elem.1);
                    let n = choose|n: int|
                        0 <= n < sigs.len() && sigs[n] == pv[m].1 && has_pubkey(
                            vals,
                            pv[m].1.pubkey,
                        );
                    assert(sigs[n] == sg@);
                    assert(secp256k1_check(d, sigs[n].signature, sigs[n].pubkey) is None);
                    assert(sigs_view(signatures@)[n] == sg@);
                    assert(has_pubkey(
                        vals_view(validators@),
                        sigs_view(signatures@)[n].pubkey,
                    ));
                    assert(secp256k1_check(
                        signed_digest(message_id@, raw_json@),
                        sigs_view(signatures@)[n].signature,
                        sigs_view(signatures@)[n].pubkey,
                    ) is None);
                    if vals_unique(vals) && all_decodable(sigs, vals, d) {
                        assert(secp256k1_check(d, sigs[n].signature, sigs[n].pubkey) is Some);
                        assert(false);
                    }
                }
                return Err(e);
            },
            Ok(true) => {
                proof {
                    if vals_unique(vals) {
                        lemma_wsum_take_step(sv, sig_w(d), k as int);
                        assert(sig_w(d)(sv[k as int]) == w as int);
                    }
                }
                match total_weight.checked_add(w) {
                    None => {
                        proof {
                            if vals_unique(vals) {
                                assert forall|m: int| 0 <= m < sv.len() implies sig_w(d)(
                                    #[trigger] sv[m],
                                ) >= 0 by {}
                                lemma_wsum_prefix_bound(sv, sig_w(d), k as int + 1);
                                assert(wsum(sv.take(k as int + 1), sig_w(d)) > u128::MAX);
                                assert(2 * verified_weight(sigs, vals, d) > sum_stakes(vals));
                            }
                        }
                        return Ok(true);
                    },
                    Some(t) => {
                        total_weight = t;
                        if total_weight > total / 2 {
                            proof {
                                if vals_unique(vals) {
                                    assert forall|m: int| 0 <= m < sv.len() implies sig_w(d)(
                                        #[trigger] sv[m],
                                    ) >= 0 by {}
                                    lemma_wsum_prefix_bound(sv, sig_w(d), k as int + 1);
                                    assert(2 * (total_weight as int) > total as int);
                                    assert(2 * verified_weight(sigs, vals, d) > sum_stakes(vals));
                                }
                            }
                            return Ok(true);
                        }
                        proof {
                            if vals_unique(vals) {
                                assert(2 * (total_weight as int) <= total as int);
                            }
                        }
                    },
                }
            },
            Ok(false) => {
                proof {
                    if vals_unique(vals) {
                        lemma_wsum_take_step(sv, sig_w(d), k as int);
                        assert(sig_w(d)(sv[k as int]) == 0);
                    }
                }
            },
        }
        k = k + 1;
    }
    proof {
        if vals_unique(vals) {
            assert(sv.take(k as int) =~= sv);
            assert(!quorum(sigs, vals, d));
        }
    }
    Ok(false)
}

} // verus!
