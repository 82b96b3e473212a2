//! Acknowledgements of one position, kept by signer.
use crate::types::{Ack, AckView, Digest};
use std::collections::BTreeMap;
use vstd::prelude::*;
use vstd::std_specs::cmp::OrdSpec;

verus! {

broadcast use {vstd::std_specs::btree::group_btree_axioms, vstd::laws_cmp::group_laws_cmp};

/// The model of acknowledgements kept by signer.
pub open spec fn shares_view(shares: Map<u32, Ack>) -> Map<u32, AckView> {
    shares.map_values(|ack: Ack| ack@)
}

/// The model of a list of acknowledgements.
pub open spec fn acks_view(acks: Seq<Ack>) -> Seq<AckView> {
    acks.map_values(|ack: Ack| ack@)
}

/// The signers among `shares` that acknowledged `digest`.
pub open spec fn signers_of(shares: Map<u32, AckView>, digest: Seq<u8>) -> Set<u32> {
    shares.dom().filter(|signer: u32| shares[signer].item.digest == digest)
}

/// The acknowledgements among `shares` of `digest`.
pub open spec fn shares_of(shares: Map<u32, AckView>, digest: Seq<u8>) -> Map<u32, AckView> {
    shares.restrict(signers_of(shares, digest))
}

/// Whether `acks` are the acknowledgements among `shares` of `digest`, in the order of their
/// signers.
pub open spec fn lists(acks: Seq<AckView>, shares: Map<u32, AckView>, digest: Seq<u8>) -> bool {
    &&& forall|i: int, j: int|
        #![trigger acks[i], acks[j]]
        0 <= i < j < acks.len() ==> acks[i].attestation.signer.0 < acks[j].attestation.signer.0
    &&& forall|i: int|
        #![trigger acks[i]]
        0 <= i < acks.len() ==> signers_of(shares, digest).contains(acks[i].attestation.signer.0)
            && acks[i] == shares[acks[i].attestation.signer.0]
    &&& forall|signer: u32| #[trigger]
        signers_of(shares, digest).contains(signer) ==> acks.contains(shares[signer])
}

/// A list has as many acknowledgements as there are signers.
pub proof fn lemma_lists(acks: Seq<AckView>, shares: Map<u32, AckView>, digest: Seq<u8>)
    requires
        lists(acks, shares, digest),
        forall|signer: u32| #[trigger]
            shares.contains_key(signer) ==> shares[signer].attestation.signer.0 == signer,
    ensures
        signers_of(shares, digest).finite(),
        signers_of(shares, digest).len() == acks.len(),
{
    let signers = acks.map_values(|ack: AckView| ack.attestation.signer.0);
    assert(signers.no_duplicates());
    signers.unique_seq_to_set();
    assert(signers.to_set() =~= signers_of(shares, digest)) by {
        assert forall|signer: u32| signers_of(shares, digest).contains(signer) implies
            signers.contains(signer) by {
            let i = choose|i: int| 0 <= i < acks.len() && acks[i] == shares[signer];
            assert(signers[i] == signer);
        }
        assert forall|signer: u32| signers.contains(signer) implies signers_of(
            shares,
            digest,
        ).contains(signer) by {
            let i = choose|i: int| 0 <= i < signers.len() && signers[i] == signer;
            assert(acks[i].attestation.signer.0 == signer);
        }
    }
}

/// There is one list only: what a certificate is assembled from is determined.
pub proof fn law_list_is_unique(
    a: Seq<AckView>,
    b: Seq<AckView>,
    shares: Map<u32, AckView>,
    digest: Seq<u8>,
)
    requires
        lists(a, shares, digest),
        lists(b, shares, digest),
        forall|signer: u32| #[trigger]
            shares.contains_key(signer) ==> shares[signer].attestation.signer.0 == signer,
    ensures
        a == b,
{
    lemma_lists(a, shares, digest);
    lemma_lists(b, shares, digest);
    assert forall|i: int| 0 <= i < a.len() implies a[i] == b[i] by {
        lemma_lists_agree(a, b, shares, digest, i);
    }
    assert(a =~= b);
}

/// Two lists agree up to any index.
proof fn lemma_lists_agree(
    a: Seq<AckView>,
    b: Seq<AckView>,
    shares: Map<u32, AckView>,
    digest: Seq<u8>,
    i: int,
)
    requires
        lists(a, shares, digest),
        lists(b, shares, digest),
        a.len() == b.len(),
        0 <= i < a.len(),
    ensures
        a[i] == b[i],
    decreases i,
{
    assert forall|k: int| 0 <= k < i implies a[k] == b[k] by {
        lemma_lists_agree(a, b, shares, digest, k);
    }
    let j = choose|j: int| 0 <= j < b.len() && b[j] == shares[a[i].attestation.signer.0];
    let k = choose|k: int| 0 <= k < a.len() && a[k] == shares[b[i].attestation.signer.0];
    assert(signers_of(shares, digest).contains(a[i].attestation.signer.0));
    assert(signers_of(shares, digest).contains(b[i].attestation.signer.0));
    assert(b[j] == a[i] && a[k] == b[i]);
    if j < i {
        assert(a[j] == b[j]);
    }
    if k < i {
        assert(a[k] == b[k]);
    }
}

/// What it means for signers to come in increasing order.
proof fn lemma_increasing(signers: Seq<u32>)
    requires
        vstd::std_specs::btree::increasing_seq(signers),
    ensures
        forall|i: int, j: int| 0 <= i < j < signers.len() ==> signers[i] < signers[j],
{
    assert forall|i: int, j: int| 0 <= i < j < signers.len() implies signers[i] < signers[j] by {
        assert(signers[i].cmp_spec(&signers[j]) is Less);
    }
}

/// The acknowledgements among `shares` of `digest`, in the order of their signers.
pub(crate) fn matching(shares: &BTreeMap<u32, Ack>, digest: &Digest) -> (acks: Vec<Ack>)
    requires
        forall|signer: u32| #[trigger]
            shares@.contains_key(signer) ==> shares@[signer]@.attestation.signer.0 == signer,
    ensures
        lists(acks_view(acks@), shares_view(shares@), digest@),
{
    let mut acks: Vec<Ack> = Vec::new();
    let ghost held = shares_view(shares@);
    for entry in it: shares.iter()
        invariant
            held == shares_view(shares@),
            forall|signer: u32| #[trigger]
                shares@.contains_key(signer) ==> shares@[signer]@.attestation.signer.0 == signer,
            vstd::std_specs::btree::increasing_seq(
                it.seq().map_values(|kv: (&u32, &Ack)| *kv.0),
            ),
            forall|i: int|
                #![trigger it.seq()[i]]
                0 <= i < it.seq().len() ==> shares@.contains_key(*it.seq()[i].0)
                    && shares@[*it.seq()[i].0] == *it.seq()[i].1,
            forall|i: int, j: int|
                #![trigger acks@[i], acks@[j]]
                0 <= i < j < acks.len() ==> acks@[i]@.attestation.signer.0
                    < acks@[j]@.attestation.signer.0,
            forall|i: int|
                #![trigger acks@[i]]
                0 <= i < acks.len() ==> signers_of(held, digest@).contains(
                    acks@[i]@.attestation.signer.0,
                ) && acks@[i]@ == held[acks@[i]@.attestation.signer.0],
            forall|i: int, j: int|
                #![trigger acks@[i], it.seq()[j]]
                0 <= i < acks.len() && it.index() <= j < it.seq().len()
                    ==> acks@[i]@.attestation.signer.0 < *it.seq()[j].0,
            forall|j: int|
                #![trigger it.seq()[j]]
                0 <= j < it.index() && it.seq()[j].1@.item.digest == digest@ ==> acks_view(
                    acks@,
                ).contains(it.seq()[j].1@),
    {
        let ghost signers = it.seq().map_values(|kv: (&u32, &Ack)| *kv.0);
        let ghost n = it.index() as int;
        let ghost before = acks@;
        proof {
            lemma_increasing(signers);
            assert(signers[n] == *it.seq()[n].0);
        }
        let (signer, ack) = entry;
        assert(*signer == *it.seq()[n].0 && *ack == *it.seq()[n].1);
        if ack.item.digest.same(digest) {
            acks.push(ack.clone());
            assert(acks_view(acks@) =~= acks_view(before).push(ack@));
            assert(acks_view(acks@)[before.len() as int] == ack@);
            assert forall|other: AckView| acks_view(before).contains(other) implies acks_view(
                acks@,
            ).contains(other) by {
                let i = choose|i: int| 0 <= i < before.len() && acks_view(before)[i] == other;
                assert(acks_view(acks@)[i] == other);
            }
            assert(held.contains_key(*signer) && held[*signer] == ack@);
        }
        assert forall|j: int| n < j < it.seq().len() implies *signer < *#[trigger] it.seq()[j].0 by {
            assert(signers[j] == *it.seq()[j].0);
        }
    }
    acks
}

/// The acknowledgements among `shares` of `digest`.
pub(crate) fn keep_matching(shares: &BTreeMap<u32, Ack>, digest: &Digest) -> (kept: BTreeMap<
    u32,
    Ack,
>)
    ensures
        shares_view(kept@) == shares_of(shares_view(shares@), digest@),
{
    let mut kept: BTreeMap<u32, Ack> = BTreeMap::new();
    let ghost held = shares_view(shares@);
    let ghost wanted = shares_of(held, digest@);
    for entry in it: shares.iter()
        invariant
            held == shares_view(shares@),
            wanted == shares_of(held, digest@),
            forall|i: int|
                #![trigger it.seq()[i]]
                0 <= i < it.seq().len() ==> shares@.contains_key(*it.seq()[i].0)
                    && shares@[*it.seq()[i].0] == *it.seq()[i].1,
            forall|signer: u32| #[trigger]
                kept@.contains_key(signer) ==> wanted.contains_key(signer) && kept@[signer]@
                    == wanted[signer],
            forall|i: int|
                #![trigger it.seq()[i]]
                0 <= i < it.index() && wanted.contains_key(*it.seq()[i].0) ==> kept@.contains_key(
                    *it.seq()[i].0,
                ),
    {
        let (signer, ack) = entry;
        let ghost n = it.index() as int;
        assert(*signer == *it.seq()[n].0 && *ack == *it.seq()[n].1);
        assert(held.contains_key(*signer) && held[*signer] == ack@);
        if ack.item.digest.same(digest) {
            kept.insert(*signer, ack.clone());
        }
    }
    assert forall|signer: u32| wanted.contains_key(signer) implies kept@.contains_key(signer) by {
        assert(shares@.contains_key(signer));
    }
    assert(shares_view(kept@) =~= wanted);
    kept
}

} // verus!
