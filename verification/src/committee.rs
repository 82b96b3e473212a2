//! The identity of a committee.
use commonware_cryptography::{Hasher, Sha256};
use vstd::prelude::*;
use vstd::string::*;

verus! {

/// Separates committee identities from other uses of the hash function.
pub const JOURNAL_COMMITTEE_DOMAIN: &'static str = "_COMMONWARE_CONSENSUS_AGGREGATION_JOURNAL_COMMITTEE_V1";

/// The SHA-256 digest of a message.
pub uninterp spec fn sha256(message: Seq<u8>) -> Seq<u8>;

/// Calls `commonware_cryptography::Sha256::hash`, which hashes the concatenation of its parts.
#[verifier::external_body]
fn hash(domain: &[u8], message: &[u8]) -> (digest: [u8; 32])
    ensures
        digest@ == sha256(domain@ + message@),
{
    Sha256::hash(&[domain, message]).0
}

/// The identity of the committee whose encoding is `participants`.
pub open spec fn identity_of(participants: Seq<u8>) -> Seq<u8> {
    sha256(JOURNAL_COMMITTEE_DOMAIN.spec_bytes() + participants)
}

/// The identity of the committee whose ordered keys encode to `participants`.
pub fn committee_identity(participants: &[u8]) -> (identity: [u8; 32])
    ensures
        identity@ == identity_of(participants@),
{
    hash(JOURNAL_COMMITTEE_DOMAIN.as_bytes(), participants)
}

/// All of the encoding of a committee goes into its identity, behind the domain.
pub proof fn law_identity_covers_the_committee(participants: Seq<u8>)
    ensures
        identity_of(participants) == sha256(
            "_COMMONWARE_CONSENSUS_AGGREGATION_JOURNAL_COMMITTEE_V1".spec_bytes() + participants,
        ),
{
}

} // verus!
