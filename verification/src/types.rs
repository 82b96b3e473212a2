//! Values that aggregation engines exchange: positions, digests, acknowledgements and
//! certificates.
//!
//! Signatures, proofs and digests are held as bytes. The signing scheme that made them is the only
//! one to look inside a signature or a proof; of a digest the engine reads only whether it equals
//! another.
use vstd::prelude::*;

verus! {

/// An epoch number.
#[derive(Clone, Copy, Debug, PartialEq, Eq, PartialOrd, Ord, Hash, Structural)]
pub struct Epoch(pub u64);

impl Epoch {
    /// The epoch with number `epoch`.
    pub fn new(epoch: u64) -> (result: Epoch)
        ensures
            result == Epoch(epoch),
    {
        Epoch(epoch)
    }

    /// The number of this epoch.
    pub fn get(self) -> (epoch: u64)
        ensures
            epoch == self.0,
    {
        self.0
    }
}

/// A global position.
#[derive(Clone, Copy, Debug, PartialEq, Eq, PartialOrd, Ord, Hash, Structural)]
pub struct Height(pub u64);

impl Height {
    /// The position with number `height`.
    pub fn new(height: u64) -> (result: Height)
        ensures
            result == Height(height),
    {
        Height(height)
    }

    /// The number of this position.
    pub fn get(self) -> (height: u64)
        ensures
            height == self.0,
    {
        self.0
    }
}

/// The index of a participant in the ordered committee.
#[derive(Clone, Copy, Debug, PartialEq, Eq, PartialOrd, Ord, Hash, Structural)]
pub struct Participant(pub u32);

impl Participant {
    /// The participant with index `index`.
    pub fn new(index: u32) -> (result: Participant)
        ensures
            result == Participant(index),
    {
        Participant(index)
    }

    /// The index of this participant.
    pub fn get(self) -> (index: u32)
        ensures
            index == self.0,
    {
        self.0
    }
}

/// Whether two byte strings are equal.
pub fn same_bytes(a: &[u8], b: &[u8]) -> (same: bool)
    ensures
        same == (a@ == b@),
{
    if a.len() != b.len() {
        return false;
    }
    let mut i: usize = 0;
    while i < a.len()
        invariant
            a.len() == b.len(),
            i <= a.len(),
            forall|j: int| 0 <= j < i ==> a@[j] == b@[j],
        decreases a.len() - i,
    {
        if a[i] != b[i] {
            return false;
        }
        i += 1;
    }
    assert(a@ =~= b@);
    true
}

/// A copy of a byte string.
pub fn copy_bytes(bytes: &[u8]) -> (copy: Vec<u8>)
    ensures
        copy@ == bytes@,
{
    let mut copy: Vec<u8> = Vec::new();
    let mut i: usize = 0;
    while i < bytes.len()
        invariant
            i <= bytes.len(),
            copy@ == bytes@.take(i as int),
        decreases bytes.len() - i,
    {
        copy.push(bytes[i]);
        i += 1;
        assert(copy@ =~= bytes@.take(i as int));
    }
    assert(bytes@.take(i as int) =~= bytes@);
    copy
}

/// The digest of what was proposed at a position.
#[derive(Debug, PartialEq, Eq)]
pub struct Digest {
    /// The bytes of the digest.
    pub bytes: Vec<u8>,
}

impl View for Digest {
    type V = Seq<u8>;

    open spec fn view(&self) -> Seq<u8> {
        self.bytes@
    }
}

impl Clone for Digest {
    fn clone(&self) -> (copy: Self)
        ensures
            copy@ == self@,
    {
        Digest { bytes: copy_bytes(self.bytes.as_slice()) }
    }
}

impl Digest {
    /// The digest with the given bytes.
    pub fn new(bytes: Vec<u8>) -> (digest: Digest)
        ensures
            digest@ == bytes@,
    {
        Digest { bytes }
    }

    /// Whether two digests are the same.
    pub fn same(&self, other: &Digest) -> (same: bool)
        ensures
            same == (self@ == other@),
    {
        same_bytes(self.bytes.as_slice(), other.bytes.as_slice())
    }
}

/// What an acknowledgement or a certificate speaks of: a digest at a position.
#[derive(Debug, PartialEq, Eq)]
pub struct Item {
    /// The global position.
    pub position: Height,
    /// The digest at that position.
    pub digest: Digest,
}

/// The model of an [`Item`].
#[verifier::ext_equal]
pub struct ItemView {
    pub position: Height,
    pub digest: Seq<u8>,
}

impl View for Item {
    type V = ItemView;

    open spec fn view(&self) -> ItemView {
        ItemView { position: self.position, digest: self.digest@ }
    }
}

impl Clone for Item {
    fn clone(&self) -> (copy: Self)
        ensures
            copy@ == self@,
    {
        Item { position: self.position, digest: self.digest.clone() }
    }
}

/// A participant's signature.
#[derive(Debug, PartialEq, Eq)]
pub struct Attestation {
    /// Who signed.
    pub signer: Participant,
    /// The signature.
    pub signature: Vec<u8>,
}

/// The model of an [`Attestation`].
#[verifier::ext_equal]
pub struct AttestationView {
    pub signer: Participant,
    pub signature: Seq<u8>,
}

impl View for Attestation {
    type V = AttestationView;

    open spec fn view(&self) -> AttestationView {
        AttestationView { signer: self.signer, signature: self.signature@ }
    }
}

impl Clone for Attestation {
    fn clone(&self) -> (copy: Self)
        ensures
            copy@ == self@,
    {
        Attestation { signer: self.signer, signature: copy_bytes(self.signature.as_slice()) }
    }
}

/// A participant's acknowledgement of an item.
#[derive(Debug, PartialEq, Eq)]
pub struct Ack {
    /// The item acknowledged.
    pub item: Item,
    /// The signature over the item.
    pub attestation: Attestation,
}

/// The model of an [`Ack`].
#[verifier::ext_equal]
pub struct AckView {
    pub item: ItemView,
    pub attestation: AttestationView,
}

impl View for Ack {
    type V = AckView;

    open spec fn view(&self) -> AckView {
        AckView { item: self.item@, attestation: self.attestation@ }
    }
}

impl Clone for Ack {
    fn clone(&self) -> (copy: Self)
        ensures
            copy@ == self@,
    {
        Ack { item: self.item.clone(), attestation: self.attestation.clone() }
    }
}

/// Proof that a quorum of an epoch's committee acknowledged an item.
#[derive(Debug, PartialEq, Eq)]
pub struct Certificate {
    /// The epoch whose committee signed.
    pub epoch: Epoch,
    /// The item that was acknowledged.
    pub item: Item,
    /// The signing scheme's proof.
    pub certificate: Vec<u8>,
}

/// The model of a [`Certificate`].
#[verifier::ext_equal]
pub struct CertificateView {
    pub epoch: Epoch,
    pub item: ItemView,
    pub certificate: Seq<u8>,
}

impl CertificateView {
    /// The number of the position that is certified.
    pub open spec fn position(self) -> u64 {
        self.item.position.0
    }
}

impl View for Certificate {
    type V = CertificateView;

    open spec fn view(&self) -> CertificateView {
        CertificateView {
            epoch: self.epoch,
            item: self.item@,
            certificate: self.certificate@,
        }
    }
}

impl Clone for Certificate {
    fn clone(&self) -> (copy: Self)
        ensures
            copy@ == self@,
    {
        Certificate {
            epoch: self.epoch,
            item: self.item.clone(),
            certificate: copy_bytes(self.certificate.as_slice()),
        }
    }
}

/// Why an acknowledgement from a peer is refused.
#[derive(Debug, PartialEq, Eq)]
pub enum Error {
    /// The position is outside the range, or not live.
    AckPosition(Height),
    /// The peer is not a participant, or not the signer.
    PeerMismatch,
    /// The digest differs from the one proposed locally.
    AckDigest(Height),
    /// The named peer has already acknowledged the position.
    AckDuplicate(String, Height),
    /// The signature does not verify.
    InvalidAckSignature,
}

/// The model of an [`Error`].
pub enum ErrorView {
    AckPosition(Height),
    PeerMismatch,
    AckDigest(Height),
    AckDuplicate(Seq<char>, Height),
    InvalidAckSignature,
}

impl View for Error {
    type V = ErrorView;

    open spec fn view(&self) -> ErrorView {
        match self {
            Error::AckPosition(position) => ErrorView::AckPosition(*position),
            Error::PeerMismatch => ErrorView::PeerMismatch,
            Error::AckDigest(position) => ErrorView::AckDigest(*position),
            Error::AckDuplicate(peer, position) => ErrorView::AckDuplicate(peer@, *position),
            Error::InvalidAckSignature => ErrorView::InvalidAckSignature,
        }
    }
}

impl ErrorView {
    /// The refusals that an honest peer never causes. The others can follow from two nodes being
    /// at different points of the same run.
    pub open spec fn blockable(self) -> bool {
        self is PeerMismatch || self is InvalidAckSignature
    }
}

impl Error {
    /// Whether the peer is to be blocked.
    pub fn blockable(&self) -> (block: bool)
        ensures
            block == self@.blockable(),
    {
        match self {
            Error::PeerMismatch => true,
            Error::InvalidAckSignature => true,
            _ => false,
        }
    }
}

} // verus!
