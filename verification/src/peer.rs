//! Peer identities.

use vstd::prelude::*;

use crate::collections::Ident;
use crate::wire::{copy_bytes, same_bytes};

verus! {

/// A peer identifier: the multihash bytes of the peer's public key.
#[derive(Debug, Clone)]
pub struct PeerId {
    pub bytes: Vec<u8>,
}

impl View for PeerId {
    type V = Seq<u8>;

    open spec fn view(&self) -> Seq<u8> {
        self.bytes@
    }
}

impl Ident for PeerId {
    fn same(&self, other: &Self) -> (r: bool) {
        same_bytes(self.bytes.as_slice(), other.bytes.as_slice())
    }

    fn dup(&self) -> (r: Self) {
        PeerId { bytes: copy_bytes(self.bytes.as_slice()) }
    }
}

/// A multihash whose code and length take one byte each, as those of every peer with a key do.
pub open spec fn is_plain_multihash(bytes: Seq<u8>) -> bool {
    bytes.len() >= 2 && bytes[0] < 128 && bytes[1] < 128
}

/// The peer that `libp2p::PeerId::from_str` reads from `text`, as its bytes.
pub uninterp spec fn parsed_peer_id(text: Seq<char>) -> Option<Seq<u8>>;

/// The text that `libp2p::PeerId` has in base 58, for bytes that are a peer identifier.
pub uninterp spec fn peer_id_chars(bytes: Seq<u8>) -> Option<Seq<char>>;

/// The peer of a key pair in the protobuf encoding of `libp2p::identity::Keypair`, as its bytes.
pub uninterp spec fn peer_of_keypair(encoded: Seq<u8>) -> Option<Seq<u8>>;

/// Calls `libp2p::PeerId::from_str`. Claimed: the bytes of what it reads are a function of the text.
#[verifier::external_body]
fn peer_id_from_str(text: &str) -> (id: Option<Vec<u8>>)
    ensures
        id is Some == parsed_peer_id(text@) is Some,
        id matches Some(b) ==> parsed_peer_id(text@) == Some(b@),
{
    match text.parse::<libp2p::PeerId>() {
        Ok(id) => Some(id.to_bytes()),
        Err(_) => None,
    }
}

/// Calls `to_string` of the `libp2p::PeerId` that `from_bytes` makes of `bytes`. Claimed: the text is
/// a function of the bytes, and parsing it gives the bytes back where the multihash is plain.
#[verifier::external_body]
fn peer_id_to_string(bytes: &[u8]) -> (text: Option<String>)
    ensures
        text is Some == peer_id_chars(bytes@) is Some,
        text matches Some(s) ==> peer_id_chars(bytes@) == Some(s@) && (is_plain_multihash(bytes@)
            ==> parsed_peer_id(s@) == Some(bytes@)),
{
    match libp2p::PeerId::from_bytes(bytes) {
        Ok(id) => Some(id.to_string()),
        Err(_) => None,
    }
}

/// Calls `libp2p::identity::Keypair::generate_ed25519`. Claimed: whatever key is drawn, its encoding
/// is that of a key pair with a peer. Which key it is depends on chance.
#[verifier::external_body]
fn generate_ed25519() -> (encoded: Vec<u8>)
    ensures
        peer_of_keypair(encoded@) is Some,
{
    libp2p::identity::Keypair::generate_ed25519()
        .to_protobuf_encoding()
        .expect("an Ed25519 key pair has an encoding")
}

/// Calls `libp2p::PeerId::from` on the public key of an encoded key pair. Claimed: the peer is a
/// function of the encoding, its multihash is plain, and it has a text.
#[verifier::external_body]
fn keypair_to_peer_id(encoded: &[u8]) -> (id: Option<Vec<u8>>)
    ensures
        id is Some == peer_of_keypair(encoded@) is Some,
        id matches Some(b) ==> peer_of_keypair(encoded@) == Some(b@) && is_plain_multihash(b@)
            && peer_id_chars(b@) is Some,
{
    match libp2p::identity::Keypair::from_protobuf_encoding(encoded) {
        Ok(keys) => Some(libp2p::PeerId::from(keys.public()).to_bytes()),
        Err(_) => None,
    }
}

impl PeerId {
    /// The peer that `text` names in base 58, if it names one.
    pub fn parse(text: &str) -> (id: Option<PeerId>)
        ensures
            id is Some == parsed_peer_id(text@) is Some,
            id matches Some(p) ==> parsed_peer_id(text@) == Some(p@),
    {
        match peer_id_from_str(text) {
            Some(bytes) => Some(PeerId { bytes }),
            None => None,
        }
    }

    /// The base 58 text of this peer; `None` where the bytes are no peer identifier.
    pub fn text(&self) -> (text: Option<String>)
        ensures
            text is Some == peer_id_chars(self@) is Some,
            text matches Some(s) ==> peer_id_chars(self@) == Some(s@) && (is_plain_multihash(self@)
                ==> parsed_peer_id(s@) == Some(self@)),
    {
        peer_id_to_string(self.bytes.as_slice())
    }
}

/// A key pair in its protobuf encoding.
pub struct Keypair {
    encoded: Vec<u8>,
}

impl View for Keypair {
    type V = Seq<u8>;

    /// The encoding.
    closed spec fn view(&self) -> Seq<u8> {
        self.encoded@
    }
}

impl Keypair {
    #[verifier::type_invariant]
    spec fn has_peer(&self) -> bool {
        peer_of_keypair(self.encoded@) is Some
    }

    /// The key pair that `encoded` encodes, if it encodes one.
    pub fn from_encoding(encoded: Vec<u8>) -> (keys: Option<Keypair>)
        ensures
            keys is Some == peer_of_keypair(encoded@) is Some,
            keys matches Some(k) ==> k@ == encoded@,
    {
        match keypair_to_peer_id(encoded.as_slice()) {
            Some(_) => Some(Keypair { encoded }),
            None => None,
        }
    }

    /// The encoding of this key pair.
    pub fn encoding(&self) -> (encoded: &[u8])
        ensures
            encoded@ == self@,
            peer_of_keypair(encoded@) is Some,
    {
        proof {
            use_type_invariant(self);
        }
        self.encoded.as_slice()
    }
}

/// Draws a new key pair.
pub fn generate_identity() -> (keys: Keypair)
    ensures
        peer_of_keypair(keys@) is Some,
{
    Keypair { encoded: generate_ed25519() }
}

/// The peer that a key pair belongs to.
pub fn peer_id_from(keys: &Keypair) -> (id: PeerId)
    ensures
        peer_of_keypair(keys@) == Some(id@),
        is_plain_multihash(id@),
        peer_id_chars(id@) is Some,
{
    proof {
        use_type_invariant(keys);
    }
    match keypair_to_peer_id(keys.encoded.as_slice()) {
        Some(bytes) => PeerId { bytes },
        None => vstd::pervasive::unreached(),
    }
}

/// The identity of this node, given the encoding that is kept of it: that key pair, or a new one
/// where none is kept. `None` where what is kept is no key pair.
pub fn node_identity(kept: Option<Vec<u8>>) -> (keys: Option<Keypair>)
    ensures
        match kept {
            Some(encoded) => keys is Some == peer_of_keypair(encoded@) is Some,
            None => keys is Some,
        },
        keys matches Some(k) ==> peer_of_keypair(k@) is Some && (kept matches Some(encoded) ==> k@
            == encoded@),
{
    match kept {
        Some(encoded) => Keypair::from_encoding(encoded),
        None => Some(generate_identity()),
    }
}

/// The identifier of this node, whose identity is `keys`.
pub fn derive_local_peer_id(keys: &Keypair) -> (id: PeerId)
    ensures
        peer_of_keypair(keys@) == Some(id@),
        is_plain_multihash(id@),
        peer_id_chars(id@) is Some,
{
    peer_id_from(keys)
}

/// A node has one identifier: whatever asks for it, of the same identity, gets the same.
pub proof fn a_node_has_one_identifier(keys: Seq<u8>, one: Seq<u8>, other: Seq<u8>)
    requires
        peer_of_keypair(keys) == Some(one),
        peer_of_keypair(keys) == Some(other),
    ensures
        one == other,
{
}

} // verus!
