use blake2::digest::{Update, VariableOutput};
use vstd::prelude::*;
use vstd::utf8::{decode_utf8, encode_utf8, valid_utf8};

use crate::codec::{hex_encode, hex_encoded};
use crate::error::BridgeContractError;

verus! {

/// The fewest UTF-8 bytes an address may have.
pub const MIN_ADDRESS_LEN: usize = 20;

/// The most UTF-8 bytes an address may have.
pub const MAX_ADDRESS_LEN: usize = 128;

/// The 32-byte BLAKE2b digest of a byte sequence.
pub uninterp spec fn blake2b_256(b: Seq<u8>) -> Seq<u8>;

/// The digest that identifies an address: BLAKE2b-256 of its UTF-8 bytes.
pub open spec fn identity_digest(s: Seq<char>) -> Seq<u8> {
    blake2b_256(encode_utf8(s))
}

/// Whether an address has an accepted length in UTF-8 bytes.
pub open spec fn valid_address(s: Seq<char>) -> bool {
    MIN_ADDRESS_LEN <= encode_utf8(s).len() <= MAX_ADDRESS_LEN
}

/// Relies on core::str::from_utf8: it accepts exactly the well-formed UTF-8
/// byte sequences and yields the characters they encode.
#[verifier::external_body]
fn utf8_text(b: &[u8]) -> (r: Option<String>)
    ensures
        (r is Some) == valid_utf8(b@),
        r matches Some(s) ==> s@ == decode_utf8(b@),
{
    core::str::from_utf8(b).ok().map(|s| s.to_string())
}

/// An address of any chain, kept as written, with the digest that identifies it.
#[derive(Debug, Clone)]
pub struct MultiChainAddrHash {
    digest: [u8; 32],
    address_str: String,
}

impl MultiChainAddrHash {
    /// The identifying digest.
    pub closed spec fn digest_view(&self) -> Seq<u8> {
        self.digest@
    }

    /// A digest has 32 bytes.
    pub proof fn lemma_digest_len(&self)
        ensures
            self.digest_view().len() == 32,
    {
    }

    /// The identifying digest.
    pub fn digest(&self) -> (r: &[u8; 32])
        ensures
            r@ == self.digest_view(),
    {
        &self.digest
    }

    /// The address as it was written.
    pub closed spec fn text(&self) -> Seq<char> {
        self.address_str@
    }

    /// Relies on blake2::Blake2bVar with a 32-byte output: the digest depends
    /// on the bytes alone.
    #[verifier::external_body]
    pub fn make_hash(b: &[u8]) -> (r: [u8; 32])
        ensures
            r@ == blake2b_256(b@),
    {
        let mut hasher = blake2::Blake2bVar::new(32).unwrap();
        hasher.update(b);
        let mut buf = [0u8; 32];
        hasher.finalize_variable(&mut buf).unwrap();
        buf
    }

    /// The identity of an address, which must have between `MIN_ADDRESS_LEN`
    /// and `MAX_ADDRESS_LEN` UTF-8 bytes.
    pub fn from(addr: String) -> (r: Result<Self, BridgeContractError>)
        ensures
            valid_address(addr@) ==> (r matches Ok(a) && a.text() == addr@ && a.digest_view()
                == identity_digest(addr@)),
            !valid_address(addr@) ==> r == Err::<Self, BridgeContractError>(
                BridgeContractError::InvalidAddressFormat,
            ),
    {
        let n = addr.as_str().as_bytes().len();
        if n < MIN_ADDRESS_LEN || n > MAX_ADDRESS_LEN {
            return Err(BridgeContractError::InvalidAddressFormat);
        }
        let digest = Self::make_hash(addr.as_str().as_bytes());
        Ok(MultiChainAddrHash { digest, address_str: addr })
    }

    /// The identity of an address given as UTF-8 bytes.
    pub fn from_bytes(b: &[u8]) -> (r: Result<Self, BridgeContractError>)
        ensures
            !valid_utf8(b@) ==> r == Err::<Self, BridgeContractError>(
                BridgeContractError::InvalidEncoding,
            ),
            valid_utf8(b@) && valid_address(decode_utf8(b@)) ==> (r matches Ok(a) && a.text()
                == decode_utf8(b@) && a.digest_view() == identity_digest(decode_utf8(b@))),
            valid_utf8(b@) && !valid_address(decode_utf8(b@)) ==> r == Err::<
                Self,
                BridgeContractError,
            >(BridgeContractError::InvalidAddressFormat),
    {
        match utf8_text(b) {
            None => Err(BridgeContractError::InvalidEncoding),
            Some(s) => Self::from(s),
        }
    }

    /// The digest as 64 lowercase hexadecimal digits.
    pub fn to_string_digest(&self) -> (r: String)
        ensures
            r@ == hex_encoded(self.digest_view()),
    {
        hex_encode(self.digest.as_slice())
    }

    /// The address as it was written.
    pub fn to_string(&self) -> (r: String)
        ensures
            r@ == self.text(),
    {
        self.address_str.clone()
    }

    /// The same identity, held a second time.
    pub fn duplicate(&self) -> (r: Self)
        ensures
            r.digest_view() == self.digest_view(),
            r.text() == self.text(),
    {
        MultiChainAddrHash { digest: self.digest, address_str: self.address_str.clone() }
    }

    /// Whether two identities have the same digest.
    pub fn same_identity(&self, other: &Self) -> (r: bool)
        ensures
            r == (self.digest_view() == other.digest_view()),
    {
        let mut i: usize = 0;
        while i < 32
            invariant
                i <= 32,
                forall|j: int| 0 <= j < i ==> self.digest@[j] == other.digest@[j],
            decreases 32 - i,
        {
            if self.digest[i] != other.digest[i] {
                assert(self.digest@[i as int] != other.digest@[i as int]);
                return false;
            }
            i = i + 1;
        }
        assert(self.digest@ =~= other.digest@);
        true
    }
}

impl PartialEq for MultiChainAddrHash {
    /// Identities are equal when their digests are.
    fn eq(&self, other: &Self) -> (r: bool) {
        self.same_identity(other)
    }
}

impl vstd::std_specs::cmp::PartialEqSpecImpl for MultiChainAddrHash {
    open spec fn obeys_eq_spec() -> bool {
        true
    }

    open spec fn eq_spec(&self, other: &Self) -> bool {
        self.digest_view() == other.digest_view()
    }
}

/// One address gives one identity: the digest is a function of the text.
pub proof fn lemma_same_text_same_identity(a: MultiChainAddrHash, b: MultiChainAddrHash, s1: Seq<char>, s2: Seq<char>)
    requires
        a.digest_view() == identity_digest(s1),
        b.digest_view() == identity_digest(s2),
        s1 == s2,
    ensures
        a.digest_view() == b.digest_view(),
{
}

} // verus!
