//! Content-addressed storage for large values: a value of at least
//! `CAS_MIN_SIZE` bytes is stored once under `cas:{blake3 hash}` and the row
//! keeps only a reference holding the hash.
use vstd::prelude::*;
use crate::value::{Value, ValueView};
use crate::text::{extend_bytes, hex_padded, hex_spec};

verus! {

/// Minimum size (in bytes) for content-addressed storage
pub const CAS_MIN_SIZE: usize = 1024;

/// The BLAKE3 hash of the data, as `blake3::hash` computes it.
pub uninterp spec fn blake3_digest(data: Seq<u8>) -> Seq<u8>;

/// `blake3::hash(data)` as 32 bytes.
#[verifier::external_body]
fn blake3_hash(data: &[u8]) -> (r: [u8; 32])
    ensures
        r@ == blake3_digest(data@),
{
    blake3::hash(data).into()
}

/// The two lower-case hexadecimal digits of each byte, in order.
pub open spec fn hex_of_bytes(b: Seq<u8>) -> Seq<char>
    decreases b.len(),
{
    if b.len() == 0 {
        Seq::empty()
    } else {
        hex_of_bytes(b.drop_last()) + hex_spec(b.last() as nat, 2)
    }
}

/// Hex encoding for display purposes
pub fn encode(bytes: &[u8]) -> (r: String)
    ensures
        r@ == hex_of_bytes(bytes@),
{
    let mut r = String::new();
    let mut i: usize = 0;
    while i < bytes.len()
        invariant
            i <= bytes@.len(),
            r@ == hex_of_bytes(bytes@.subrange(0, i as int)),
        decreases bytes@.len() - i,
    {
        let ghost r0 = r@;
        let h = hex_padded(bytes[i] as u64, 2);
        r = r.concat(h.as_str());
        proof {
            let s = bytes@.subrange(0, i + 1);
            assert(s.drop_last() =~= bytes@.subrange(0, i as int));
            assert(s.last() == bytes@[i as int]);
        }
        i = i + 1;
    }
    proof {
        assert(bytes@.subrange(0, i as int) =~= bytes@);
    }
    r
}

/// The storage key of content with the given hash: `cas:` and the 32 hash bytes.
pub open spec fn cas_key_spec(hash: Seq<u8>) -> Seq<u8> {
    seq![99u8, 97u8, 115u8, 58u8] + hash
}

/// The bytes a value offers for content-addressed storage: those of text or
/// raw bytes; none for other values.
pub open spec fn payload_of(v: ValueView) -> Option<Seq<u8>> {
    match v {
        ValueView::String(s) => Some(vstd::utf8::encode_utf8(s)),
        ValueView::Bytes(b) => Some(b),
        _ => None,
    }
}

/// What storing a value in content-addressed storage amounts to: the key to
/// store under, the bytes to store there, and the reference the row keeps.
#[derive(Debug, Clone)]
pub struct CasEntry {
    /// `cas:{hash}`
    pub key: Vec<u8>,
    /// The content
    pub payload: Vec<u8>,
    /// The reference to keep in place of the value
    pub reference: Value,
}

/// Errors of content-addressed storage
#[derive(Debug, Clone)]
pub enum CasError {
    /// A failure, with its message
    Storage(String),
}

/// Content-addressed storage manager
pub struct ContentAddressedStore;

impl ContentAddressedStore {
    /// Build the key for a content hash: `cas:{32-byte-hash}`
    pub fn cas_key(hash: &[u8; 32]) -> (r: Vec<u8>)
        ensures
            r@ == cas_key_spec(hash@),
    {
        let mut key: Vec<u8> = Vec::new();
        key.push(99u8);
        key.push(97u8);
        key.push(115u8);
        key.push(58u8);
        extend_bytes(&mut key, hash.as_slice());
        proof {
            assert(key@ =~= cas_key_spec(hash@));
        }
        key
    }

    /// The entry for content: its key, the content, and the reference.
    fn entry_for(bytes: &[u8]) -> (e: CasEntry)
        ensures
            e.key@ == cas_key_spec(blake3_digest(bytes@)),
            e.payload@ == bytes@,
            e.reference@ == ValueView::CasRef(blake3_digest(bytes@)),
    {
        let hash = blake3_hash(bytes);
        let key = Self::cas_key(&hash);
        CasEntry { key, payload: crate::art_node::bytes_to_vec(bytes), reference: Value::CasRef { hash } }
    }

    /// What storing a value would do if it is large enough (text or bytes of
    /// at least `CAS_MIN_SIZE` bytes); `None` means the value stays inline.
    pub fn maybe_store_entry(value: &Value) -> (r: Option<CasEntry>)
        ensures
            r is Some <==> (payload_of(value@) matches Some(p) && p.len() >= CAS_MIN_SIZE),
            r matches Some(e) ==> payload_of(value@) == Some(e.payload@) && e.key@ == cas_key_spec(blake3_digest(e.payload@))
                && e.reference@ == ValueView::CasRef(blake3_digest(e.payload@)),
    {
        match value {
            Value::String(s) => {
                let b = s.as_str().as_bytes();
                if b.len() >= CAS_MIN_SIZE {
                    Some(Self::entry_for(b))
                } else {
                    None
                }
            },
            Value::Bytes(b) => {
                if b.len() >= CAS_MIN_SIZE {
                    Some(Self::entry_for(b.as_slice()))
                } else {
                    None
                }
            },
            _ => None,
        }
    }

    /// What storing a value unconditionally would do: an entry for text or
    /// bytes, nothing for null, an error for any other value.
    pub fn store_entry(value: &Value) -> (r: Result<Option<CasEntry>, CasError>)
        ensures
            r matches Ok(None) <==> value@ is Null,
            r is Err <==> payload_of(value@) is None && !(value@ is Null),
            r matches Ok(Some(e)) ==> payload_of(value@) == Some(e.payload@) && e.key@ == cas_key_spec(blake3_digest(e.payload@))
                && e.reference@ == ValueView::CasRef(blake3_digest(e.payload@)),
            r matches Err(CasError::Storage(m)) ==> m@ == "CAS only supports String and Bytes types"@,
    {
        match value {
            Value::String(s) => Ok(Some(Self::entry_for(s.as_str().as_bytes()))),
            Value::Bytes(b) => Ok(Some(Self::entry_for(b.as_slice()))),
            Value::Null => Ok(None),
            _ => Err(CasError::Storage(String::from_str("CAS only supports String and Bytes types"))),
        }
    }

    /// Compute the hash for a value without storing it (text and bytes only)
    pub fn compute_hash(value: &Value) -> (r: Option<[u8; 32]>)
        ensures
            r is Some <==> payload_of(value@) is Some,
            r matches Some(h) ==> payload_of(value@) matches Some(p) && h@ == blake3_digest(p),
    {
        match value {
            Value::String(s) => Some(blake3_hash(s.as_str().as_bytes())),
            Value::Bytes(b) => Some(blake3_hash(b.as_slice())),
            _ => None,
        }
    }

    /// Turn stored content back into a value: text (when `as_text`, which
    /// must be UTF-8) or raw bytes.
    pub fn resolve_bytes(bytes: Vec<u8>, as_text: bool) -> (r: Result<Value, CasError>)
        ensures
            !as_text ==> (r matches Ok(v) && v@ == ValueView::Bytes(bytes@)),
            as_text ==> (r is Ok <==> vstd::utf8::valid_utf8(bytes@)),
            as_text ==> (r matches Ok(v) ==> v@ == ValueView::String(vstd::utf8::decode_utf8(bytes@))),
            r matches Err(CasError::Storage(m)) ==> "CAS value not valid UTF-8: "@.is_prefix_of(m@),
    {
        if as_text {
            match crate::branch::utf8_string(bytes) {
                Ok(s) => Ok(Value::String(s)),
                Err(e) => Err(CasError::Storage(String::from_str("CAS value not valid UTF-8: ").concat(e.as_str()))),
            }
        } else {
            Ok(Value::Bytes(bytes))
        }
    }
}

/// The same content always gets the same key and reference: storing equal
/// bytes twice is stored once.
pub proof fn law_cas_deduplicates(a: Seq<u8>, b: Seq<u8>)
    requires
        a == b,
    ensures
        cas_key_spec(blake3_digest(a)) == cas_key_spec(blake3_digest(b)),
{
}

} // verus!
