//! Cache payloads: text, a byte buffer, or a byte stream whose length is
//! declared up front. Buffers are `bytes::Bytes`; a stream is modelled by its
//! chunks, since the policies only ever consume a stream to completion.

use bytes::Bytes;
use vstd::prelude::*;
use vstd::slice::slice_to_vec;
use vstd::string::*;
use vstd::utf8::encode_utf8;

verus! {

#[verifier::external_type_specification]
#[verifier::external_body]
pub struct ExBytes(Bytes);

/// The bytes that a `Bytes` buffer holds.
pub uninterp spec fn bytes_content(b: Bytes) -> Seq<u8>;

/// Relies on `<Bytes as From<Vec<u8>>>::from: the buffer holds exactly the
/// vector's bytes.
#[verifier::external_body]
pub fn bytes_from_vec(v: Vec<u8>) -> (b: Bytes)
    ensures
        bytes_content(b) == v@,
{
    Bytes::from(v)
}

/// Relies on `Bytes::len`: the number of held bytes.
#[verifier::external_body]
pub fn bytes_len(b: &Bytes) -> (n: usize)
    ensures
        n == bytes_content(*b).len(),
{
    b.len()
}

/// Relies on `<Bytes as AsRef<[u8]>>::as_ref`: a slice of the held bytes.
#[verifier::external_body]
pub fn bytes_to_vec(b: &Bytes) -> (v: Vec<u8>)
    ensures
        v@ == bytes_content(*b),
{
    b.as_ref().to_vec()
}

/// One cache payload.
pub enum CacheData {
    TextData(String),
    BytesData(Bytes),
    /// The chunks of a stream and its declared length. A stream without a
    /// declared length cannot be admitted by a size-bounded policy.
    ByteStream(Vec<Bytes>, Option<usize>),
}

/// The bytes of a chunk sequence, joined in order.
pub open spec fn chunks_bytes(cs: Seq<Bytes>) -> Seq<u8>
    decreases cs.len(),
{
    if cs.len() == 0 {
        Seq::empty()
    } else {
        chunks_bytes(cs.drop_last()) + bytes_content(cs.last())
    }
}

/// The payload bytes: text encodes as UTF-8, a stream is its chunks joined.
pub open spec fn spec_data_bytes(d: CacheData) -> Seq<u8> {
    match d {
        CacheData::TextData(s) => encode_utf8(s@),
        CacheData::BytesData(b) => bytes_content(b),
        CacheData::ByteStream(cs, _) => chunks_bytes(cs@),
    }
}

/// The length used for cache accounting: the byte length where the payload
/// is materialised, and the declared length for a stream.
pub open spec fn spec_data_len(d: CacheData) -> Option<nat> {
    match d {
        CacheData::TextData(s) => Some((encode_utf8(s@).len() as usize) as nat),
        CacheData::BytesData(b) => Some(bytes_content(b).len()),
        CacheData::ByteStream(_, sz) => match sz {
            Some(n) => Some(n as nat),
            None => None,
        },
    }
}

impl CacheData {
    /// A payload of raw bytes.
    pub fn from_vec(v: Vec<u8>) -> (r: CacheData)
        ensures
            spec_data_bytes(r) == v@,
            spec_data_len(r) == Some(v@.len()),
    {
        CacheData::BytesData(bytes_from_vec(v))
    }

    /// The accounted length, where one is known.
    pub fn known_len(&self) -> (r: Option<u64>)
        ensures
            match r {
                Some(n) => spec_data_len(*self) == Some(n as nat),
                None => spec_data_len(*self) is None,
            },
    {
        match self {
            CacheData::TextData(s) => Some(s.as_str().len() as u64),
            CacheData::BytesData(b) => Some(bytes_len(b) as u64),
            CacheData::ByteStream(_, sz) => match sz {
                Some(n) => Some(*n as u64),
                None => None,
            },
        }
    }

    /// The payload bytes; a stream is consumed to completion.
    pub fn to_vec(self) -> (r: Vec<u8>)
        ensures
            r@ == spec_data_bytes(self),
    {
        match self {
            CacheData::TextData(s) => slice_to_vec(s.as_str().as_bytes()),
            CacheData::BytesData(b) => bytes_to_vec(&b),
            CacheData::ByteStream(cs, _) => {
                let n = cs.len();
                let mut v: Vec<u8> = Vec::new();
                let mut i: usize = 0;
                proof {
                    assert(chunks_bytes(cs@.take(0)) =~= Seq::<u8>::empty());
                }
                while i < n
                    invariant
                        i <= n,
                        n == cs@.len(),
                        v@ == chunks_bytes(cs@.take(i as int)),
                    decreases n - i,
                {
                    let mut c = bytes_to_vec(&cs[i]);
                    v.append(&mut c);
                    proof {
                        assert(cs@.take(i as int + 1).drop_last() =~= cs@.take(i as int));
                        assert(cs@.take(i as int + 1).last() == cs@[i as int]);
                    }
                    i = i + 1;
                }
                proof {
                    assert(cs@.take(n as int) =~= cs@);
                }
                v
            },
        }
    }
}

impl From<String> for CacheData {
    fn from(s: String) -> (r: CacheData) {
        CacheData::TextData(s)
    }
}

impl vstd::std_specs::convert::FromSpecImpl<String> for CacheData {
    open spec fn obeys_from_spec() -> bool {
        true
    }

    open spec fn from_spec(s: String) -> CacheData {
        CacheData::TextData(s)
    }
}

impl From<Bytes> for CacheData {
    fn from(bytes: Bytes) -> (r: CacheData) {
        CacheData::BytesData(bytes)
    }
}

impl vstd::std_specs::convert::FromSpecImpl<Bytes> for CacheData {
    open spec fn obeys_from_spec() -> bool {
        true
    }

    open spec fn from_spec(bytes: Bytes) -> CacheData {
        CacheData::BytesData(bytes)
    }
}

} // verus!
