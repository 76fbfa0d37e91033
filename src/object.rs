use vstd::prelude::*;
use crate::bytes::{find_byte, first_index, lemma_first_index, lemma_first_index_found, push_range};
use crate::error::ObjectError;
use crate::hash::{hex_of, loose_path_of, sha1_of, ObjectHash};
use crate::header::{encode_header, header_bytes, lemma_header_round_trip, parse_header, parse_header_spec};
use crate::kind::ObjectKind;
use crate::zlib::{deflate, inflate_prefix, prefix_up_to, zlib_inflated};

verus! {

/// Decompressed objects up to this many bytes are read exactly as
/// `decode_object` says; the search for a header gives up at this length.
pub const MAX_HEADER_WINDOW: u64 = 0x100_0000_0000;

/// The bytes of an object before compression: its header, then its payload.
pub open spec fn object_bytes_of(kind: ObjectKind, payload: Seq<u8>) -> Seq<u8> {
    header_bytes(kind, payload.len()) + payload
}

/// The name of the object of the given kind and payload.
pub open spec fn object_hash_of(kind: ObjectKind, payload: Seq<u8>) -> Seq<u8> {
    hex_of(sha1_of(object_bytes_of(kind, payload)))
}

/// What a decompressed object holds: its kind, the size its header declares,
/// and the payload bytes that follow the header, never more than that size.
pub open spec fn decode_object(s: Seq<u8>) -> Result<(ObjectKind, u64, Seq<u8>), ObjectError> {
    match parse_header_spec(s) {
        Err(e) => Err(e),
        Ok((k, n, end)) => Ok((k, n, prefix_up_to(s.skip(end), n as int))),
    }
}

/// An object read from the store, with its payload bounded by the size that
/// its header declares.
#[derive(Debug)]
pub struct Object {
    pub kind: ObjectKind,
    pub expected_size: u64,
    pub payload: Vec<u8>,
}

/// An object ready to be stored: its name and its compressed bytes.
#[derive(Debug)]
pub struct EncodedObject {
    pub hash: ObjectHash,
    pub compressed: Vec<u8>,
}

/// The kind, declared size and payload of a read result.
pub open spec fn read_view(r: Result<Object, ObjectError>) -> Result<
    (ObjectKind, u64, Seq<u8>),
    ObjectError,
> {
    match r {
        Ok(o) => Ok((o.kind, o.expected_size, o.payload@)),
        Err(e) => Err(e),
    }
}

proof fn lemma_header_in_prefix(s: Seq<u8>, t: Seq<u8>, i: int)
    requires
        first_index(s, 0) == Some(i),
        i < t.len() <= s.len(),
        t == s.take(t.len() as int),
    ensures
        parse_header_spec(t) == parse_header_spec(s),
{
    lemma_first_index_found(s, 0);
    lemma_first_index(t, 0, i);
    assert(t.take(i) =~= s.take(i));
}

proof fn lemma_first_nul_of_prefix(s: Seq<u8>, t: Seq<u8>, i: int)
    requires
        t.len() <= s.len(),
        t == s.take(t.len() as int),
        first_index(t, 0) == Some(i),
    ensures
        first_index(s, 0) == Some(i),
{
    lemma_first_index_found(t, 0);
    assert forall|j: int| 0 <= j <= i implies s[j] == t[j] by {}
    lemma_first_index(s, 0, i);
}

impl Object {
    /// Reads an object out of its decompressed bytes.
    pub fn from_decompressed(s: &[u8]) -> (r: Result<Object, ObjectError>)
        ensures
            read_view(r) == decode_object(s@),
    {
        let (kind, size, end) = match parse_header(s) {
            Err(e) => return Err(e),
            Ok(h) => h,
        };
        proof {
            lemma_first_index_found(s@, 0);
        }
        let to: usize = if size >= (s.len() - end) as u64 {
            s.len()
        } else {
            end + size as usize
        };
        let mut payload: Vec<u8> = Vec::new();
        push_range(&mut payload, s, end, to);
        assert(payload@ =~= prefix_up_to(s@.skip(end as int), size as int));
        Ok(Object { kind, expected_size: size, payload })
    }

    /// Reads an object out of the compressed bytes of a loose object file.
    /// The decompressed stream is read only as far as the header and the
    /// declared size reach.
    pub fn read(compressed: &[u8]) -> (r: Result<Object, ObjectError>)
        ensures
            zlib_inflated(compressed@) is Some && zlib_inflated(compressed@)->Some_0.len()
                < MAX_HEADER_WINDOW ==> read_view(r) == decode_object(
                zlib_inflated(compressed@)->Some_0,
            ),
            r == Err::<Object, ObjectError>(ObjectError::DecompressionError) ==> zlib_inflated(
                compressed@,
            ) is None,
            r is Ok ==> r->Ok_0.payload@.len() <= r->Ok_0.expected_size,
            r is Ok && r->Ok_0.payload@.len() < r->Ok_0.expected_size && r->Ok_0.payload@.len()
                < MAX_HEADER_WINDOW ==> zlib_inflated(compressed@) is Some,
    {
        let ghost full = zlib_inflated(compressed@);
        let mut window: u64 = 64;
        loop
            invariant
                64 <= window <= MAX_HEADER_WINDOW,
                full == zlib_inflated(compressed@),
            decreases MAX_HEADER_WINDOW - window,
        {
            let out = match inflate_prefix(compressed, window) {
                None => return Err(ObjectError::DecompressionError),
                Some(o) => o,
            };
            match find_byte(out.as_slice(), 0, out.len(), 0u8) {
                Some(i) => {
                    assert(out@.subrange(0, out@.len() as int) =~= out@);
                    proof {
                        if full is Some {
                            let s = full->Some_0;
                            assert(out@ == prefix_up_to(s, window as int));
                            if s.len() <= window {
                                assert(out@ =~= s.take(out@.len() as int));
                            } else {
                                assert(out@ =~= s.take(out@.len() as int));
                            }
                            lemma_first_nul_of_prefix(s, out@, i as int);
                            lemma_header_in_prefix(s, out@, i as int);
                        }
                    }
                    let (_kind, size, end) = match parse_header(out.as_slice()) {
                        Err(e) => return Err(e),
                        Ok(h) => h,
                    };
                    let limit: u64 = match (end as u64).checked_add(size) {
                        Some(l) => l,
                        None => u64::MAX,
                    };
                    let bounded = match inflate_prefix(compressed, limit) {
                        None => return Err(ObjectError::DecompressionError),
                        Some(b) => b,
                    };
                    proof {
                        lemma_first_index_found(out@, 0);
                        if full is Some {
                            let s = full->Some_0;
                            assert(out@ =~= s.take(out@.len() as int));
                            lemma_first_nul_of_prefix(s, out@, i as int);
                            assert(bounded@ =~= s.take(bounded@.len() as int));
                            lemma_header_in_prefix(s, bounded@, i as int);
                        }
                    }
                    match parse_header(bounded.as_slice()) {
                        Ok((_k, size2, end2)) => {
                            if size2 != size || end2 != end {
                                return Err(ObjectError::DecompressionError);
                            }
                        },
                        Err(_) => return Err(ObjectError::DecompressionError),
                    }
                    proof {
                        lemma_first_index_found(bounded@, 0);
                        if full is Some {
                            let s = full->Some_0;
                            if s.len() < MAX_HEADER_WINDOW {
                                assert(prefix_up_to(bounded@.skip(end as int), size as int)
                                    =~= prefix_up_to(s.skip(end as int), size as int));
                            }
                        }
                        let p = prefix_up_to(bounded@.skip(end as int), size as int);
                        if p.len() < size && p.len() < MAX_HEADER_WINDOW {
                            assert(bounded@.len() < limit);
                        }
                    }
                    return Object::from_decompressed(bounded.as_slice());
                },
                None => {
                    assert(out@.subrange(0, out@.len() as int) =~= out@);
                    if (out.len() as u64) < window {
                        proof {
                            if full is Some {
                                lemma_first_index_found(out@, 0);
                                lemma_first_index(full->Some_0, 0, out@.len() as int);
                            }
                        }
                        return Err(ObjectError::MalformedHeader);
                    }
                    if window >= MAX_HEADER_WINDOW {
                        proof {
                            if full is Some {
                                assert(out@ == prefix_up_to(full->Some_0, window as int));
                            }
                        }
                        return Err(ObjectError::MalformedHeader);
                    }
                    window = if window > MAX_HEADER_WINDOW / 2 {
                        MAX_HEADER_WINDOW
                    } else {
                        window * 2
                    };
                },
            }
        }
    }

    /// The whole payload, where as many bytes came as the header declares;
    /// else `TruncatedPayload`.
    pub fn full_payload(&self) -> (r: Result<Vec<u8>, ObjectError>)
        ensures
            self.payload@.len() == self.expected_size ==> r is Ok && r->Ok_0@ == self.payload@,
            self.payload@.len() != self.expected_size ==> r == Err::<Vec<u8>, ObjectError>(
                ObjectError::TruncatedPayload,
            ),
    {
        if self.payload.len() as u64 != self.expected_size {
            return Err(ObjectError::TruncatedPayload);
        }
        let mut r: Vec<u8> = Vec::new();
        push_range(&mut r, self.payload.as_slice(), 0, self.payload.len());
        assert(self.payload@.subrange(0, self.payload@.len() as int) =~= self.payload@);
        Ok(r)
    }
}

/// The contents of a blob for printing: `UnsupportedKind` for another kind,
/// `SizeMismatch` where the payload is not as long as its header declares.
pub fn blob_contents(object: &Object) -> (r: Result<Vec<u8>, ObjectError>)
    ensures
        object.kind != ObjectKind::Blob ==> r == Err::<Vec<u8>, ObjectError>(
            ObjectError::UnsupportedKind,
        ),
        object.kind == ObjectKind::Blob && object.payload@.len() != object.expected_size ==> r
            == Err::<Vec<u8>, ObjectError>(ObjectError::SizeMismatch),
        object.kind == ObjectKind::Blob && object.payload@.len() == object.expected_size ==> r
            is Ok && r->Ok_0@ == object.payload@,
{
    match object.kind {
        ObjectKind::Blob => match object.full_payload() {
            Ok(p) => Ok(p),
            Err(_) => Err(ObjectError::SizeMismatch),
        },
        _ => Err(ObjectError::UnsupportedKind),
    }
}

/// The bytes of an object before compression: `"<kind> <size>\0"`, then the
/// payload.
pub fn object_bytes(kind: ObjectKind, payload: &[u8]) -> (r: Vec<u8>)
    ensures
        r@ == object_bytes_of(kind, payload@),
{
    let mut r = encode_header(kind, payload.len() as u64);
    push_range(&mut r, payload, 0, payload.len());
    assert(payload@.subrange(0, payload@.len() as int) =~= payload@);
    r
}

/// The name that the object of this kind and payload has, without storing it.
pub fn hash_object(kind: ObjectKind, payload: &[u8]) -> (r: ObjectHash)
    ensures
        r@ == object_hash_of(kind, payload@),
        r.wf(),
{
    let bytes = object_bytes(kind, payload);
    ObjectHash::of_bytes(bytes.as_slice())
}

/// The name of the object of this kind and payload, and its compressed
/// bytes as they are stored. The header and payload are hashed as they are,
/// before compression.
pub fn encode_object(kind: ObjectKind, payload: &[u8]) -> (r: EncodedObject)
    ensures
        r.hash@ == object_hash_of(kind, payload@),
        r.hash.wf(),
        zlib_inflated(r.compressed@) == Some(object_bytes_of(kind, payload@)),
{
    let bytes = object_bytes(kind, payload);
    let hash = ObjectHash::of_bytes(bytes.as_slice());
    let compressed = deflate(bytes.as_slice());
    EncodedObject { hash, compressed }
}

/// An object's bytes read back as the same kind, its payload's length as the
/// declared size, and the same payload.
pub proof fn lemma_round_trip(kind: ObjectKind, payload: Seq<u8>)
    requires
        payload.len() <= u64::MAX,
    ensures
        decode_object(object_bytes_of(kind, payload)) == Ok::<
            (ObjectKind, u64, Seq<u8>),
            ObjectError,
        >((kind, payload.len() as u64, payload)),
{
    let h = header_bytes(kind, payload.len());
    lemma_header_round_trip(kind, payload.len() as u64, payload);
    assert((h + payload).skip(h.len() as int) =~= payload);
}

/// Storing the same kind and payload twice gives the same name and the same
/// file, so the second write replaces the first with identical bytes.
pub proof fn lemma_dedup(kind: ObjectKind, p1: Seq<u8>, p2: Seq<u8>)
    requires
        p1 == p2,
    ensures
        object_hash_of(kind, p1) == object_hash_of(kind, p2),
        loose_path_of(object_hash_of(kind, p1)) == loose_path_of(object_hash_of(kind, p2)),
        object_bytes_of(kind, p1) == object_bytes_of(kind, p2),
{
}

/// Reading yields exactly the declared number of payload bytes where more
/// follow the header, and fewer only where the stream ends first.
pub proof fn lemma_size_enforced(s: Seq<u8>)
    requires
        decode_object(s) is Ok,
    ensures
        ({
            let (k, n, p) = decode_object(s)->Ok_0;
            let end = parse_header_spec(s)->Ok_0.2;
            &&& p.len() <= n
            &&& p == s.subrange(end, end + p.len())
            &&& (p.len() == n <==> s.len() >= end + n)
        }),
{
    let end = parse_header_spec(s)->Ok_0.2;
    lemma_first_index_found(s, 0);
    let n = parse_header_spec(s)->Ok_0.1;
    let p = decode_object(s)->Ok_0.2;
    assert(p =~= s.subrange(end, end + p.len()));
}

} // verus!
