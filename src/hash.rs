use vstd::prelude::*;
use sha1::Digest;

verus! {

/// The lowercase hex digit for a value below 16.
pub open spec fn hex_digit(v: int) -> u8 {
    if v < 10 {
        (48 + v) as u8
    } else {
        (87 + v) as u8
    }
}

/// Whether `c` is a lowercase hex digit.
pub open spec fn is_hex_digit(c: u8) -> bool {
    (48 <= c <= 57) || (97 <= c <= 102)
}

/// Two lowercase hex digits for each byte, high nibble first.
pub open spec fn hex_of(b: Seq<u8>) -> Seq<u8> {
    Seq::new(
        2 * b.len(),
        |i: int|
            hex_digit(
                if i % 2 == 0 {
                    b[i / 2] as int / 16
                } else {
                    b[i / 2] as int % 16
                },
            ),
    )
}

/// The 20-byte SHA-1 digest of `data`.
pub uninterp spec fn sha1_of(data: Seq<u8>) -> Seq<u8>;

/// Whether `h` is a 40-digit lowercase hex rendering of a digest.
pub open spec fn is_hash_text(h: Seq<u8>) -> bool {
    h.len() == 40 && forall|i: int| 0 <= i < 40 ==> is_hex_digit(#[trigger] h[i])
}

/// Where an object with hash text `h` is stored, below the repository
/// root: `objects/<first two digits>/<other 38 digits>`.
pub open spec fn loose_path_of(h: Seq<u8>) -> Seq<u8> {
    seq![111u8, 98u8, 106u8, 101u8, 99u8, 116u8, 115u8, 47u8] + h.take(2) + seq![47u8] + h.skip(2)
}

/// Relies on `hex::encode`: two lowercase hex digits for each byte, high
/// nibble first.
#[verifier::external_body]
fn hex_encode(b: &[u8]) -> (r: Vec<u8>)
    ensures
        r@ == hex_of(b@),
{
    hex::encode(b).into_bytes()
}

/// Relies on `sha1::Sha1::digest`: the SHA-1 digest of `data`, 20 bytes.
#[verifier::external_body]
fn sha1_digest(data: &[u8]) -> (r: Vec<u8>)
    ensures
        r@ == sha1_of(data@),
        r@.len() == 20,
{
    sha1::Sha1::digest(data).to_vec()
}

proof fn lemma_hex_of_digits(b: Seq<u8>)
    ensures
        hex_of(b).len() == 2 * b.len(),
        forall|i: int| 0 <= i < hex_of(b).len() ==> is_hex_digit(#[trigger] hex_of(b)[i]),
{
    assert forall|i: int| 0 <= i < hex_of(b).len() implies is_hex_digit(#[trigger] hex_of(b)[i]) by {
        let v = b[i / 2] as int;
        assert(0 <= v / 16 < 16 && 0 <= v % 16 < 16);
    }
}

/// The name of an object: the SHA-1 digest of its header and payload, as
/// 40 lowercase hex digits.
#[derive(Debug)]
pub struct ObjectHash {
    pub hex: Vec<u8>,
}

impl View for ObjectHash {
    type V = Seq<u8>;

    open spec fn view(&self) -> Seq<u8> {
        self.hex@
    }
}

impl ObjectHash {
    /// Holds 40 lowercase hex digits.
    pub open spec fn wf(&self) -> bool {
        is_hash_text(self@)
    }

    /// The hash that names the bytes `data`.
    pub fn of_bytes(data: &[u8]) -> (r: ObjectHash)
        ensures
            r@ == hex_of(sha1_of(data@)),
            r.wf(),
    {
        let d = sha1_digest(data);
        ObjectHash::from_digest(&d)
    }

    /// The hash whose raw digest is the 20 bytes `d`.
    pub fn from_digest(d: &[u8]) -> (r: ObjectHash)
        requires
            d@.len() == 20,
        ensures
            r@ == hex_of(d@),
            r.wf(),
    {
        proof {
            lemma_hex_of_digits(d@);
        }
        ObjectHash { hex: hex_encode(d) }
    }

    /// Reads a hash from its text: `Some` exactly when `s` is 40 lowercase
    /// hex digits.
    pub fn parse(s: &[u8]) -> (r: Option<ObjectHash>)
        ensures
            r matches Some(h) ==> h@ == s@ && h.wf(),
            r is None ==> !is_hash_text(s@),
    {
        if s.len() != 40 {
            return None;
        }
        let mut hex: Vec<u8> = Vec::new();
        let mut i: usize = 0;
        while i < 40
            invariant
                s@.len() == 40,
                0 <= i <= 40,
                hex@ == s@.take(i as int),
                forall|j: int| 0 <= j < i ==> is_hex_digit(#[trigger] s@[j]),
            decreases 40 - i,
        {
            let c = s[i];
            if !((48u8 <= c && c <= 57u8) || (97u8 <= c && c <= 102u8)) {
                assert(!is_hex_digit(s@[i as int]));
                return None;
            }
            hex.push(c);
            assert(s@.take(i + 1) =~= s@.take(i as int).push(c));
            i = i + 1;
        }
        assert(s@.take(40) =~= s@);
        Some(ObjectHash { hex })
    }

    /// The 40 hex digits of this hash.
    pub fn to_hex(&self) -> (r: Vec<u8>)
        ensures
            r@ == self@,
    {
        let mut r: Vec<u8> = Vec::new();
        crate::bytes::push_range(&mut r, self.hex.as_slice(), 0, self.hex.len());
        assert(self.hex@.subrange(0, self.hex@.len() as int) =~= self.hex@);
        r
    }

    /// Where this object is stored below the repository root:
    /// `objects/<first two digits>/<other 38 digits>`.
    pub fn loose_path(&self) -> (r: Vec<u8>)
        requires
            self.wf(),
        ensures
            r@ == loose_path_of(self@),
    {
        let mut r: Vec<u8> = vec![111u8, 98u8, 106u8, 101u8, 99u8, 116u8, 115u8, 47u8];
        crate::bytes::push_range(&mut r, self.hex.as_slice(), 0, 2);
        r.push(47u8);
        crate::bytes::push_range(&mut r, self.hex.as_slice(), 2, 40);
        assert(self@.subrange(0, 2) =~= self@.take(2));
        assert(self@.subrange(2, 40) =~= self@.skip(2));
        assert(r@ =~= loose_path_of(self@));
        r
    }
}

} // verus!
