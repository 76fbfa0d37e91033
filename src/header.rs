use vstd::prelude::*;
use crate::bytes::{find_byte, first_index, lemma_first_index, lemma_first_index_found};
use crate::error::ObjectError;
use crate::kind::{kind_name, kind_of_name, lemma_kind_name_round_trip, ObjectKind};

verus! {

/// Whether `b` is an ASCII decimal digit.
pub open spec fn is_digit(b: u8) -> bool {
    48 <= b <= 57
}

/// Whether `s` is a nonempty run of ASCII decimal digits.
pub open spec fn is_digit_run(s: Seq<u8>) -> bool {
    s.len() > 0 && forall|i: int| 0 <= i < s.len() ==> is_digit(#[trigger] s[i])
}

/// The number that a run of decimal digits denotes.
pub open spec fn digits_value(s: Seq<u8>) -> nat
    decreases s.len(),
{
    if s.len() == 0 {
        0
    } else {
        digits_value(s.drop_last()) * 10 + (s.last() - 48) as nat
    }
}

/// The shortest decimal rendering of `n`.
pub open spec fn decimal(n: nat) -> Seq<u8>
    decreases n,
{
    if n < 10 {
        seq![(48 + n) as u8]
    } else {
        decimal(n / 10).push((48 + n % 10) as u8)
    }
}

/// The header that precedes a payload of `size` bytes: `"<kind> <size>\0"`.
pub open spec fn header_bytes(kind: ObjectKind, size: nat) -> Seq<u8> {
    kind_name(kind) + seq![32u8] + decimal(size) + seq![0u8]
}

/// What the text of a header (the bytes before its NUL) declares.
pub open spec fn parse_header_text(h: Seq<u8>) -> Result<(ObjectKind, u64), ObjectError> {
    match first_index(h, 32) {
        None => Err(ObjectError::MalformedHeader),
        Some(sp) => match kind_of_name(h.take(sp)) {
            None => Err(ObjectError::UnknownKind),
            Some(k) => {
                let d = h.skip(sp + 1);
                if is_digit_run(d) && digits_value(d) <= u64::MAX {
                    Ok((k, digits_value(d) as u64))
                } else {
                    Err(ObjectError::InvalidSize)
                }
            },
        },
    }
}

/// What the header at the start of a decompressed object declares, and
/// where its payload begins.
pub open spec fn parse_header_spec(s: Seq<u8>) -> Result<(ObjectKind, u64, int), ObjectError> {
    match first_index(s, 0) {
        None => Err(ObjectError::MalformedHeader),
        Some(i) => match parse_header_text(s.take(i)) {
            Err(e) => Err(e),
            Ok((k, n)) => Ok((k, n, i + 1)),
        },
    }
}

/// Whether `h` reads `"<blob|tree|commit> <digits>"`.
pub open spec fn header_text_well_formed(h: Seq<u8>) -> bool {
    exists|k: ObjectKind, d: Seq<u8>| is_digit_run(d) && h == kind_name(k) + seq![32u8] + d
}

proof fn lemma_decimal_digits(n: nat)
    ensures
        is_digit_run(decimal(n)),
        digits_value(decimal(n)) == n,
        first_index(decimal(n), 32) is None,
        first_index(decimal(n), 0) is None,
    decreases n,
{
    if n >= 10 {
        lemma_decimal_digits(n / 10);
        assert(decimal(n).drop_last() =~= decimal(n / 10));
        assert(n == (n / 10) * 10 + n % 10) by (nonlinear_arith);
        assert(decimal(n).last() == (48 + n % 10) as u8);
        assert(decimal(n).last() - 48 == n % 10);
        assert(digits_value(decimal(n)) == digits_value(decimal(n / 10)) * 10 + (decimal(n).last() - 48) as nat);
    } else {
        assert(digits_value(decimal(n)) == digits_value(decimal(n).drop_last()) * 10 + (decimal(n).last() - 48) as nat);
        assert(decimal(n).drop_last() =~= Seq::<u8>::empty());
    }
    let d = decimal(n);
    assert forall|j: int| 0 <= j < d.len() implies d[j] != 32 && d[j] != 0 by {
        assert(is_digit(d[j]));
    }
    lemma_first_index(d, 32, d.len() as int);
    lemma_first_index(d, 0, d.len() as int);
}

proof fn lemma_digits_prefix_bound(s: Seq<u8>, j: int)
    requires
        0 <= j <= s.len(),
        forall|i: int| 0 <= i < s.len() ==> is_digit(#[trigger] s[i]),
    ensures
        digits_value(s.take(j)) <= digits_value(s),
    decreases s.len(),
{
    if j < s.len() {
        assert(s.drop_last().take(j) =~= s.take(j));
        lemma_digits_prefix_bound(s.drop_last(), j);
    } else {
        assert(s.take(j) =~= s);
    }
}

/// Appends the decimal rendering of `n` to `out`.
pub fn push_decimal(out: &mut Vec<u8>, n: u64)
    ensures
        final(out)@ == old(out)@ + decimal(n as nat),
    decreases n,
{
    if n >= 10 {
        push_decimal(out, n / 10);
    }
    out.push(48u8 + (n % 10) as u8);
    proof {
        if n >= 10 {
            assert(decimal(n as nat) == decimal((n / 10) as nat).push((48 + n % 10) as u8));
        }
    }
    assert(final(out)@ =~= old(out)@ + decimal(n as nat));
}

/// The header for a payload of `size` bytes of the given kind.
pub fn encode_header(kind: ObjectKind, size: u64) -> (r: Vec<u8>)
    ensures
        r@ == header_bytes(kind, size as nat),
{
    let mut r = kind.name();
    r.push(32u8);
    push_decimal(&mut r, size);
    r.push(0u8);
    assert(r@ =~= header_bytes(kind, size as nat));
    r
}

/// Reads `s[from..to]` as a run of decimal digits that fits in a `u64`.
fn parse_size(s: &[u8], from: usize, to: usize) -> (r: Option<u64>)
    requires
        from <= to <= s@.len(),
    ensures
        ({
            let d = s@.subrange(from as int, to as int);
            r == (if is_digit_run(d) && digits_value(d) <= u64::MAX {
                Some(digits_value(d) as u64)
            } else {
                None::<u64>
            })
        }),
{
    let ghost d = s@.subrange(from as int, to as int);
    if from == to {
        return None;
    }
    let mut acc: u64 = 0;
    let mut i: usize = from;
    while i < to
        invariant
            from <= i <= to <= s@.len(),
            d == s@.subrange(from as int, to as int),
            forall|j: int| 0 <= j < i - from ==> is_digit(#[trigger] d[j]),
            acc as nat == digits_value(d.take(i - from)),
        decreases to - i,
    {
        let c = s[i];
        if c < 48u8 || c > 57u8 {
            assert(!is_digit(d[i - from]));
            return None;
        }
        let digit = (c - 48u8) as u64;
        assert(d.take(i - from + 1).drop_last() =~= d.take(i - from));
        if acc > (u64::MAX - digit) / 10 {
            proof {
                assert(acc * 10 + digit > u64::MAX) by (nonlinear_arith)
                    requires acc > (u64::MAX - digit) / 10, digit <= 9;
                if forall|j: int| 0 <= j < d.len() ==> is_digit(#[trigger] d[j]) {
                    lemma_digits_prefix_bound(d, i - from + 1);
                }
            }
            return None;
        }
        acc = acc * 10 + digit;
        i = i + 1;
    }
    assert(d.take(to - from) =~= d);
    Some(acc)
}

/// Reads the header at the start of a decompressed object: the kind, the
/// declared payload size, and the index just past the header's NUL.
pub fn parse_header(s: &[u8]) -> (r: Result<(ObjectKind, u64, usize), ObjectError>)
    ensures
        match r {
            Ok((k, n, end)) => parse_header_spec(s@) == Ok::<(ObjectKind, u64, int), ObjectError>(
                (k, n, end as int),
            ),
            Err(e) => parse_header_spec(s@) == Err::<(ObjectKind, u64, int), ObjectError>(e),
        },
{
    let nul = match find_byte(s, 0, s.len(), 0u8) {
        None => {
            assert(s@.subrange(0, s@.len() as int) =~= s@);
            return Err(ObjectError::MalformedHeader);
        },
        Some(i) => i,
    };
    assert(s@.subrange(0, s@.len() as int) =~= s@);
    let ghost h = s@.take(nul as int);
    assert(s@.subrange(0, nul as int) =~= h);
    let sp = match find_byte(s, 0, nul, 32u8) {
        None => return Err(ObjectError::MalformedHeader),
        Some(i) => i,
    };
    assert(s@.subrange(0, sp as int) =~= h.take(sp as int));
    let kind = match ObjectKind::from_name_range(s, 0, sp) {
        None => return Err(ObjectError::UnknownKind),
        Some(k) => k,
    };
    assert(s@.subrange(sp + 1, nul as int) =~= h.skip(sp + 1));
    match parse_size(s, sp + 1, nul) {
        None => Err(ObjectError::InvalidSize),
        Some(n) => Ok((kind, n, nul + 1)),
    }
}

/// A header whose text reads `"<blob|tree|commit> <digits>"` is accepted,
/// whatever payload follows it, where the digits denote a size that fits in
/// a `u64`.
pub proof fn lemma_well_formed_header_accepted(kind: ObjectKind, d: Seq<u8>, payload: Seq<u8>)
    requires
        is_digit_run(d),
        digits_value(d) <= u64::MAX,
    ensures
        ({
            let h = kind_name(kind) + seq![32u8] + d;
            parse_header_spec(h + seq![0u8] + payload) == Ok::<
                (ObjectKind, u64, int),
                ObjectError,
            >((kind, digits_value(d) as u64, h.len() as int + 1))
        }),
{
    let name = kind_name(kind);
    let h = name + seq![32u8] + d;
    let s = h + seq![0u8] + payload;
    lemma_kind_name_round_trip(kind);
    assert forall|j: int| 0 <= j < h.len() implies s[j] != 0 by {
        if j > name.len() {
            assert(s[j] == d[j - name.len() - 1]);
            assert(is_digit(d[j - name.len() - 1]));
        }
    }
    assert(s[h.len() as int] == 0);
    lemma_first_index(s, 0, h.len() as int);
    assert(s.take(h.len() as int) =~= h);
    assert(h[name.len() as int] == 32);
    lemma_first_index(h, 32, name.len() as int);
    assert(h.take(name.len() as int) =~= name);
    assert(h.skip(name.len() as int + 1) =~= d);
}

/// A header that `encode_header` writes reads back as the same kind and size,
/// whatever payload follows it.
pub proof fn lemma_header_round_trip(kind: ObjectKind, size: u64, payload: Seq<u8>)
    ensures
        parse_header_spec(header_bytes(kind, size as nat) + payload) == Ok::<
            (ObjectKind, u64, int),
            ObjectError,
        >((kind, size, header_bytes(kind, size as nat).len() as int)),
{
    let d = decimal(size as nat);
    lemma_decimal_digits(size as nat);
    lemma_well_formed_header_accepted(kind, d, payload);
    assert(header_bytes(kind, size as nat) + payload =~= kind_name(kind) + seq![32u8] + d
        + seq![0u8] + payload);
}

/// A header is accepted only when its text reads `"<blob|tree|commit> <digits>"`.
pub proof fn lemma_accepted_header_well_formed(s: Seq<u8>)
    requires
        parse_header_spec(s) is Ok,
    ensures
        ({
            let end = parse_header_spec(s)->Ok_0.2;
            &&& 0 < end <= s.len()
            &&& s[end - 1] == 0
            &&& header_text_well_formed(s.take(end - 1))
        }),
{
    lemma_first_index_found(s, 0);
    let i = first_index(s, 0)->Some_0;
    let h = s.take(i);
    lemma_first_index_found(h, 32);
    let sp = first_index(h, 32)->Some_0;
    let k = kind_of_name(h.take(sp))->Some_0;
    let d = h.skip(sp + 1);
    assert(h.take(sp) == kind_name(k));
    assert(h =~= kind_name(k) + seq![32u8] + d);
}

} // verus!
