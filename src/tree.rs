use vstd::prelude::*;
use crate::bytes::{find_byte, first_index, push_range};
use crate::error::ObjectError;
use crate::hash::{hex_of, ObjectHash};
use crate::kind::{kind_name, ObjectKind};
use crate::object::Object;

verus! {

/// One child of a tree: its mode as text, its name as raw bytes (not
/// necessarily UTF-8), and the hash of the object it refers to.
#[derive(Debug)]
pub struct TreeEntry {
    pub mode: Vec<u8>,
    pub name: Vec<u8>,
    pub hash: ObjectHash,
}

/// The mode, name and hash text of an entry.
pub open spec fn entry_view(e: TreeEntry) -> (Seq<u8>, Seq<u8>, Seq<u8>) {
    (e.mode@, e.name@, e.hash@)
}

/// The views of a run of entries.
pub open spec fn entries_view(v: Seq<TreeEntry>) -> Seq<(Seq<u8>, Seq<u8>, Seq<u8>)> {
    v.map_values(|e: TreeEntry| entry_view(e))
}

/// The entries of a tree payload. Each is `"<mode> <name>\0"` followed by a
/// 20-byte raw hash; the payload ends cleanly only between entries.
pub open spec fn decode_tree_spec(p: Seq<u8>) -> Result<
    Seq<(Seq<u8>, Seq<u8>, Seq<u8>)>,
    ObjectError,
>
    decreases p.len(),
{
    if p.len() == 0 {
        Ok(seq![])
    } else {
        match first_index(p, 0) {
            None => Err(ObjectError::TruncatedEntry),
            Some(i) => {
                let mn = p.take(i);
                match first_index(mn, 32) {
                    None => Err(ObjectError::MalformedEntry),
                    Some(sp) => if i < 0 || p.len() < i + 21 {
                        Err(ObjectError::TruncatedEntry)
                    } else {
                        let e = (mn.take(sp), mn.skip(sp + 1), hex_of(p.subrange(i + 1, i + 21)));
                        match decode_tree_spec(p.skip(i + 21)) {
                            Ok(rest) => Ok(seq![e] + rest),
                            Err(x) => Err(x),
                        }
                    },
                }
            },
        }
    }
}

/// `acc` in front of the entries of `r`, or the error of `r`.
pub open spec fn prepend(
    acc: Seq<(Seq<u8>, Seq<u8>, Seq<u8>)>,
    r: Result<Seq<(Seq<u8>, Seq<u8>, Seq<u8>)>, ObjectError>,
) -> Result<Seq<(Seq<u8>, Seq<u8>, Seq<u8>)>, ObjectError> {
    match r {
        Ok(rest) => Ok(acc + rest),
        Err(e) => Err(e),
    }
}

/// The entries of a tree payload, in the order they are stored.
pub fn decode_tree(p: &[u8]) -> (r: Result<Vec<TreeEntry>, ObjectError>)
    ensures
        match r {
            Ok(v) => decode_tree_spec(p@) == Ok::<_, ObjectError>(entries_view(v@)) && forall|
                i: int,
            |
                0 <= i < v@.len() ==> (#[trigger] v@[i]).hash.wf(),
            Err(e) => decode_tree_spec(p@) == Err::<Seq<(Seq<u8>, Seq<u8>, Seq<u8>)>, _>(e),
        },
{
    let mut entries: Vec<TreeEntry> = Vec::new();
    let mut pos: usize = 0;
    assert(p@.skip(0) =~= p@);
    assert(entries_view(entries@) + seq![] =~= seq![]);
    while pos < p.len()
        invariant
            pos <= p@.len(),
            decode_tree_spec(p@) == prepend(entries_view(entries@), decode_tree_spec(p@.skip(pos as int))),
            forall|j: int| 0 <= j < entries@.len() ==> (#[trigger] entries@[j]).hash.wf(),
        decreases p@.len() - pos,
    {
        let ghost q = p@.skip(pos as int);
        assert(p@.subrange(pos as int, p@.len() as int) =~= q);
        let nul = match find_byte(p, pos, p.len(), 0u8) {
            None => return Err(ObjectError::TruncatedEntry),
            Some(i) => i,
        };
        let ghost i = nul - pos;
        assert(p@.subrange(pos as int, nul as int) =~= q.take(i));
        let sp = match find_byte(p, pos, nul, 32u8) {
            None => return Err(ObjectError::MalformedEntry),
            Some(s) => s,
        };
        if p.len() - nul < 21 {
            return Err(ObjectError::TruncatedEntry);
        }
        let mut mode: Vec<u8> = Vec::new();
        push_range(&mut mode, p, pos, sp);
        let mut name: Vec<u8> = Vec::new();
        push_range(&mut name, p, sp + 1, nul);
        let mut raw: Vec<u8> = Vec::new();
        push_range(&mut raw, p, nul + 1, nul + 21);
        let hash = ObjectHash::from_digest(raw.as_slice());
        let ghost mn = q.take(i);
        let ghost spi = sp - pos;
        assert(mode@ =~= mn.take(spi));
        assert(name@ =~= mn.skip(spi + 1));
        assert(raw@ =~= q.subrange(i + 1, i + 21));
        let ghost e = (mode@, name@, hash@);
        let ghost old_view = entries_view(entries@);
        entries.push(TreeEntry { mode, name, hash });
        assert(entries_view(entries@) =~= old_view.push(e));
        assert(q.skip(i + 21) =~= p@.skip(nul + 21));
        proof {
            match decode_tree_spec(p@.skip(nul + 21)) {
                Ok(rest) => {
                    assert(old_view + (seq![e] + rest) =~= old_view.push(e) + rest);
                },
                Err(_) => {},
            }
        }
        pos = nul + 21;
    }
    assert(entries_view(entries@) + seq![] =~= entries_view(entries@));
    Ok(entries)
}

/// The entries of a tree object; `UnsupportedKind` for another kind, and
/// `SizeMismatch` where the payload is not as long as its header declares.
pub fn list_tree(object: &Object) -> (r: Result<Vec<TreeEntry>, ObjectError>)
    ensures
        object.kind != ObjectKind::Tree ==> r == Err::<Vec<TreeEntry>, ObjectError>(
            ObjectError::UnsupportedKind,
        ),
        object.kind == ObjectKind::Tree && object.payload@.len() != object.expected_size ==> r
            == Err::<Vec<TreeEntry>, ObjectError>(ObjectError::SizeMismatch),
        object.kind == ObjectKind::Tree && object.payload@.len() == object.expected_size ==> match r {
            Ok(v) => decode_tree_spec(object.payload@) == Ok::<_, ObjectError>(entries_view(v@))
                && forall|i: int| 0 <= i < v@.len() ==> (#[trigger] v@[i]).hash.wf(),
            Err(e) => decode_tree_spec(object.payload@) == Err::<
                Seq<(Seq<u8>, Seq<u8>, Seq<u8>)>,
                _,
            >(e),
        },
{
    match object.kind {
        ObjectKind::Tree => {
            if object.payload.len() as u64 != object.expected_size {
                return Err(ObjectError::SizeMismatch);
            }
            decode_tree(object.payload.as_slice())
        },
        _ => Err(ObjectError::UnsupportedKind),
    }
}

/// The name-only listing: each entry's raw name on a line of its own.
pub open spec fn name_lines_of(v: Seq<(Seq<u8>, Seq<u8>, Seq<u8>)>) -> Seq<u8>
    decreases v.len(),
{
    if v.len() == 0 {
        seq![]
    } else {
        name_lines_of(v.drop_last()) + v.last().1 + seq![10u8]
    }
}

/// A mode padded on the left with zeros to six digits.
pub open spec fn padded_mode(m: Seq<u8>) -> Seq<u8> {
    if m.len() < 6 {
        Seq::new((6 - m.len()) as nat, |i: int| 48u8) + m
    } else {
        m
    }
}

/// The long listing line of an entry whose object has kind `k`:
/// `"<mode padded to six digits> <kind> <hash>\t<name>\n"`.
pub open spec fn long_line_of(e: (Seq<u8>, Seq<u8>, Seq<u8>), k: ObjectKind) -> Seq<u8> {
    padded_mode(e.0) + seq![32u8] + kind_name(k) + seq![32u8] + e.2 + seq![9u8] + e.1 + seq![10u8]
}

/// The name-only listing of a tree: each name, as raw bytes, then a newline.
pub fn name_lines(entries: &[TreeEntry]) -> (r: Vec<u8>)
    ensures
        r@ == name_lines_of(entries_view(entries@)),
{
    let mut r: Vec<u8> = Vec::new();
    let mut k: usize = 0;
    while k < entries.len()
        invariant
            k <= entries@.len(),
            r@ == name_lines_of(entries_view(entries@.take(k as int))),
        decreases entries@.len() - k,
    {
        let name = &entries[k].name;
        push_range(&mut r, name.as_slice(), 0, name.len());
        r.push(10u8);
        proof {
            let v = entries_view(entries@.take(k + 1));
            assert(v.drop_last() =~= entries_view(entries@.take(k as int)));
            assert(name@.subrange(0, name@.len() as int) =~= name@);
            assert(v.last() == entry_view(entries@[k as int]));
        }
        assert(r@ =~= name_lines_of(entries_view(entries@.take(k + 1))));
        k = k + 1;
    }
    assert(entries@.take(entries@.len() as int) =~= entries@);
    r
}

/// The long listing line of an entry whose object has kind `kind`.
pub fn long_line(entry: &TreeEntry, kind: ObjectKind) -> (r: Vec<u8>)
    ensures
        r@ == long_line_of(entry_view(*entry), kind),
{
    let mut r: Vec<u8> = Vec::new();
    let mut pad: usize = entry.mode.len();
    while pad < 6
        invariant
            entry.mode@.len() <= pad <= 6 || (pad == entry.mode@.len() && pad >= 6),
            r@ == Seq::new((pad - entry.mode@.len()) as nat, |i: int| 48u8),
        decreases 6 - pad,
    {
        r.push(48u8);
        assert(r@ =~= Seq::new((pad + 1 - entry.mode@.len()) as nat, |i: int| 48u8));
        pad = pad + 1;
    }
    assert(r@ + entry.mode@ =~= padded_mode(entry.mode@));
    push_range(&mut r, entry.mode.as_slice(), 0, entry.mode.len());
    r.push(32u8);
    let name = kind.name();
    push_range(&mut r, name.as_slice(), 0, name.len());
    r.push(32u8);
    push_range(&mut r, entry.hash.hex.as_slice(), 0, entry.hash.hex.len());
    r.push(9u8);
    push_range(&mut r, entry.name.as_slice(), 0, entry.name.len());
    r.push(10u8);
    assert(entry.mode@.subrange(0, entry.mode@.len() as int) =~= entry.mode@);
    assert(name@.subrange(0, name@.len() as int) =~= name@);
    assert(entry.hash@.subrange(0, entry.hash@.len() as int) =~= entry.hash@);
    assert(entry.name@.subrange(0, entry.name@.len() as int) =~= entry.name@);
    assert(r@ =~= long_line_of(entry_view(*entry), kind));
    r
}

/// The long listing of a tree: the long line of each entry, where
/// `kinds[i]` is the kind of the object that entry `i` refers to.
pub open spec fn long_lines_of(
    v: Seq<(Seq<u8>, Seq<u8>, Seq<u8>)>,
    kinds: Seq<ObjectKind>,
) -> Seq<u8>
    decreases v.len(),
{
    if v.len() == 0 {
        seq![]
    } else {
        long_lines_of(v.drop_last(), kinds) + long_line_of(v.last(), kinds[v.len() - 1])
    }
}

/// The long listing of a tree, given the kind of each entry's object.
pub fn long_lines(entries: &[TreeEntry], kinds: &[ObjectKind]) -> (r: Vec<u8>)
    requires
        kinds@.len() == entries@.len(),
    ensures
        r@ == long_lines_of(entries_view(entries@), kinds@),
{
    let mut r: Vec<u8> = Vec::new();
    let mut k: usize = 0;
    while k < entries.len()
        invariant
            k <= entries@.len(),
            kinds@.len() == entries@.len(),
            r@ == long_lines_of(entries_view(entries@.take(k as int)), kinds@),
        decreases entries@.len() - k,
    {
        let line = long_line(&entries[k], kinds[k]);
        push_range(&mut r, line.as_slice(), 0, line.len());
        proof {
            let v = entries_view(entries@.take(k + 1));
            assert(v.drop_last() =~= entries_view(entries@.take(k as int)));
            assert(line@.subrange(0, line@.len() as int) =~= line@);
            assert(v.last() == entry_view(entries@[k as int]));
        }
        assert(r@ =~= long_lines_of(entries_view(entries@.take(k + 1)), kinds@));
        k = k + 1;
    }
    assert(entries@.take(entries@.len() as int) =~= entries@);
    r
}

} // verus!
