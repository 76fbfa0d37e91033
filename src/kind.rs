use vstd::prelude::*;
use crate::bytes::range_equals;

verus! {

/// The three kinds of object the store holds.
#[derive(Debug, Clone, Copy, PartialEq, Eq, Structural)]
pub enum ObjectKind {
    Blob,
    Tree,
    Commit,
}

/// The ASCII name of a kind, as it stands in an object's header.
pub open spec fn kind_name(k: ObjectKind) -> Seq<u8> {
    match k {
        ObjectKind::Blob => seq![98u8, 108u8, 111u8, 98u8],
        ObjectKind::Tree => seq![116u8, 114u8, 101u8, 101u8],
        ObjectKind::Commit => seq![99u8, 111u8, 109u8, 109u8, 105u8, 116u8],
    }
}

/// The kind whose name is `s`, if any.
pub open spec fn kind_of_name(s: Seq<u8>) -> Option<ObjectKind> {
    if s == kind_name(ObjectKind::Blob) {
        Some(ObjectKind::Blob)
    } else if s == kind_name(ObjectKind::Tree) {
        Some(ObjectKind::Tree)
    } else if s == kind_name(ObjectKind::Commit) {
        Some(ObjectKind::Commit)
    } else {
        None
    }
}

/// Reading back the name of a kind gives the kind.
pub proof fn lemma_kind_name_round_trip(k: ObjectKind)
    ensures
        kind_of_name(kind_name(k)) == Some(k),
{
    assert(kind_name(ObjectKind::Blob) != kind_name(ObjectKind::Tree)) by {
        assert(kind_name(ObjectKind::Blob)[0] != kind_name(ObjectKind::Tree)[0]);
    }
    assert(kind_name(ObjectKind::Blob) != kind_name(ObjectKind::Commit));
    assert(kind_name(ObjectKind::Tree) != kind_name(ObjectKind::Commit));
}

impl ObjectKind {
    /// The name of this kind: `blob`, `tree` or `commit`.
    pub fn name(&self) -> (r: Vec<u8>)
        ensures
            r@ == kind_name(*self),
    {
        let r = match self {
            ObjectKind::Blob => vec![98u8, 108u8, 111u8, 98u8],
            ObjectKind::Tree => vec![116u8, 114u8, 101u8, 101u8],
            ObjectKind::Commit => vec![99u8, 111u8, 109u8, 109u8, 105u8, 116u8],
        };
        assert(r@ =~= kind_name(*self));
        r
    }

    /// The kind named by `s[from..to]`, if it names one.
    pub fn from_name_range(s: &[u8], from: usize, to: usize) -> (r: Option<ObjectKind>)
        requires
            from <= to <= s@.len(),
        ensures
            r == kind_of_name(s@.subrange(from as int, to as int)),
    {
        let blob = ObjectKind::Blob.name();
        let tree = ObjectKind::Tree.name();
        let commit = ObjectKind::Commit.name();
        if range_equals(s, from, to, blob.as_slice()) {
            Some(ObjectKind::Blob)
        } else if range_equals(s, from, to, tree.as_slice()) {
            Some(ObjectKind::Tree)
        } else if range_equals(s, from, to, commit.as_slice()) {
            Some(ObjectKind::Commit)
        } else {
            None
        }
    }

    /// The kind named by `s`, if it names one.
    pub fn from_name(s: &[u8]) -> (r: Option<ObjectKind>)
        ensures
            r == kind_of_name(s@),
    {
        assert(s@.subrange(0, s@.len() as int) =~= s@);
        ObjectKind::from_name_range(s, 0, s.len())
    }
}

} // verus!
