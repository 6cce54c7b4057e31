use vstd::prelude::*;

use crate::oid::{hex_decoded, is_full_hex, ObjectId};

verus! {

/// What a reference points at.
#[derive(Debug)]
pub enum Target {
    /// An object, by its identifier.
    Peeled(ObjectId),
    /// Another reference, by its full name.
    Symbolic(Vec<u8>),
}

pub enum TargetView {
    Peeled(Seq<u8>),
    Symbolic(Seq<u8>),
}

impl View for Target {
    type V = TargetView;

    open spec fn view(&self) -> TargetView {
        match self {
            Target::Peeled(id) => TargetView::Peeled(id@),
            Target::Symbolic(name) => TargetView::Symbolic(name@),
        }
    }
}

impl Target {
    pub fn duplicate(&self) -> (r: Target)
        ensures
            r@ == self@,
    {
        match self {
            Target::Peeled(id) => Target::Peeled(id.duplicate()),
            Target::Symbolic(name) => Target::Symbolic(crate::oid::copy_bytes(name.as_slice())),
        }
    }

    /// The object this target names directly, if it is peeled.
    pub fn as_id(&self) -> (r: Option<&ObjectId>)
        ensures
            match self@ {
                TargetView::Peeled(id) => r is Some && r->0@ == id,
                TargetView::Symbolic(_) => r is None,
            },
    {
        match self {
            Target::Peeled(id) => Some(id),
            Target::Symbolic(_) => None,
        }
    }
}

/// A full name bound to its target.
#[derive(Debug)]
pub struct Reference {
    pub name: Vec<u8>,
    pub target: Target,
}

pub struct ReferenceView {
    pub name: Seq<u8>,
    pub target: TargetView,
}

impl View for Reference {
    type V = ReferenceView;

    open spec fn view(&self) -> ReferenceView {
        ReferenceView { name: self.name@, target: self.target@ }
    }
}

impl Reference {
    pub fn duplicate(&self) -> (r: Reference)
        ensures
            r@ == self@,
    {
        Reference { name: crate::oid::copy_bytes(self.name.as_slice()), target: self.target.duplicate() }
    }
}

pub open spec fn is_space(b: u8) -> bool {
    b == 10 || b == 13 || b == 32 || b == 9
}

/// `c` without its trailing white space.
pub open spec fn trim_end(c: Seq<u8>) -> Seq<u8>
    decreases c.len(),
{
    if c.len() > 0 && is_space(c.last()) {
        trim_end(c.drop_last())
    } else {
        c
    }
}

/// `ref: `, which opens the content of a symbolic reference.
pub open spec fn symbolic_marker() -> Seq<u8> {
    seq![114u8, 101u8, 102u8, 58u8, 32u8]
}

/// What the content of a loose reference file says: `ref: <name>` for a symbolic
/// reference, the hexadecimal identifier for a peeled one, each with optional
/// trailing white space; `None` for anything else.
pub open spec fn decoded(c: Seq<u8>) -> Option<TargetView> {
    let t = trim_end(c);
    if t.len() > 5 && t.subrange(0, 5) == symbolic_marker() {
        Some(TargetView::Symbolic(t.subrange(5, t.len() as int)))
    } else if is_full_hex(t) {
        Some(TargetView::Peeled(hex_decoded(t)))
    } else {
        None
    }
}

pub fn copy_range(c: &[u8], from: usize, to: usize) -> (r: Vec<u8>)
    requires
        from <= to <= c@.len(),
    ensures
        r@ == c@.subrange(from as int, to as int),
{
    let mut v: Vec<u8> = Vec::new();
    let mut i: usize = from;
    while i < to
        invariant
            from <= i <= to,
            to <= c@.len(),
            v@ == c@.subrange(from as int, i as int),
        decreases to - i,
    {
        v.push(c[i]);
        i += 1;
        assert(v@ =~= c@.subrange(from as int, i as int));
    }
    v
}

/// Interpret the content of a loose reference file.
pub fn decode_target(c: &[u8]) -> (r: Option<Target>)
    ensures
        match r {
            Some(t) => decoded(c@) == Some(t@),
            None => decoded(c@) is None,
        },
{
    let mut end: usize = c.len();
    assert(c@.subrange(0, end as int) =~= c@);
    while end > 0 && (c[end - 1] == 10 || c[end - 1] == 13 || c[end - 1] == 32 || c[end - 1] == 9)
        invariant
            end <= c@.len(),
            trim_end(c@) == trim_end(c@.subrange(0, end as int)),
        decreases end,
    {
        assert(c@.subrange(0, end as int).drop_last() =~= c@.subrange(0, end - 1));
        end -= 1;
    }
    let t = copy_range(c, 0, end);
    assert(trim_end(t@) == t@);
    if end > 5 && t[0] == 114 && t[1] == 101 && t[2] == 102 && t[3] == 58 && t[4] == 32 {
        assert(t@.subrange(0, 5) =~= symbolic_marker());
        let name = copy_range(t.as_slice(), 5, end);
        return Some(Target::Symbolic(name));
    }
    proof {
        if t@.len() > 5 && t@.subrange(0, 5) == symbolic_marker() {
            let q = t@.subrange(0, 5);
            assert(q[0] == 114 && q[1] == 101 && q[2] == 102 && q[3] == 58 && q[4] == 32);
        }
    }
    match ObjectId::from_hex(t.as_slice()) {
        Some(id) => Some(Target::Peeled(id)),
        None => None,
    }
}

} // verus!
