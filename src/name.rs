use vstd::prelude::*;

verus! {

pub const SLASH: u8 = 47;

/// A byte that may stand anywhere in a reference name.
pub open spec fn allowed_byte(b: u8) -> bool {
    33 <= b && b != 127 && b != 126 && b != 94 && b != 58 && b != 63 && b != 42 && b != 91 && b
        != 92
}

/// Name syntax: non-empty, no leading or trailing slash, no empty component,
/// no `..`, and no space, control or glob character.
pub open spec fn valid_name(p: Seq<u8>) -> bool {
    &&& p.len() > 0
    &&& p[0] != SLASH
    &&& p[p.len() - 1] != SLASH
    &&& forall|i: int| 0 <= i < p.len() ==> allowed_byte(#[trigger] p[i])
    &&& forall|i: int|
        0 <= i < p.len() - 1 ==> !(#[trigger] p[i] == SLASH && p[i + 1] == SLASH) && !(p[i] == 46
            && p[i + 1] == 46)
}

/// Check the syntax of a partial or full reference name.
pub fn is_valid_name(p: &[u8]) -> (r: bool)
    ensures
        r == valid_name(p@),
{
    let n = p.len();
    if n == 0 || p[0] == SLASH || p[n - 1] == SLASH {
        return false;
    }
    let mut i: usize = 0;
    while i < n
        invariant
            n == p@.len(),
            n > 0,
            0 <= i <= n,
            forall|k: int| 0 <= k < i ==> allowed_byte(#[trigger] p@[k]),
            forall|k: int|
                0 <= k < i && k < n - 1 ==> !(#[trigger] p@[k] == SLASH && p@[k + 1] == SLASH) && !(
                p@[k] == 46 && p@[k + 1] == 46),
        decreases n - i,
    {
        let b = p[i];
        if !(33 <= b && b != 127 && b != 126 && b != 94 && b != 58 && b != 63 && b != 42 && b != 91
            && b != 92) {
            assert(!allowed_byte(p@[i as int]));
            return false;
        }
        if i + 1 < n {
            let c = p[i + 1];
            if (b == SLASH && c == SLASH) || (b == 46 && c == 46) {
                assert(p@[i as int] == b && p@[i + 1] == c);
                return false;
            }
        }
        i += 1;
    }
    true
}

pub open spec fn refs_word() -> Seq<u8> {
    seq![114u8, 101u8, 102u8, 115u8]
}

pub open spec fn tags_word() -> Seq<u8> {
    seq![116u8, 97u8, 103u8, 115u8]
}

pub open spec fn heads_word() -> Seq<u8> {
    seq![104u8, 101u8, 97u8, 100u8, 115u8]
}

pub open spec fn remotes_word() -> Seq<u8> {
    seq![114u8, 101u8, 109u8, 111u8, 116u8, 101u8, 115u8]
}

pub open spec fn head_word() -> Seq<u8> {
    seq![72u8, 69u8, 65u8, 68u8]
}

/// Path join with `/`, where an empty side contributes nothing.
pub open spec fn join(a: Seq<u8>, b: Seq<u8>) -> Seq<u8> {
    if a.len() == 0 {
        b
    } else if b.len() == 0 {
        a
    } else {
        a + seq![SLASH] + b
    }
}

/// The first component of `p` is `refs`.
pub open spec fn starts_with_refs(p: Seq<u8>) -> bool {
    p == refs_word() || (p.len() > 4 && p.subrange(0, 5) == refs_word().push(SLASH))
}

/// What goes in front of `p` so that the candidate lies beneath `refs`.
pub open spec fn refs_base(p: Seq<u8>) -> Seq<u8> {
    if starts_with_refs(p) {
        Seq::empty()
    } else {
        refs_word()
    }
}

/// A single component made only of upper-case letters and underscores, like `HEAD`.
pub open spec fn is_special_name(p: Seq<u8>) -> bool {
    p.len() > 0 && forall|i: int|
        0 <= i < p.len() ==> (65 <= #[trigger] p[i] <= 90 || p[i] == 95)
}

/// One path that a lookup tries, and whether the packed table backs it up.
#[derive(Debug)]
pub struct Candidate {
    pub path: Vec<u8>,
    pub packed_fallback: bool,
}

impl View for Candidate {
    type V = (Seq<u8>, bool);

    open spec fn view(&self) -> (Seq<u8>, bool) {
        (self.path@, self.packed_fallback)
    }
}

/// The candidate `refs/<inbetween>/<p>`, with `refs` only where `p` lacks it.
pub open spec fn prefixed(inbetween: Seq<u8>, p: Seq<u8>) -> Seq<u8> {
    join(join(refs_base(p), inbetween), p)
}

/// The fixed order in which the paths for a partial name are tried.
pub open spec fn candidates(p: Seq<u8>) -> Seq<(Seq<u8>, bool)> {
    let special: Seq<(Seq<u8>, bool)> = if is_special_name(p) {
        seq![(p, false)]
    } else {
        Seq::empty()
    };
    special + seq![
        (prefixed(Seq::empty(), p), true),
        (prefixed(tags_word(), p), true),
        (prefixed(heads_word(), p), true),
        (prefixed(remotes_word(), p), true),
        (prefixed(remotes_word(), join(p, head_word())), false),
    ]
}

fn append(v: &mut Vec<u8>, b: &[u8])
    ensures
        final(v)@ == old(v)@ + b@,
{
    let mut i: usize = 0;
    while i < b.len()
        invariant
            0 <= i <= b@.len(),
            v@ == old(v)@ + b@.subrange(0, i as int),
        decreases b@.len() - i,
    {
        v.push(b[i]);
        i += 1;
        assert(b@.subrange(0, i as int) =~= b@.subrange(0, i - 1).push(b@[i - 1]));
    }
    assert(b@.subrange(0, i as int) =~= b@);
}

/// Join two paths with `/`.
pub fn join_paths(a: &[u8], b: &[u8]) -> (r: Vec<u8>)
    ensures
        r@ == join(a@, b@),
{
    let mut v: Vec<u8> = Vec::new();
    append(&mut v, a);
    if a.len() > 0 && b.len() > 0 {
        v.push(SLASH);
    }
    append(&mut v, b);
    assert(v@ =~= join(a@, b@));
    v
}

fn refs_bytes() -> (r: Vec<u8>)
    ensures
        r@ == refs_word(),
{
    let r = vec![114u8, 101u8, 102u8, 115u8];
    assert(r@ =~= refs_word());
    r
}

fn begins_with_refs(p: &[u8]) -> (r: bool)
    ensures
        r == starts_with_refs(p@),
{
    let n = p.len();
    let head = n >= 4 && p[0] == 114 && p[1] == 101 && p[2] == 102 && p[3] == 115;
    if !head {
        proof {
            if p@ == refs_word() {
                assert(p@[0] == 114 && p@[1] == 101 && p@[2] == 102 && p@[3] == 115);
            }
            if p@.len() > 4 && p@.subrange(0, 5) == refs_word().push(SLASH) {
                let q = p@.subrange(0, 5);
                assert(q[0] == 114 && q[1] == 101 && q[2] == 102 && q[3] == 115);
            }
        }
        return false;
    }
    if n == 4 {
        assert(p@ =~= refs_word());
        true
    } else if p[4] == SLASH {
        assert(p@.subrange(0, 5) =~= refs_word().push(SLASH));
        true
    } else {
        assert(p@.subrange(0, 5)[4] != SLASH);
        assert(p@ != refs_word());
        false
    }
}

fn is_special(p: &[u8]) -> (r: bool)
    ensures
        r == is_special_name(p@),
{
    if p.len() == 0 {
        return false;
    }
    let mut i: usize = 0;
    while i < p.len()
        invariant
            0 <= i <= p@.len(),
            forall|k: int| 0 <= k < i ==> (65 <= #[trigger] p@[k] <= 90 || p@[k] == 95),
        decreases p@.len() - i,
    {
        if !((65 <= p[i] && p[i] <= 90) || p[i] == 95) {
            return false;
        }
        i += 1;
    }
    true
}

fn prefixed_path(inbetween: &[u8], p: &[u8]) -> (r: Vec<u8>)
    ensures
        r@ == prefixed(inbetween@, p@),
{
    let base: Vec<u8> = if begins_with_refs(p) {
        Vec::new()
    } else {
        refs_bytes()
    };
    assert(base@ =~= refs_base(p@));
    let first = join_paths(base.as_slice(), inbetween);
    join_paths(first.as_slice(), p)
}

/// The paths to try for the partial name `p`, in order of precedence.
pub fn lookup_candidates(p: &[u8]) -> (r: Vec<Candidate>)
    ensures
        r@.map_values(|c: Candidate| c@) == candidates(p@),
{
    let mut v: Vec<Candidate> = Vec::new();
    if is_special(p) {
        v.push(Candidate { path: crate::oid::copy_bytes(p), packed_fallback: false });
    }
    let empty: Vec<u8> = Vec::new();
    let tags = vec![116u8, 97u8, 103u8, 115u8];
    let heads = vec![104u8, 101u8, 97u8, 100u8, 115u8];
    let remotes = vec![114u8, 101u8, 109u8, 111u8, 116u8, 101u8, 115u8];
    let head = vec![72u8, 69u8, 65u8, 68u8];
    assert(empty@ =~= Seq::<u8>::empty());
    assert(tags@ =~= tags_word());
    assert(heads@ =~= heads_word());
    assert(remotes@ =~= remotes_word());
    assert(head@ =~= head_word());
    v.push(Candidate { path: prefixed_path(empty.as_slice(), p), packed_fallback: true });
    v.push(Candidate { path: prefixed_path(tags.as_slice(), p), packed_fallback: true });
    v.push(Candidate { path: prefixed_path(heads.as_slice(), p), packed_fallback: true });
    v.push(Candidate { path: prefixed_path(remotes.as_slice(), p), packed_fallback: true });
    let remote_head = join_paths(p, head.as_slice());
    v.push(
        Candidate {
            path: prefixed_path(remotes.as_slice(), remote_head.as_slice()),
            packed_fallback: false,
        },
    );
    assert(v@.map_values(|c: Candidate| c@) =~= candidates(p@));
    v
}

} // verus!
