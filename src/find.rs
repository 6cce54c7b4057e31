use vstd::prelude::*;

use crate::name::{
    candidates, heads_word, is_special_name, is_valid_name, join, join_paths, lookup_candidates, prefixed,
    refs_word, starts_with_refs, tags_word, valid_name, SLASH,
};
use crate::packed::{lookup, Buffer, EntryView};
use crate::reference::{decode_target, decoded, Reference, ReferenceView, Target, TargetView};

verus! {

/// A store of loose references, one file each beneath a base directory.
#[derive(Debug)]
pub struct Store {
    pub base: Vec<u8>,
}

/// What reading one loose reference file gave.
#[derive(Debug)]
pub enum LooseRead {
    /// No such file, or access to it was denied, or it is a directory.
    Missing,
    /// The file's bytes.
    Contents(Vec<u8>),
    /// Any other read failure, described.
    Failed(String),
}

pub enum LooseView {
    Missing,
    Contents(Seq<u8>),
    Failed(Seq<char>),
}

impl View for LooseRead {
    type V = LooseView;

    open spec fn view(&self) -> LooseView {
        match self {
            LooseRead::Missing => LooseView::Missing,
            LooseRead::Contents(c) => LooseView::Contents(c@),
            LooseRead::Failed(m) => LooseView::Failed(m@),
        }
    }
}

/// The error of a lookup.
#[derive(Debug)]
pub enum Error {
    /// The name is not a valid reference name.
    RefnameValidation,
    /// A loose file could not be read in full.
    ReadFileContents(String),
    /// A loose file at this path holds no valid reference.
    ReferenceCreation { relative_path: Vec<u8> },
}

/// The outcome of a lookup, over plain values.
pub enum Outcome {
    Found(ReferenceView),
    Absent,
    InvalidName,
    ReadFailed(Seq<char>),
    Corrupt(Seq<u8>),
}

pub open spec fn outcome(r: Result<Option<Reference>, Error>) -> Outcome {
    match r {
        Ok(Some(x)) => Outcome::Found(x@),
        Ok(None) => Outcome::Absent,
        Err(Error::RefnameValidation) => Outcome::InvalidName,
        Err(Error::ReadFileContents(m)) => Outcome::ReadFailed(m@),
        Err(Error::ReferenceCreation { relative_path }) => Outcome::Corrupt(relative_path@),
    }
}

pub open spec fn packed_view(p: Option<&Buffer>) -> Option<Seq<EntryView>> {
    match p {
        Some(b) => Some(b@),
        None => None,
    }
}

/// What one candidate path gives: a hit, an error, or `Absent` to go on with the next.
pub open spec fn probe(cand: (Seq<u8>, bool), read: LooseView, packed: Option<Seq<EntryView>>) -> Outcome {
    match read {
        LooseView::Failed(m) => Outcome::ReadFailed(m),
        LooseView::Contents(c) => match decoded(c) {
            Some(t) => Outcome::Found(ReferenceView { name: cand.0, target: t }),
            None => Outcome::Corrupt(cand.0),
        },
        LooseView::Missing => if cand.1 && packed is Some && lookup(packed->0, cand.0) is Some {
            Outcome::Found(
                ReferenceView {
                    name: cand.0,
                    target: TargetView::Peeled(lookup(packed->0, cand.0)->0.target),
                },
            )
        } else {
            Outcome::Absent
        },
    }
}

/// The first candidate from `i` on that does not come out `Absent`.
pub open spec fn resolve(
    cands: Seq<(Seq<u8>, bool)>,
    reads: Seq<LooseView>,
    packed: Option<Seq<EntryView>>,
    i: int,
) -> Outcome
    decreases cands.len() - i,
{
    if i < 0 || i >= cands.len() {
        Outcome::Absent
    } else if probe(cands[i], reads[i], packed) is Absent {
        resolve(cands, reads, packed, i + 1)
    } else {
        probe(cands[i], reads[i], packed)
    }
}

/// The outcome of looking up `partial`, where `reads[i]` is what reading the
/// `i`-th candidate path gave.
pub open spec fn find_outcome(
    partial: Seq<u8>,
    reads: Seq<LooseView>,
    packed: Option<Seq<EntryView>>,
) -> Outcome {
    if !valid_name(partial) {
        Outcome::InvalidName
    } else {
        resolve(candidates(partial), reads, packed, 0)
    }
}

pub open spec fn reads_view(reads: Seq<LooseRead>) -> Seq<LooseView> {
    reads.map_values(|r: LooseRead| r@)
}

/// The error of a lookup that requires the reference to exist.
#[derive(Debug)]
pub enum ExistingError {
    /// The lookup itself failed.
    Find(Error),
    /// No reference goes by the partial name given.
    NotFound(Vec<u8>),
}

/// What reading each candidate path of `p` gives, on a tree of loose files
/// described by `fs`.
pub open spec fn reads_from(p: Seq<u8>, fs: spec_fn(Seq<u8>) -> LooseView) -> Seq<LooseView> {
    candidates(p).map_values(|c: (Seq<u8>, bool)| fs(c.0))
}

/// The outcome of looking up `p` on the loose files `fs` and the packed table `packed`.
pub open spec fn find_on(p: Seq<u8>, fs: spec_fn(Seq<u8>) -> LooseView, packed: Option<Seq<EntryView>>) -> Outcome {
    find_outcome(p, reads_from(p, fs), packed)
}

/// `refs/<dir>/<b>`.
pub open spec fn under(dir: Seq<u8>, b: Seq<u8>) -> Seq<u8> {
    join(join(refs_word(), dir), b)
}

proof fn lemma_plain_name_paths(b: Seq<u8>)
    requires
        valid_name(b),
        !starts_with_refs(b),
        !is_special_name(b),
    ensures
        candidates(b).len() == 5,
        candidates(b)[0] == (under(Seq::empty(), b), true),
        candidates(b)[1] == (under(tags_word(), b), true),
        candidates(b)[2] == (under(heads_word(), b), true),
        starts_with_refs(under(heads_word(), b)),
        !is_special_name(under(heads_word(), b)),
        under(heads_word(), b).len() > 0,
        candidates(under(heads_word(), b))[0] == (under(heads_word(), b), true),
{
    let h = under(heads_word(), b);
    assert(join(refs_word(), heads_word()) =~= refs_word() + seq![SLASH] + heads_word());
    assert(h =~= refs_word() + seq![SLASH] + heads_word() + seq![SLASH] + b);
    assert(h.subrange(0, 5) =~= refs_word().push(SLASH));
    assert(h[0] == 114u8);
    assert(join(Seq::empty(), Seq::<u8>::empty()) =~= Seq::<u8>::empty());
    assert(prefixed(Seq::empty(), h) =~= h);
}

/// A branch found by its short name is the branch found by its full name, where
/// no loose file stands at `refs/<b>` or `refs/tags/<b>` and nothing is packed.
pub proof fn lemma_short_name_finds_branch(b: Seq<u8>, fs: spec_fn(Seq<u8>) -> LooseView)
    requires
        valid_name(b),
        !starts_with_refs(b),
        !is_special_name(b),
        fs(under(Seq::empty(), b)) is Missing,
        fs(under(tags_word(), b)) is Missing,
        !(fs(under(heads_word(), b)) is Missing),
        valid_name(under(heads_word(), b)),
    ensures
        find_on(b, fs, None) == find_on(under(heads_word(), b), fs, None),
        find_on(b, fs, None) == probe((under(heads_word(), b), true), fs(under(heads_word(), b)), None),
{
    lemma_plain_name_paths(b);
    let h = under(heads_word(), b);
    let c = candidates(b);
    let r = reads_from(b, fs);
    assert(r[0] == fs(c[0].0));
    assert(r[1] == fs(c[1].0));
    assert(r[2] == fs(c[2].0));
    assert(resolve(c, r, None, 0) == resolve(c, r, None, 1));
    assert(resolve(c, r, None, 1) == resolve(c, r, None, 2));
    let ch = candidates(h);
    let rh = reads_from(h, fs);
    assert(rh[0] == fs(ch[0].0));
}

/// A special upper-case name found as a loose file resolves to that file as
/// it stands, whatever the packed table holds.
pub proof fn lemma_special_name_is_loose_only(
    p: Seq<u8>,
    fs: spec_fn(Seq<u8>) -> LooseView,
    packed: Option<Seq<EntryView>>,
)
    requires
        valid_name(p),
        is_special_name(p),
        fs(p) is Contents,
        decoded(fs(p)->Contents_0) is Some,
    ensures
        find_on(p, fs, packed) == Outcome::Found(
            ReferenceView { name: p, target: decoded(fs(p)->Contents_0)->0 },
        ),
{
    let c = candidates(p);
    assert(c[0] == (p, false));
    assert(reads_from(p, fs)[0] == fs(p));
}

proof fn lemma_resolve_found_name(
    cands: Seq<(Seq<u8>, bool)>,
    reads: Seq<LooseView>,
    packed: Option<Seq<EntryView>>,
    i: int,
)
    requires
        0 <= i,
        resolve(cands, reads, packed, i) is Found,
    ensures
        exists|k: int| i <= k < cands.len() && #[trigger] cands[k].0 == resolve(cands, reads, packed, i)->Found_0.name,
    decreases cands.len() - i,
{
    if probe(cands[i], reads[i], packed) is Absent {
        lemma_resolve_found_name(cands, reads, packed, i + 1);
    } else {
        assert(cands[i].0 == resolve(cands, reads, packed, i)->Found_0.name);
    }
}

/// A special upper-case name with no loose file never resolves to a reference
/// of that name: the packed table is not consulted for it, whatever it holds.
pub proof fn lemma_special_name_skips_packed(
    p: Seq<u8>,
    fs: spec_fn(Seq<u8>) -> LooseView,
    packed: Option<Seq<EntryView>>,
)
    requires
        valid_name(p),
        is_special_name(p),
        fs(p) is Missing,
    ensures
        !(find_on(p, fs, packed) is Found && find_on(p, fs, packed)->Found_0.name == p),
{
    let c = candidates(p);
    let r = reads_from(p, fs);
    assert(c[0] == (p, false));
    assert(r[0] == fs(p));
    assert(resolve(c, r, packed, 0) == resolve(c, r, packed, 1));
    if resolve(c, r, packed, 1) is Found {
        lemma_resolve_found_name(c, r, packed, 1);
        let k = choose|k: int| 1 <= k < c.len() && #[trigger] c[k].0 == resolve(c, r, packed, 1)->Found_0.name;
        assert(!starts_with_refs(p)) by {
            if p.len() > 4 {
                assert(p.subrange(0, 5)[0] == p[0]);
            }
            assert(p[0] != 114u8);
        }
        assert(c[k].0.len() > p.len());
    }
}

/// With no loose file at `refs/<v>` or `refs/tags/<v>`, a tag that only the packed
/// table holds resolves to its packed object.
pub proof fn lemma_packed_fallback(v: Seq<u8>, fs: spec_fn(Seq<u8>) -> LooseView, table: Seq<EntryView>)
    requires
        valid_name(v),
        !starts_with_refs(v),
        !is_special_name(v),
        fs(under(Seq::empty(), v)) is Missing,
        fs(under(tags_word(), v)) is Missing,
        lookup(table, under(Seq::empty(), v)) is None,
        lookup(table, under(tags_word(), v)) is Some,
    ensures
        find_on(v, fs, Some(table)) == Outcome::Found(
            ReferenceView {
                name: under(tags_word(), v),
                target: TargetView::Peeled(lookup(table, under(tags_word(), v))->0.target),
            },
        ),
{
    lemma_plain_name_paths(v);
    let c = candidates(v);
    let r = reads_from(v, fs);
    assert(r[0] == fs(c[0].0));
    assert(r[1] == fs(c[1].0));
    assert(resolve(c, r, Some(table), 0) == resolve(c, r, Some(table), 1));
}

/// A loose file takes precedence over a packed entry of the same name.
pub proof fn lemma_loose_wins(x: Seq<u8>, fs: spec_fn(Seq<u8>) -> LooseView, table: Seq<EntryView>)
    requires
        valid_name(x),
        !starts_with_refs(x),
        !is_special_name(x),
        fs(under(Seq::empty(), x)) is Missing,
        fs(under(tags_word(), x)) is Missing,
        lookup(table, under(Seq::empty(), x)) is None,
        lookup(table, under(tags_word(), x)) is None,
        fs(under(heads_word(), x)) is Contents,
        decoded(fs(under(heads_word(), x))->Contents_0) is Some,
    ensures
        find_on(x, fs, Some(table)) == Outcome::Found(
            ReferenceView {
                name: under(heads_word(), x),
                target: decoded(fs(under(heads_word(), x))->Contents_0)->0,
            },
        ),
{
    lemma_plain_name_paths(x);
    let c = candidates(x);
    let r = reads_from(x, fs);
    assert(r[0] == fs(c[0].0));
    assert(r[1] == fs(c[1].0));
    assert(r[2] == fs(c[2].0));
    assert(resolve(c, r, Some(table), 0) == resolve(c, r, Some(table), 1));
    assert(resolve(c, r, Some(table), 1) == resolve(c, r, Some(table), 2));
}

proof fn lemma_resolve_absent(
    cands: Seq<(Seq<u8>, bool)>,
    reads: Seq<LooseView>,
    packed: Option<Seq<EntryView>>,
    i: int,
)
    requires
        0 <= i,
        reads.len() == cands.len(),
        forall|k: int| 0 <= k < reads.len() ==> #[trigger] reads[k] is Missing,
        packed is Some ==> forall|k: int| 0 <= k < cands.len() ==> lookup(packed->0, #[trigger] cands[k].0) is None,
    ensures
        resolve(cands, reads, packed, i) is Absent,
    decreases cands.len() - i,
{
    if i < cands.len() {
        lemma_resolve_absent(cands, reads, packed, i + 1);
    }
}

/// A valid name that no candidate path matches, loose or packed, is absent,
/// which is no error.
pub proof fn lemma_unmatched_is_absent(p: Seq<u8>, fs: spec_fn(Seq<u8>) -> LooseView, packed: Option<Seq<EntryView>>)
    requires
        valid_name(p),
        forall|k: int| 0 <= k < candidates(p).len() ==> fs(#[trigger] candidates(p)[k].0) is Missing,
        packed is Some ==> forall|k: int| 0 <= k < candidates(p).len() ==> lookup(packed->0, #[trigger] candidates(p)[k].0) is None,
    ensures
        find_on(p, fs, packed) is Absent,
{
    let r = reads_from(p, fs);
    assert forall|k: int| 0 <= k < r.len() implies #[trigger] r[k] is Missing by {
        assert(r[k] == fs(candidates(p)[k].0));
    }
    lemma_resolve_absent(candidates(p), r, packed, 0);
}

impl Store {
    /// The file system path of the reference at the relative path `name`.
    pub fn reference_path(&self, name: &[u8]) -> (r: Vec<u8>)
        ensures
            r@ == join(self.base@, name@),
    {
        join_paths(self.base.as_slice(), name)
    }

    /// Look up `partial` as git does: special upper-case names as they stand,
    /// then beneath `refs`, `refs/tags`, `refs/heads` and `refs/remotes`, each
    /// loose first and then packed, and last `refs/remotes/<partial>/HEAD`.
    /// `loose[i]` is what reading the path of the `i`-th candidate of
    /// `lookup_candidates(partial)` gave. `Ok(None)` where nothing matches.
    pub fn find(&self, partial: &[u8], loose: &Vec<LooseRead>, packed: Option<&Buffer>) -> (r: Result<
        Option<Reference>,
        Error,
    >)
        requires
            loose@.len() == candidates(partial@).len(),
            packed is Some ==> packed->0.wf(),
        ensures
            outcome(r) == find_outcome(partial@, reads_view(loose@), packed_view(packed)),
    {
        if !is_valid_name(partial) {
            return Err(Error::RefnameValidation);
        }
        self.find_one_with_verified_input(partial, loose, packed)
    }

    /// Like `find`, but a missing reference is an error that carries `partial`.
    pub fn find_existing(&self, partial: &[u8], loose: &Vec<LooseRead>, packed: Option<&Buffer>) -> (r:
        Result<Reference, ExistingError>)
        requires
            loose@.len() == candidates(partial@).len(),
            packed is Some ==> packed->0.wf(),
        ensures
            match find_outcome(partial@, reads_view(loose@), packed_view(packed)) {
                Outcome::Found(x) => r is Ok && r->Ok_0@ == x,
                Outcome::Absent => r is Err && r->Err_0 is NotFound && r->Err_0->NotFound_0@ == partial@,
                o => r is Err && r->Err_0 is Find && outcome(Err(r->Err_0->Find_0)) == o,
            },
    {
        match self.find(partial, loose, packed) {
            Ok(Some(x)) => Ok(x),
            Ok(None) => Err(ExistingError::NotFound(crate::oid::copy_bytes(partial))),
            Err(e) => Err(ExistingError::Find(e)),
        }
    }

    /// Whether the lookup ends at this candidate, given what reading it gave:
    /// a hit or an error. Later candidates need not be read then.
    pub fn candidate_settles(&self, cand: &crate::name::Candidate, read: &LooseRead, packed: Option<&Buffer>) -> (r: bool)
        requires
            packed is Some ==> packed->0.wf(),
        ensures
            r == !(probe(cand@, read@, packed_view(packed)) is Absent),
    {
        match self.find_inner(cand, read, packed) {
            Ok(None) => false,
            _ => true,
        }
    }

    fn find_one_with_verified_input(
        &self,
        partial: &[u8],
        loose: &Vec<LooseRead>,
        packed: Option<&Buffer>,
    ) -> (r: Result<Option<Reference>, Error>)
        requires
            loose@.len() == candidates(partial@).len(),
            packed is Some ==> packed->0.wf(),
        ensures
            outcome(r) == resolve(candidates(partial@), reads_view(loose@), packed_view(packed), 0),
    {
        let cands = lookup_candidates(partial);
        let ghost cs = candidates(partial@);
        let ghost rs = reads_view(loose@);
        let ghost pk = packed_view(packed);
        assert(cands@.len() == cs.len());
        let mut i: usize = 0;
        while i < cands.len()
            invariant
                cs == candidates(partial@),
                cs == cands@.map_values(|c: crate::name::Candidate| c@),
                rs == reads_view(loose@),
                pk == packed_view(packed),
                loose@.len() == cs.len(),
                packed is Some ==> packed->0.wf(),
                0 <= i <= cs.len(),
                resolve(cs, rs, pk, 0) == resolve(cs, rs, pk, i as int),
            decreases cs.len() - i,
        {
            assert(cs[i as int] == cands@[i as int]@);
            let r = self.find_inner(&cands[i], &loose[i], packed);
            match r {
                Ok(None) => {},
                _ => {
                    return r;
                },
            }
            i += 1;
        }
        Ok(None)
    }

    fn find_inner(&self, cand: &crate::name::Candidate, read: &LooseRead, packed: Option<&Buffer>) -> (r:
        Result<Option<Reference>, Error>)
        requires
            packed is Some ==> packed->0.wf(),
        ensures
            outcome(r) == probe(cand@, read@, packed_view(packed)),
    {
        match read {
            LooseRead::Failed(m) => Err(Error::ReadFileContents(m.clone())),
            LooseRead::Contents(c) => match decode_target(c.as_slice()) {
                Some(t) => Ok(Some(Reference { name: crate::oid::copy_bytes(cand.path.as_slice()), target: t })),
                None => Err(Error::ReferenceCreation { relative_path: crate::oid::copy_bytes(cand.path.as_slice()) }),
            },
            LooseRead::Missing => {
                if cand.packed_fallback {
                    if let Some(buffer) = packed {
                        if let Some(entry) = buffer.find_existing(cand.path.as_slice()) {
                            return Ok(
                                Some(
                                    Reference {
                                        name: crate::oid::copy_bytes(cand.path.as_slice()),
                                        target: Target::Peeled(entry.target),
                                    },
                                ),
                            );
                        }
                    }
                }
                Ok(None)
            },
        }
    }
}

} // verus!
