use vstd::prelude::*;

use vstd::pervasive::unreached;

use crate::name::head_word;
use crate::oid::{copy_bytes, ObjectId};
use crate::reference::{Reference, ReferenceView, Target, TargetView};

verus! {

/// The state of `HEAD`.
#[derive(Debug)]
pub enum Kind {
    /// `HEAD` refers to an existing reference.
    Symbolic(Reference),
    /// `HEAD` refers to a reference, by this full name, that does not exist yet.
    Unborn(Vec<u8>),
    /// `HEAD` points at an object directly.
    Detached {
        /// The object `HEAD` points at.
        target: ObjectId,
        /// Where following tag objects from `target` ends, once known.
        peeled: Option<ObjectId>,
    },
}

pub enum KindView {
    Symbolic(ReferenceView),
    Unborn(Seq<u8>),
    Detached { target: Seq<u8>, peeled: Option<Seq<u8>> },
}

impl View for Kind {
    type V = KindView;

    open spec fn view(&self) -> KindView {
        match self {
            Kind::Symbolic(r) => KindView::Symbolic(r@),
            Kind::Unborn(name) => KindView::Unborn(name@),
            Kind::Detached { target, peeled } => KindView::Detached {
                target: target@,
                peeled: crate::packed::opt_view(*peeled),
            },
        }
    }
}

/// The `HEAD` reference of a repository.
#[derive(Debug)]
pub struct Head {
    pub kind: Kind,
}

impl View for Head {
    type V = KindView;

    open spec fn view(&self) -> KindView {
        self.kind@
    }
}

/// The error of peeling `HEAD`, as the object database reported it.
#[derive(Debug)]
pub enum Error {
    /// An object on the way could not be found.
    FindExistingObject(String),
    /// Following the reference `HEAD` refers to failed.
    PeelReference(String),
}

/// Where the reference log of a reference is read from.
#[derive(Debug)]
pub struct LogPlatform {
    /// The full name of the reference whose log this is.
    pub name: Vec<u8>,
}

impl Kind {
    /// Make a `Head` of this state.
    pub fn attach(self) -> (r: Head)
        ensures
            r@ == self@,
    {
        Head { kind: self }
    }
}

/// The identifier a peel result carries, if it is a success.
pub open spec fn peel_view(r: Result<ObjectId, Error>) -> Option<Seq<u8>> {
    match r {
        Ok(id) => Some(id@),
        Err(_) => None,
    }
}

/// `HEAD` after a peel that gave `p`, where it was not yet peeled.
pub open spec fn after_peel(k: KindView, p: Option<Seq<u8>>) -> KindView {
    match p {
        None => k,
        Some(id) => match k {
            KindView::Symbolic(r) => KindView::Symbolic(ReferenceView { name: r.name, target: TargetView::Peeled(id) }),
            KindView::Detached { target, .. } => KindView::Detached { target, peeled: Some(id) },
            KindView::Unborn(n) => KindView::Unborn(n),
        },
    }
}

/// What a peel of `HEAD` in state `k` returns, where the object database gave `resolved`.
pub open spec fn peel_result_is(k: KindView, resolved: Result<ObjectId, Error>, r: Option<Result<ObjectId, Error>>) -> bool {
    match k {
        KindView::Unborn(_) => r is None,
        KindView::Detached { peeled: Some(p), .. } => r is Some && r->0 is Ok && r->0->Ok_0@ == p,
        _ => r == Some(resolved),
    }
}

impl Head {
    /// The full name `HEAD` refers to, or `None` where it is detached.
    pub fn referent_name(&self) -> (r: Option<Vec<u8>>)
        ensures
            match self@ {
                KindView::Symbolic(x) => r is Some && r->0@ == x.name,
                KindView::Unborn(n) => r is Some && r->0@ == n,
                KindView::Detached { .. } => r is None,
            },
    {
        match &self.kind {
            Kind::Symbolic(x) => Some(copy_bytes(x.name.as_slice())),
            Kind::Unborn(n) => Some(copy_bytes(n.as_slice())),
            Kind::Detached { .. } => None,
        }
    }

    /// Whether `HEAD` points at an object directly.
    pub fn is_detached(&self) -> (r: bool)
        ensures
            r == self@ is Detached,
    {
        match &self.kind {
            Kind::Detached { .. } => true,
            _ => false,
        }
    }

    /// The object `HEAD` points at: the peeled one where known; `None` where it
    /// is unborn or refers to a symbolic reference.
    pub fn id(&self) -> (r: Option<ObjectId>)
        ensures
            match self@ {
                KindView::Symbolic(x) => match x.target {
                    TargetView::Peeled(id) => r is Some && r->0@ == id,
                    TargetView::Symbolic(_) => r is None,
                },
                KindView::Detached { target, peeled } => r is Some && r->0@ == match peeled {
                    Some(p) => p,
                    None => target,
                },
                KindView::Unborn(_) => r is None,
            },
    {
        match &self.kind {
            Kind::Symbolic(x) => match x.target.as_id() {
                Some(id) => Some(id.duplicate()),
                None => None,
            },
            Kind::Detached { target, peeled } => match peeled {
                Some(p) => Some(p.duplicate()),
                None => Some(target.duplicate()),
            },
            Kind::Unborn(_) => None,
        }
    }

    /// The reference `HEAD` refers to; it must be born and not detached.
    pub fn into_referent(self) -> (r: Reference)
        requires
            self@ is Symbolic,
        ensures
            r@ == self@->Symbolic_0,
    {
        match self.kind {
            Kind::Symbolic(x) => x,
            _ => unreached(),
        }
    }

    /// Where the reference log of `HEAD` is read from.
    pub fn log_iter(&self) -> (r: LogPlatform)
        ensures
            r.name@ == head_word(),
    {
        let name = vec![72u8, 69u8, 65u8, 68u8];
        assert(name@ =~= head_word());
        LogPlatform { name }
    }

    /// Peel `HEAD` in place, where `resolved` is what the object database gave
    /// on following it to its final object. `None` where `HEAD` is unborn.
    pub fn peel_to_id_in_place(&mut self, resolved: Result<ObjectId, Error>) -> (r: Option<Result<ObjectId, Error>>)
        ensures
            peel_result_is(old(self)@, resolved, r),
            match old(self)@ {
                KindView::Unborn(_) => final(self)@ == old(self)@,
                KindView::Detached { peeled: Some(_), .. } => final(self)@ == old(self)@,
                k => final(self)@ == after_peel(k, peel_view(resolved)),
            },
    {
        match &mut self.kind {
            Kind::Unborn(_) => None,
            Kind::Detached { peeled: Some(p), .. } => Some(Ok(p.duplicate())),
            Kind::Detached { peeled, .. } => {
                match &resolved {
                    Ok(id) => {
                        *peeled = Some(id.duplicate());
                    },
                    Err(_) => {},
                }
                Some(resolved)
            },
            Kind::Symbolic(x) => {
                match &resolved {
                    Ok(id) => {
                        x.target = Target::Peeled(id.duplicate());
                    },
                    Err(_) => {},
                }
                Some(resolved)
            },
        }
    }

    /// Peel `HEAD` as `peel_to_id_in_place` does, keeping the state; an error
    /// of the peel is returned, and an unborn `HEAD` stays as it is.
    pub fn peeled(self, resolved: Result<ObjectId, Error>) -> (r: Result<Head, Error>)
        ensures
            match self@ {
                KindView::Unborn(_) => r is Ok && r->Ok_0@ == self@,
                KindView::Detached { peeled: Some(_), .. } => r is Ok && r->Ok_0@ == self@,
                k => match resolved {
                    Ok(id) => r is Ok && r->Ok_0@ == after_peel(k, Some(id@)),
                    Err(e) => r == Err::<Head, Error>(e),
                },
            },
    {
        let mut head = self;
        match head.peel_to_id_in_place(resolved) {
            Some(Err(e)) => Err(e),
            _ => Ok(head),
        }
    }

    /// The final object `HEAD` leads to, where `resolved` is what the object
    /// database gave on following it; `None` where `HEAD` is unborn.
    pub fn into_fully_peeled_id(self, resolved: Result<ObjectId, Error>) -> (r: Option<Result<ObjectId, Error>>)
        ensures
            peel_result_is(self@, resolved, r),
    {
        match self.kind {
            Kind::Unborn(_) => None,
            Kind::Detached { peeled: Some(p), .. } => Some(Ok(p)),
            _ => Some(resolved),
        }
    }
}

} // verus!
