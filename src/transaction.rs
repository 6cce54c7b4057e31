use vstd::prelude::*;

use crate::name::valid_name;
use crate::oid::{copy_bytes, ObjectId};
use crate::packed::{lookup, remove, upsert, Buffer, EntryView, PackedEntry};

verus! {

/// What an edit expects of the reference before it applies.
#[derive(Debug)]
pub enum Previous {
    /// Whatever is there, or nothing.
    Any,
    /// The reference must not exist.
    MustNotExist,
    /// The reference must exist and point at this object.
    MustExistAndMatch(ObjectId),
}

pub enum PreviousView {
    Any,
    MustNotExist,
    MustExistAndMatch(Seq<u8>),
}

/// A requested change of one reference.
#[derive(Debug)]
pub enum Change {
    Update { new: ObjectId, expected: Previous },
    Delete { expected: Previous },
}

pub enum ChangeView {
    Update { new: Seq<u8>, expected: PreviousView },
    Delete { expected: PreviousView },
}

/// A change together with the full name of the reference it applies to.
#[derive(Debug)]
pub struct RefEdit {
    pub change: Change,
    pub name: Vec<u8>,
}

pub struct EditView {
    pub change: ChangeView,
    pub name: Seq<u8>,
}

impl View for Previous {
    type V = PreviousView;

    open spec fn view(&self) -> PreviousView {
        match self {
            Previous::Any => PreviousView::Any,
            Previous::MustNotExist => PreviousView::MustNotExist,
            Previous::MustExistAndMatch(id) => PreviousView::MustExistAndMatch(id@),
        }
    }
}

impl View for Change {
    type V = ChangeView;

    open spec fn view(&self) -> ChangeView {
        match self {
            Change::Update { new, expected } => ChangeView::Update { new: new@, expected: expected@ },
            Change::Delete { expected } => ChangeView::Delete { expected: expected@ },
        }
    }
}

impl View for RefEdit {
    type V = EditView;

    open spec fn view(&self) -> EditView {
        EditView { change: self.change@, name: self.name@ }
    }
}

pub open spec fn edits_view(s: Seq<RefEdit>) -> Seq<EditView> {
    s.map_values(|e: RefEdit| e@)
}

/// An edit survives filtering unless it deletes what the table does not hold.
pub open spec fn is_kept(e: EditView, table: Seq<EntryView>) -> bool {
    !(e.change is Delete && lookup(table, e.name) is None)
}

/// The edits of `s` that survive filtering, in their order.
pub open spec fn retained(s: Seq<EditView>, table: Seq<EntryView>) -> Seq<EditView>
    decreases s.len(),
{
    if s.len() == 0 {
        s
    } else if is_kept(s.last(), table) {
        retained(s.drop_last(), table).push(s.last())
    } else {
        retained(s.drop_last(), table)
    }
}

pub open spec fn expected_of(c: ChangeView) -> PreviousView {
    match c {
        ChangeView::Update { expected, .. } => expected,
        ChangeView::Delete { expected } => expected,
    }
}

/// The edit's expectation holds of the table.
pub open spec fn satisfied(e: EditView, table: Seq<EntryView>) -> bool {
    match expected_of(e.change) {
        PreviousView::Any => true,
        PreviousView::MustNotExist => lookup(table, e.name) is None,
        PreviousView::MustExistAndMatch(id) => lookup(table, e.name) is Some && lookup(
            table,
            e.name,
        )->0.target == id,
    }
}

/// The name of the first edit whose expectation fails on the table.
pub open spec fn first_conflict(s: Seq<EditView>, table: Seq<EntryView>) -> Option<Seq<u8>>
    decreases s.len(),
{
    if s.len() == 0 {
        None
    } else if !satisfied(s[0], table) {
        Some(s[0].name)
    } else {
        first_conflict(s.drop_first(), table)
    }
}

/// The table after one edit.
pub open spec fn apply_one(table: Seq<EntryView>, e: EditView) -> Seq<EntryView> {
    match e.change {
        ChangeView::Update { new, .. } => upsert(table, EntryView { name: e.name, target: new, peeled: None }),
        ChangeView::Delete { .. } => remove(table, e.name),
    }
}

/// The table after all edits, in order.
pub open spec fn applied(table: Seq<EntryView>, s: Seq<EditView>) -> Seq<EntryView>
    decreases s.len(),
{
    if s.len() == 0 {
        table
    } else {
        apply_one(applied(table, s.drop_last()), s.last())
    }
}

/// The error of `Transaction::prepare`.
#[derive(Debug)]
pub enum PrepareError {
    /// The expectation of the edit of this reference does not hold.
    Conflict(Vec<u8>),
    /// The lock could not be released, described.
    CloseLock(String),
}

/// The error of `Transaction::commit`: the new table could not be put in place.
/// The table before the commit is handed back, unchanged.
#[derive(Debug)]
pub struct CommitError {
    pub message: String,
    pub buffer: Buffer,
}

/// A two-phase update of the packed table under its lock.
#[derive(Debug)]
pub struct Transaction {
    buffer: Buffer,
    lock_held: bool,
    edits: Option<Vec<RefEdit>>,
}

impl Buffer {
    /// Start a transaction on this table, whose lock the caller has just taken.
    pub fn into_transaction(self) -> (r: Transaction)
        requires
            self.wf(),
        ensures
            r.snapshot() == self@,
            r.table_path() == self.path@,
            r.lock_held(),
            !r.is_prepared(),
            r.wf(),
    {
        Transaction { buffer: self, lock_held: true, edits: None }
    }
}

impl Transaction {
    pub closed spec fn snapshot(&self) -> Seq<EntryView> {
        self.buffer@
    }

    /// Where the packed table lives.
    pub closed spec fn table_path(&self) -> Seq<u8> {
        self.buffer.path@
    }

    pub closed spec fn lock_held(&self) -> bool {
        self.lock_held
    }

    pub closed spec fn is_prepared(&self) -> bool {
        self.edits is Some
    }

    /// The edits that survived `prepare`.
    pub closed spec fn staged(&self) -> Seq<EditView> {
        edits_view(self.edits->0@)
    }

    pub closed spec fn wf(&self) -> bool {
        &&& self.buffer.wf()
        &&& self.edits is Some ==> (self.lock_held <==> self.edits->0@.len() > 0)
        &&& self.edits is Some ==> forall|k: int|
            0 <= k < self.edits->0@.len() ==> valid_name(#[trigger] self.edits->0@[k].name@)
    }

    /// The table this transaction started from.
    pub fn buffer(&self) -> (r: &Buffer)
        ensures
            r@ == self.snapshot(),
            r.path@ == self.table_path(),
    {
        &self.buffer
    }

    /// Whether `prepare` has run.
    pub fn prepared(&self) -> (r: bool)
        ensures
            r == self.is_prepared(),
    {
        self.edits.is_some()
    }

    /// Whether the write lock is still held; once `prepare` finds nothing to do
    /// it is released without writing.
    pub fn holds_lock(&self) -> (r: bool)
        ensures
            r == self.lock_held(),
    {
        self.lock_held
    }

    /// Check the edits against the table: deletions of what the table does not
    /// hold are dropped; where none remain the lock is released; otherwise the
    /// first edit whose expectation fails on the table is a conflict.
    pub fn prepare(self, edits: Vec<RefEdit>) -> (r: Result<Transaction, PrepareError>)
        requires
            self.wf(),
            !self.is_prepared(),
            self.lock_held(),
            forall|k: int| 0 <= k < edits@.len() ==> valid_name(#[trigger] edits@[k].name@),
        ensures
            ({
                let kept = retained(edits_view(edits@), self.snapshot());
                match r {
                    Ok(t) => {
                        &&& first_conflict(kept, self.snapshot()) is None
                        &&& t.wf()
                        &&& t.is_prepared()
                        &&& t.staged() == kept
                        &&& t.snapshot() == self.snapshot()
                        &&& t.table_path() == self.table_path()
                        &&& t.lock_held() == (kept.len() > 0)
                    },
                    Err(PrepareError::Conflict(name)) => first_conflict(kept, self.snapshot()) == Some(name@),
                    Err(PrepareError::CloseLock(_)) => false,
                }
            }),
    {
        let ghost table = self.snapshot();
        let ghost all = edits_view(edits@);
        let mut kept: Vec<RefEdit> = Vec::new();
        let mut i: usize = 0;
        assert(all.subrange(0, 0) =~= Seq::<EditView>::empty());
        assert(edits_view(kept@) =~= Seq::<EditView>::empty());
        while i < edits.len()
            invariant
                0 <= i <= edits@.len(),
                all == edits_view(edits@),
                table == self.buffer@,
                self.buffer.wf(),
                edits_view(kept@) == retained(all.subrange(0, i as int), table),
                forall|k: int| 0 <= k < edits@.len() ==> valid_name(#[trigger] edits@[k].name@),
                forall|k: int| 0 <= k < kept@.len() ==> valid_name(#[trigger] kept@[k].name@),
            decreases edits@.len() - i,
        {
            let e = &edits[i];
            let keep = match &e.change {
                Change::Delete { .. } => self.buffer.find_existing(e.name.as_slice()).is_some(),
                Change::Update { .. } => true,
            };
            let ghost before = edits_view(kept@);
            assert(all.subrange(0, i + 1).drop_last() =~= all.subrange(0, i as int));
            assert(all.subrange(0, i + 1).last() == e@);
            if keep {
                kept.push(e.duplicate());
                assert(edits_view(kept@) =~= before.push(e@));
            }
            i += 1;
        }
        assert(all.subrange(0, i as int) =~= all);
        let ghost kv = edits_view(kept@);
        if kept.len() == 0 {
            return Ok(Transaction { buffer: self.buffer, lock_held: false, edits: Some(kept) });
        }
        let mut j: usize = 0;
        assert(kv.subrange(0, kv.len() as int) =~= kv);
        while j < kept.len()
            invariant
                0 <= j <= kept@.len(),
                kv == edits_view(kept@),
                kv == retained(all, table),
                all == edits_view(edits@),
                table == self.buffer@,
                self.buffer.wf(),
                first_conflict(kv, table) == first_conflict(kv.subrange(j as int, kv.len() as int), table),
            decreases kept@.len() - j,
        {
            let ghost suffix = kv.subrange(j as int, kv.len() as int);
            assert(suffix[0] == kept@[j as int]@);
            assert(suffix.drop_first() =~= kv.subrange(j + 1, kv.len() as int));
            if !self.expectation_holds(&kept[j]) {
                assert(first_conflict(suffix, table) == Some(kept@[j as int].name@));
                return Err(PrepareError::Conflict(copy_bytes(kept[j].name.as_slice())));
            }
            j += 1;
        }
        Ok(Transaction { buffer: self.buffer, lock_held: true, edits: Some(kept) })
    }

    /// The table that committing would write, or `None` where nothing is staged.
    pub fn pending_table(&self) -> (r: Option<Buffer>)
        requires
            self.wf(),
            self.is_prepared(),
        ensures
            self.staged().len() == 0 ==> r is None,
            self.staged().len() > 0 ==> r is Some && r->0@ == applied(self.snapshot(), self.staged())
                && r->0.wf() && r->0.path@ == self.table_path(),
    {
        match &self.edits {
            None => None,
            Some(edits) => {
                if edits.len() == 0 {
                    return None;
                }
                let ghost sv = edits_view(edits@);
                let mut table = self.buffer.duplicate();
                let mut i: usize = 0;
                assert(sv.subrange(0, 0) =~= Seq::<EditView>::empty());
                while i < edits.len()
                    invariant
                        0 <= i <= edits@.len(),
                        sv == edits_view(edits@),
                        self.wf(),
                        self.edits == Some(*edits),
                        table.wf(),
                        table.path@ == self.buffer.path@,
                        table@ == applied(self.buffer@, sv.subrange(0, i as int)),
                    decreases edits@.len() - i,
                {
                    let e = &edits[i];
                    assert(valid_name(edits@[i as int].name@));
                    assert(sv.subrange(0, i + 1).drop_last() =~= sv.subrange(0, i as int));
                    assert(sv.subrange(0, i + 1).last() == e@);
                    table = match &e.change {
                        Change::Update { new, .. } => table.with_entry(
                            PackedEntry { name: copy_bytes(e.name.as_slice()), target: new.duplicate(), peeled: None },
                        ),
                        Change::Delete { .. } => table.without_entry(e.name.as_slice()),
                    };
                    i += 1;
                }
                assert(sv.subrange(0, i as int) =~= sv);
                Some(table)
            },
        }
    }

    /// Finish the transaction. `renamed` is what putting the pending table in
    /// place gave; it is not looked at where nothing is staged. On success the
    /// staged edits and the new table come back; on failure the old table does.
    pub fn commit(self, renamed: Result<(), String>) -> (r: Result<(Vec<RefEdit>, Buffer), CommitError>)
        requires
            self.wf(),
            self.is_prepared(),
        ensures
            self.staged().len() == 0 ==> r is Ok && edits_view(r->Ok_0.0@) == self.staged()
                && r->Ok_0.1@ == self.snapshot() && r->Ok_0.1.path@ == self.table_path() && r->Ok_0.1.wf(),
            self.staged().len() > 0 && renamed is Ok ==> r is Ok && edits_view(r->Ok_0.0@) == self.staged()
                && r->Ok_0.1@ == applied(self.snapshot(), self.staged()) && r->Ok_0.1.path@ == self.table_path()
                && r->Ok_0.1.wf(),
            self.staged().len() > 0 && renamed is Err ==> r is Err && r->Err_0.buffer@ == self.snapshot()
                && r->Err_0.buffer.path@ == self.table_path()
                && r->Err_0.message@ == renamed->Err_0@,
    {
        let pending = self.pending_table();
        match pending {
            None => {
                let Transaction { buffer, edits, .. } = self;
                match edits {
                    Some(edits) => Ok((edits, buffer)),
                    None => Ok((Vec::new(), buffer)),
                }
            },
            Some(table) => match renamed {
                Ok(()) => {
                    let Transaction { edits, .. } = self;
                    match edits {
                        Some(edits) => Ok((edits, table)),
                        None => Ok((Vec::new(), table)),
                    }
                },
                Err(message) => Err(CommitError { message, buffer: self.buffer }),
            },
        }
    }

    fn expectation_holds(&self, e: &RefEdit) -> (r: bool)
        requires
            self.buffer.wf(),
        ensures
            r == satisfied(e@, self.buffer@),
    {
        let expected = match &e.change {
            Change::Update { expected, .. } => expected,
            Change::Delete { expected } => expected,
        };
        match expected {
            Previous::Any => true,
            Previous::MustNotExist => self.buffer.find_existing(e.name.as_slice()).is_none(),
            Previous::MustExistAndMatch(id) => match self.buffer.find_existing(e.name.as_slice()) {
                Some(entry) => entry.target.same_as(id),
                None => false,
            },
        }
    }
}

impl Previous {
    pub fn duplicate(&self) -> (r: Previous)
        ensures
            r@ == self@,
    {
        match self {
            Previous::Any => Previous::Any,
            Previous::MustNotExist => Previous::MustNotExist,
            Previous::MustExistAndMatch(id) => Previous::MustExistAndMatch(id.duplicate()),
        }
    }
}

impl RefEdit {
    pub fn duplicate(&self) -> (r: RefEdit)
        ensures
            r@ == self@,
    {
        let change = match &self.change {
            Change::Update { new, expected } => Change::Update { new: new.duplicate(), expected: expected.duplicate() },
            Change::Delete { expected } => Change::Delete { expected: expected.duplicate() },
        };
        RefEdit { change, name: copy_bytes(self.name.as_slice()) }
    }
}

/// A batch that only deletes a reference the table does not hold keeps no edit:
/// `prepare` stages nothing and releases the lock, and `commit` hands back the
/// table unchanged.
pub proof fn lemma_delete_of_absent_is_noop(table: Seq<EntryView>, name: Seq<u8>, expected: PreviousView)
    requires
        lookup(table, name) is None,
    ensures
        ({
            let kept = retained(seq![EditView { change: ChangeView::Delete { expected }, name }], table);
            &&& kept.len() == 0
            &&& first_conflict(kept, table) is None
            &&& applied(table, kept) == table
        }),
{
    let s = seq![EditView { change: ChangeView::Delete { expected }, name }];
    assert(s.drop_last() =~= Seq::<EditView>::empty());
    assert(retained(s, table) == retained(s.drop_last(), table));
}

} // verus!
