use vstd::prelude::*;

use crate::oid::{
    bytes_equal, copy_bytes, hex_decoded, hex_encoded, is_lower_hex, lemma_hex_encoded_decodes, ObjectId,
    OID_HEX_LEN,
};
use crate::reference::copy_range;

verus! {

/// Byte-wise lexicographic order on names.
pub open spec fn lex_lt(a: Seq<u8>, b: Seq<u8>) -> bool
    decreases a.len(),
{
    if a.len() == 0 {
        b.len() > 0
    } else if b.len() == 0 {
        false
    } else if a[0] < b[0] {
        true
    } else if a[0] > b[0] {
        false
    } else {
        lex_lt(a.drop_first(), b.drop_first())
    }
}

pub proof fn lemma_lex_irreflexive(a: Seq<u8>)
    ensures
        !lex_lt(a, a),
    decreases a.len(),
{
    if a.len() > 0 {
        lemma_lex_irreflexive(a.drop_first());
    }
}

pub proof fn lemma_lex_transitive(a: Seq<u8>, b: Seq<u8>, c: Seq<u8>)
    requires
        lex_lt(a, b),
        lex_lt(b, c),
    ensures
        lex_lt(a, c),
    decreases a.len(),
{
    if a.len() > 0 && b.len() > 0 && c.len() > 0 && a[0] == b[0] && b[0] == c[0] {
        lemma_lex_transitive(a.drop_first(), b.drop_first(), c.drop_first());
    }
}

pub proof fn lemma_lex_total(a: Seq<u8>, b: Seq<u8>)
    requires
        a != b,
    ensures
        lex_lt(a, b) || lex_lt(b, a),
    decreases a.len(),
{
    if a.len() > 0 && b.len() > 0 && a[0] == b[0] {
        if a.drop_first() == b.drop_first() {
            assert(a =~= seq![a[0]] + a.drop_first());
            assert(b =~= seq![b[0]] + b.drop_first());
        }
        lemma_lex_total(a.drop_first(), b.drop_first());
    } else if a.len() == 0 && b.len() == 0 {
        assert(a =~= b);
    }
}

pub proof fn lemma_lex_asymmetric(a: Seq<u8>, b: Seq<u8>)
    requires
        lex_lt(a, b),
    ensures
        !lex_lt(b, a),
{
    if lex_lt(b, a) {
        lemma_lex_transitive(a, b, a);
        lemma_lex_irreflexive(a);
    }
}

/// Whether `a` orders strictly before `b`.
pub fn name_less(a: &[u8], b: &[u8]) -> (r: bool)
    ensures
        r == lex_lt(a@, b@),
{
    let mut i: usize = 0;
    assert(a@.subrange(0, a@.len() as int) =~= a@);
    assert(b@.subrange(0, b@.len() as int) =~= b@);
    let n = if a.len() < b.len() {
        a.len()
    } else {
        b.len()
    };
    while i < n
        invariant
            n <= a@.len(),
            n <= b@.len(),
            n == a@.len() || n == b@.len(),
            0 <= i <= n,
            lex_lt(a@, b@) == lex_lt(a@.subrange(i as int, a@.len() as int), b@.subrange(i as int, b@.len() as int)),
        decreases a@.len() - i,
    {
        if a[i] < b[i] {
            return true;
        }
        if a[i] > b[i] {
            return false;
        }
        let ghost sa = a@.subrange(i as int, a@.len() as int);
        let ghost sb = b@.subrange(i as int, b@.len() as int);
        assert(sa.drop_first() =~= a@.subrange(i + 1, a@.len() as int));
        assert(sb.drop_first() =~= b@.subrange(i + 1, b@.len() as int));
        i += 1;
    }
    if i == a.len() {
        assert(a@.subrange(i as int, a@.len() as int).len() == 0);
    } else {
        assert(b@.subrange(i as int, b@.len() as int).len() == 0);
    }
    i < b.len()
}

/// A row of the packed table.
#[derive(Debug)]
pub struct PackedEntry {
    pub name: Vec<u8>,
    pub target: ObjectId,
    pub peeled: Option<ObjectId>,
}

pub struct EntryView {
    pub name: Seq<u8>,
    pub target: Seq<u8>,
    pub peeled: Option<Seq<u8>>,
}

pub open spec fn opt_view(o: Option<ObjectId>) -> Option<Seq<u8>> {
    match o {
        Some(id) => Some(id@),
        None => None,
    }
}

impl View for PackedEntry {
    type V = EntryView;

    open spec fn view(&self) -> EntryView {
        EntryView { name: self.name@, target: self.target@, peeled: opt_view(self.peeled) }
    }
}

impl PackedEntry {
    pub fn duplicate(&self) -> (r: PackedEntry)
        ensures
            r@ == self@,
    {
        let peeled = match &self.peeled {
            Some(p) => Some(p.duplicate()),
            None => None,
        };
        PackedEntry { name: copy_bytes(self.name.as_slice()), target: self.target.duplicate(), peeled }
    }
}

/// Names are non-empty and strictly increase along the table.
pub open spec fn valid_table(v: Seq<EntryView>) -> bool {
    &&& sorted(v)
    &&& forall|k: int| 0 <= k < v.len() ==> (#[trigger] v[k].name).len() > 0
}

/// The entry named `name`, the first one from the front.
pub open spec fn lookup(v: Seq<EntryView>, name: Seq<u8>) -> Option<EntryView>
    decreases v.len(),
{
    if v.len() == 0 {
        None
    } else if v[0].name == name {
        Some(v[0])
    } else {
        lookup(v.drop_first(), name)
    }
}

/// Names strictly increase along the table.
pub open spec fn sorted(v: Seq<EntryView>) -> bool {
    forall|i: int, j: int| 0 <= i < j < v.len() ==> lex_lt(#[trigger] v[i].name, #[trigger] v[j].name)
}

/// The table after `e` is put in its place, replacing an entry of the same name.
pub open spec fn upsert(v: Seq<EntryView>, e: EntryView) -> Seq<EntryView>
    decreases v.len(),
{
    if v.len() == 0 {
        seq![e]
    } else if v[0].name == e.name {
        seq![e] + v.drop_first()
    } else if lex_lt(e.name, v[0].name) {
        seq![e] + v
    } else {
        seq![v[0]] + upsert(v.drop_first(), e)
    }
}

/// The table without the entries named `name`.
pub open spec fn remove(v: Seq<EntryView>, name: Seq<u8>) -> Seq<EntryView>
    decreases v.len(),
{
    if v.len() == 0 {
        v
    } else if v[0].name == name {
        remove(v.drop_first(), name)
    } else {
        seq![v[0]] + remove(v.drop_first(), name)
    }
}

/// An in-memory snapshot of the packed table and the file it was read from.
#[derive(Debug)]
pub struct Buffer {
    pub entries: Vec<PackedEntry>,
    pub path: Vec<u8>,
}

impl View for Buffer {
    type V = Seq<EntryView>;

    open spec fn view(&self) -> Seq<EntryView> {
        self.entries@.map_values(|e: PackedEntry| e@)
    }
}

/// Every entry of `v` orders before `name`.
pub open spec fn all_before(v: Seq<EntryView>, name: Seq<u8>) -> bool {
    forall|k: int| 0 <= k < v.len() ==> lex_lt(#[trigger] v[k].name, name)
}

/// Every entry of `v` orders after `name`.
pub open spec fn all_after(v: Seq<EntryView>, name: Seq<u8>) -> bool {
    forall|k: int| 0 <= k < v.len() ==> lex_lt(name, #[trigger] v[k].name)
}

pub proof fn lemma_upsert_sorted(v: Seq<EntryView>, e: EntryView, lo: Seq<u8>)
    requires
        sorted(v),
        all_after(v, lo),
        lex_lt(lo, e.name),
    ensures
        sorted(upsert(v, e)),
        all_after(upsert(v, e), lo),
    decreases v.len(),
{
    let r = upsert(v, e);
    if v.len() == 0 {
    } else if v[0].name == e.name {
        assert forall|i: int, j: int| 0 <= i < j < r.len() implies lex_lt(#[trigger] r[i].name, #[trigger] r[j].name) by {
            assert(r[j] == v[j]);
            if i > 0 {
                assert(r[i] == v[i]);
            }
        }
        assert forall|k: int| 0 <= k < r.len() implies lex_lt(lo, #[trigger] r[k].name) by {
            if k > 0 {
                assert(r[k] == v[k]);
            }
        }
    } else if lex_lt(e.name, v[0].name) {
        assert forall|i: int, j: int| 0 <= i < j < r.len() implies lex_lt(#[trigger] r[i].name, #[trigger] r[j].name) by {
            assert(r[j] == v[j - 1]);
            if i > 0 {
                assert(r[i] == v[i - 1]);
            } else if j > 1 {
                lemma_lex_transitive(e.name, v[0].name, v[j - 1].name);
            }
        }
        assert forall|k: int| 0 <= k < r.len() implies lex_lt(lo, #[trigger] r[k].name) by {
            if k > 0 {
                assert(r[k] == v[k - 1]);
            }
        }
    } else {
        lemma_lex_total(e.name, v[0].name);
        let rest = v.drop_first();
        let u = upsert(rest, e);
        assert(all_after(rest, v[0].name));
        lemma_upsert_sorted(rest, e, v[0].name);
        assert(r == seq![v[0]] + u);
        assert forall|i: int, j: int| 0 <= i < j < r.len() implies lex_lt(#[trigger] r[i].name, #[trigger] r[j].name) by {
            assert(r[j] == u[j - 1]);
            if i > 0 {
                assert(r[i] == u[i - 1]);
            }
        }
        assert forall|k: int| 0 <= k < r.len() implies lex_lt(lo, #[trigger] r[k].name) by {
            if k > 0 {
                assert(r[k] == u[k - 1]);
                lemma_lex_transitive(lo, v[0].name, u[k - 1].name);
            }
        }
    }
}

pub proof fn lemma_remove_sorted(v: Seq<EntryView>, name: Seq<u8>, lo: Seq<u8>)
    requires
        sorted(v),
        all_after(v, lo),
    ensures
        sorted(remove(v, name)),
        all_after(remove(v, name), lo),
    decreases v.len(),
{
    if v.len() > 0 {
        let rest = v.drop_first();
        assert(all_after(rest, v[0].name));
        lemma_remove_sorted(rest, name, v[0].name);
        let u = remove(rest, name);
        assert forall|k: int| 0 <= k < u.len() implies lex_lt(lo, #[trigger] u[k].name) by {
            lemma_lex_transitive(lo, v[0].name, u[k].name);
        }
        if v[0].name != name {
            let r = remove(v, name);
            assert(r == seq![v[0]] + u);
            assert forall|i: int, j: int| 0 <= i < j < r.len() implies lex_lt(#[trigger] r[i].name, #[trigger] r[j].name) by {
                assert(r[j] == u[j - 1]);
                if i > 0 {
                    assert(r[i] == u[i - 1]);
                }
            }
            assert forall|k: int| 0 <= k < r.len() implies lex_lt(lo, #[trigger] r[k].name) by {
                if k > 0 {
                    assert(r[k] == u[k - 1]);
                }
            }
        }
    }
}

/// The line of the packed table file for one entry: `<hex> <name>` and, for a
/// peeled entry, a second line `^<hex>`.
pub open spec fn entry_line(e: EntryView) -> Seq<u8> {
    let first = hex_encoded(e.target) + seq![32u8] + e.name + seq![10u8];
    match e.peeled {
        Some(p) => first + seq![94u8] + hex_encoded(p) + seq![10u8],
        None => first,
    }
}

/// The packed table file: the lines of all entries, in table order.
pub open spec fn table_text(v: Seq<EntryView>) -> Seq<u8>
    decreases v.len(),
{
    if v.len() == 0 {
        Seq::empty()
    } else {
        table_text(v.drop_last()) + entry_line(v.last())
    }
}

/// A leading comment line of the packed table file, or nothing.
pub open spec fn header_ok(h: Seq<u8>) -> bool {
    h.len() == 0 || (h[0] == 35 && h.last() == 10)
}

/// Parse a 40-digit lower-case identifier at `pos`.
fn hex_at(b: &[u8], pos: usize) -> (r: Option<ObjectId>)
    requires
        pos <= b@.len(),
    ensures
        r is Some ==> b@.len() - pos >= OID_HEX_LEN && hex_encoded(r->0@) == b@.subrange(pos as int, pos + 40)
            && r->0@ == hex_decoded(b@.subrange(pos as int, pos + 40)) && r->0.wf(),
        b@.len() - pos >= OID_HEX_LEN && is_lower_hex(b@.subrange(pos as int, pos + 40)) ==> r is Some,
{
    if b.len() - pos < OID_HEX_LEN {
        return None;
    }
    let digits = copy_range(b, pos, pos + OID_HEX_LEN);
    ObjectId::from_lower_hex(digits.as_slice())
}

/// A table that its file text spells out unambiguously: valid, with full-length
/// identifiers and no newline in a name.
pub open spec fn writable(v: Seq<EntryView>) -> bool {
    &&& valid_table(v)
    &&& forall|k: int| 0 <= k < v.len() ==> (#[trigger] v[k]).target.len() == 20
    &&& forall|k: int| 0 <= k < v.len() ==> ((#[trigger] v[k]).peeled is Some ==> v[k].peeled->0.len() == 20)
    &&& forall|k: int, j: int| 0 <= k < v.len() && 0 <= j < v[k].name.len() ==> (#[trigger] v[k].name[j]) != 10
}

/// The file text is exactly the text of the table `v`, which is writable.
pub open spec fn spells(b: Seq<u8>, v: Seq<EntryView>) -> bool {
    writable(v) && b == table_text(v)
}

proof fn lemma_text_prefix(v: Seq<EntryView>, j: int)
    requires
        0 <= j <= v.len(),
    ensures
        table_text(v.subrange(0, j)).len() <= table_text(v).len(),
        table_text(v).subrange(0, table_text(v.subrange(0, j)).len() as int) == table_text(v.subrange(0, j)),
    decreases v.len() - j,
{
    if j == v.len() {
        assert(v.subrange(0, j) =~= v);
        assert(table_text(v).subrange(0, table_text(v).len() as int) =~= table_text(v));
    } else {
        lemma_text_prefix(v, j + 1);
        let w = v.subrange(0, j + 1);
        assert(w.drop_last() =~= v.subrange(0, j));
        let t = table_text(v);
        let a = table_text(v.subrange(0, j));
        assert(table_text(w) == a + entry_line(v[j]));
        assert(t.subrange(0, a.len() as int) =~= (t.subrange(0, table_text(w).len() as int)).subrange(0, a.len() as int));
        assert((a + entry_line(v[j])).subrange(0, a.len() as int) =~= a);
    }
}

/// Where the line of entry `j` stands in the text of `v`.
proof fn lemma_line_place(v: Seq<EntryView>, j: int)
    requires
        0 <= j < v.len(),
    ensures
        ({
            let p = table_text(v.subrange(0, j)).len() as int;
            let e = entry_line(v[j]);
            &&& p + e.len() <= table_text(v).len()
            &&& table_text(v).subrange(p, p + e.len()) == e
            &&& table_text(v.subrange(0, j + 1)).len() == p + e.len()
        }),
{
    lemma_text_prefix(v, j + 1);
    let w = v.subrange(0, j + 1);
    assert(w.drop_last() =~= v.subrange(0, j));
    let t = table_text(v);
    let a = table_text(v.subrange(0, j));
    let e = entry_line(v[j]);
    assert(table_text(w) == a + e);
    assert(t.subrange(a.len() as int, (a.len() + e.len()) as int) =~= (t.subrange(0, table_text(w).len() as int)).subrange(a.len() as int, (a.len() + e.len()) as int));
    assert((a + e).subrange(a.len() as int, (a.len() + e.len()) as int) =~= e);
}

/// The bytes of one entry's line, where it stands at `pos` in `b`.
proof fn lemma_line_bytes(b: Seq<u8>, pos: int, e: EntryView)
    requires
        0 <= pos,
        pos + entry_line(e).len() <= b.len(),
        b.subrange(pos, pos + entry_line(e).len()) == entry_line(e),
        e.target.len() == 20,
        e.peeled is Some ==> e.peeled->0.len() == 20,
        forall|j: int| 0 <= j < e.name.len() ==> #[trigger] e.name[j] != 10,
    ensures
        is_lower_hex(b.subrange(pos, pos + 40)),
        hex_decoded(b.subrange(pos, pos + 40)) == e.target,
        b[pos + 40] == 32,
        b.subrange(pos + 41, pos + 41 + e.name.len()) == e.name,
        forall|k: int| pos + 41 <= k < pos + 41 + e.name.len() ==> #[trigger] b[k] != 10,
        b[pos + 41 + e.name.len()] == 10,
        e.peeled is None ==> entry_line(e).len() == 42 + e.name.len(),
        e.peeled is Some ==> entry_line(e).len() == 84 + e.name.len() && b[pos + 42 + e.name.len()] == 94
            && is_lower_hex(b.subrange(pos + 43 + e.name.len(), pos + 83 + e.name.len()))
            && hex_decoded(b.subrange(pos + 43 + e.name.len(), pos + 83 + e.name.len())) == e.peeled->0
            && b[pos + 83 + e.name.len()] == 10,
{
    let l = entry_line(e);
    let n = e.name.len() as int;
    lemma_hex_encoded_decodes(e.target);
    let h = hex_encoded(e.target);
    assert forall|k: int| 0 <= k < l.len() implies #[trigger] b[pos + k] == l[k] by {
        assert(b.subrange(pos, pos + l.len())[k] == b[pos + k]);
    }
    assert(b.subrange(pos, pos + 40) =~= h) by {
        assert forall|k: int| 0 <= k < 40 implies b.subrange(pos, pos + 40)[k] == h[k] by {
            assert(b[pos + k] == l[k]);
        }
    }
    assert(b[pos + 40] == l[40]);
    assert(b.subrange(pos + 41, pos + 41 + n) =~= e.name) by {
        assert forall|k: int| 0 <= k < n implies b.subrange(pos + 41, pos + 41 + n)[k] == e.name[k] by {
            assert(b[pos + 41 + k] == l[41 + k]);
        }
    }
    assert forall|k: int| pos + 41 <= k < pos + 41 + n implies #[trigger] b[k] != 10 by {
        assert(b[pos + (k - pos)] == l[k - pos]);
        assert(l[k - pos] == e.name[k - pos - 41]);
    }
    assert(b[pos + 41 + n] == l[41 + n]);
    if e.peeled is Some {
        let p = e.peeled->0;
        lemma_hex_encoded_decodes(p);
        let hp = hex_encoded(p);
        assert(b[pos + 42 + n] == l[42 + n]);
        assert(b.subrange(pos + 43 + n, pos + 83 + n) =~= hp) by {
            assert forall|k: int| 0 <= k < 40 implies b.subrange(pos + 43 + n, pos + 83 + n)[k] == hp[k] by {
                assert(b[pos + 43 + n + k] == l[43 + n + k]);
            }
        }
        assert(b[pos + 83 + n] == l[83 + n]);
    }
}

/// After an unpeeled entry's line comes the end of the text or the first
/// hexadecimal digit of the next line.
proof fn lemma_step_next(b: Seq<u8>, v: Seq<EntryView>, m: int, pos: int)
    requires
        spells(b, v),
        0 <= m < v.len(),
        pos == table_text(v.subrange(0, m)).len(),
    ensures
        ({
            let q = pos + entry_line(v[m]).len();
            &&& q < b.len() ==> b[q] != 94
            &&& q <= b.len()
        }),
{
    lemma_line_place(v, m);
    let q = pos + entry_line(v[m]).len();
    if q < b.len() {
        if m + 1 < v.len() {
            lemma_line_place(v, m + 1);
            lemma_line_bytes(b, q, v[m + 1]);
            assert(b.subrange(q, q + 40)[0] == b[q]);
        } else {
            assert(v.subrange(0, m + 1) =~= v);
        }
    }
}

fn append_bytes(v: &mut Vec<u8>, b: &[u8])
    ensures
        final(v)@ == old(v)@ + b@,
{
    let mut i: usize = 0;
    while i < b.len()
        invariant
            0 <= i <= b@.len(),
            v@ == old(v)@ + b@.subrange(0, i as int),
        decreases b@.len() - i,
    {
        v.push(b[i]);
        i += 1;
        assert(b@.subrange(0, i as int) =~= b@.subrange(0, i - 1).push(b@[i - 1]));
    }
    assert(b@.subrange(0, i as int) =~= b@);
}

pub proof fn lemma_lookup_at(v: Seq<EntryView>, k: int, name: Seq<u8>)
    requires
        0 <= k < v.len(),
        v[k].name == name,
        forall|j: int| 0 <= j < k ==> #[trigger] v[j].name != name,
    ensures
        lookup(v, name) == Some(v[k]),
    decreases k,
{
    if k > 0 {
        let rest = v.drop_first();
        assert forall|j: int| 0 <= j < k - 1 implies #[trigger] rest[j].name != name by {
            assert(rest[j] == v[j + 1]);
        }
        lemma_lookup_at(rest, k - 1, name);
    }
}

pub proof fn lemma_lookup_none(v: Seq<EntryView>, name: Seq<u8>)
    requires
        forall|j: int| 0 <= j < v.len() ==> #[trigger] v[j].name != name,
    ensures
        lookup(v, name) is None,
    decreases v.len(),
{
    if v.len() > 0 {
        let rest = v.drop_first();
        assert forall|j: int| 0 <= j < rest.len() implies #[trigger] rest[j].name != name by {
            assert(rest[j] == v[j + 1]);
        }
        lemma_lookup_none(rest, name);
    }
}

impl Buffer {
    pub open spec fn wf(&self) -> bool {
        valid_table(self@)
    }

    /// Take a table whose names strictly increase; `None` where they do not.
    pub fn from_entries(entries: Vec<PackedEntry>, path: Vec<u8>) -> (r: Option<Buffer>)
        ensures
            valid_table(entries@.map_values(|e: PackedEntry| e@)) ==> r is Some && r->0@ == entries@.map_values(|e: PackedEntry| e@) && r->0.path@ == path@ && r->0.wf(),
            !valid_table(entries@.map_values(|e: PackedEntry| e@)) ==> r is None,
    {
        let mut j: usize = 0;
        while j < entries.len()
            invariant
                0 <= j <= entries@.len(),
                forall|k: int| 0 <= k < j ==> (#[trigger] entries@[k].name@).len() > 0,
            decreases entries@.len() - j,
        {
            if entries[j].name.len() == 0 {
                assert(entries@.map_values(|e: PackedEntry| e@)[j as int].name.len() == 0);
                return None;
            }
            j += 1;
        }
        let ghost v = entries@.map_values(|e: PackedEntry| e@);
        let mut i: usize = 1;
        while i < entries.len()
            invariant
                v == entries@.map_values(|e: PackedEntry| e@),
                1 <= i,
                entries@.len() == 0 || i <= entries@.len(),
                forall|a: int, b: int| 0 <= a < b < i && b < v.len() ==> lex_lt(#[trigger] v[a].name, #[trigger] v[b].name),
            decreases entries@.len() - i,
        {
            if !name_less(entries[i - 1].name.as_slice(), entries[i].name.as_slice()) {
                assert(!lex_lt(v[i - 1].name, v[i as int].name));
                return None;
            }
            proof {
                assert forall|a: int, b: int| 0 <= a < b < i + 1 && b < v.len() implies lex_lt(#[trigger] v[a].name, #[trigger] v[b].name) by {
                    if b == i && a < i - 1 {
                        lemma_lex_transitive(v[a].name, v[i - 1].name, v[b].name);
                    }
                }
            }
            i += 1;
        }
        Some(Buffer { entries, path })
    }

    /// Whether the names are non-empty and strictly increase.
    pub fn is_well_formed(&self) -> (r: bool)
        ensures
            r == self.wf(),
    {
        let ghost v = self@;
        let n = self.entries.len();
        let mut i: usize = 0;
        while i < n
            invariant
                v == self@,
                n == v.len(),
                0 <= i <= n,
                forall|k: int| 0 <= k < i ==> (#[trigger] v[k].name).len() > 0,
                forall|a: int, b: int| 0 <= a < b < i ==> lex_lt(#[trigger] v[a].name, #[trigger] v[b].name),
            decreases n - i,
        {
            if self.entries[i].name.len() == 0 {
                assert(v[i as int].name.len() == 0);
                return false;
            }
            if i > 0 && !name_less(self.entries[i - 1].name.as_slice(), self.entries[i].name.as_slice()) {
                assert(!lex_lt(v[i - 1].name, v[i as int].name));
                return false;
            }
            proof {
                assert forall|a: int, b: int| 0 <= a < b < i + 1 implies lex_lt(#[trigger] v[a].name, #[trigger] v[b].name) by {
                    if b == i && a < i - 1 {
                        lemma_lex_transitive(v[a].name, v[i - 1].name, v[b].name);
                    }
                }
            }
            i += 1;
        }
        true
    }

    /// Exact-match lookup of the entry with the full name `name`, by binary
    /// search over the sorted table.
    pub fn find_existing(&self, name: &[u8]) -> (r: Option<PackedEntry>)
        requires
            self.wf(),
        ensures
            match r {
                Some(e) => lookup(self@, name@) == Some(e@),
                None => lookup(self@, name@) is None,
            },
    {
        let ghost v = self@;
        let mut lo: usize = 0;
        let mut hi: usize = self.entries.len();
        while lo < hi
            invariant
                v == self@,
                v.len() == self.entries@.len(),
                self.wf(),
                0 <= lo <= hi <= v.len(),
                forall|k: int| 0 <= k < lo ==> lex_lt(#[trigger] v[k].name, name@),
                forall|k: int| hi <= k < v.len() ==> lex_lt(name@, #[trigger] v[k].name),
            decreases hi - lo,
        {
            let mid = lo + (hi - lo) / 2;
            let probe = self.entries[mid].name.as_slice();
            if name_less(probe, name) {
                proof {
                    assert forall|k: int| 0 <= k < mid + 1 implies lex_lt(#[trigger] v[k].name, name@) by {
                        if k < mid {
                            lemma_lex_transitive(v[k].name, v[mid as int].name, name@);
                        }
                    }
                }
                lo = mid + 1;
            } else if name_less(name, probe) {
                proof {
                    assert forall|k: int| mid <= k < v.len() implies lex_lt(name@, #[trigger] v[k].name) by {
                        if k > mid {
                            lemma_lex_transitive(name@, v[mid as int].name, v[k].name);
                        }
                    }
                }
                hi = mid;
            } else {
                proof {
                    if v[mid as int].name != name@ {
                        lemma_lex_total(v[mid as int].name, name@);
                    }
                    assert forall|k: int| 0 <= k < mid implies #[trigger] v[k].name != name@ by {
                        lemma_lex_irreflexive(name@);
                    }
                    lemma_lookup_at(v, mid as int, name@);
                }
                return Some(self.entries[mid].duplicate());
            }
        }
        proof {
            assert forall|k: int| 0 <= k < v.len() implies #[trigger] v[k].name != name@ by {
                lemma_lex_irreflexive(name@);
            }
            lemma_lookup_none(v, name@);
        }
        None
    }

    /// Read a packed table file: an optional leading comment line, then per
    /// entry `<hex> <name>` and optionally `^<hex>` for its peeled object, with
    /// lower-case identifiers and names in strictly increasing order. `None`
    /// for anything else; what is read writes back to the same bytes, and the
    /// text of a writable table reads back as that table.
    #[verifier::rlimit(100)]
    pub fn from_bytes(b: &[u8], path: Vec<u8>) -> (r: Option<Buffer>)
        ensures
            r is Some ==> r->0.wf() && r->0.path@ == path@ && exists|n: int|
                0 <= n <= b@.len() && header_ok(b@.subrange(0, n)) && b@.subrange(n, b@.len() as int)
                    == table_text(r->0@),
            forall|v: Seq<EntryView>| #[trigger] spells(b@, v) ==> r is Some && r->0@ == v && r->0.path@ == path@,
    {
        let len = b.len();
        let mut pos: usize = 0;
        if len > 0 && b[0] == 35 {
            proof {
                assert forall|v: Seq<EntryView>| #[trigger] spells(b@, v) implies false by {
                    if v.len() == 0 {
                        assert(table_text(v) =~= Seq::<u8>::empty());
                    } else {
                        lemma_line_place(v, 0);
                        assert(v.subrange(0, 0) =~= Seq::<EntryView>::empty());
                        lemma_line_bytes(b@, 0, v[0]);
                        assert(b@.subrange(0, 40)[0] == b@[0]);
                    }
                }
            }
            while pos < len && b[pos] != 10
                invariant
                    pos <= len,
                    len == b@.len(),
                decreases len - pos,
            {
                pos += 1;
            }
            if pos == len {
                return None;
            }
            pos += 1;
        }
        let n0 = pos;
        assert(header_ok(b@.subrange(0, n0 as int)));
        let mut entries: Vec<PackedEntry> = Vec::new();
        assert(b@.subrange(n0 as int, n0 as int) =~= Seq::<u8>::empty());
        assert(entries@.map_values(|e: PackedEntry| e@) =~= Seq::<EntryView>::empty());
        proof {
            assert forall|v: Seq<EntryView>| #[trigger] spells(b@, v) implies v.subrange(0, 0) =~= Seq::<EntryView>::empty() by {}
        }
        while pos < len
            invariant
                n0 <= pos <= len,
                len == b@.len(),
                table_text(entries@.map_values(|e: PackedEntry| e@)) == b@.subrange(n0 as int, pos as int),
                forall|v: Seq<EntryView>| #[trigger] spells(b@, v) ==> n0 == 0 && entries@.len() <= v.len()
                    && entries@.map_values(|e: PackedEntry| e@) == v.subrange(0, entries@.len() as int)
                    && pos == table_text(v.subrange(0, entries@.len() as int)).len(),
            decreases len - pos,
        {
            let ghost m = entries@.len() as int;
            proof {
                assert forall|v: Seq<EntryView>| #[trigger] spells(b@, v) implies m < v.len() by {
                    if m == v.len() {
                        assert(v.subrange(0, m) =~= v);
                    }
                }
            }
            let target = match hex_at(b, pos) {
                Some(id) => id,
                None => {
                    proof {
                        assert forall|v: Seq<EntryView>| #[trigger] spells(b@, v) implies false by {
                            lemma_line_place(v, m);
                            lemma_line_bytes(b@, pos as int, v[m]);
                        }
                    }
                    return None;
                },
            };
            if len - pos < 41 || b[pos + 40] != 32 {
                proof {
                    assert forall|v: Seq<EntryView>| #[trigger] spells(b@, v) implies false by {
                        lemma_line_place(v, m);
                        lemma_line_bytes(b@, pos as int, v[m]);
                    }
                }
                return None;
            }
            let name_start = pos + 41;
            let mut end = name_start;
            while end < len && b[end] != 10
                invariant
                    name_start <= end <= len,
                    len == b@.len(),
                    forall|k: int| name_start <= k < end ==> #[trigger] b@[k] != 10,
                decreases len - end,
            {
                end += 1;
            }
            proof {
                assert forall|v: Seq<EntryView>| #[trigger] spells(b@, v) implies end == name_start + v[m].name.len() by {
                    lemma_line_place(v, m);
                    lemma_line_bytes(b@, pos as int, v[m]);
                    let q = name_start + v[m].name.len();
                    if end < q {
                        assert(b@[end as int] != 10);
                    } else if end > q {
                        assert(b@[q] != 10);
                    }
                }
            }
            if end == len {
                proof {
                    assert forall|v: Seq<EntryView>| #[trigger] spells(b@, v) implies false by {
                        lemma_line_place(v, m);
                        lemma_line_bytes(b@, pos as int, v[m]);
                    }
                }
                return None;
            }
            let name = copy_range(b, name_start, end);
            let mut next = end + 1;
            let mut peeled: Option<ObjectId> = None;
            if next < len && b[next] == 94 {
                match hex_at(b, next + 1) {
                    Some(id) => {
                        if len - next < 42 || b[next + 41] != 10 {
                            proof {
                                assert forall|v: Seq<EntryView>| #[trigger] spells(b@, v) implies false by {
                                    lemma_line_place(v, m);
                                    lemma_line_bytes(b@, pos as int, v[m]);
                                    if v[m].peeled is None {
                                        lemma_step_next(b@, v, m, pos as int);
                                    }
                                }
                            }
                            return None;
                        }
                        peeled = Some(id);
                    },
                    None => {
                        proof {
                            assert forall|v: Seq<EntryView>| #[trigger] spells(b@, v) implies false by {
                                lemma_line_place(v, m);
                                lemma_line_bytes(b@, pos as int, v[m]);
                                if v[m].peeled is None {
                                    lemma_step_next(b@, v, m, pos as int);
                                }
                            }
                        }
                        return None;
                    },
                }
                next = next + 42;
            }
            let e = PackedEntry { name, target, peeled };
            let ghost before = entries@.map_values(|x: PackedEntry| x@);
            proof {
                let first = hex_encoded(e.target@) + seq![32u8] + e.name@ + seq![10u8];
                assert(b@.subrange(pos as int, end + 1) =~= first);
                if e.peeled is Some {
                    assert(b@.subrange(pos as int, next as int) =~= first + seq![94u8] + hex_encoded(e.peeled->0@) + seq![10u8]);
                } else {
                    assert(next == end + 1);
                }
                assert(b@.subrange(pos as int, next as int) == entry_line(e@));
                assert(b@.subrange(n0 as int, next as int) =~= b@.subrange(n0 as int, pos as int) + b@.subrange(pos as int, next as int));
                assert forall|v: Seq<EntryView>| #[trigger] spells(b@, v) implies e@ == v[m] && next == table_text(v.subrange(0, m + 1)).len() by {
                    lemma_line_place(v, m);
                    lemma_line_bytes(b@, pos as int, v[m]);
                    if v[m].peeled is None {
                        lemma_step_next(b@, v, m, pos as int);
                    }
                    assert(e.name@ =~= v[m].name);
                }
            }
            entries.push(e);
            proof {
                let after = entries@.map_values(|x: PackedEntry| x@);
                assert(after =~= before.push(e@));
                assert(after.drop_last() =~= before);
                assert forall|v: Seq<EntryView>| #[trigger] spells(b@, v) implies after == v.subrange(0, m + 1) by {
                    assert(v.subrange(0, m + 1) =~= v.subrange(0, m).push(v[m]));
                }
            }
            pos = next;
        }
        proof {
            assert forall|v: Seq<EntryView>| #[trigger] spells(b@, v) implies entries@.map_values(|e: PackedEntry| e@) == v by {
                let m = entries@.len() as int;
                if m < v.len() {
                    lemma_line_place(v, m);
                    lemma_line_bytes(b@, pos as int, v[m]);
                }
                assert(v.subrange(0, m) =~= v);
            }
        }
        let r = Buffer::from_entries(entries, path);
        proof {
            if r is Some {
                assert(b@.subrange(n0 as int, b@.len() as int) == table_text(r->0@));
            }
        }
        r
    }

    /// The bytes of the packed table file for this table.
    pub fn to_bytes(&self) -> (r: Vec<u8>)
        ensures
            r@ == table_text(self@),
    {
        let ghost v = self@;
        let mut out: Vec<u8> = Vec::new();
        let mut i: usize = 0;
        assert(v.subrange(0, 0) =~= Seq::<EntryView>::empty());
        while i < self.entries.len()
            invariant
                0 <= i <= v.len(),
                v == self@,
                v.len() == self.entries@.len(),
                out@ == table_text(v.subrange(0, i as int)),
            decreases v.len() - i,
        {
            let e = &self.entries[i];
            let ghost before = out@;
            e.target.write_hex(&mut out);
            out.push(32u8);
            append_bytes(&mut out, e.name.as_slice());
            out.push(10u8);
            match &e.peeled {
                Some(p) => {
                    out.push(94u8);
                    p.write_hex(&mut out);
                    out.push(10u8);
                },
                None => {},
            }
            assert(v.subrange(0, i + 1).drop_last() =~= v.subrange(0, i as int));
            assert(v.subrange(0, i + 1).last() == e@);
            assert(out@ =~= before + entry_line(e@));
            i += 1;
        }
        assert(v.subrange(0, i as int) =~= v);
        out
    }

    pub fn duplicate(&self) -> (r: Buffer)
        ensures
            r@ == self@,
            r.path@ == self.path@,
    {
        let mut out: Vec<PackedEntry> = Vec::new();
        extend_from(&mut out, &self.entries, 0);
        assert(out@.map_values(|x: PackedEntry| x@) =~= self@);
        Buffer { entries: out, path: copy_bytes(self.path.as_slice()) }
    }

    /// A copy of this table with `e` in its place, replacing an entry of the same name.
    pub fn with_entry(&self, e: PackedEntry) -> (r: Buffer)
        requires
            self.wf(),
            e.name@.len() > 0,
        ensures
            r@ == upsert(self@, e@),
            r.path@ == self.path@,
            r.wf(),
    {
        let ghost v = self@;
        let ghost name = e.name@;
        let mut out: Vec<PackedEntry> = Vec::new();
        let mut i: usize = 0;
        let n = self.entries.len();
        assert(v.subrange(0, v.len() as int) =~= v);
        assert(out@.map_values(|x: PackedEntry| x@) =~= Seq::<EntryView>::empty());
        while i < n && name_less(self.entries[i].name.as_slice(), e.name.as_slice())
            invariant
                n == v.len(),
                n == self.entries@.len(),
                v == self@,
                name == e.name@,
                0 <= i <= n,
                upsert(v, e@) == out@.map_values(|x: PackedEntry| x@) + upsert(v.subrange(i as int, n as int), e@),
            decreases n - i,
        {
            let ghost suffix = v.subrange(i as int, n as int);
            let ghost before = out@.map_values(|x: PackedEntry| x@);
            proof {
                assert(suffix[0] == v[i as int]);
                lemma_lex_irreflexive(name);
                lemma_lex_asymmetric(v[i as int].name, name);
                assert(suffix.drop_first() =~= v.subrange(i + 1, n as int));
                assert(upsert(suffix, e@) == seq![v[i as int]] + upsert(v.subrange(i + 1, n as int), e@));
            }
            out.push(self.entries[i].duplicate());
            assert(out@.map_values(|x: PackedEntry| x@) =~= before.push(v[i as int]));
            assert(upsert(v, e@) =~= out@.map_values(|x: PackedEntry| x@) + upsert(v.subrange(i + 1, n as int), e@));
            i += 1;
        }
        let ghost suffix = v.subrange(i as int, n as int);
        let ghost before = out@.map_values(|x: PackedEntry| x@);
        let ghost ev = e@;
        let replaces = i < n && bytes_equal(self.entries[i].name.as_slice(), e.name.as_slice());
        out.push(e);
        assert(out@.map_values(|x: PackedEntry| x@) =~= before.push(ev));
        let start: usize = if replaces {
            i + 1
        } else {
            i
        };
        proof {
            if i < n {
                assert(suffix[0] == v[i as int]);
                if !replaces {
                    lemma_lex_total(name, v[i as int].name);
                    assert(suffix =~= v.subrange(start as int, n as int));
                } else {
                    assert(suffix.drop_first() =~= v.subrange(start as int, n as int));
                }
            } else {
                assert(v.subrange(start as int, n as int) =~= Seq::<EntryView>::empty());
                assert(upsert(suffix, ev) =~= seq![ev]);
            }
            assert(upsert(suffix, ev) =~= seq![ev] + v.subrange(start as int, n as int));
        }
        extend_from(&mut out, &self.entries, start);
        proof {
            assert(out@.map_values(|x: PackedEntry| x@) =~= upsert(v, ev));
            assert(all_after(v, Seq::empty()));
            lemma_upsert_sorted(v, ev, Seq::empty());
        }
        Buffer { entries: out, path: copy_bytes(self.path.as_slice()) }
    }

    /// A copy of this table without the entry named `name`.
    pub fn without_entry(&self, name: &[u8]) -> (r: Buffer)
        requires
            self.wf(),
        ensures
            r@ == remove(self@, name@),
            r.path@ == self.path@,
            r.wf(),
    {
        let ghost v = self@;
        let mut out: Vec<PackedEntry> = Vec::new();
        let mut i: usize = 0;
        let n = self.entries.len();
        assert(v.subrange(0, v.len() as int) =~= v);
        assert(out@.map_values(|x: PackedEntry| x@) =~= Seq::<EntryView>::empty());
        while i < n
            invariant
                n == v.len(),
                n == self.entries@.len(),
                v == self@,
                0 <= i <= n,
                remove(v, name@) == out@.map_values(|x: PackedEntry| x@) + remove(v.subrange(i as int, n as int), name@),
            decreases n - i,
        {
            let ghost suffix = v.subrange(i as int, n as int);
            let ghost before = out@.map_values(|x: PackedEntry| x@);
            assert(suffix[0] == v[i as int]);
            assert(suffix.drop_first() =~= v.subrange(i + 1, n as int));
            if !bytes_equal(self.entries[i].name.as_slice(), name) {
                out.push(self.entries[i].duplicate());
                assert(out@.map_values(|x: PackedEntry| x@) =~= before.push(v[i as int]));
            }
            assert(remove(v, name@) =~= out@.map_values(|x: PackedEntry| x@) + remove(v.subrange(i + 1, n as int), name@));
            i += 1;
        }
        proof {
            assert(remove(v.subrange(n as int, n as int), name@) =~= Seq::<EntryView>::empty());
            assert(out@.map_values(|x: PackedEntry| x@) =~= remove(v, name@));
            assert(all_after(v, Seq::empty()));
            lemma_remove_sorted(v, name@, Seq::empty());
        }
        Buffer { entries: out, path: copy_bytes(self.path.as_slice()) }
    }
}

fn extend_from(out: &mut Vec<PackedEntry>, src: &Vec<PackedEntry>, start: usize)
    requires
        start <= src@.len(),
    ensures
        final(out)@.map_values(|x: PackedEntry| x@) == old(out)@.map_values(|x: PackedEntry| x@)
            + src@.map_values(|x: PackedEntry| x@).subrange(start as int, src@.len() as int),
{
    let ghost base = out@.map_values(|x: PackedEntry| x@);
    let ghost sv = src@.map_values(|x: PackedEntry| x@);
    let mut i: usize = start;
    assert(sv.subrange(start as int, start as int) =~= Seq::<EntryView>::empty());
    assert(out@.map_values(|x: PackedEntry| x@) =~= base + sv.subrange(start as int, start as int));
    while i < src.len()
        invariant
            start <= i <= src@.len(),
            sv == src@.map_values(|x: PackedEntry| x@),
            out@.map_values(|x: PackedEntry| x@) == base + sv.subrange(start as int, i as int),
        decreases src@.len() - i,
    {
        let ghost before = out@.map_values(|x: PackedEntry| x@);
        out.push(src[i].duplicate());
        assert(out@.map_values(|x: PackedEntry| x@) =~= before.push(sv[i as int]));
        assert(sv.subrange(start as int, i + 1) =~= sv.subrange(start as int, i as int).push(sv[i as int]));
        i += 1;
    }
}

} // verus!
