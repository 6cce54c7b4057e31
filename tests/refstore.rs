use git_refstore::encode::{Entries, HashKind, Version};
use git_refstore::find::{Error, ExistingError, LooseRead, Store};
use git_refstore::head::{Error as PeelError, Head, Kind};
use git_refstore::name::{is_valid_name, join_paths, lookup_candidates};
use git_refstore::oid::ObjectId;
use git_refstore::packed::{Buffer, PackedEntry};
use git_refstore::reference::{decode_target, Reference, Target};
use git_refstore::transaction::{Change, PrepareError, Previous, RefEdit};

const HEX_A: &[u8] = b"1111111111111111111111111111111111111111";
const HEX_B: &[u8] = b"2222222222222222222222222222222222222222";
const HEX_C: &[u8] = b"abcdef0123456789abcdef0123456789abcdef01";

fn oid(hex: &[u8]) -> ObjectId {
    ObjectId::from_hex(hex).unwrap()
}

fn entry(name: &str, hex: &[u8]) -> PackedEntry {
    PackedEntry { name: name.as_bytes().to_vec(), target: oid(hex), peeled: None }
}

fn table(entries: Vec<PackedEntry>) -> Buffer {
    Buffer::from_entries(entries, b"packed-refs".to_vec()).unwrap()
}

fn store() -> Store {
    Store { base: b".git".to_vec() }
}

/// Reads for the candidates of `partial` from a list of loose files.
fn reads(partial: &str, files: &[(&str, &[u8])]) -> Vec<LooseRead> {
    lookup_candidates(partial.as_bytes())
        .iter()
        .map(|c| match files.iter().find(|(p, _)| p.as_bytes() == c.path.as_slice()) {
            Some((_, content)) => LooseRead::Contents(content.to_vec()),
            None => LooseRead::Missing,
        })
        .collect()
}

fn peeled_id(r: &Reference) -> Vec<u8> {
    match &r.target {
        Target::Peeled(id) => id.as_bytes().to_vec(),
        Target::Symbolic(_) => panic!("expected a peeled reference"),
    }
}

fn paths(partial: &str) -> Vec<String> {
    lookup_candidates(partial.as_bytes())
        .iter()
        .map(|c| String::from_utf8(c.path.clone()).unwrap())
        .collect()
}

#[test]
fn candidates_of_short_name() {
    assert_eq!(
        paths("main"),
        vec!["refs/main", "refs/tags/main", "refs/heads/main", "refs/remotes/main", "refs/remotes/main/HEAD"]
    );
    let fallbacks: Vec<bool> = lookup_candidates(b"main").iter().map(|c| c.packed_fallback).collect();
    assert_eq!(fallbacks, vec![true, true, true, true, false]);
}

#[test]
fn candidates_of_special_and_full_names() {
    assert_eq!(paths("HEAD")[0], "HEAD");
    assert_eq!(paths("HEAD").len(), 6);
    assert_eq!(paths("FETCH_HEAD")[0], "FETCH_HEAD");
    assert_eq!(paths("refs/heads/main")[0], "refs/heads/main");
    assert_eq!(paths("refs/heads/main")[2], "heads/refs/heads/main");
}

#[test]
fn name_validation() {
    assert!(is_valid_name(b"refs/heads/main"));
    assert!(!is_valid_name(b""));
    assert!(!is_valid_name(b"/main"));
    assert!(!is_valid_name(b"main/"));
    assert!(!is_valid_name(b"a//b"));
    assert!(!is_valid_name(b"a..b"));
    assert!(!is_valid_name(b"a b"));
    assert!(!is_valid_name(b"a~1"));
}

#[test]
fn join_and_reference_path() {
    assert_eq!(join_paths(b"refs", b"heads"), b"refs/heads".to_vec());
    assert_eq!(join_paths(b"", b"heads"), b"heads".to_vec());
    assert_eq!(store().reference_path(b"refs/heads/main"), b".git/refs/heads/main".to_vec());
}

#[test]
fn decode_contents() {
    match decode_target(b"ref: refs/heads/main\n") {
        Some(Target::Symbolic(n)) => assert_eq!(n, b"refs/heads/main".to_vec()),
        _ => panic!("expected a symbolic target"),
    }
    let mut line = HEX_C.to_vec();
    line.extend_from_slice(b"\r\n");
    match decode_target(&line) {
        Some(Target::Peeled(id)) => assert_eq!(id.as_bytes()[0], 0xab),
        _ => panic!("expected a peeled target"),
    }
    assert!(decode_target(b"garbage").is_none());
    assert!(decode_target(b"ref: ").is_none());
}

#[test]
fn hex_round_trip() {
    let id = oid(HEX_C);
    assert_eq!(id.as_bytes().len(), 20);
    assert_eq!(id.as_bytes()[1], 0xcd);
    let mut out = Vec::new();
    id.write_hex(&mut out);
    assert_eq!(out, HEX_C.to_vec());
    assert!(ObjectId::from_hex(b"123").is_none());
    assert!(ObjectId::from_hex(b"zz22222222222222222222222222222222222222").is_none());
    let upper = ObjectId::from_hex(b"ABCDEF0123456789ABCDEF0123456789ABCDEF01").unwrap();
    assert!(upper.same_as(&id));
}

#[test]
fn short_and_full_name_find_same_branch() {
    let files: &[(&str, &[u8])] = &[("refs/heads/main", HEX_A)];
    let short = store().find(b"main", &reads("main", files), None).unwrap().unwrap();
    let full = store().find(b"refs/heads/main", &reads("refs/heads/main", files), None).unwrap().unwrap();
    assert_eq!(short.name, b"refs/heads/main".to_vec());
    assert_eq!(short.name, full.name);
    assert_eq!(peeled_id(&short), peeled_id(&full));
}

#[test]
fn head_never_consults_packed() {
    let packed = table(vec![entry("HEAD", HEX_B)]);
    let files: &[(&str, &[u8])] = &[("HEAD", b"ref: refs/heads/main\n")];
    let r = store().find(b"HEAD", &reads("HEAD", files), Some(&packed)).unwrap().unwrap();
    assert_eq!(r.name, b"HEAD".to_vec());
    match r.target {
        Target::Symbolic(n) => assert_eq!(n, b"refs/heads/main".to_vec()),
        _ => panic!("expected a symbolic target"),
    }
    let none = store().find(b"HEAD", &reads("HEAD", &[]), Some(&packed)).unwrap();
    assert!(none.is_none());
}

#[test]
fn packed_tag_is_found() {
    let packed = table(vec![entry("refs/tags/v1", HEX_B)]);
    let r = store().find(b"v1", &reads("v1", &[]), Some(&packed)).unwrap().unwrap();
    assert_eq!(r.name, b"refs/tags/v1".to_vec());
    assert_eq!(peeled_id(&r), oid(HEX_B).as_bytes().to_vec());
}

#[test]
fn loose_file_wins_over_packed() {
    let packed = table(vec![entry("refs/heads/x", HEX_B)]);
    let files: &[(&str, &[u8])] = &[("refs/heads/x", HEX_A)];
    let r = store().find(b"x", &reads("x", files), Some(&packed)).unwrap().unwrap();
    assert_eq!(peeled_id(&r), oid(HEX_A).as_bytes().to_vec());
}

#[test]
fn nonexistent_is_absent() {
    let packed = table(vec![entry("refs/heads/other", HEX_B)]);
    let r = store().find(b"nonexistent", &reads("nonexistent", &[]), Some(&packed)).unwrap();
    assert!(r.is_none());
    match store().find_existing(b"nonexistent", &reads("nonexistent", &[]), Some(&packed)) {
        Err(ExistingError::NotFound(n)) => assert_eq!(n, b"nonexistent".to_vec()),
        _ => panic!("expected not found"),
    }
}

#[test]
fn find_existing_finds() {
    let files: &[(&str, &[u8])] = &[("refs/remotes/origin/HEAD", b"ref: refs/remotes/origin/main")];
    let r = store().find_existing(b"origin", &reads("origin", files), None).ok().unwrap();
    assert_eq!(r.name, b"refs/remotes/origin/HEAD".to_vec());
}

#[test]
fn remote_head_has_no_packed_fallback() {
    let packed = table(vec![entry("refs/remotes/origin/HEAD", HEX_B)]);
    assert!(store().find(b"origin", &reads("origin", &[]), Some(&packed)).unwrap().is_none());
}

#[test]
fn lookup_errors() {
    assert!(matches!(store().find(b"a..b", &reads("a..b", &[]), None), Err(Error::RefnameValidation)));
    let files: &[(&str, &[u8])] = &[("refs/tags/bad", b"not a ref")];
    match store().find(b"bad", &reads("bad", files), None) {
        Err(Error::ReferenceCreation { relative_path }) => assert_eq!(relative_path, b"refs/tags/bad".to_vec()),
        _ => panic!("expected a corrupt reference"),
    }
    let mut failing = reads("x", &[("refs/heads/x", HEX_A)]);
    failing[0] = LooseRead::Failed("denied".to_string());
    match store().find(b"x", &failing, None) {
        Err(Error::ReadFileContents(m)) => assert_eq!(m, "denied"),
        _ => panic!("expected a read error"),
    }
    match store().find_existing(b"x", &failing, None) {
        Err(ExistingError::Find(Error::ReadFileContents(_))) => {}
        _ => panic!("expected a read error"),
    }
}

#[test]
fn buffer_order_and_lookup() {
    assert!(Buffer::from_entries(vec![entry("refs/b", HEX_A), entry("refs/a", HEX_A)], Vec::new()).is_none());
    assert!(Buffer::from_entries(vec![entry("refs/a", HEX_A), entry("refs/a", HEX_A)], Vec::new()).is_none());
    assert!(Buffer::from_entries(vec![entry("", HEX_A)], Vec::new()).is_none());
    let b = table(vec![entry("refs/a", HEX_A), entry("refs/b", HEX_B)]);
    assert!(b.find_existing(b"refs/b").unwrap().target.same_as(&oid(HEX_B)));
    assert!(b.find_existing(b"refs/c").is_none());
}

#[test]
fn buffer_text() {
    let mut tag = entry("refs/tags/v1", HEX_A);
    tag.peeled = Some(oid(HEX_B));
    let b = table(vec![entry("refs/heads/main", HEX_C), tag]);
    let expected = format!(
        "{} refs/heads/main\n{} refs/tags/v1\n^{}\n",
        std::str::from_utf8(HEX_C).unwrap(),
        std::str::from_utf8(HEX_A).unwrap(),
        std::str::from_utf8(HEX_B).unwrap()
    );
    assert_eq!(b.to_bytes(), expected.into_bytes());
}

#[test]
fn delete_of_absent_is_noop() {
    let b = table(vec![entry("refs/heads/main", HEX_A)]);
    let tx = b.into_transaction();
    assert!(tx.holds_lock());
    let edits = vec![RefEdit { change: Change::Delete { expected: Previous::Any }, name: b"refs/heads/gone".to_vec() }];
    let tx = tx.prepare(edits).ok().unwrap();
    assert!(!tx.holds_lock());
    assert!(tx.pending_table().is_none());
    let (applied, buffer) = tx.commit(Err("never used".to_string())).ok().unwrap();
    assert!(applied.is_empty());
    assert_eq!(buffer.to_bytes(), table(vec![entry("refs/heads/main", HEX_A)]).to_bytes());
}

#[test]
fn update_and_delete_commit() {
    let b = table(vec![entry("refs/heads/a", HEX_A), entry("refs/heads/c", HEX_A)]);
    let edits = vec![
        RefEdit { change: Change::Update { new: oid(HEX_B), expected: Previous::MustNotExist }, name: b"refs/heads/b".to_vec() },
        RefEdit { change: Change::Delete { expected: Previous::MustExistAndMatch(oid(HEX_A)) }, name: b"refs/heads/c".to_vec() },
        RefEdit { change: Change::Update { new: oid(HEX_C), expected: Previous::Any }, name: b"refs/heads/a".to_vec() },
    ];
    let tx = b.into_transaction().prepare(edits).ok().unwrap();
    assert!(tx.holds_lock());
    let pending = tx.pending_table().unwrap();
    let (applied, buffer) = tx.commit(Ok(())).ok().unwrap();
    assert_eq!(applied.len(), 3);
    assert_eq!(buffer.to_bytes(), pending.to_bytes());
    let names: Vec<Vec<u8>> = buffer.entries.iter().map(|e| e.name.clone()).collect();
    assert_eq!(names, vec![b"refs/heads/a".to_vec(), b"refs/heads/b".to_vec()]);
    assert!(buffer.entries[0].target.same_as(&oid(HEX_C)));
    assert!(buffer.entries[1].target.same_as(&oid(HEX_B)));
}

#[test]
fn failed_rename_keeps_old_table() {
    let b = table(vec![entry("refs/heads/a", HEX_A)]);
    let before = b.to_bytes();
    let edits = vec![RefEdit { change: Change::Delete { expected: Previous::Any }, name: b"refs/heads/a".to_vec() }];
    let tx = b.into_transaction().prepare(edits).ok().unwrap();
    assert_eq!(tx.pending_table().unwrap().to_bytes(), Vec::<u8>::new());
    match tx.commit(Err("rename failed".to_string())) {
        Err(e) => {
            assert_eq!(e.message, "rename failed");
            assert_eq!(e.buffer.to_bytes(), before);
        }
        Ok(_) => panic!("expected the commit to fail"),
    }
}

#[test]
fn conflicting_expectation_fails_prepare() {
    let b = table(vec![entry("refs/heads/a", HEX_A)]);
    let edits = vec![RefEdit { change: Change::Update { new: oid(HEX_B), expected: Previous::MustNotExist }, name: b"refs/heads/a".to_vec() }];
    match b.into_transaction().prepare(edits) {
        Err(PrepareError::Conflict(n)) => assert_eq!(n, b"refs/heads/a".to_vec()),
        _ => panic!("expected a conflict"),
    }
    let b = table(vec![entry("refs/heads/a", HEX_A)]);
    let edits = vec![RefEdit { change: Change::Delete { expected: Previous::MustExistAndMatch(oid(HEX_B)) }, name: b"refs/heads/a".to_vec() }];
    assert!(matches!(b.into_transaction().prepare(edits), Err(PrepareError::Conflict(_))));
}

#[test]
fn head_states() {
    let unborn = Kind::Unborn(b"refs/heads/main".to_vec()).attach();
    assert!(!unborn.is_detached());
    assert_eq!(unborn.referent_name(), Some(b"refs/heads/main".to_vec()));
    assert!(unborn.id().is_none());
    let detached = Kind::Detached { target: oid(HEX_A), peeled: None }.attach();
    assert!(detached.is_detached());
    assert!(detached.referent_name().is_none());
    assert!(detached.id().unwrap().same_as(&oid(HEX_A)));
    let sym = Kind::Symbolic(Reference { name: b"refs/heads/main".to_vec(), target: Target::Peeled(oid(HEX_B)) }).attach();
    assert!(sym.id().unwrap().same_as(&oid(HEX_B)));
    assert_eq!(sym.into_referent().name, b"refs/heads/main".to_vec());
    assert_eq!(unborn.log_iter().name, b"HEAD".to_vec());
}

#[test]
fn head_peeling() {
    let mut detached: Head = Kind::Detached { target: oid(HEX_A), peeled: None }.attach();
    let r = detached.peel_to_id_in_place(Ok(oid(HEX_B))).unwrap().ok().unwrap();
    assert!(r.same_as(&oid(HEX_B)));
    assert!(detached.id().unwrap().same_as(&oid(HEX_B)));
    let again = detached.peel_to_id_in_place(Err(PeelError::FindExistingObject("unused".to_string())));
    assert!(again.unwrap().ok().unwrap().same_as(&oid(HEX_B)));

    let mut unborn = Kind::Unborn(b"refs/heads/main".to_vec()).attach();
    assert!(unborn.peel_to_id_in_place(Ok(oid(HEX_A))).is_none());
    assert!(Kind::Unborn(b"refs/heads/x".to_vec()).attach().into_fully_peeled_id(Ok(oid(HEX_A))).is_none());

    let sym = Kind::Symbolic(Reference { name: b"HEAD".to_vec(), target: Target::Symbolic(b"refs/heads/main".to_vec()) }).attach();
    let peeled = sym.peeled(Ok(oid(HEX_C))).ok().unwrap();
    assert!(peeled.id().unwrap().same_as(&oid(HEX_C)));

    let failing = Kind::Detached { target: oid(HEX_A), peeled: None }.attach();
    assert!(matches!(failing.peeled(Err(PeelError::PeelReference("gone".to_string()))), Err(PeelError::PeelReference(_))));
    let id = Kind::Detached { target: oid(HEX_A), peeled: None }.attach().into_fully_peeled_id(Ok(oid(HEX_B)));
    assert!(id.unwrap().ok().unwrap().same_as(&oid(HEX_B)));
}

#[test]
fn entries_hand_back_output() {
    let input: Vec<u8> = Vec::new();
    let writer = Entries::new(input.into_iter(), vec![7u8], 3, Version::V2, HashKind::Sha1);
    assert_eq!(writer.into_write(), vec![7u8]);
}

#[test]
fn packed_file_round_trip() {
    let mut tag = entry("refs/tags/v1", HEX_A);
    tag.peeled = Some(oid(HEX_B));
    let b = table(vec![entry("refs/heads/main", HEX_C), tag]);
    let text = b.to_bytes();
    let back = Buffer::from_bytes(&text, b"packed-refs".to_vec()).unwrap();
    assert_eq!(back.to_bytes(), text);
    assert_eq!(back.entries.len(), 2);
    assert!(back.entries[1].peeled.as_ref().unwrap().same_as(&oid(HEX_B)));

    let mut with_header = b"# pack-refs with: peeled fully-peeled sorted \n".to_vec();
    with_header.extend_from_slice(&text);
    let parsed = Buffer::from_bytes(&with_header, Vec::new()).unwrap();
    assert_eq!(parsed.to_bytes(), text);

    assert!(Buffer::from_bytes(b"", Vec::new()).unwrap().entries.is_empty());
    assert!(Buffer::from_bytes(b"# header only", Vec::new()).is_none());
    let upper = format!("{} refs/heads/a\n", "ABCDEF0123456789ABCDEF0123456789ABCDEF01");
    assert!(Buffer::from_bytes(upper.as_bytes(), Vec::new()).is_none());
    let unsorted = format!(
        "{} refs/heads/b\n{} refs/heads/a\n",
        std::str::from_utf8(HEX_A).unwrap(),
        std::str::from_utf8(HEX_A).unwrap()
    );
    assert!(Buffer::from_bytes(unsorted.as_bytes(), Vec::new()).is_none());
    let truncated = format!("{} refs/heads/a", std::str::from_utf8(HEX_A).unwrap());
    assert!(Buffer::from_bytes(truncated.as_bytes(), Vec::new()).is_none());
}

#[test]
fn prepare_marks_transaction_prepared() {
    let tx = table(vec![]).into_transaction();
    assert!(!tx.prepared());
    let tx = tx.prepare(Vec::new()).ok().unwrap();
    assert!(tx.prepared());
    assert!(!tx.holds_lock());
    assert!(tx.buffer().entries.is_empty());
}

#[test]
fn entries_keep_hash_kind() {
    let writer = Entries::new(Vec::<u8>::new().into_iter(), Vec::<u8>::new(), 0, Version::V2, HashKind::Sha1);
    assert_eq!(writer.hash_kind(), HashKind::Sha1);
}

#[test]
fn binary_search_finds_every_entry() {
    let names = ["refs/heads/a", "refs/heads/b", "refs/heads/c", "refs/remotes/o/main", "refs/tags/v1", "refs/tags/v2"];
    let b = table(names.iter().map(|n| entry(n, HEX_A)).collect());
    assert!(b.is_well_formed());
    for n in names.iter() {
        assert_eq!(b.find_existing(n.as_bytes()).unwrap().name, n.as_bytes().to_vec());
    }
    assert!(b.find_existing(b"refs/heads/bb").is_none());
    assert!(b.find_existing(b"refs/tags/v3").is_none());
    assert!(b.find_existing(b"a").is_none());
    let unsorted = Buffer { entries: vec![entry("refs/b", HEX_A), entry("refs/a", HEX_A)], path: Vec::new() };
    assert!(!unsorted.is_well_formed());
}

#[test]
fn transaction_keeps_table_path() {
    let b = Buffer::from_entries(vec![entry("refs/heads/a", HEX_A)], b"repo/packed-refs".to_vec()).unwrap();
    let tx = b.into_transaction();
    assert_eq!(tx.buffer().path, b"repo/packed-refs".to_vec());
    let edits = vec![RefEdit { change: Change::Delete { expected: Previous::Any }, name: b"refs/heads/gone".to_vec() }];
    let tx = tx.prepare(edits).ok().unwrap();
    assert_eq!(tx.buffer().path, b"repo/packed-refs".to_vec());
    let (_, buffer) = tx.commit(Ok(())).ok().unwrap();
    assert_eq!(buffer.path, b"repo/packed-refs".to_vec());

    let b = Buffer::from_entries(vec![entry("refs/heads/a", HEX_A)], b"repo/packed-refs".to_vec()).unwrap();
    let edits = vec![RefEdit { change: Change::Update { new: oid(HEX_B), expected: Previous::Any }, name: b"refs/heads/b".to_vec() }];
    let tx = b.into_transaction().prepare(edits).ok().unwrap();
    let written = tx.pending_table().unwrap().to_bytes();
    let (_, buffer) = tx.commit(Ok(())).ok().unwrap();
    assert_eq!(buffer.path, b"repo/packed-refs".to_vec());
    let reread = Buffer::from_bytes(&written, b"repo/packed-refs".to_vec()).unwrap();
    assert_eq!(reread.to_bytes(), buffer.to_bytes());
    assert_eq!(reread.entries.len(), 2);
}

#[test]
fn settling_candidates() {
    let cands = lookup_candidates(b"x");
    let packed = table(vec![entry("refs/tags/x", HEX_B)]);
    assert!(!store().candidate_settles(&cands[0], &LooseRead::Missing, Some(&packed)));
    assert!(store().candidate_settles(&cands[1], &LooseRead::Missing, Some(&packed)));
    assert!(store().candidate_settles(&cands[0], &LooseRead::Contents(HEX_A.to_vec()), None));
    assert!(store().candidate_settles(&cands[0], &LooseRead::Failed("e".to_string()), None));
    assert!(!store().candidate_settles(&cands[4], &LooseRead::Missing, Some(&packed)));
}
