use git_submerge::engine::{run, EngineError};
use git_submerge::maps::Mappings;
use git_submerge::store::{Store, TreeEntry};
use git_submerge::tree_edit::get_path;

fn entry(name: &str, mode: u32, id: usize) -> TreeEntry {
    TreeEntry { name: name.as_bytes().to_vec(), mode, id }
}

fn sub_path() -> Vec<Vec<u8>> {
    vec![b"sub".to_vec()]
}

fn gitmodules_path() -> Vec<Vec<u8>> {
    vec![b".gitmodules".to_vec()]
}

#[test]
fn linear_parent_linear_submodule() {
    let mut store = Store::new();
    // Submodule history: s1 -> s2.
    let b0 = store.add_blob(b"one".to_vec());
    let t1 = store.add_tree(vec![entry("f", 0o100644, b0)]).unwrap();
    let s1 = store.add_commit(t1, vec![], 10, 11, 100).unwrap();
    let b1 = store.add_blob(b"two".to_vec());
    let t2 = store.add_tree(vec![entry("f", 0o100644, b1)]).unwrap();
    let s2 = store.add_commit(t2, vec![s1], 12, 13, 101).unwrap();
    // Parent history: p1 -> p2 -> p3; the gitlink advances at p2.
    let gm = store.add_blob(b"[submodule \"sub\"]\n\tpath = sub\n".to_vec());
    let pt1 = store
        .add_tree(vec![entry(".gitmodules", 0o100644, gm), entry("sub", 0o160000, s1)])
        .unwrap();
    let p1 = store.add_commit(pt1, vec![], 20, 21, 200).unwrap();
    let pt2 = store
        .add_tree(vec![entry(".gitmodules", 0o100644, gm), entry("sub", 0o160000, s2)])
        .unwrap();
    let p2 = store.add_commit(pt2, vec![p1], 22, 23, 201).unwrap();
    let p3 = store.add_commit(pt2, vec![p2], 24, 25, 202).unwrap();

    let dir = sub_path();
    let mappings = Mappings::new();
    let out = match run(&mut store, &dir, &vec![s2], &vec![p3], &mappings, None) {
        Ok(out) => out,
        Err(_) => panic!("engine failed"),
    };

    let s1n = out.sub_map.get(s1).unwrap();
    let s2n = out.sub_map.get(s2).unwrap();
    assert_eq!(store.commit(s2n).parents, vec![s1n]);
    assert_eq!(store.commit(s1n).parents.len(), 0);

    let p3n = out.new_tips[0];
    assert_eq!(store.commit(p3n).parents.len(), 1);
    let p2n = store.commit(p3n).parents[0];
    // p2 advanced the submodule: the rewritten submodule commit joins its
    // parents.
    assert_eq!(store.commit(p2n).parents.len(), 2);
    let p1n = store.commit(p2n).parents[0];
    assert_eq!(store.commit(p2n).parents[1], s2n);
    // p1 introduced the submodule, so it is an update too.
    assert_eq!(store.commit(p1n).parents, vec![s1n]);

    // Authors, committers and messages carried over.
    assert_eq!(store.commit(p2n).author, 22);
    assert_eq!(store.commit(p2n).committer, 23);
    assert_eq!(store.commit(p2n).message, 201);
    assert_eq!(store.commit(s2n).author, 12);
    assert_eq!(store.commit(s2n).message, 101);

    // No rewritten commit carries a gitlink; the path is a subtree now.
    for id in [p1n, p2n, p3n] {
        let tr = store.commit(id).tree;
        match get_path(&store, tr, &dir) {
            Some(e) => assert_eq!(e.mode, 0o040000),
            None => panic!("submodule directory missing"),
        }
        // The stanza was the only one, so .gitmodules is gone entirely.
        assert!(get_path(&store, tr, &gitmodules_path()).is_none());
    }

    // The spliced subtree is the relocated submodule content.
    let e2 = get_path(&store, store.commit(p2n).tree, &dir).unwrap();
    let in_sub = get_path(&store, store.commit(s2n).tree, &dir).unwrap();
    assert_eq!(e2.id, in_sub.id);
}

#[test]
fn merge_without_submodule_bump() {
    let mut store = Store::new();
    let b0 = store.add_blob(b"one".to_vec());
    let t1 = store.add_tree(vec![entry("f", 0o100644, b0)]).unwrap();
    let s1 = store.add_commit(t1, vec![], 10, 11, 100).unwrap();
    let gm = store.add_blob(b"[submodule \"sub\"]\n\tpath = sub\n".to_vec());
    let pt = store
        .add_tree(vec![entry(".gitmodules", 0o100644, gm), entry("sub", 0o160000, s1)])
        .unwrap();
    let pa = store.add_commit(pt, vec![], 20, 21, 200).unwrap();
    let pb = store.add_commit(pt, vec![], 22, 23, 201).unwrap();
    let pm = store.add_commit(pt, vec![pa, pb], 24, 25, 202).unwrap();

    let dir = sub_path();
    let mappings = Mappings::new();
    let out = match run(&mut store, &dir, &vec![s1], &vec![pm], &mappings, None) {
        Ok(out) => out,
        Err(_) => panic!("engine failed"),
    };

    // The merge kept the submodule state of its parents: no extra parent.
    let pmn = out.new_tips[0];
    assert_eq!(store.commit(pmn).parents.len(), 2);
    let pan = store.commit(pmn).parents[0];
    let pbn = store.commit(pmn).parents[1];
    // Both sides introduced the submodule, so each got the extra parent.
    let s1n = out.sub_map.get(s1).unwrap();
    assert_eq!(store.commit(pan).parents, vec![s1n]);
    assert_eq!(store.commit(pbn).parents, vec![s1n]);
}

#[test]
fn merge_resolving_to_new_state() {
    let mut store = Store::new();
    let b0 = store.add_blob(b"one".to_vec());
    let t1 = store.add_tree(vec![entry("f", 0o100644, b0)]).unwrap();
    let s1 = store.add_commit(t1, vec![], 10, 11, 100).unwrap();
    let b1 = store.add_blob(b"two".to_vec());
    let t2 = store.add_tree(vec![entry("f", 0o100644, b1)]).unwrap();
    let s2 = store.add_commit(t2, vec![], 12, 13, 101).unwrap();
    let b2 = store.add_blob(b"three".to_vec());
    let t3 = store.add_tree(vec![entry("f", 0o100644, b2)]).unwrap();
    let s3 = store.add_commit(t3, vec![s1, s2], 14, 15, 102).unwrap();

    let gm = store.add_blob(b"[submodule \"sub\"]\n\tpath = sub\n".to_vec());
    let pta = store
        .add_tree(vec![entry(".gitmodules", 0o100644, gm), entry("sub", 0o160000, s1)])
        .unwrap();
    let pa = store.add_commit(pta, vec![], 20, 21, 200).unwrap();
    let ptb = store
        .add_tree(vec![entry(".gitmodules", 0o100644, gm), entry("sub", 0o160000, s2)])
        .unwrap();
    let pb = store.add_commit(ptb, vec![], 22, 23, 201).unwrap();
    let ptm = store
        .add_tree(vec![entry(".gitmodules", 0o100644, gm), entry("sub", 0o160000, s3)])
        .unwrap();
    let pm = store.add_commit(ptm, vec![pa, pb], 24, 25, 202).unwrap();

    let dir = sub_path();
    let mappings = Mappings::new();
    let out = match run(&mut store, &dir, &vec![s3], &vec![pm], &mappings, None) {
        Ok(out) => out,
        Err(_) => panic!("engine failed"),
    };

    // The merge resolved to a third state: a genuine advance.
    let pmn = out.new_tips[0];
    let s3n = out.sub_map.get(s3).unwrap();
    assert_eq!(store.commit(pmn).parents.len(), 3);
    assert_eq!(store.commit(pmn).parents[2], s3n);
}

#[test]
fn unknown_gitlink_with_default_mapping() {
    let mut store = Store::new();
    let b0 = store.add_blob(b"one".to_vec());
    let t1 = store.add_tree(vec![entry("f", 0o100644, b0)]).unwrap();
    let s1 = store.add_commit(t1, vec![], 10, 11, 100).unwrap();
    let gm = store.add_blob(b"[submodule \"sub\"]\n\tpath = sub\n".to_vec());
    let unknown = 9999usize;
    let pt = store
        .add_tree(vec![entry(".gitmodules", 0o100644, gm), entry("sub", 0o160000, unknown)])
        .unwrap();
    let p = store.add_commit(pt, vec![], 20, 21, 200).unwrap();

    let dir = sub_path();
    let mappings = Mappings::new();
    let out = match run(&mut store, &dir, &vec![s1], &vec![p], &mappings, Some(s1)) {
        Ok(out) => out,
        Err(_) => panic!("engine failed"),
    };

    // The default stood in for the unknown commit: its image's subtree is
    // spliced in and joins the parents.
    let pn = out.new_tips[0];
    let s1n = out.sub_map.get(s1).unwrap();
    assert_eq!(store.commit(pn).parents, vec![s1n]);
    let spliced = get_path(&store, store.commit(pn).tree, &dir).unwrap();
    let relocated = get_path(&store, store.commit(s1n).tree, &dir).unwrap();
    assert_eq!(spliced.id, relocated.id);
    assert_eq!(spliced.mode, 0o040000);
}

#[test]
fn unknown_gitlink_without_default_mapping() {
    let mut store = Store::new();
    let b0 = store.add_blob(b"one".to_vec());
    let t1 = store.add_tree(vec![entry("f", 0o100644, b0)]).unwrap();
    let s1 = store.add_commit(t1, vec![], 10, 11, 100).unwrap();
    let gm = store.add_blob(b"[submodule \"sub\"]\n\tpath = sub\n".to_vec());
    let unknown = 9999usize;
    let pt = store
        .add_tree(vec![entry(".gitmodules", 0o100644, gm), entry("sub", 0o160000, unknown)])
        .unwrap();
    let p = store.add_commit(pt, vec![], 20, 21, 200).unwrap();

    let dir = sub_path();
    let mappings = Mappings::new();
    match run(&mut store, &dir, &vec![s1], &vec![p], &mappings, None) {
        Ok(_) => panic!("a dangling reference must abort the run"),
        Err(EngineError::DanglingReferences(v)) => {
            assert_eq!(v, vec![unknown]);
        }
        Err(_) => panic!("wrong error"),
    }
}

#[test]
fn commit_without_gitlink_keeps_its_identity() {
    let mut store = Store::new();
    let b0 = store.add_blob(b"one".to_vec());
    let t1 = store.add_tree(vec![entry("f", 0o100644, b0)]).unwrap();
    let s1 = store.add_commit(t1, vec![], 10, 11, 100).unwrap();
    // The parent history never contains the gitlink.
    let pb = store.add_blob(b"readme".to_vec());
    let pt = store.add_tree(vec![entry("README", 0o100644, pb)]).unwrap();
    let p1 = store.add_commit(pt, vec![], 20, 21, 200).unwrap();
    let p2 = store.add_commit(pt, vec![p1], 22, 23, 201).unwrap();

    let dir = sub_path();
    let mappings = Mappings::new();
    let out = match run(&mut store, &dir, &vec![s1], &vec![p2], &mappings, None) {
        Ok(out) => out,
        Err(_) => panic!("engine failed"),
    };
    // Untouched commits map to themselves; the branch tip does not move.
    assert_eq!(out.new_tips, vec![p2]);
    assert_eq!(out.map.get(p1), Some(p1));
    assert_eq!(out.map.get(p2), Some(p2));
}

#[test]
fn explicit_mapping_redirects_gitlink() {
    let mut store = Store::new();
    let b0 = store.add_blob(b"one".to_vec());
    let t1 = store.add_tree(vec![entry("f", 0o100644, b0)]).unwrap();
    let s1 = store.add_commit(t1, vec![], 10, 11, 100).unwrap();
    let gm = store.add_blob(b"[submodule \"sub\"]\n\tpath = sub\n".to_vec());
    let unknown = 4242usize;
    let pt = store
        .add_tree(vec![entry(".gitmodules", 0o100644, gm), entry("sub", 0o160000, unknown)])
        .unwrap();
    let p = store.add_commit(pt, vec![], 20, 21, 200).unwrap();

    let dir = sub_path();
    let mut mappings = Mappings::new();
    mappings.push(unknown, s1);
    let out = match run(&mut store, &dir, &vec![s1], &vec![p], &mappings, None) {
        Ok(out) => out,
        Err(_) => panic!("engine failed"),
    };
    let pn = out.new_tips[0];
    let s1n = out.sub_map.get(s1).unwrap();
    assert_eq!(store.commit(pn).parents, vec![s1n]);
}

#[test]
fn invalid_mapping_value_rejected() {
    let mut store = Store::new();
    let b0 = store.add_blob(b"one".to_vec());
    let t1 = store.add_tree(vec![entry("f", 0o100644, b0)]).unwrap();
    let s1 = store.add_commit(t1, vec![], 10, 11, 100).unwrap();
    let gm = store.add_blob(b"[submodule \"sub\"]\n\tpath = sub\n".to_vec());
    let pt = store
        .add_tree(vec![entry(".gitmodules", 0o100644, gm), entry("sub", 0o160000, s1)])
        .unwrap();
    let p = store.add_commit(pt, vec![], 20, 21, 200).unwrap();

    let dir = sub_path();
    let mut mappings = Mappings::new();
    // The mapping's value is not a commit of the submodule history.
    mappings.push(s1, 777);
    match run(&mut store, &dir, &vec![s1], &vec![p], &mappings, None) {
        Ok(_) => panic!("invalid mappings must abort the run"),
        Err(EngineError::InvalidMappings(v)) => assert_eq!(v, vec![777]),
        Err(_) => panic!("wrong error"),
    }
}

#[test]
fn multiple_stanzas_only_absorbed_one_removed() {
    let mut store = Store::new();
    let b0 = store.add_blob(b"one".to_vec());
    let t1 = store.add_tree(vec![entry("f", 0o100644, b0)]).unwrap();
    let s1 = store.add_commit(t1, vec![], 10, 11, 100).unwrap();
    let gm_content =
        b"[submodule \"other\"]\n\tpath = other\n[submodule \"sub\"]\n\tpath = sub\n".to_vec();
    let gm = store.add_blob(gm_content);
    let pt = store
        .add_tree(vec![entry(".gitmodules", 0o100644, gm), entry("sub", 0o160000, s1)])
        .unwrap();
    let p = store.add_commit(pt, vec![], 20, 21, 200).unwrap();

    let dir = sub_path();
    let mappings = Mappings::new();
    let out = match run(&mut store, &dir, &vec![s1], &vec![p], &mappings, None) {
        Ok(out) => out,
        Err(_) => panic!("engine failed"),
    };
    let pn = out.new_tips[0];
    let gme = get_path(&store, store.commit(pn).tree, &gitmodules_path()).unwrap();
    let data = &store.blob(gme.id).data;
    assert_eq!(data, &b"[submodule \"other\"]\n\tpath = other\n".to_vec());
}

#[test]
fn shared_tree_relocated_once() {
    let mut store = Store::new();
    // Two submodule commits sharing one tree: the relocation is reused, so
    // both images carry the same relocated tree.
    let b0 = store.add_blob(b"one".to_vec());
    let t1 = store.add_tree(vec![entry("f", 0o100644, b0)]).unwrap();
    let s1 = store.add_commit(t1, vec![], 10, 11, 100).unwrap();
    let s2 = store.add_commit(t1, vec![s1], 12, 13, 101).unwrap();
    let gm = store.add_blob(b"[submodule \"sub\"]\n\tpath = sub\n".to_vec());
    let pt = store
        .add_tree(vec![entry(".gitmodules", 0o100644, gm), entry("sub", 0o160000, s2)])
        .unwrap();
    let p = store.add_commit(pt, vec![], 20, 21, 200).unwrap();

    let dir = sub_path();
    let mappings = Mappings::new();
    let out = match run(&mut store, &dir, &vec![s2], &vec![p], &mappings, None) {
        Ok(out) => out,
        Err(_) => panic!("engine failed"),
    };
    let s1n = out.sub_map.get(s1).unwrap();
    let s2n = out.sub_map.get(s2).unwrap();
    assert_ne!(s1n, s2n);
    assert_eq!(store.commit(s1n).tree, store.commit(s2n).tree);
    let reloc = get_path(&store, store.commit(s1n).tree, &dir).unwrap();
    assert_eq!(reloc.mode, 0o040000);
    assert_eq!(reloc.id, t1);
}
