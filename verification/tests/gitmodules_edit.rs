use git_submerge::gitmodules::{edit_gitmodules_blob, BlobEdit};

#[test]
fn other_stanzas_preserved_byte_for_byte() {
    let data = b"[submodule \"a\"]\n\tpath = a\n\turl = ../a\n[submodule \"sub\"]\n\tpath = sub\n[other]\nkey = value\n"
        .to_vec();
    match edit_gitmodules_blob(&data, &b"sub".to_vec()) {
        BlobEdit::Replace(v) => {
            assert_eq!(
                v,
                b"[submodule \"a\"]\n\tpath = a\n\turl = ../a\n[other]\nkey = value\n".to_vec()
            );
        }
        _ => panic!("the file must be replaced"),
    }
}

#[test]
fn sole_stanza_deletes_the_file() {
    let data = b"[submodule \"sub\"]\n\tpath = sub\n\turl = ../sub\n".to_vec();
    match edit_gitmodules_blob(&data, &b"sub".to_vec()) {
        BlobEdit::Delete => {}
        _ => panic!("the file must be deleted"),
    }
}

#[test]
fn absent_stanza_leaves_the_file_alone() {
    let data = b"[submodule \"other\"]\n\tpath = other\n".to_vec();
    match edit_gitmodules_blob(&data, &b"sub".to_vec()) {
        BlobEdit::Unchanged => {}
        _ => panic!("the file must stay"),
    }
}

#[test]
fn stanza_name_is_matched_exactly() {
    // "subx" is not "sub": nothing may be removed.
    let data = b"[submodule \"subx\"]\n\tpath = subx\n".to_vec();
    match edit_gitmodules_blob(&data, &b"sub".to_vec()) {
        BlobEdit::Unchanged => {}
        _ => panic!("a different stanza must not match"),
    }
}

#[test]
fn crlf_line_endings_accepted() {
    let data = b"[submodule \"sub\"]\r\n\tpath = sub\r\n[other]\r\nkey = value\r\n".to_vec();
    match edit_gitmodules_blob(&data, &b"sub".to_vec()) {
        BlobEdit::Replace(v) => {
            assert_eq!(v, b"[other]\r\nkey = value\r\n".to_vec());
        }
        _ => panic!("the file must be replaced"),
    }
}

#[test]
fn blank_lines_between_stanzas_count_as_empty() {
    let data = b"[submodule \"sub\"]\n\tpath = sub\n\n".to_vec();
    match edit_gitmodules_blob(&data, &b"sub".to_vec()) {
        BlobEdit::Delete => {}
        _ => panic!("only blank lines remain, so the file must be deleted"),
    }
}

#[test]
fn repeated_stanza_removed_everywhere() {
    let data =
        b"[submodule \"sub\"]\n\tpath = sub\n[keep]\nk = v\n[submodule \"sub\"]\n\turl = ../sub\n"
            .to_vec();
    match edit_gitmodules_blob(&data, &b"sub".to_vec()) {
        BlobEdit::Replace(v) => {
            assert_eq!(v, b"[keep]\nk = v\n".to_vec());
        }
        _ => panic!("the file must be replaced"),
    }
}
