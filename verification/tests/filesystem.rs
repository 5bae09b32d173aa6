use rda::filesystem::{format_length, RDADirectory, RDAFile, RDAFileSystem, RDANode, TreeError};

fn sample_fs() -> RDAFileSystem {
    RDAFileSystem {
        root: RDANode::Directory(RDADirectory {
            filename: "/".to_string(),
            nodes: vec![RDANode::File(RDAFile {
                filename: "testfile.txt".to_string(),
                content: b"hello, world".to_vec(),
            })],
        }),
    }
}

#[test]
fn print_filesystem() {
    let fs = sample_fs();
    assert_eq!(
        fs.debug_string(),
        "RDAFileSystem { root: Directory(RDADirectory { filename: \"/\", nodes: [File(testfile.txt [12 B])] }) }"
    )
}

#[test]
fn push_dir() {
    let mut fs = sample_fs();

    fs.push(
        &["test".to_string()],
        RDANode::Directory(RDADirectory {
            filename: "dir".to_string(),
            nodes: vec![],
        }),
    )
    .unwrap();

    assert_eq!(
        fs.display_string(),
        "RDAFileSystem\n\
        testfile.txt [12 B]\n\
        test [ dir [ ], ]\n"
    )
}

#[test]
fn push_into_empty_tree_creates_directories() {
    let mut fs = RDAFileSystem::default();
    fs.push(
        &["a".to_string(), "b".to_string()],
        RDANode::File(RDAFile {
            filename: "c".to_string(),
            content: b"x".to_vec(),
        }),
    )
    .unwrap();
    assert_eq!(fs.display_string(), "RDAFileSystem\na [ b [ c [1 B], ], ]\n");
}

#[test]
fn push_through_file_fails() {
    let mut fs = sample_fs();
    let before = fs.display_string();
    let r = fs.push(
        &["testfile.txt".to_string()],
        RDANode::File(RDAFile {
            filename: "y".to_string(),
            content: vec![],
        }),
    );
    assert_eq!(r, Err(TreeError::NotADirectory));
    assert_eq!(fs.display_string(), before);
}

#[test]
fn push_duplicate_name_fails() {
    let mut fs = sample_fs();
    let r = fs.push(
        &[],
        RDANode::File(RDAFile {
            filename: "testfile.txt".to_string(),
            content: vec![],
        }),
    );
    assert_eq!(r, Err(TreeError::DuplicateName));
}

#[test]
fn push_empty_sentinel_fails() {
    let mut fs = sample_fs();
    let r = fs.push(&[], RDANode::Empty);
    assert_eq!(r, Err(TreeError::EmptyChild));
}

#[test]
fn push_onto_file_root_fails() {
    let mut fs = RDAFileSystem {
        root: RDANode::File(RDAFile {
            filename: "f".to_string(),
            content: vec![],
        }),
    };
    let r = fs.push(
        &[],
        RDANode::File(RDAFile {
            filename: "g".to_string(),
            content: vec![],
        }),
    );
    assert_eq!(r, Err(TreeError::NotADirectory));
}

#[test]
fn lookup_finds_pushed_node() {
    let mut fs = RDAFileSystem::default();
    fs.push(
        &["a".to_string(), "b".to_string()],
        RDANode::File(RDAFile {
            filename: "c".to_string(),
            content: b"payload".to_vec(),
        }),
    )
    .unwrap();
    let root = match &fs.root {
        RDANode::Directory(d) => d,
        _ => panic!("root must be a directory"),
    };
    let found = root
        .lookup(&["a".to_string(), "b".to_string(), "c".to_string()])
        .expect("node must be found");
    match found {
        RDANode::File(f) => {
            assert_eq!(f.filename, "c");
            assert_eq!(f.content, b"payload".to_vec());
        }
        _ => panic!("expected a file"),
    }
    assert!(root.lookup(&["a".to_string(), "missing".to_string()]).is_none());
    assert!(root
        .lookup(&["a".to_string(), "b".to_string(), "c".to_string(), "d".to_string()])
        .is_none());
}

#[test]
fn get_mut_overwrites_in_place() {
    let mut fs = sample_fs();
    {
        let root = match &mut fs.root {
            RDANode::Directory(d) => d,
            _ => panic!("root must be a directory"),
        };
        let node = root
            .get_mut(&["testfile.txt".to_string()])
            .expect("node must be found");
        *node = RDANode::File(RDAFile {
            filename: "testfile.txt".to_string(),
            content: b"abc".to_vec(),
        });
    }
    assert_eq!(fs.display_string(), "RDAFileSystem\ntestfile.txt [3 B]\n");
}

#[test]
fn node_names() {
    let f = RDANode::File(RDAFile {
        filename: "a.txt".to_string(),
        content: vec![],
    });
    let d = RDANode::Directory(RDADirectory {
        filename: "d".to_string(),
        nodes: vec![],
    });
    assert_eq!(f.name(), "a.txt");
    assert_eq!(d.name(), "d");
    assert_eq!(RDANode::Empty.name(), "EMPTY");
}

#[test]
fn size_formatting_boundaries() {
    assert_eq!(format_length(0), "0 B");
    assert_eq!(format_length(1023), "1023 B");
    assert_eq!(format_length(1024), "1024 B");
    assert_eq!(format_length(1025), "1.001 KIB");
    assert_eq!(format_length(1048576), "1024.000 KIB");
    assert_eq!(format_length(1048577), "1.000 MIB");
    assert_eq!(format_length(1073741824), "1024.000 MIB");
    assert_eq!(format_length(2147483648), "2.000 GIB");
    assert_eq!(format_length(1610612736), "1.500 GIB");
}
