use dirtree::{Cmd, FileSystem, FileSystemError, Path};

fn path(text: &str) -> Path {
    Path::try_from(text).unwrap()
}

fn create(fs: &mut FileSystem, text: &str) {
    assert_eq!(fs.exec_cmd(Cmd::Create(path(text))), Ok(None));
}

fn listing(fs: &mut FileSystem) -> String {
    fs.exec_cmd(Cmd::List).unwrap().unwrap()
}

#[test]
fn list_empty_dir() {
    let mut fs = FileSystem::new();
    let result = fs.exec_cmd(Cmd::List).unwrap();
    let expect = Some("".into());

    assert_eq!(result, expect);
}

#[test]
fn create_and_delete_directory() {
    let mut fs = FileSystem::new();
    let path = Path::try_from("test").unwrap();

    fs.exec_cmd(Cmd::Create(path.clone())).unwrap();

    assert!(fs.root().len() == 1);
    assert!(fs.root().get("test".into()).is_some());

    fs.exec_cmd(Cmd::Delete(path)).unwrap();

    assert!(fs.root().len() == 0);
    assert!(fs.root().get("test".into()).is_none());
}

#[test]
fn move_directory() {
    let mut fs = FileSystem::new();
    let path_a = Path::try_from("a").unwrap();
    let path_b = Path::try_from("b").unwrap();

    fs.exec_cmd(Cmd::Create(path_a.clone())).unwrap();
    fs.exec_cmd(Cmd::Create(path_b.clone())).unwrap();

    assert!(fs.root().len() == 2);
    assert!(fs.root().get("a".into()).is_some());
    assert!(fs.root().get("b".into()).is_some());

    fs.exec_cmd(Cmd::Move { src: path_b, dest: path_a }).unwrap();

    assert!(fs.root().len() == 1);

    let dir_a = fs.root().get("a".into()).unwrap();

    assert!(dir_a.len() == 1);

    let dir_b = dir_a.get("b".into()).unwrap();

    assert!(dir_b.len() == 0);
}

#[test]
fn new_file_system_holds_the_root_alone() {
    let fs = FileSystem::new();
    assert_eq!(fs.root().len(), 0);
    assert_eq!(fs.root().path(), &Path::new());
}

#[test]
fn create_then_delete_restores_the_tree() {
    let mut fs = FileSystem::new();
    create(&mut fs, "a");
    create(&mut fs, "a/b");
    create(&mut fs, "c");
    let before = listing(&mut fs);
    assert_eq!(before, "a\n  b\nc");

    create(&mut fs, "a/b/new");
    assert_eq!(listing(&mut fs), "a\n  b\n    new\nc");
    assert_eq!(fs.exec_cmd(Cmd::Delete(path("a/b/new"))), Ok(None));

    assert_eq!(listing(&mut fs), before);
    assert_eq!(fs.root().get("a").unwrap().get("b").unwrap().len(), 0);
}

#[test]
fn create_answers_with_nothing() {
    let mut fs = FileSystem::new();
    assert_eq!(fs.exec_cmd(Cmd::Create(path("a"))), Ok(None));
    assert_eq!(fs.exec_cmd(Cmd::Create(path("a/b"))), Ok(None));
    let a = fs.root().get("a").unwrap();
    assert_eq!(a.path(), &path("a"));
    assert_eq!(a.get("b").unwrap().path(), &path("a/b"));
    assert_eq!(a.get("b").unwrap().len(), 0);
}

#[test]
fn create_twice_reports_the_existing_entry() {
    let mut fs = FileSystem::new();
    create(&mut fs, "a");
    let second = fs.exec_cmd(Cmd::Create(path("a")));
    assert_eq!(second, Err(FileSystemError::FileAlreadyExists(path("a"))));
    assert_eq!(fs.root().len(), 1);
    assert_eq!(fs.root().get("a").unwrap().len(), 0);
    assert_eq!(listing(&mut fs), "a");
}

#[test]
fn create_twice_below_the_root_reports_the_whole_path() {
    let mut fs = FileSystem::new();
    create(&mut fs, "a");
    create(&mut fs, "a/b");
    assert_eq!(
        fs.exec_cmd(Cmd::Create(path("a/b"))),
        Err(FileSystemError::FileAlreadyExists(path("a/b")))
    );
    assert_eq!(listing(&mut fs), "a\n  b");
}

#[test]
fn create_without_parent_reports_the_parent() {
    let mut fs = FileSystem::new();
    assert_eq!(
        fs.exec_cmd(Cmd::Create(path("x/y"))),
        Err(FileSystemError::PathDoesNotExist(path("x")))
    );
    create(&mut fs, "a");
    assert_eq!(
        fs.exec_cmd(Cmd::Create(path("a/b/c"))),
        Err(FileSystemError::PathDoesNotExist(path("a/b")))
    );
    assert_eq!(
        fs.exec_cmd(Cmd::Create(path("a/b/c/d"))),
        Err(FileSystemError::PathDoesNotExist(path("a/b/c")))
    );
    assert_eq!(listing(&mut fs), "a");
}

#[test]
fn delete_on_empty_tree_reports_the_path() {
    let mut fs = FileSystem::new();
    assert_eq!(
        fs.exec_cmd(Cmd::Delete(path("a"))),
        Err(FileSystemError::PathDoesNotExist(path("a")))
    );
    assert_eq!(fs.root().len(), 0);
}

#[test]
fn delete_without_parent_reports_the_parent() {
    let mut fs = FileSystem::new();
    create(&mut fs, "a");
    assert_eq!(
        fs.exec_cmd(Cmd::Delete(path("x/y"))),
        Err(FileSystemError::PathDoesNotExist(path("x")))
    );
    assert_eq!(
        fs.exec_cmd(Cmd::Delete(path("a/y"))),
        Err(FileSystemError::PathDoesNotExist(path("a/y")))
    );
    assert_eq!(listing(&mut fs), "a");
}

#[test]
fn delete_takes_the_whole_subtree() {
    let mut fs = FileSystem::new();
    create(&mut fs, "a");
    create(&mut fs, "a/b");
    create(&mut fs, "a/b/c");
    create(&mut fs, "a/d");
    create(&mut fs, "ab");
    assert_eq!(fs.exec_cmd(Cmd::Delete(path("a"))), Ok(None));
    assert_eq!(listing(&mut fs), "ab");
    assert!(fs.root().get("a").is_none());
    assert_eq!(
        fs.exec_cmd(Cmd::Delete(path("a/b"))),
        Err(FileSystemError::PathDoesNotExist(path("a")))
    );
}

#[test]
fn move_into_sibling() {
    let mut fs = FileSystem::new();
    create(&mut fs, "a");
    create(&mut fs, "b");
    assert_eq!(fs.exec_cmd(Cmd::Move { src: path("b"), dest: path("a") }), Ok(None));
    assert_eq!(fs.root().len(), 1);
    let a = fs.root().get("a").unwrap();
    assert_eq!(a.len(), 1);
    assert_eq!(a.get("b").unwrap().len(), 0);
    assert_eq!(listing(&mut fs), "a\n  b");
}

#[test]
fn move_to_root() {
    let mut fs = FileSystem::new();
    create(&mut fs, "a");
    create(&mut fs, "a/b");
    assert_eq!(fs.exec_cmd(Cmd::Move { src: path("a/b"), dest: path("/") }), Ok(None));
    assert_eq!(fs.root().len(), 2);
    assert_eq!(fs.root().get("a").unwrap().len(), 0);
    assert_eq!(fs.root().get("b").unwrap().len(), 0);
    assert_eq!(fs.root().get("b").unwrap().path(), &path("b"));
    assert_eq!(listing(&mut fs), "a\nb");
}

#[test]
fn move_keeps_the_subtree_and_rewrites_its_paths() {
    let mut fs = FileSystem::new();
    create(&mut fs, "a");
    create(&mut fs, "a/b");
    create(&mut fs, "a/b/c");
    create(&mut fs, "a/b/c/e");
    create(&mut fs, "d");
    assert_eq!(fs.exec_cmd(Cmd::Move { src: path("a/b"), dest: path("d") }), Ok(None));
    assert_eq!(listing(&mut fs), "a\nd\n  b\n    c\n      e");

    let b = fs.root().get("d").unwrap().get("b").unwrap();
    assert_eq!(b.path(), &path("d/b"));
    assert_eq!(b.get("c").unwrap().path(), &path("d/b/c"));
    assert_eq!(b.get("c").unwrap().get("e").unwrap().path(), &path("d/b/c/e"));

    assert_eq!(
        fs.exec_cmd(Cmd::Create(path("d/b/c"))),
        Err(FileSystemError::FileAlreadyExists(path("d/b/c")))
    );
    assert_eq!(
        fs.exec_cmd(Cmd::Delete(path("d/b/c/x"))),
        Err(FileSystemError::PathDoesNotExist(path("d/b/c/x")))
    );
    assert_eq!(
        fs.exec_cmd(Cmd::Delete(path("a/b"))),
        Err(FileSystemError::PathDoesNotExist(path("a/b")))
    );
}

#[test]
fn move_to_where_it_is_changes_nothing() {
    let mut fs = FileSystem::new();
    create(&mut fs, "a");
    create(&mut fs, "a/b");
    create(&mut fs, "a/b/c");
    assert_eq!(fs.exec_cmd(Cmd::Move { src: path("a/b"), dest: path("a") }), Ok(None));
    assert_eq!(listing(&mut fs), "a\n  b\n    c");
    assert_eq!(fs.exec_cmd(Cmd::Move { src: path("a"), dest: path("/") }), Ok(None));
    assert_eq!(listing(&mut fs), "a\n  b\n    c");
}

#[test]
fn move_to_missing_destination_changes_nothing() {
    let mut fs = FileSystem::new();
    create(&mut fs, "a");
    assert_eq!(
        fs.exec_cmd(Cmd::Move { src: path("a"), dest: path("x") }),
        Err(FileSystemError::PathDoesNotExist(path("x")))
    );
    assert_eq!(
        fs.exec_cmd(Cmd::Move { src: path("a"), dest: path("a/x") }),
        Err(FileSystemError::PathDoesNotExist(path("a/x")))
    );
    assert_eq!(
        fs.exec_cmd(Cmd::Move { src: path("q/r"), dest: path("x") }),
        Err(FileSystemError::PathDoesNotExist(path("x")))
    );
    assert_eq!(listing(&mut fs), "a");
}

#[test]
fn move_of_missing_source_changes_nothing() {
    let mut fs = FileSystem::new();
    create(&mut fs, "a");
    assert_eq!(
        fs.exec_cmd(Cmd::Move { src: path("x/y"), dest: path("/") }),
        Err(FileSystemError::PathDoesNotExist(path("x")))
    );
    assert_eq!(
        fs.exec_cmd(Cmd::Move { src: path("a/y"), dest: path("/") }),
        Err(FileSystemError::PathDoesNotExist(path("a/y")))
    );
    assert_eq!(
        fs.exec_cmd(Cmd::Move { src: path("y"), dest: path("a") }),
        Err(FileSystemError::PathDoesNotExist(path("y")))
    );
    assert_eq!(listing(&mut fs), "a");
}

#[test]
fn move_onto_an_existing_name_loses_the_source() {
    let mut fs = FileSystem::new();
    create(&mut fs, "a");
    create(&mut fs, "a/b");
    create(&mut fs, "a/b/old");
    create(&mut fs, "b");
    create(&mut fs, "b/new");
    assert_eq!(
        fs.exec_cmd(Cmd::Move { src: path("b"), dest: path("a") }),
        Err(FileSystemError::FileAlreadyExists(path("a/b")))
    );
    assert_eq!(listing(&mut fs), "a\n  b\n    old");
    assert_eq!(fs.root().len(), 1);
}

#[test]
fn move_into_its_own_subtree_loses_the_source() {
    let mut fs = FileSystem::new();
    create(&mut fs, "a");
    create(&mut fs, "a/b");
    create(&mut fs, "c");
    assert_eq!(
        fs.exec_cmd(Cmd::Move { src: path("a"), dest: path("a/b") }),
        Err(FileSystemError::PathDoesNotExist(path("a/b")))
    );
    assert_eq!(listing(&mut fs), "c");
    assert_eq!(
        fs.exec_cmd(Cmd::Move { src: path("c"), dest: path("c") }),
        Err(FileSystemError::PathDoesNotExist(path("c")))
    );
    assert_eq!(listing(&mut fs), "");
    assert_eq!(fs.root().len(), 0);
}

#[test]
fn list_is_alphabetical_whatever_the_order_of_creation() {
    let mut fs = FileSystem::new();
    create(&mut fs, "b");
    create(&mut fs, "a");
    assert_eq!(listing(&mut fs), "a\nb");

    let mut other = FileSystem::new();
    create(&mut other, "a");
    create(&mut other, "b");
    assert_eq!(listing(&mut other), "a\nb");
}

#[test]
fn list_indents_by_two_spaces_for_each_level() {
    let mut fs = FileSystem::new();
    for text in ["m", "m/n", "m/n/o", "m/n/o/p", "m/a", "z", "b", "b/y", "b/x"] {
        create(&mut fs, text);
    }
    assert_eq!(
        listing(&mut fs),
        "b\n  x\n  y\nm\n  a\n  n\n    o\n      p\nz"
    );
}

#[test]
fn list_orders_names_by_their_characters() {
    let mut fs = FileSystem::new();
    for text in ["b", "ab", "a", "B", "a b", "é", "z", "aa", "10", "9", "😀"] {
        create(&mut fs, text);
    }
    assert_eq!(listing(&mut fs), "10\n9\nB\na\na b\naa\nab\nb\nz\né\n😀");
}

#[test]
fn list_leaves_the_tree_as_it_is() {
    let mut fs = FileSystem::new();
    create(&mut fs, "a");
    create(&mut fs, "a/b");
    let first = listing(&mut fs);
    let second = listing(&mut fs);
    assert_eq!(first, "a\n  b");
    assert_eq!(first, second);
    assert_eq!(fs.root().len(), 1);
}

#[test]
fn many_entries_stay_sorted_and_found() {
    let mut fs = FileSystem::new();
    let names = ["k", "c", "x", "a", "m", "e", "z", "b", "y", "d"];
    for name in names {
        create(&mut fs, name);
    }
    assert_eq!(fs.root().len(), 10);
    for name in names {
        assert!(fs.root().get(name).is_some());
    }
    assert!(fs.root().get("f").is_none());
    assert_eq!(listing(&mut fs), "a\nb\nc\nd\ne\nk\nm\nx\ny\nz");
    assert_eq!(fs.exec_cmd(Cmd::Delete(path("m"))), Ok(None));
    assert_eq!(fs.exec_cmd(Cmd::Delete(path("a"))), Ok(None));
    assert_eq!(fs.exec_cmd(Cmd::Delete(path("z"))), Ok(None));
    assert_eq!(listing(&mut fs), "b\nc\nd\ne\nk\nx\ny");
}

#[test]
fn access_dir_follows_a_path_from_the_root() {
    let mut fs = FileSystem::new();
    create(&mut fs, "a");
    create(&mut fs, "a/b");
    create(&mut fs, "a/b/c");

    let root = fs.access_dir(&Path::new()).unwrap();
    assert_eq!(root.path(), &Path::new());
    assert_eq!(root.len(), 1);

    let b = fs.access_dir(&path("a/b")).unwrap();
    assert_eq!(b.path(), &path("a/b"));
    assert_eq!(b.len(), 1);
    assert!(b.get("c").is_some());
}

#[test]
fn access_dir_reports_the_whole_path() {
    let mut fs = FileSystem::new();
    create(&mut fs, "a");
    match fs.access_dir(&path("a/x/y")) {
        Err(error) => assert_eq!(error, FileSystemError::PathDoesNotExist(path("a/x/y"))),
        Ok(_) => panic!("found a directory that is not there"),
    }
    match fs.access_dir(&path("x")) {
        Err(error) => assert_eq!(error, FileSystemError::PathDoesNotExist(path("x"))),
        Ok(_) => panic!("found a directory that is not there"),
    }
}
