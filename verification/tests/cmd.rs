use dirtree::{Cmd, FileSystemError, Path};

fn path(text: &str) -> Path {
    Path::try_from(text).unwrap()
}

#[test]
fn reads_create() {
    match Cmd::try_from("CREATE fruits/apples").unwrap() {
        Cmd::Create(found) => assert_eq!(found, path("fruits/apples")),
        other => panic!("read {:?}", other),
    }
}

#[test]
fn reads_delete() {
    match Cmd::try_from("DELETE fruits").unwrap() {
        Cmd::Delete(found) => assert_eq!(found, path("fruits")),
        other => panic!("read {:?}", other),
    }
}

#[test]
fn reads_move() {
    match Cmd::try_from("MOVE grains/squash vegetables").unwrap() {
        Cmd::Move { src, dest } => {
            assert_eq!(src, path("grains/squash"));
            assert_eq!(dest, path("vegetables"));
        }
        other => panic!("read {:?}", other),
    }
}

#[test]
fn reads_move_to_root() {
    match Cmd::try_from("MOVE a/b /").unwrap() {
        Cmd::Move { src, dest } => {
            assert_eq!(src, path("a/b"));
            assert_eq!(dest, Path::new());
        }
        other => panic!("read {:?}", other),
    }
}

#[test]
fn reads_list() {
    assert!(matches!(Cmd::try_from("LIST"), Ok(Cmd::List)));
    assert!(matches!(Cmd::try_from("  LIST  "), Ok(Cmd::List)));
}

#[test]
fn reads_past_any_white_space() {
    match Cmd::try_from("\tMOVE   a \u{a0} b\n").unwrap() {
        Cmd::Move { src, dest } => {
            assert_eq!(src, path("a"));
            assert_eq!(dest, path("b"));
        }
        other => panic!("read {:?}", other),
    }
}

#[test]
fn rejects_unknown_keywords() {
    assert_eq!(
        Cmd::try_from("COPY a b").unwrap_err(),
        FileSystemError::CmdNotFound("COPY".to_string())
    );
    assert_eq!(
        Cmd::try_from("create a").unwrap_err(),
        FileSystemError::CmdNotFound("create".to_string())
    );
    assert_eq!(
        Cmd::try_from("LISTS").unwrap_err(),
        FileSystemError::CmdNotFound("LISTS".to_string())
    );
}

#[test]
fn rejects_wrong_numbers_of_arguments() {
    for line in ["MOVE", "MOVE a", "MOVE a b c"] {
        assert_eq!(
            Cmd::try_from(line).unwrap_err(),
            FileSystemError::InvalidCmdArgs("usage: MOVE src dest".to_string())
        );
    }
    for line in ["CREATE", "CREATE a b"] {
        assert_eq!(
            Cmd::try_from(line).unwrap_err(),
            FileSystemError::InvalidCmdArgs("usage: CREATE file".to_string())
        );
    }
    for line in ["DELETE", "DELETE a b"] {
        assert_eq!(
            Cmd::try_from(line).unwrap_err(),
            FileSystemError::InvalidCmdArgs("usage: DELETE file".to_string())
        );
    }
    assert_eq!(
        Cmd::try_from("LIST a").unwrap_err(),
        FileSystemError::InvalidCmdArgs("usage: LIST".to_string())
    );
}

#[test]
fn rejects_bad_paths() {
    assert_eq!(
        Cmd::try_from("CREATE a//b").unwrap_err(),
        FileSystemError::BadPath("a//b".to_string())
    );
    assert_eq!(
        Cmd::try_from("DELETE /a").unwrap_err(),
        FileSystemError::BadPath("/a".to_string())
    );
    assert_eq!(
        Cmd::try_from("MOVE a/ b").unwrap_err(),
        FileSystemError::BadPath("a/".to_string())
    );
    assert_eq!(
        Cmd::try_from("MOVE a b/").unwrap_err(),
        FileSystemError::BadPath("b/".to_string())
    );
    assert_eq!(
        Cmd::try_from("MOVE a/ b/").unwrap_err(),
        FileSystemError::BadPath("a/".to_string())
    );
}

#[test]
fn counts_arguments_before_it_reads_paths() {
    assert_eq!(
        Cmd::try_from("CREATE a//b c").unwrap_err(),
        FileSystemError::InvalidCmdArgs("usage: CREATE file".to_string())
    );
}

#[test]
fn from_words_reads_the_words_of_a_line() {
    let words = vec!["MOVE".to_string(), "a".to_string(), "b".to_string()];
    match Cmd::from_words(&words).unwrap() {
        Cmd::Move { src, dest } => {
            assert_eq!(src, path("a"));
            assert_eq!(dest, path("b"));
        }
        other => panic!("read {:?}", other),
    }
    let words = vec!["DELETE".to_string(), "a b".to_string()];
    match Cmd::from_words(&words).unwrap() {
        Cmd::Delete(found) => assert_eq!(found, path("a b")),
        other => panic!("read {:?}", other),
    }
    let words = vec!["".to_string()];
    assert_eq!(
        Cmd::from_words(&words).unwrap_err(),
        FileSystemError::CmdNotFound("".to_string())
    );
}

#[test]
fn parse_gives_nothing_for_a_line_without_words() {
    assert!(Cmd::parse("").is_none());
    assert!(Cmd::parse("   ").is_none());
    assert!(Cmd::parse("\t\u{a0}").is_none());
}

#[test]
fn parse_reads_a_line_with_words() {
    assert!(matches!(Cmd::parse("LIST"), Some(Ok(Cmd::List))));
    assert!(matches!(Cmd::parse(" CREATE a "), Some(Ok(Cmd::Create(_)))));
    assert_eq!(
        Cmd::parse("NOPE").unwrap().unwrap_err(),
        FileSystemError::CmdNotFound("NOPE".to_string())
    );
}

#[test]
fn commands_on_the_root_are_not_runnable() {
    assert!(!Cmd::Create(Path::new()).is_runnable());
    assert!(!Cmd::Delete(Path::new()).is_runnable());
    assert!(!Cmd::Move { src: Path::new(), dest: path("a") }.is_runnable());
    assert!(!Cmd::try_from("CREATE /").unwrap().is_runnable());
}

#[test]
fn other_commands_are_runnable() {
    assert!(Cmd::List.is_runnable());
    assert!(Cmd::Create(path("a")).is_runnable());
    assert!(Cmd::Delete(path("a/b")).is_runnable());
    assert!(Cmd::Move { src: path("a"), dest: Path::new() }.is_runnable());
}

#[test]
fn clone_gives_the_same_command() {
    let first = Cmd::Move { src: path("a"), dest: path("b/c") };
    match first.clone() {
        Cmd::Move { src, dest } => {
            assert_eq!(src, path("a"));
            assert_eq!(dest, path("b/c"));
        }
        other => panic!("cloned to {:?}", other),
    }
    assert!(matches!(Cmd::List.clone(), Cmd::List));
    match Cmd::Create(path("a")).clone() {
        Cmd::Create(found) => assert_eq!(found, path("a")),
        other => panic!("cloned to {:?}", other),
    }
    match Cmd::Delete(path("a")).clone() {
        Cmd::Delete(found) => assert_eq!(found, path("a")),
        other => panic!("cloned to {:?}", other),
    }
}
