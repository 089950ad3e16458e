use dirtree::{Cmd, FileSystemDriver, Path, Startup};

fn path(text: &str) -> Path {
    Path::try_from(text).unwrap()
}

fn args(all: &[&str]) -> Vec<String> {
    let mut list = Vec::new();
    for arg in all {
        list.push(arg.to_string());
    }
    list
}

fn run(driver: &mut FileSystemDriver, lines: &[&str]) -> String {
    let mut written = String::new();
    for line in lines {
        for text in driver.process_line(line).unwrap() {
            written.push_str(&text);
            written.push('\n');
        }
    }
    written
}

#[test]
fn no_argument_starts_the_interactive_mode() {
    assert_eq!(FileSystemDriver::run_with_args(&args(&["fs"])), Startup::Interactive);
}

#[test]
fn one_argument_names_the_script() {
    assert_eq!(
        FileSystemDriver::run_with_args(&args(&["fs", "commands.txt"])),
        Startup::Script { help: false, file: "commands.txt".to_string() }
    );
}

#[test]
fn help_flags_ask_for_the_help_text() {
    assert_eq!(
        FileSystemDriver::run_with_args(&args(&["fs", "-h"])),
        Startup::Script { help: true, file: "-h".to_string() }
    );
    assert_eq!(
        FileSystemDriver::run_with_args(&args(&["fs", "--help"])),
        Startup::Script { help: true, file: "--help".to_string() }
    );
    assert_eq!(
        FileSystemDriver::run_with_args(&args(&["fs", "-help"])),
        Startup::Script { help: false, file: "-help".to_string() }
    );
}

#[test]
fn other_numbers_of_arguments_ask_for_the_usage_text() {
    assert_eq!(FileSystemDriver::run_with_args(&args(&[])), Startup::Usage);
    assert_eq!(FileSystemDriver::run_with_args(&args(&["fs", "a", "b"])), Startup::Usage);
    assert_eq!(FileSystemDriver::run_with_args(&args(&["fs", "-h", "b", "c"])), Startup::Usage);
}

#[test]
fn successful_changes_write_nothing() {
    let mut driver = FileSystemDriver::new();
    assert_eq!(driver.exec_cmd(Cmd::Create(path("a"))), None);
    assert_eq!(driver.exec_cmd(Cmd::Create(path("b"))), None);
    assert_eq!(driver.exec_cmd(Cmd::Move { src: path("b"), dest: path("a") }), None);
    assert_eq!(driver.exec_cmd(Cmd::Delete(path("a/b"))), None);
    assert_eq!(driver.file_system().root().len(), 1);
}

#[test]
fn list_writes_the_listing() {
    let mut driver = FileSystemDriver::new();
    assert_eq!(driver.exec_cmd(Cmd::List), Some("".to_string()));
    driver.exec_cmd(Cmd::Create(path("a")));
    driver.exec_cmd(Cmd::Create(path("a/b")));
    assert_eq!(driver.exec_cmd(Cmd::List), Some("a\n  b".to_string()));
}

#[test]
fn failed_commands_write_what_failed_and_why() {
    let mut driver = FileSystemDriver::new();
    driver.exec_cmd(Cmd::Create(path("a")));
    assert_eq!(
        driver.exec_cmd(Cmd::Create(path("a"))),
        Some("Cannot create a - a already exists".to_string())
    );
    assert_eq!(
        driver.exec_cmd(Cmd::Create(path("x/y"))),
        Some("Cannot create x/y - x does not exist".to_string())
    );
    assert_eq!(
        driver.exec_cmd(Cmd::Delete(path("fruits/apples"))),
        Some("Cannot delete fruits/apples - fruits does not exist".to_string())
    );
    assert_eq!(
        driver.exec_cmd(Cmd::Delete(path("a/b"))),
        Some("Cannot delete a/b - a/b does not exist".to_string())
    );
    assert_eq!(
        driver.exec_cmd(Cmd::Move { src: path("a"), dest: path("x/y") }),
        Some("Cannot move a x/y - x/y does not exist".to_string())
    );
    assert_eq!(
        driver.exec_cmd(Cmd::Move { src: path("q"), dest: Path::new() }),
        Some("Cannot move q  - q does not exist".to_string())
    );
}

#[test]
fn empty_lines_are_passed_over() {
    let mut driver = FileSystemDriver::new();
    assert_eq!(driver.process_line(""), Some(vec![]));
    assert_eq!(driver.file_system().root().len(), 0);
}

#[test]
fn lines_of_white_space_cannot_be_executed() {
    let mut driver = FileSystemDriver::new();
    assert_eq!(driver.process_line(" "), None);
    assert_eq!(driver.process_line("\t  "), None);
    assert_eq!(driver.file_system().root().len(), 0);
}

#[test]
fn commands_on_the_root_cannot_be_executed() {
    let mut driver = FileSystemDriver::new();
    driver.process_line("CREATE a");
    assert_eq!(driver.process_line("CREATE /"), None);
    assert_eq!(driver.process_line("DELETE /"), None);
    assert_eq!(driver.process_line("MOVE / a"), None);
    assert_eq!(driver.file_system().root().len(), 1);
}

#[test]
fn commands_are_written_back() {
    let mut driver = FileSystemDriver::new();
    assert_eq!(driver.process_line("CREATE a"), Some(vec!["CREATE a".to_string()]));
    assert_eq!(
        driver.process_line("  CREATE   a/b "),
        Some(vec!["  CREATE   a/b ".to_string()])
    );
    assert_eq!(
        driver.process_line("LIST"),
        Some(vec!["LIST".to_string(), "a\n  b".to_string()])
    );
    assert_eq!(
        driver.process_line("CREATE a"),
        Some(vec!["CREATE a".to_string(), "Cannot create a - a already exists".to_string()])
    );
}

#[test]
fn lines_that_are_no_commands_are_answered_with_the_error() {
    let mut driver = FileSystemDriver::new();
    assert_eq!(
        driver.process_line("COPY a b"),
        Some(vec!["command not found: COPY".to_string()])
    );
    assert_eq!(
        driver.process_line("CREATE"),
        Some(vec!["usage: CREATE file".to_string()])
    );
    assert_eq!(
        driver.process_line("MOVE a"),
        Some(vec!["usage: MOVE src dest".to_string()])
    );
    assert_eq!(
        driver.process_line("DELETE a b"),
        Some(vec!["usage: DELETE file".to_string()])
    );
    assert_eq!(driver.process_line("LIST all"), Some(vec!["usage: LIST".to_string()]));
    assert_eq!(
        driver.process_line("CREATE a//b"),
        Some(vec!["invalid path a//b".to_string()])
    );
    assert_eq!(driver.file_system().root().len(), 0);
}

#[test]
fn a_script_of_commands() {
    let mut driver = FileSystemDriver::new();
    let written = run(
        &mut driver,
        &[
            "CREATE fruits",
            "CREATE vegetables",
            "CREATE grains",
            "CREATE fruits/apples",
            "CREATE fruits/apples/fuji",
            "LIST",
            "CREATE grains/squash",
            "MOVE grains/squash vegetables",
            "CREATE foods",
            "MOVE grains foods",
            "MOVE fruits foods",
            "MOVE vegetables foods",
            "LIST",
            "",
            "DELETE fruits/apples",
            "DELETE foods/fruits/apples",
            "LIST",
        ],
    );
    let expected = "\
CREATE fruits
CREATE vegetables
CREATE grains
CREATE fruits/apples
CREATE fruits/apples/fuji
LIST
fruits
  apples
    fuji
grains
vegetables
CREATE grains/squash
MOVE grains/squash vegetables
CREATE foods
MOVE grains foods
MOVE fruits foods
MOVE vegetables foods
LIST
foods
  fruits
    apples
      fuji
  grains
  vegetables
    squash
DELETE fruits/apples
Cannot delete fruits/apples - fruits does not exist
DELETE foods/fruits/apples
LIST
foods
  fruits
  grains
  vegetables
    squash
";
    assert_eq!(written, expected);
}
