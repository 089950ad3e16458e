//! The front end of a file system: what it does with the arguments of the
//! program and with each line of commands, and what it writes in answer.
//! Reading the lines and writing the answers is left to the program.

use crate::cmd::{parse_cmd, Cmd, CmdView};
use crate::error::{message, ErrorView};
use crate::fs::FileSystem;
use crate::model::{empty_tree, execute, is_tree, Tree};
use crate::order::same_text;
use crate::path::render;
use crate::text::{texts, words};
use vstd::prelude::*;
use vstd::std_specs::cmp::PartialEqSpecImpl;

verus! {

/// What the program is to do, by its arguments.
#[derive(Debug)]
pub enum Startup {
    /// Read commands from the standard input.
    Interactive,
    /// Read commands from `file`, after the help text if `help` is set.
    Script { help: bool, file: String },
    /// Write the usage text.
    Usage,
}

/// The mathematical value of a [`Startup`].
pub enum StartupView {
    Interactive,
    Script { help: bool, file: Seq<char> },
    Usage,
}

impl View for Startup {
    type V = StartupView;

    open spec fn view(&self) -> StartupView {
        match self {
            Startup::Interactive => StartupView::Interactive,
            Startup::Script { help, file } => StartupView::Script { help: *help, file: file@ },
            Startup::Usage => StartupView::Usage,
        }
    }
}

impl PartialEq for Startup {
    fn eq(&self, other: &Self) -> (same: bool) {
        match (self, other) {
            (Self::Interactive, Self::Interactive) => true,
            (Self::Script { help: h1, file: f1 }, Self::Script { help: h2, file: f2 }) => {
                *h1 == *h2 && *f1 == *f2
            },
            (Self::Usage, Self::Usage) => true,
            _ => false,
        }
    }
}

impl PartialEqSpecImpl for Startup {
    open spec fn obeys_eq_spec() -> bool {
        true
    }

    open spec fn eq_spec(&self, other: &Self) -> bool {
        self@ == other@
    }
}

/// What the program is to do when started with `args`, the first of which
/// is its own name.
pub open spec fn startup(args: Seq<Seq<char>>) -> StartupView {
    if args.len() == 1 {
        StartupView::Interactive
    } else if args.len() == 2 {
        StartupView::Script { help: args[1] == "-h"@ || args[1] == "--help"@, file: args[1] }
    } else {
        StartupView::Usage
    }
}

/// What is written after `cmd` was executed and gave `answer`: the text of
/// the answer, or for an error a line that names the command and the error.
pub open spec fn report(cmd: CmdView, answer: Result<Option<Seq<char>>, ErrorView>) -> Option<
    Seq<char>,
> {
    match answer {
        Ok(output) => output,
        Err(error) => match cmd {
            CmdView::Delete(path) => Some(
                "Cannot delete "@ + render(path) + " - "@ + message(error),
            ),
            CmdView::Move { src, dest } => Some(
                "Cannot move "@ + render(src) + " "@ + render(dest) + " - "@ + message(error),
            ),
            CmdView::Create(path) => Some(
                "Cannot create "@ + render(path) + " - "@ + message(error),
            ),
            CmdView::List => None,
        },
    }
}

/// A tree and the texts that were written on the way to it.
pub struct Response {
    pub tree: Tree,
    pub written: Seq<Seq<char>>,
}

/// What a line of input leads to.
///
/// An empty line is passed over. A line that holds a command is written
/// back and the command is executed; a line that holds none is answered
/// with the error. A line of white space alone, or one whose command names
/// the root as the directory to create, delete or move, leads to nothing:
/// it cannot be executed.
pub open spec fn respond(tree: Tree, line: Seq<char>) -> Option<Response> {
    if line.len() == 0 {
        Some(Response { tree, written: Seq::empty() })
    } else if words(line).len() == 0 {
        None
    } else {
        match parse_cmd(words(line)) {
            Ok(cmd) => if cmd.is_runnable() {
                let outcome = execute(tree, cmd);
                Some(
                    Response {
                        tree: outcome.tree,
                        written: match report(cmd, outcome.answer) {
                            Some(text) => seq![line, text],
                            None => seq![line],
                        },
                    },
                )
            } else {
                None
            },
            Err(error) => Some(Response { tree, written: seq![message(error)] }),
        }
    }
}

/// The mathematical value of a text that may be missing.
pub open spec fn text_view(text: Option<String>) -> Option<Seq<char>> {
    match text {
        Some(text) => Some(text@),
        None => None,
    }
}

/// A file system with its front end.
pub struct FileSystemDriver {
    fs: FileSystem,
}

impl View for FileSystemDriver {
    type V = Tree;

    /// The tree of the file system.
    closed spec fn view(&self) -> Tree {
        self.fs@
    }
}

impl FileSystemDriver {
    /// A driver with an empty file system.
    pub fn new() -> (driver: Self)
        ensures
            driver@ == empty_tree(),
    {
        FileSystemDriver { fs: FileSystem::new() }
    }

    /// The file system.
    pub fn file_system(&self) -> (fs: &FileSystem)
        ensures
            fs@ == self@,
    {
        &self.fs
    }

    /// Decides what the program is to do when started with `args`, the
    /// first of which is its own name.
    pub fn run_with_args(args: &Vec<String>) -> (run: Startup)
        ensures
            run@ == startup(texts(args@)),
    {
        if args.len() == 1 {
            Startup::Interactive
        } else if args.len() == 2 {
            let arg = &args[1];
            let help = same_text(arg.as_str(), "-h") || same_text(arg.as_str(), "--help");
            Startup::Script { help, file: arg.clone() }
        } else {
            Startup::Usage
        }
    }

    /// Executes `cmd` and returns what is to be written in answer.
    pub fn exec_cmd(&mut self, cmd: Cmd) -> (output: Option<String>)
        requires
            cmd@.is_runnable(),
        ensures
            final(self)@ == execute(old(self)@, cmd@).tree,
            text_view(output) == report(cmd@, execute(old(self)@, cmd@).answer),
            is_tree(final(self)@),
    {
        match self.fs.exec_cmd(cmd.clone()) {
            Ok(output) => output,
            Err(error) => {
                match cmd {
                    Cmd::Delete(path) => {
                        let mut text = "Cannot delete ".to_owned();
                        text.append(path.to_string().as_str());
                        text.append(" - ");
                        text.append(error.to_string().as_str());
                        Some(text)
                    },
                    Cmd::Move { src, dest } => {
                        let mut text = "Cannot move ".to_owned();
                        text.append(src.to_string().as_str());
                        text.append(" ");
                        text.append(dest.to_string().as_str());
                        text.append(" - ");
                        text.append(error.to_string().as_str());
                        Some(text)
                    },
                    Cmd::Create(path) => {
                        let mut text = "Cannot create ".to_owned();
                        text.append(path.to_string().as_str());
                        text.append(" - ");
                        text.append(error.to_string().as_str());
                        Some(text)
                    },
                    Cmd::List => None,
                }
            },
        }
    }

    /// Takes one line of input and returns what is to be written in answer,
    /// or nothing if the line cannot be executed.
    pub fn process_line(&mut self, line: &str) -> (output: Option<Vec<String>>)
        ensures
            match respond(old(self)@, line@) {
                Some(response) => output is Some && texts(output->0@) == response.written
                    && final(self)@ == response.tree,
                None => output is None && final(self)@ == old(self)@,
            },
    {
        let mut written: Vec<String> = Vec::new();
        if line.is_empty() {
            assert(texts(written@) =~= Seq::<Seq<char>>::empty());
            return Some(written);
        }
        match Cmd::parse(line) {
            None => None,
            Some(Ok(cmd)) => {
                if !cmd.is_runnable() {
                    return None;
                }
                written.push(line.to_owned());
                match self.exec_cmd(cmd) {
                    Some(text) => {
                        written.push(text);
                        assert(texts(written@) =~= seq![line@, written@[1]@]);
                    },
                    None => {
                        assert(texts(written@) =~= seq![line@]);
                    },
                }
                Some(written)
            },
            Some(Err(error)) => {
                written.push(error.to_string());
                assert(texts(written@) =~= seq![message(error@)]);
                Some(written)
            },
        }
    }
}

} // verus!
