//! The commands that a file system executes.

use crate::error::{ErrorView, FileSystemError};
use crate::order::same_text;
use crate::path::{parse, valid_path, Path, PathView};
use crate::text::{is_blank, split_words, texts, words};
use vstd::prelude::*;

verus! {

/// A command.
#[derive(Debug)]
pub enum Cmd {
    /// Move the directory `src` into the directory `dest`.
    Move { src: Path, dest: Path },
    /// Create the directory at the path.
    Create(Path),
    /// Delete the directory at the path, with all that it holds.
    Delete(Path),
    /// List all directories.
    List,
}

/// The mathematical value of a [`Cmd`].
pub enum CmdView {
    Move { src: PathView, dest: PathView },
    Create(PathView),
    Delete(PathView),
    List,
}

impl CmdView {
    /// The command can be executed: the directory that it creates, deletes
    /// or moves is not the root.
    pub open spec fn is_runnable(self) -> bool {
        match self {
            CmdView::Move { src, dest } => src.len() > 0,
            CmdView::Create(path) => path.len() > 0,
            CmdView::Delete(path) => path.len() > 0,
            CmdView::List => true,
        }
    }

    /// The paths of the command are valid paths.
    pub open spec fn is_valid(self) -> bool {
        match self {
            CmdView::Move { src, dest } => valid_path(src) && valid_path(dest),
            CmdView::Create(path) => valid_path(path),
            CmdView::Delete(path) => valid_path(path),
            CmdView::List => true,
        }
    }
}

impl View for Cmd {
    type V = CmdView;

    open spec fn view(&self) -> CmdView {
        match self {
            Cmd::Move { src, dest } => CmdView::Move { src: src@, dest: dest@ },
            Cmd::Create(path) => CmdView::Create(path@),
            Cmd::Delete(path) => CmdView::Delete(path@),
            Cmd::List => CmdView::List,
        }
    }
}

/// The path that the argument `text` of a command denotes.
pub open spec fn parse_argument(text: Seq<char>) -> Result<PathView, ErrorView> {
    match parse(text) {
        Some(path) => Ok(path),
        None => Err(ErrorView::BadPath(text)),
    }
}

/// The command that the words `args` of a line denote: a keyword, then the
/// paths that the keyword asks for.
pub open spec fn parse_cmd(args: Seq<Seq<char>>) -> Result<CmdView, ErrorView>
    recommends
        args.len() > 0,
{
    if args[0] == "MOVE"@ {
        if args.len() != 3 {
            Err(ErrorView::InvalidCmdArgs("usage: MOVE src dest"@))
        } else {
            match (parse_argument(args[1]), parse_argument(args[2])) {
                (Ok(src), Ok(dest)) => Ok(CmdView::Move { src, dest }),
                (Err(error), _) => Err(error),
                (_, Err(error)) => Err(error),
            }
        }
    } else if args[0] == "CREATE"@ {
        if args.len() != 2 {
            Err(ErrorView::InvalidCmdArgs("usage: CREATE file"@))
        } else {
            match parse_argument(args[1]) {
                Ok(path) => Ok(CmdView::Create(path)),
                Err(error) => Err(error),
            }
        }
    } else if args[0] == "DELETE"@ {
        if args.len() != 2 {
            Err(ErrorView::InvalidCmdArgs("usage: DELETE file"@))
        } else {
            match parse_argument(args[1]) {
                Ok(path) => Ok(CmdView::Delete(path)),
                Err(error) => Err(error),
            }
        }
    } else if args[0] == "LIST"@ {
        if args.len() != 1 {
            Err(ErrorView::InvalidCmdArgs("usage: LIST"@))
        } else {
            Ok(CmdView::List)
        }
    } else {
        Err(ErrorView::CmdNotFound(args[0]))
    }
}

/// The mathematical value of what reading a command gives.
pub open spec fn reading_view(reading: Result<Cmd, FileSystemError>) -> Result<CmdView, ErrorView> {
    match reading {
        Ok(cmd) => Ok(cmd@),
        Err(error) => Err(error@),
    }
}

impl Clone for Cmd {
    fn clone(&self) -> (copy: Self)
        ensures
            copy@ == self@,
    {
        match self {
            Cmd::Move { src, dest } => Cmd::Move { src: src.clone(), dest: dest.clone() },
            Cmd::Create(path) => Cmd::Create(path.clone()),
            Cmd::Delete(path) => Cmd::Delete(path.clone()),
            Cmd::List => Cmd::List,
        }
    }
}

impl Cmd {
    /// Reads a command from the words of a line.
    pub fn from_words(args: &Vec<String>) -> (result: Result<Cmd, FileSystemError>)
        requires
            args@.len() > 0,
        ensures
            reading_view(result) == parse_cmd(texts(args@)),
            result matches Ok(cmd) ==> cmd@.is_valid(),
    {
        let keyword = args[0].as_str();
        if same_text(keyword, "MOVE") {
            if args.len() != 3 {
                return Err(FileSystemError::InvalidCmdArgs("usage: MOVE src dest".to_owned()));
            }
            let src = match Path::try_from(args[1].as_str()) {
                Ok(path) => path,
                Err(error) => {
                    return Err(error);
                },
            };
            let dest = match Path::try_from(args[2].as_str()) {
                Ok(path) => path,
                Err(error) => {
                    return Err(error);
                },
            };
            proof {
                use_type_invariant(&src);
                use_type_invariant(&dest);
            }
            Ok(Cmd::Move { src, dest })
        } else if same_text(keyword, "CREATE") {
            if args.len() != 2 {
                return Err(FileSystemError::InvalidCmdArgs("usage: CREATE file".to_owned()));
            }
            match Path::try_from(args[1].as_str()) {
                Ok(path) => {
                    proof {
                        use_type_invariant(&path);
                    }
                    Ok(Cmd::Create(path))
                },
                Err(error) => Err(error),
            }
        } else if same_text(keyword, "DELETE") {
            if args.len() != 2 {
                return Err(FileSystemError::InvalidCmdArgs("usage: DELETE file".to_owned()));
            }
            match Path::try_from(args[1].as_str()) {
                Ok(path) => {
                    proof {
                        use_type_invariant(&path);
                    }
                    Ok(Cmd::Delete(path))
                },
                Err(error) => Err(error),
            }
        } else if same_text(keyword, "LIST") {
            if args.len() != 1 {
                return Err(FileSystemError::InvalidCmdArgs("usage: LIST".to_owned()));
            }
            Ok(Cmd::List)
        } else {
            Err(FileSystemError::CmdNotFound(args[0].clone()))
        }
    }

    /// Reads a command from a line that holds a word at least.
    pub fn try_from(value: &str) -> (result: Result<Cmd, FileSystemError>)
        requires
            words(value@).len() > 0,
        ensures
            reading_view(result) == parse_cmd(words(value@)),
            result matches Ok(cmd) ==> cmd@.is_valid(),
    {
        let args = split_words(value);
        Cmd::from_words(&args)
    }

    /// Reads a command from a line, if the line holds one: a line without a
    /// word gives nothing.
    pub fn parse(line: &str) -> (result: Option<Result<Cmd, FileSystemError>>)
        ensures
            match result {
                Some(reading) => words(line@).len() > 0
                    && reading_view(reading) == parse_cmd(words(line@))
                    && (reading matches Ok(cmd) ==> cmd@.is_valid()),
                None => words(line@).len() == 0,
            },
    {
        if is_blank(line) {
            None
        } else {
            Some(Cmd::try_from(line))
        }
    }

    /// Tells whether the command can be executed.
    pub fn is_runnable(&self) -> (runnable: bool)
        ensures
            runnable == self@.is_runnable(),
    {
        match self {
            Cmd::Move { src, dest } => src.len() > 0,
            Cmd::Create(path) => path.len() > 0,
            Cmd::Delete(path) => path.len() > 0,
            Cmd::List => true,
        }
    }
}

} // verus!
