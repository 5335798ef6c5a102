//! The operations that a command line asks for.

use crate::object::GitError;
use vstd::prelude::*;
use vstd::string::*;

verus! {

/// One operation on the store.
#[derive(Debug, Clone)]
pub enum Command {
    /// Create an empty store.
    Init {},
    /// Show an object's type, size or contents.
    CatFile { print_type: bool, print_size: bool, pretty_print: bool, object: String },
    /// Print a file's address, and store it where asked.
    HashObject { write_object: bool, file: String },
    /// List a tree's entries.
    LsTree { name_only: bool, object: String },
    /// Store the working directory as a tree.
    WriteTree {},
}

/// A command as values.
pub enum CommandView {
    Init,
    CatFile { print_type: bool, print_size: bool, pretty_print: bool, object: Seq<char> },
    HashObject { write_object: bool, file: Seq<char> },
    LsTree { name_only: bool, object: Seq<char> },
    WriteTree,
}

impl View for Command {
    type V = CommandView;

    open spec fn view(&self) -> CommandView {
        match self {
            Command::Init {} => CommandView::Init,
            Command::CatFile { print_type, print_size, pretty_print, object } => CommandView::CatFile {
                print_type: *print_type,
                print_size: *print_size,
                pretty_print: *pretty_print,
                object: object@,
            },
            Command::HashObject { write_object, file } => CommandView::HashObject {
                write_object: *write_object,
                file: file@,
            },
            Command::LsTree { name_only, object } => CommandView::LsTree {
                name_only: *name_only,
                object: object@,
            },
            Command::WriteTree {} => CommandView::WriteTree,
        }
    }
}

/// A parsed command line.
#[derive(Debug)]
pub struct Args {
    /// Command to run
    pub command: Command,
}

/// An argument that starts with a dash.
pub open spec fn is_option_word(s: Seq<char>) -> bool {
    s.len() > 0 && s[0] == '-'
}

/// `flag` stands somewhere after the command word.
pub open spec fn has_flag(args: Seq<Seq<char>>, flag: Seq<char>) -> bool {
    exists|i: int| 1 <= i < args.len() && args[i] == flag
}

/// The last argument after the command word that is no option.
pub open spec fn last_operand(args: Seq<Seq<char>>) -> Option<Seq<char>>
    decreases args.len(),
{
    if args.len() <= 1 {
        None
    } else if !is_option_word(args.last()) {
        Some(args.last())
    } else {
        last_operand(args.drop_last())
    }
}

/// The command that `args` ask for, the command word first; `None` where
/// the word is missing or unknown, or a command lacks its operand.
pub open spec fn parse_args(args: Seq<Seq<char>>) -> Option<CommandView> {
    if args.len() == 0 {
        None
    } else if args[0] == "init"@ {
        Some(CommandView::Init)
    } else if args[0] == "write-tree"@ {
        Some(CommandView::WriteTree)
    } else if args[0] == "cat-file"@ {
        match last_operand(args) {
            Some(object) => Some(CommandView::CatFile {
                print_type: has_flag(args, "-t"@),
                print_size: has_flag(args, "-s"@),
                pretty_print: has_flag(args, "-p"@),
                object,
            }),
            None => None,
        }
    } else if args[0] == "hash-object"@ {
        match last_operand(args) {
            Some(file) => Some(CommandView::HashObject { write_object: has_flag(args, "-w"@), file }),
            None => None,
        }
    } else if args[0] == "ls-tree"@ {
        match last_operand(args) {
            Some(object) => Some(CommandView::LsTree {
                name_only: has_flag(args, "--name-only"@),
                object,
            }),
            None => None,
        }
    } else {
        None
    }
}

/// The message with which `args` are refused, where `parse_args` refuses them.
pub open spec fn parse_error(args: Seq<Seq<char>>) -> Seq<char> {
    if args.len() == 0 {
        "missing command"@
    } else if args[0] == "cat-file"@ {
        "missing positional argument <object>"@
    } else if args[0] == "hash-object"@ {
        "missing positional argument <file>"@
    } else if args[0] == "ls-tree"@ {
        "missing potisional argument <tree>"@
    } else {
        "invalid command: "@ + args[0]
    }
}

fn is_word(s: &String, w: &str) -> (r: bool)
    ensures
        r == (s@ == w@),
{
    s.eq(&String::from_str(w))
}

fn is_option(s: &String) -> (r: bool)
    ensures
        r == is_option_word(s@),
{
    let t = s.as_str();
    t.unicode_len() > 0 && t.get_char(0) == '-'
}

fn find_flag(args: &Vec<String>, flag: &str) -> (r: bool)
    ensures
        r == has_flag(args@.map_values(|s: String| s@), flag@),
{
    let ghost v = args@.map_values(|s: String| s@);
    let mut i: usize = 1;
    while i < args.len()
        invariant
            1 <= i,
            v == args@.map_values(|s: String| s@),
            forall|k: int| 1 <= k < i && k < v.len() ==> v[k] != flag@,
        decreases args@.len() - i,
    {
        if is_word(&args[i], flag) {
            assert(v[i as int] == flag@);
            return true;
        }
        i = i + 1;
    }
    false
}

fn find_operand(args: &Vec<String>) -> (r: Option<String>)
    ensures
        match last_operand(args@.map_values(|s: String| s@)) {
            Some(o) => r matches Some(x) && x@ == o,
            None => r is None,
        },
{
    let ghost v = args@.map_values(|s: String| s@);
    let mut i: usize = args.len();
    assert(v.take(i as int) =~= v);
    while i > 1
        invariant
            i <= args@.len(),
            v == args@.map_values(|s: String| s@),
            last_operand(v) == last_operand(v.take(i as int)),
        decreases i,
    {
        let ghost t = v.take(i as int);
        assert(t.last() == v[i - 1]);
        assert(t.drop_last() =~= v.take(i - 1));
        if !is_option(&args[i - 1]) {
            return Some(args[i - 1].clone());
        }
        i = i - 1;
    }
    None
}

impl Args {
    /// The command that the arguments after the program name ask for;
    /// `InvalidArgs` where the command word is missing or unknown, or a
    /// command lacks its operand.
    pub fn parse(args: &Vec<String>) -> (r: Result<Args, GitError>)
        ensures
            match parse_args(args@.map_values(|s: String| s@)) {
                Some(c) => r matches Ok(a) && a.command@ == c,
                None => r matches Err(GitError::InvalidArgs(why)) && why@ == parse_error(
                    args@.map_values(|s: String| s@),
                ),
            },
    {
        let ghost v = args@.map_values(|s: String| s@);
        if args.len() == 0 {
            return Err(GitError::InvalidArgs(String::from_str("missing command")));
        }
        let word = &args[0];
        let command = if is_word(word, "init") {
            Command::Init {}
        } else if is_word(word, "write-tree") {
            Command::WriteTree {}
        } else if is_word(word, "cat-file") {
            match find_operand(args) {
                Some(object) => Command::CatFile {
                    print_type: find_flag(args, "-t"),
                    print_size: find_flag(args, "-s"),
                    pretty_print: find_flag(args, "-p"),
                    object,
                },
                None => {
                    return Err(
                        GitError::InvalidArgs(
                            String::from_str("missing positional argument <object>"),
                        ),
                    );
                },
            }
        } else if is_word(word, "hash-object") {
            match find_operand(args) {
                Some(file) => Command::HashObject { write_object: find_flag(args, "-w"), file },
                None => {
                    return Err(
                        GitError::InvalidArgs(String::from_str("missing positional argument <file>")),
                    );
                },
            }
        } else if is_word(word, "ls-tree") {
            match find_operand(args) {
                Some(object) => Command::LsTree { name_only: find_flag(args, "--name-only"), object },
                None => {
                    return Err(
                        GitError::InvalidArgs(String::from_str("missing potisional argument <tree>")),
                    );
                },
            }
        } else {
            return Err(
                GitError::InvalidArgs(String::from_str("invalid command: ").concat(word.as_str())),
            );
        };
        Ok(Args { command })
    }
}

} // verus!
