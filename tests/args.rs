use git_objects::args::{Args, Command};
use git_objects::object::GitError;

fn parse(words: &[&str]) -> Result<Args, GitError> {
    Args::parse(&words.iter().map(|w| w.to_string()).collect())
}

#[test]
fn parse_init_and_write_tree() {
    assert!(matches!(parse(&["init"]).unwrap().command, Command::Init {}));
    assert!(matches!(parse(&["write-tree"]).unwrap().command, Command::WriteTree {}));
}

#[test]
fn parse_cat_file_flags() {
    match parse(&["cat-file", "-p", HELLO_ARG]).unwrap().command {
        Command::CatFile { print_type, print_size, pretty_print, object } => {
            assert!(!print_type);
            assert!(!print_size);
            assert!(pretty_print);
            assert_eq!(object, HELLO_ARG);
        },
        other => panic!("unexpected {:?}", other),
    }
    match parse(&["cat-file", "-t", "-s", "abc"]).unwrap().command {
        Command::CatFile { print_type, print_size, pretty_print, object } => {
            assert!(print_type && print_size && !pretty_print);
            assert_eq!(object, "abc");
        },
        other => panic!("unexpected {:?}", other),
    }
}

const HELLO_ARG: &str = "ce013625030ba8dba906f756967f9e9ca394464a";

#[test]
fn parse_hash_object_and_ls_tree() {
    match parse(&["hash-object", "-w", "file.txt"]).unwrap().command {
        Command::HashObject { write_object, file } => {
            assert!(write_object);
            assert_eq!(file, "file.txt");
        },
        other => panic!("unexpected {:?}", other),
    }
    match parse(&["ls-tree", "--name-only", "abc", "def"]).unwrap().command {
        Command::LsTree { name_only, object } => {
            assert!(name_only);
            assert_eq!(object, "def");
        },
        other => panic!("unexpected {:?}", other),
    }
}

fn refusal(words: &[&str]) -> String {
    match parse(words) {
        Err(GitError::InvalidArgs(why)) => why,
        other => panic!("unexpected {:?}", other.map(|a| a.command)),
    }
}

#[test]
fn parse_errors() {
    assert_eq!(refusal(&[]), "missing command");
    assert_eq!(refusal(&["frobnicate"]), "invalid command: frobnicate");
    assert_eq!(refusal(&["push"]), "invalid command: push");
    assert_eq!(refusal(&["cat-file", "-p"]), "missing positional argument <object>");
    assert_eq!(refusal(&["hash-object", "-w"]), "missing positional argument <file>");
    assert_eq!(refusal(&["hash-object"]), "missing positional argument <file>");
    assert_eq!(refusal(&["ls-tree"]), "missing potisional argument <tree>");
    assert_eq!(refusal(&["ls-tree", "--name-only"]), "missing potisional argument <tree>");
}
