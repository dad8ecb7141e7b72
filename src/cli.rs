use vstd::prelude::*;
use vstd::utf8::{encode_utf8, encode_utf8_decode_utf8};

verus! {

/// What the command line asks for, once read.
pub struct Config {
    pub target_path: String,
    pub show_hidden: bool,
    pub sort: bool,
}

/// The outcome of reading the command line.
pub enum ParseOutcome {
    /// Draw the tree of a directory.
    Run(Config),
    /// Print the usage text and stop.
    Help,
    /// More than one path was given.
    MultiplePaths,
}

/// The mathematical reading of a command line.
pub enum Parsed {
    Run { path: Seq<char>, show_hidden: bool, sort: bool },
    Help,
    MultiplePaths,
}

impl View for ParseOutcome {
    type V = Parsed;

    open spec fn view(&self) -> Parsed {
        match self {
            ParseOutcome::Run(c) => Parsed::Run {
                path: c.target_path@,
                show_hidden: c.show_hidden,
                sort: c.sort,
            },
            ParseOutcome::Help => Parsed::Help,
            ParseOutcome::MultiplePaths => Parsed::MultiplePaths,
        }
    }
}

/// `-a`: show hidden entries.
pub open spec fn flag_hidden() -> Seq<char> {
    seq!['-', 'a']
}

/// `-U`: keep the listing's order.
pub open spec fn flag_unsorted() -> Seq<char> {
    seq!['-', 'U']
}

/// `--help`: print the usage text.
pub open spec fn flag_help() -> Seq<char> {
    seq!['-', '-', 'h', 'e', 'l', 'p']
}

/// `.`, the path used when none is given.
pub open spec fn current_dir() -> Seq<char> {
    seq!['.']
}

/// Reads `args[i..]` left to right, having seen the flags and the path so far.
/// `--help` ends the reading at once; a second path is an error; any other
/// token that is not `-a` or `-U` is the path.
pub open spec fn scan_args(
    args: Seq<Seq<char>>,
    i: int,
    show_hidden: bool,
    sort: bool,
    path: Option<Seq<char>>,
) -> Parsed
    decreases args.len() - i,
{
    if i < 0 || i >= args.len() {
        Parsed::Run {
            path: match path {
                Some(p) => p,
                None => current_dir(),
            },
            show_hidden,
            sort,
        }
    } else if args[i] == flag_hidden() {
        scan_args(args, i + 1, true, sort, path)
    } else if args[i] == flag_unsorted() {
        scan_args(args, i + 1, show_hidden, false, path)
    } else if args[i] == flag_help() {
        Parsed::Help
    } else if path is Some {
        Parsed::MultiplePaths
    } else {
        scan_args(args, i + 1, show_hidden, sort, Some(args[i]))
    }
}

/// The reading of a whole command line (the program's name left out): hidden
/// entries off, sorting on and the path `.` unless the tokens say otherwise.
pub open spec fn parse_spec(args: Seq<Seq<char>>) -> Parsed {
    scan_args(args, 0, false, true, None)
}

/// The text of each string.
pub open spec fn strings_of(v: Seq<String>) -> Seq<Seq<char>> {
    v.map_values(|s: String| s@)
}

/// Whether two strings hold the same characters, compared by their bytes.
pub fn same_text(a: &str, b: &str) -> (r: bool)
    ensures
        r == (a@ == b@),
{
    let x = a.as_bytes();
    let y = b.as_bytes();
    if x.len() != y.len() {
        proof {
            if a@ == b@ {
                assert(x@ == y@);
            }
        }
        return false;
    }
    let mut i: usize = 0;
    while i < x.len()
        invariant
            x@ == encode_utf8(a@),
            y@ == encode_utf8(b@),
            x@.len() == y@.len(),
            i <= x@.len(),
            forall|t: int| 0 <= t < i ==> x@[t] == y@[t],
        decreases x@.len() - i,
    {
        if x[i] != y[i] {
            proof {
                if a@ == b@ {
                    assert(x@ == y@);
                }
            }
            return false;
        }
        i = i + 1;
    }
    proof {
        assert(x@ =~= y@);
        encode_utf8_decode_utf8(a@);
        encode_utf8_decode_utf8(b@);
    }
    true
}

/// Reads the command line (the program's name left out).
pub fn parse_args(args: &Vec<String>) -> (r: ParseOutcome)
    ensures
        r@ == parse_spec(strings_of(args@)),
{
    let ghost a = strings_of(args@);
    let mut show_hidden = false;
    let mut sort = true;
    let mut path: Option<&String> = None;
    let mut i: usize = 0;
    proof {
        reveal_strlit("-a");
        reveal_strlit("-U");
        reveal_strlit("--help");
        reveal_strlit(".");
    }
    assert("-a"@ =~= flag_hidden());
    assert("-U"@ =~= flag_unsorted());
    assert("--help"@ =~= flag_help());
    assert("."@ =~= current_dir());
    while i < args.len()
        invariant
            a == strings_of(args@),
            i <= args@.len(),
            "-a"@ == flag_hidden(),
            "-U"@ == flag_unsorted(),
            "--help"@ == flag_help(),
            "."@ == current_dir(),
            parse_spec(a) == scan_args(
                a,
                i as int,
                show_hidden,
                sort,
                match path {
                    Some(p) => Some(p@),
                    None => None,
                },
            ),
        decreases args@.len() - i,
    {
        let arg = args[i].as_str();
        if same_text(arg, "-a") {
            show_hidden = true;
        } else if same_text(arg, "-U") {
            sort = false;
        } else if same_text(arg, "--help") {
            return ParseOutcome::Help;
        } else if path.is_some() {
            return ParseOutcome::MultiplePaths;
        } else {
            path = Some(&args[i]);
        }
        i = i + 1;
    }
    let target_path = match path {
        Some(p) => p.clone(),
        None => String::from_str("."),
    };
    ParseOutcome::Run(Config { target_path, show_hidden, sort })
}

/// Why a target path cannot be drawn.
#[derive(Debug, PartialEq, Eq, Structural)]
pub enum PathError {
    NotFound,
    NotADirectory,
}

/// Decides on a target from what the file system says of it: a missing path
/// and a path that is not a directory are refused, in that order.
pub fn check_target(exists: bool, is_dir: bool) -> (r: Result<(), PathError>)
    ensures
        r == (if !exists {
            Err(PathError::NotFound)
        } else if !is_dir {
            Err(PathError::NotADirectory)
        } else {
            Ok(())
        }),
{
    if !exists {
        Err(PathError::NotFound)
    } else if !is_dir {
        Err(PathError::NotADirectory)
    } else {
        Ok(())
    }
}

/// The message reported when more than one path is given.
pub open spec fn multiple_paths_text() -> Seq<char> {
    "Error: Multiple paths specified"@
}

/// The message reported for a target that was refused.
pub open spec fn path_error_text(e: PathError, path: Seq<char>) -> Seq<char> {
    match e {
        PathError::NotFound => "Error: Path '"@ + path + "' does not exist"@,
        PathError::NotADirectory => "Error: '"@ + path + "' is not a directory"@,
    }
}

/// The message reported when more than one path is given.
pub fn multiple_paths_message() -> (r: String)
    ensures
        r@ == multiple_paths_text(),
{
    String::from_str("Error: Multiple paths specified")
}

/// The message reported for a target that was refused.
pub fn path_error_message(e: &PathError, path: &str) -> (r: String)
    ensures
        r@ == path_error_text(*e, path@),
{
    let mut s = String::new();
    match e {
        PathError::NotFound => {
            s.append("Error: Path '");
            s.append(path);
            s.append("' does not exist");
        },
        PathError::NotADirectory => {
            s.append("Error: '");
            s.append(path);
            s.append("' is not a directory");
        },
    }
    s
}

/// The usage text, line by line.
pub open spec fn help_lines() -> Seq<Seq<char>> {
    seq![
        "Usage: dirtree [OPTIONS] [PATH]"@,
        ""@,
        "Options:"@,
        "  -a        Show hidden files"@,
        "  -U        Do not sort (keep listing order)"@,
        "  --help    Display this help"@,
        ""@,
        "Default PATH is '.' (current directory)."@,
    ]
}

/// Appends the usage text to `out`, one line per element.
pub fn print_help(out: &mut Vec<String>)
    ensures
        strings_of(final(out)@) == strings_of(old(out)@) + help_lines(),
{
    let ghost before = strings_of(out@);
    out.push(String::from_str("Usage: dirtree [OPTIONS] [PATH]"));
    out.push(String::from_str(""));
    out.push(String::from_str("Options:"));
    out.push(String::from_str("  -a        Show hidden files"));
    out.push(String::from_str("  -U        Do not sort (keep listing order)"));
    out.push(String::from_str("  --help    Display this help"));
    out.push(String::from_str(""));
    out.push(String::from_str("Default PATH is '.' (current directory)."));
    assert(strings_of(out@) =~= before + help_lines());
}

} // verus!
