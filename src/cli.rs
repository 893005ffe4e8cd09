//! Command-line arguments, report base names and timestamps.
use vstd::prelude::*;

verus! {

/// What to analyze: one file, or every CSV file of a directory.
#[derive(Debug, PartialEq, Eq)]
pub enum InputSource {
    SingleFile(String),
    Directory(String),
}

impl InputSource {
    /// `(true, path)` for a directory, `(false, path)` for a single file.
    pub open spec fn view(&self) -> (bool, Seq<char>) {
        match self {
            InputSource::SingleFile(p) => (false, p@),
            InputSource::Directory(p) => (true, p@),
        }
    }
}

/// The output directory when none is given.
pub open spec fn default_output_dir() -> Seq<char> {
    "reports"@
}

pub open spec fn directory_flag() -> Seq<char> {
    "--directory"@
}

pub open spec fn missing_input_message() -> Seq<char> {
    "Missing input argument. Use a file path or --directory <path>"@
}

pub open spec fn missing_directory_path_message() -> Seq<char> {
    "--directory requires a path argument"@
}

pub open spec fn unknown_argument_prefix() -> Seq<char> {
    "Unknown argument: "@
}

pub open spec fn missing_file_message() -> Seq<char> {
    "Missing input file path"@
}

pub open spec fn missing_directory_message() -> Seq<char> {
    "Missing directory path"@
}

/// An argument that starts with `--`.
pub open spec fn is_option(a: Seq<char>) -> bool {
    a.len() >= 2 && a[0] == '-' && a[1] == '-'
}

/// The parsed input `(is_directory, path)` and output directory, or the error
/// message.
pub type ParsedView = Result<((bool, Seq<char>), Seq<char>), Seq<char>>;

pub open spec fn finish_parse(input: (bool, Seq<char>), out: Seq<char>) -> ParsedView {
    if input.1.len() == 0 {
        Err(
            if input.0 {
                missing_directory_message()
            } else {
                missing_file_message()
            },
        )
    } else {
        Ok((input, out))
    }
}

/// The argument loop from position `i` on, with the input and output
/// directory chosen so far.
pub open spec fn parse_from(
    args: Seq<Seq<char>>,
    i: int,
    input: (bool, Seq<char>),
    out: Seq<char>,
) -> ParsedView
    decreases args.len() - i,
{
    if i < 0 || i >= args.len() {
        finish_parse(input, out)
    } else if args[i] == directory_flag() {
        if i + 1 < args.len() {
            parse_from(args, i + 2, (true, args[i + 1]), out)
        } else {
            Err(missing_directory_path_message())
        }
    } else if i == 1 && !is_option(args[i]) {
        parse_from(args, i + 1, (false, args[i]), out)
    } else if is_option(args[i]) {
        Err(unknown_argument_prefix() + args[i])
    } else {
        parse_from(args, i + 1, input, args[i])
    }
}

/// What the arguments (program name first) ask for: a file path as the first
/// argument or `--directory <path>` anywhere, and a later plain argument as
/// the output directory.
pub open spec fn parse_spec(args: Seq<Seq<char>>) -> ParsedView {
    if args.len() < 2 {
        Err(missing_input_message())
    } else {
        parse_from(args, 1, (false, Seq::empty()), default_output_dir())
    }
}

pub open spec fn args_view(args: Seq<String>) -> Seq<Seq<char>> {
    args.map_values(|s: String| s@)
}

fn same_text(s: &str, t: &str) -> (r: bool)
    ensures
        r == (s@ == t@),
{
    let n = s.unicode_len();
    if n != t.unicode_len() {
        return false;
    }
    let mut i: usize = 0;
    while i < n
        invariant
            n == s@.len() == t@.len(),
            i <= n,
            forall|k: int| 0 <= k < i ==> s@[k] == t@[k],
        decreases n - i,
    {
        if s.get_char(i) != t.get_char(i) {
            return false;
        }
        i = i + 1;
    }
    assert(s@ =~= t@);
    true
}

fn starts_with_dashes(s: &str) -> (r: bool)
    ensures
        r == is_option(s@),
{
    s.unicode_len() >= 2 && s.get_char(0) == '-' && s.get_char(1) == '-'
}

/// Parses the program's arguments into the input source and the output
/// directory.
pub fn parse_arguments(args: &Vec<String>) -> (r: Result<(InputSource, String), String>)
    ensures
        match r {
            Ok((input, out)) => parse_spec(args_view(args@)) == Ok::<_, Seq<char>>(
                (input.view(), out@),
            ),
            Err(m) => parse_spec(args_view(args@)) == Err::<((bool, Seq<char>), Seq<char>), _>(m@),
        },
{
    let ghost a = args_view(args@);
    if args.len() < 2 {
        return Err(String::from_str("Missing input argument. Use a file path or --directory <path>"));
    }
    let mut out = String::from_str("reports");
    let mut input = InputSource::SingleFile(String::new());
    let mut i: usize = 1;
    while i < args.len()
        invariant
            a == args_view(args@),
            args@.len() >= 2,
            1 <= i <= args@.len(),
            i == 1 ==> input.view() == (false, Seq::<char>::empty()) && out@ == default_output_dir(),
            parse_spec(a) == parse_from(a, i as int, input.view(), out@),
        decreases args@.len() - i,
    {
        let arg = args[i].as_str();
        assert(arg@ == a[i as int]);
        if same_text(arg, "--directory") {
            if i + 1 < args.len() {
                input = InputSource::Directory(args[i + 1].clone());
                i = i + 2;
            } else {
                return Err(String::from_str("--directory requires a path argument"));
            }
        } else if i == 1 && !starts_with_dashes(arg) {
            input = InputSource::SingleFile(args[i].clone());
            i = i + 1;
        } else if starts_with_dashes(arg) {
            return Err(String::from_str("Unknown argument: ").concat(arg));
        } else {
            out = args[i].clone();
            i = i + 1;
        }
    }
    let empty = match &input {
        InputSource::SingleFile(p) => p.as_str().unicode_len() == 0,
        InputSource::Directory(p) => p.as_str().unicode_len() == 0,
    };
    if empty {
        return match input {
            InputSource::SingleFile(_) => Err(String::from_str("Missing input file path")),
            InputSource::Directory(_) => Err(String::from_str("Missing directory path")),
        };
    }
    Ok((input, out))
}

/// The part of a file name before its first `.`; the whole name when it has
/// none.
pub open spec fn stem_of(name: Seq<char>) -> Seq<char>
    decreases name.len(),
{
    if name.len() == 0 || name[0] == '.' {
        Seq::empty()
    } else {
        seq![name[0]] + stem_of(name.drop_first())
    }
}

/// The report base name of a file name: the part before its first `.`.
pub fn stem_before_dot(name: &str) -> (r: String)
    ensures
        r@ == stem_of(name@),
{
    let n = name.unicode_len();
    let mut k: usize = 0;
    while k < n && name.get_char(k) != '.'
        invariant
            n == name@.len(),
            k <= n,
            forall|m: int| 0 <= m < k ==> name@[m] != '.',
        decreases n - k,
    {
        k = k + 1;
    }
    proof {
        lemma_stem_of_prefix(name@, k as int);
    }
    String::from_str(name.substring_char(0, k))
}

proof fn lemma_stem_of_prefix(s: Seq<char>, k: int)
    requires
        0 <= k <= s.len(),
        forall|m: int| 0 <= m < k ==> s[m] != '.',
        k == s.len() || s[k] == '.',
    ensures
        stem_of(s) == s.subrange(0, k),
    decreases s.len(),
{
    if k > 0 {
        lemma_stem_of_prefix(s.drop_first(), k - 1);
        assert(s.subrange(0, k) =~= seq![s[0]] + s.drop_first().subrange(0, k - 1));
    } else {
        assert(s.subrange(0, 0) =~= Seq::<char>::empty());
    }
}

/// Why a report base name cannot be made from a path.
#[derive(Clone, Copy, Debug, PartialEq, Eq, Structural)]
pub enum PathError {
    /// The path has no final component (it is empty, a root, or ends in `..`).
    NoFileName,
}

/// Relies on `Path::file_name`: the final component of the path, or `None`.
/// How a path splits into components depends on the platform, so nothing is
/// stated of the result.
#[verifier::external_body]
fn file_name_of(path: &str) -> (r: Option<String>) {
    std::path::Path::new(path).file_name().map(|n| n.to_string_lossy().into_owned())
}

/// The report base name of a path: its file name up to the first `.`.
pub fn extract_basename(file_path: &str) -> (r: Result<String, PathError>)
    ensures
        r matches Ok(b) ==> exists|name: Seq<char>| b@ == stem_of(name),
{
    match file_name_of(file_path) {
        Some(name) => Ok(stem_before_dot(name.as_str())),
        None => Err(PathError::NoFileName),
    }
}

/// The decimal digits of `n`, most significant first, without leading zeros.
pub open spec fn decimal_of(n: nat) -> Seq<char>
    decreases n,
{
    if n < 10 {
        seq![digit_char(n)]
    } else {
        decimal_of(n / 10) + seq![digit_char(n % 10)]
    }
}

pub open spec fn digit_char(d: nat) -> char {
    if d == 0 {
        '0'
    } else if d == 1 {
        '1'
    } else if d == 2 {
        '2'
    } else if d == 3 {
        '3'
    } else if d == 4 {
        '4'
    } else if d == 5 {
        '5'
    } else if d == 6 {
        '6'
    } else if d == 7 {
        '7'
    } else if d == 8 {
        '8'
    } else {
        '9'
    }
}

fn digit_text(d: u64) -> (r: &'static str)
    requires
        d < 10,
    ensures
        r@ == seq![digit_char(d as nat)],
{
    proof {
        reveal_strlit("0");
        reveal_strlit("1");
        reveal_strlit("2");
        reveal_strlit("3");
        reveal_strlit("4");
        reveal_strlit("5");
        reveal_strlit("6");
        reveal_strlit("7");
        reveal_strlit("8");
        reveal_strlit("9");
    }
    let r = if d == 0 {
        "0"
    } else if d == 1 {
        "1"
    } else if d == 2 {
        "2"
    } else if d == 3 {
        "3"
    } else if d == 4 {
        "4"
    } else if d == 5 {
        "5"
    } else if d == 6 {
        "6"
    } else if d == 7 {
        "7"
    } else if d == 8 {
        "8"
    } else {
        "9"
    };
    assert(r@ =~= seq![digit_char(d as nat)]);
    r
}

/// The decimal text of a number of seconds, as used in report file names.
pub fn timestamp_text(secs: u64) -> (r: String)
    ensures
        r@ == decimal_of(secs as nat),
    decreases secs,
{
    if secs < 10 {
        String::from_str(digit_text(secs))
    } else {
        let mut s = timestamp_text(secs / 10);
        s.append(digit_text(secs % 10));
        s
    }
}

/// The clock could not give a time after the Unix epoch.
#[derive(Clone, Copy, Debug, PartialEq, Eq, Structural)]
pub enum TimestampError {
    ClockBeforeEpoch,
}

/// Relies on `SystemTime::elapsed` of the Unix epoch: whole seconds from the
/// epoch to now, or `None` when the clock reads earlier. The clock decides, so
/// nothing is stated of the value.
#[verifier::external_body]
fn seconds_since_epoch() -> (r: Option<u64>) {
    std::time::UNIX_EPOCH.elapsed().ok().map(|d| d.as_secs())
}

/// The current time as decimal seconds since the Unix epoch.
pub fn generate_timestamp() -> (r: Result<String, TimestampError>)
    ensures
        r matches Ok(s) ==> exists|t: u64| s@ == decimal_of(t as nat),
{
    match seconds_since_epoch() {
        Some(secs) => Ok(timestamp_text(secs)),
        None => Err(TimestampError::ClockBeforeEpoch),
    }
}

} // verus!
