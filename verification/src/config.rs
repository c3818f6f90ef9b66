//! Run configuration: input path, output prefix, chunk size threshold,
//! line-ending string and text encoding, parsed from a plain argument list.

use vstd::prelude::*;

verus! {

/// Text encodings the tool understands. The line-ending search decodes the
/// bytes under this encoding, so that multi-byte code units cannot produce
/// false boundary matches.
#[derive(Clone, Copy, Debug, PartialEq, Eq, Structural)]
pub enum TextEncoding {
    Utf8,
    Gbk,
}

impl TextEncoding {
    /// Numeric tag used by the ghost model of decoding and encoding.
    pub open spec fn code(self) -> int {
        match self {
            TextEncoding::Utf8 => 0,
            TextEncoding::Gbk => 1,
        }
    }
}

/// A configuration the caller got wrong; the run is refused before any output
/// is written.
#[derive(Clone, Copy, Debug, PartialEq, Eq, Structural)]
pub enum ConfigError {
    /// Fewer than the two required arguments after the program name.
    TooFewArguments,
    /// The chunk size is not a positive decimal number of megabytes that fits
    /// in `usize` once scaled to bytes.
    InvalidChunkSize,
    /// The line-ending option is none of `LF`, `CRLF`, `CR` or `custom:...`.
    InvalidLineEnding,
    /// A `custom:` line ending with an empty literal.
    EmptyCustomLineEnding,
    /// The encoding option is none of the supported names.
    UnsupportedEncoding,
}

/// Immutable run configuration.
#[derive(Debug)]
pub struct Config {
    pub input_path: Vec<char>,
    pub output_prefix: Vec<char>,
    /// Chunk size threshold in bytes.
    pub chunk_size: usize,
    /// The line-ending delimiter, as decoded characters.
    pub line_ending: Vec<char>,
    pub encoding: TextEncoding,
}

/// Ghost model of a configuration.
pub struct ConfigModel {
    pub input_path: Seq<char>,
    pub output_prefix: Seq<char>,
    pub chunk_size: int,
    pub line_ending: Seq<char>,
    pub encoding: int,
}

impl View for Config {
    type V = ConfigModel;

    open spec fn view(&self) -> ConfigModel {
        ConfigModel {
            input_path: self.input_path@,
            output_prefix: self.output_prefix@,
            chunk_size: self.chunk_size as int,
            line_ending: self.line_ending@,
            encoding: self.encoding.code(),
        }
    }
}

/// ASCII uppercase of one character; all other characters stay as they are.
pub open spec fn upper_char(c: char) -> char {
    if 0x61 <= (c as u32) && (c as u32) <= 0x7a {
        ((c as u32) - 0x20) as char
    } else {
        c
    }
}

/// ASCII uppercase of a character sequence.
pub open spec fn to_upper(s: Seq<char>) -> Seq<char> {
    Seq::new(s.len(), |i: int| upper_char(s[i]))
}

fn upper_char_of(c: char) -> (r: char)
    ensures
        r == upper_char(c),
{
    let u = c as u32;
    if 0x61 <= u && u <= 0x7a {
        ((c as u8) - 0x20) as char
    } else {
        c
    }
}

/// Whether the ASCII uppercase of `arg` equals `pat`.
fn upper_eq(arg: &Vec<char>, pat: &Vec<char>) -> (r: bool)
    ensures
        r == (to_upper(arg@) == pat@),
{
    if arg.len() != pat.len() {
        proof {
            assert(to_upper(arg@).len() != pat@.len());
        }
        return false;
    }
    let mut i: usize = 0;
    while i < arg.len()
        invariant
            i <= arg@.len(),
            arg@.len() == pat@.len(),
            forall|j: int| 0 <= j < i ==> upper_char(arg@[j]) == pat@[j],
        decreases arg@.len() - i,
    {
        if upper_char_of(arg[i]) != pat[i] {
            proof {
                assert(to_upper(arg@)[i as int] != pat@[i as int]);
            }
            return false;
        }
        i = i + 1;
    }
    proof {
        assert(to_upper(arg@) =~= pat@);
    }
    true
}

/// Whether the ASCII uppercase of the first `pat.len()` characters of `arg`
/// equals `pat`.
fn upper_prefix_eq(arg: &Vec<char>, pat: &Vec<char>) -> (r: bool)
    ensures
        r == (arg@.len() >= pat@.len() && to_upper(arg@.subrange(0, pat@.len() as int))
            == pat@),
{
    if arg.len() < pat.len() {
        return false;
    }
    let mut i: usize = 0;
    while i < pat.len()
        invariant
            i <= pat@.len(),
            arg@.len() >= pat@.len(),
            forall|j: int| 0 <= j < i ==> upper_char(arg@[j]) == pat@[j],
        decreases pat@.len() - i,
    {
        if upper_char_of(arg[i]) != pat[i] {
            proof {
                assert(to_upper(arg@.subrange(0, pat@.len() as int))[i as int] != pat@[i as int]);
            }
            return false;
        }
        i = i + 1;
    }
    proof {
        assert(to_upper(arg@.subrange(0, pat@.len() as int)) =~= pat@);
    }
    true
}

pub open spec fn is_dec_digit(c: char) -> bool {
    0x30 <= (c as u32) && (c as u32) <= 0x39
}

pub open spec fn dec_digit_val(c: char) -> int {
    (c as u32) - 0x30
}

/// The value of a decimal digit string, most significant digit first.
pub open spec fn dec_value(s: Seq<char>) -> int
    decreases s.len(),
{
    if s.len() == 0 {
        0
    } else {
        dec_value(s.drop_last()) * 10 + dec_digit_val(s.last())
    }
}

pub open spec fn all_dec_digits(s: Seq<char>) -> bool {
    forall|i: int| 0 <= i < s.len() ==> is_dec_digit(s[i])
}

/// The value a `usize` parse accepts for `s`: an optional leading `+`, then
/// one or more decimal digits, with a value that fits in `usize`.
pub open spec fn parse_usize_spec(s: Seq<char>) -> Option<int> {
    let digits = if s.len() > 0 && s[0] == '+' {
        s.skip(1)
    } else {
        s
    };
    if digits.len() > 0 && all_dec_digits(digits) && dec_value(digits) <= usize::MAX {
        Some(dec_value(digits))
    } else {
        None
    }
}

proof fn lemma_dec_value_nonneg(s: Seq<char>)
    requires
        all_dec_digits(s),
    ensures
        dec_value(s) >= 0,
    decreases s.len(),
{
    if s.len() > 0 {
        assert(all_dec_digits(s.drop_last())) by {
            assert(forall|i: int| 0 <= i < s.len() - 1 ==> s.drop_last()[i] == s[i]);
        }
        lemma_dec_value_nonneg(s.drop_last());
    }
}

/// A longer digit prefix never has a smaller value.
proof fn lemma_dec_value_prefix_monotonic(s: Seq<char>, i: int)
    requires
        all_dec_digits(s),
        0 <= i <= s.len(),
    ensures
        dec_value(s.subrange(0, i)) <= dec_value(s),
    decreases s.len() - i,
{
    if i < s.len() {
        lemma_dec_value_prefix_monotonic(s, i + 1);
        let p = s.subrange(0, i + 1);
        assert(p.drop_last() == s.subrange(0, i));
        assert(all_dec_digits(s.subrange(0, i))) by {
            assert(forall|j: int| 0 <= j < i ==> s.subrange(0, i)[j] == s[j]);
        }
        lemma_dec_value_nonneg(s.subrange(0, i));
        assert(dec_value(p) == dec_value(s.subrange(0, i)) * 10 + dec_digit_val(s[i]));
    } else {
        assert(s.subrange(0, s.len() as int) == s);
    }
}

/// Parses a decimal `usize` from `s`, starting at `from`: digits only, at
/// least one, with a value that fits.
fn parse_usize_from(s: &Vec<char>, from: usize) -> (r: Option<usize>)
    requires
        from <= s@.len(),
    ensures
        ({
            let digits = s@.skip(from as int);
            match r {
                Some(n) => digits.len() > 0 && all_dec_digits(digits) && n as int == dec_value(
                    digits,
                ),
                None => !(digits.len() > 0 && all_dec_digits(digits) && dec_value(digits)
                    <= usize::MAX),
            }
        }),
{
    let ghost digits = s@.skip(from as int);
    if from == s.len() {
        return None;
    }
    let mut total: usize = 0;
    let mut i: usize = from;
    while i < s.len()
        invariant
            from <= i <= s@.len(),
            digits == s@.skip(from as int),
            all_dec_digits(digits.subrange(0, i - from)),
            total as int == dec_value(digits.subrange(0, i - from)),
        decreases s@.len() - i,
    {
        let c = s[i];
        let u = c as u32;
        if !(0x30 <= u && u <= 0x39) {
            proof {
                assert(digits[i - from] == s@[i as int]);
                assert(!is_dec_digit(digits[i - from]));
            }
            return None;
        }
        let d = (u - 0x30) as usize;
        proof {
            let p = digits.subrange(0, i - from + 1);
            assert(p.drop_last() == digits.subrange(0, i - from));
            assert(p.last() == digits[i - from]);
            assert(digits[i - from] == s@[i as int]);
        }
        if total > (usize::MAX - d) / 10 {
            proof {
                lemma_dec_value_nonneg(digits.subrange(0, i - from + 1));
                if all_dec_digits(digits) {
                    lemma_dec_value_prefix_monotonic(digits, i - from + 1);
                }
            }
            return None;
        }
        total = total * 10 + d;
        i = i + 1;
    }
    proof {
        assert(digits.subrange(0, digits.len() as int) == digits);
    }
    Some(total)
}

/// Replaces each `\n` and `\r` escape pair with the character it names,
/// scanning left to right.
pub open spec fn unescaped(s: Seq<char>) -> Seq<char>
    decreases s.len(),
{
    if s.len() >= 2 && s[0] == '\\' && s[1] == 'n' {
        seq!['\n'] + unescaped(s.skip(2))
    } else if s.len() >= 2 && s[0] == '\\' && s[1] == 'r' {
        seq!['\r'] + unescaped(s.skip(2))
    } else if s.len() == 0 {
        Seq::empty()
    } else {
        seq![s[0]] + unescaped(s.skip(1))
    }
}

/// The custom line-ending literal of `s` from position `from` on, with its
/// escape sequences replaced.
fn unescape_from(s: &Vec<char>, from: usize) -> (r: Vec<char>)
    requires
        from <= s@.len(),
    ensures
        r@ == unescaped(s@.skip(from as int)),
{
    let mut out: Vec<char> = Vec::new();
    let mut i: usize = from;
    while i < s.len()
        invariant
            from <= i <= s@.len(),
            unescaped(s@.skip(from as int)) == out@ + unescaped(s@.skip(i as int)),
        decreases s@.len() - i,
    {
        let ghost pre = out@;
        let ghost rest = s@.skip(i as int);
        proof {
            assert(rest.len() == s@.len() - i);
            assert(forall|j: int| 0 <= j < rest.len() ==> rest[j] == s@[i + j]);
        }
        if i + 1 < s.len() && s[i] == '\\' && (s[i + 1] == 'n' || s[i + 1] == 'r') {
            if s[i + 1] == 'n' {
                out.push('\n');
            } else {
                out.push('\r');
            }
            proof {
                assert(rest.skip(2) =~= s@.skip(i + 2));
                assert(out@ =~= pre + seq![if s@[i + 1] == 'n' {
                    '\n'
                } else {
                    '\r'
                }]);
                assert(unescaped(rest) == seq![if s@[i + 1] == 'n' {
                    '\n'
                } else {
                    '\r'
                }] + unescaped(rest.skip(2)));
                assert(out@ + unescaped(s@.skip(i + 2)) =~= pre + unescaped(rest));
            }
            i = i + 2;
        } else {
            out.push(s[i]);
            proof {
                assert(rest[0] == s@[i as int]);
                assert(rest.skip(1) =~= s@.skip(i + 1));
                if rest.len() >= 2 && rest[0] == '\\' && (rest[1] == 'n' || rest[1] == 'r') {
                    assert(i + 1 < s@.len() && s@[i as int] == '\\' && (s@[i + 1] == 'n' || s@[i
                        + 1] == 'r'));
                    assert(false);
                }
                assert(unescaped(rest) == seq![rest[0]] + unescaped(rest.skip(1)));
                assert(out@ + unescaped(s@.skip(i + 1)) =~= pre + unescaped(rest));
            }
            i = i + 1;
        }
    }
    proof {
        assert(s@.skip(s@.len() as int).len() == 0);
        assert(out@ =~= out@ + unescaped(s@.skip(s@.len() as int)));
    }
    out
}

/// Default chunk size threshold: 100 MiB.
pub const DEFAULT_CHUNK_SIZE: usize = 100 * 1024 * 1024;

/// The chunk size in bytes for a `chunk_size_mb` argument: a positive decimal
/// number of megabytes whose byte count fits in `usize`.
pub open spec fn chunk_size_spec(arg: Seq<char>) -> Option<int> {
    match parse_usize_spec(arg) {
        Some(mb) => if mb >= 1 && mb * 0x100000 <= usize::MAX {
            Some(mb * 0x100000)
        } else {
            None
        },
        None => None,
    }
}

fn parse_chunk_size(arg: &Vec<char>) -> (r: Option<usize>)
    ensures
        ({
            match r {
                Some(n) => chunk_size_spec(arg@) == Some(n as int),
                None => chunk_size_spec(arg@) is None,
            }
        }),
{
    let from: usize = if arg.len() > 0 && arg[0] == '+' {
        1
    } else {
        0
    };
    proof {
        if from == 0 {
            assert(arg@.skip(0) == arg@);
        }
    }
    match parse_usize_from(arg, from) {
        Some(mb) => {
            if mb >= 1 && mb <= usize::MAX / 0x100000 {
                Some(mb * 0x100000)
            } else {
                None
            }
        },
        None => None,
    }
}

/// The line ending an option names: `LF`, `CRLF`, `CR`, or `custom:` followed
/// by a literal in which `\n` and `\r` escapes stand for the characters they
/// name. The keyword is matched case-insensitively; an empty custom literal
/// is an error.
pub open spec fn line_ending_spec(arg: Seq<char>) -> Result<Seq<char>, ConfigError> {
    let u = to_upper(arg);
    if u == seq!['L', 'F'] {
        Ok(seq!['\n'])
    } else if u == seq!['C', 'R', 'L', 'F'] {
        Ok(seq!['\r', '\n'])
    } else if u == seq!['C', 'R'] {
        Ok(seq!['\r'])
    } else if arg.len() >= 7 && to_upper(arg.subrange(0, 7)) == seq!['C', 'U', 'S', 'T', 'O', 'M',
        ':'] {
        let lit = unescaped(arg.skip(7));
        if lit.len() == 0 {
            Err(ConfigError::EmptyCustomLineEnding)
        } else {
            Ok(lit)
        }
    } else {
        Err(ConfigError::InvalidLineEnding)
    }
}

fn parse_line_ending(arg: &Vec<char>) -> (r: Result<Vec<char>, ConfigError>)
    ensures
        ({
            match r {
                Ok(le) => line_ending_spec(arg@) == Ok::<Seq<char>, ConfigError>(le@),
                Err(e) => line_ending_spec(arg@) == Err::<Seq<char>, ConfigError>(e),
            }
        }),
{
    let lf: Vec<char> = vec!['L', 'F'];
    let crlf: Vec<char> = vec!['C', 'R', 'L', 'F'];
    let cr: Vec<char> = vec!['C', 'R'];
    let custom: Vec<char> = vec!['C', 'U', 'S', 'T', 'O', 'M', ':'];
    proof {
        assert(lf@ =~= seq!['L', 'F']);
        assert(crlf@ =~= seq!['C', 'R', 'L', 'F']);
        assert(cr@ =~= seq!['C', 'R']);
        assert(custom@ =~= seq!['C', 'U', 'S', 'T', 'O', 'M', ':']);
    }
    if upper_eq(arg, &lf) {
        let r: Vec<char> = vec!['\n'];
        proof {
            assert(r@ =~= seq!['\n']);
        }
        Ok(r)
    } else if upper_eq(arg, &crlf) {
        let r: Vec<char> = vec!['\r', '\n'];
        proof {
            assert(r@ =~= seq!['\r', '\n']);
        }
        Ok(r)
    } else if upper_eq(arg, &cr) {
        let r: Vec<char> = vec!['\r'];
        proof {
            assert(r@ =~= seq!['\r']);
        }
        Ok(r)
    } else if upper_prefix_eq(arg, &custom) {
        let lit = unescape_from(arg, 7);
        if lit.len() == 0 {
            Err(ConfigError::EmptyCustomLineEnding)
        } else {
            Ok(lit)
        }
    } else {
        Err(ConfigError::InvalidLineEnding)
    }
}

/// The encoding an option names, matched case-insensitively.
pub open spec fn encoding_spec(arg: Seq<char>) -> Option<TextEncoding> {
    let u = to_upper(arg);
    if u == seq!['U', 'T', 'F', '-', '8'] {
        Some(TextEncoding::Utf8)
    } else if u == seq!['G', 'B', 'K'] {
        Some(TextEncoding::Gbk)
    } else {
        None
    }
}

fn parse_encoding(arg: &Vec<char>) -> (r: Option<TextEncoding>)
    ensures
        r == encoding_spec(arg@),
{
    let utf8: Vec<char> = vec!['U', 'T', 'F', '-', '8'];
    let gbk: Vec<char> = vec!['G', 'B', 'K'];
    proof {
        assert(utf8@ =~= seq!['U', 'T', 'F', '-', '8']);
        assert(gbk@ =~= seq!['G', 'B', 'K']);
    }
    if upper_eq(arg, &utf8) {
        Some(TextEncoding::Utf8)
    } else if upper_eq(arg, &gbk) {
        Some(TextEncoding::Gbk)
    } else {
        None
    }
}

/// The configuration that an argument list denotes, `args[0]` being the
/// program name: `<input> <prefix> [chunk_size_mb] [line_ending] [encoding]`,
/// with 100 MiB, `\n` and UTF-8 as the defaults. Errors come in the order the
/// options stand in the list.
pub open spec fn from_args_spec(args: Seq<Seq<char>>) -> Result<ConfigModel, ConfigError> {
    if args.len() < 3 {
        Err(ConfigError::TooFewArguments)
    } else {
        let cs = if args.len() >= 4 {
            chunk_size_spec(args[3])
        } else {
            Some(DEFAULT_CHUNK_SIZE as int)
        };
        match cs {
            None => Err(ConfigError::InvalidChunkSize),
            Some(chunk_size) => {
                let le = if args.len() >= 5 {
                    line_ending_spec(args[4])
                } else {
                    Ok(seq!['\n'])
                };
                match le {
                    Err(e) => Err(e),
                    Ok(line_ending) => {
                        let enc = if args.len() >= 6 {
                            encoding_spec(args[5])
                        } else {
                            Some(TextEncoding::Utf8)
                        };
                        match enc {
                            None => Err(ConfigError::UnsupportedEncoding),
                            Some(encoding) => Ok(
                                ConfigModel {
                                    input_path: args[1],
                                    output_prefix: args[2],
                                    chunk_size: chunk_size,
                                    line_ending: line_ending,
                                    encoding: encoding.code(),
                                },
                            ),
                        }
                    },
                }
            },
        }
    }
}

/// The model of a parse result: a configuration's ghost view on success, the
/// error itself otherwise.
pub open spec fn parse_model(r: Result<Config, ConfigError>) -> Result<ConfigModel, ConfigError> {
    match r {
        Ok(c) => Ok(c@),
        Err(e) => Err(e),
    }
}

impl Config {
    /// A usable configuration: the line ending is non-empty.
    pub open spec fn wf(&self) -> bool {
        self.line_ending@.len() >= 1
    }

    /// Builds the configuration an argument list denotes, or reports why it
    /// cannot. `args[0]` is the program name.
    pub fn from_args(args: &Vec<Vec<char>>) -> (r: Result<Config, ConfigError>)
        ensures
            parse_model(r) == from_args_spec(args.deep_view()),
            r matches Ok(c) ==> c.wf(),
    {
        let ghost argsm = args.deep_view();
        proof {
            assert(argsm.len() == args@.len());
            assert(forall|i: int| 0 <= i < args@.len() ==> argsm[i] == args@[i]@);
        }
        if args.len() < 3 {
            return Err(ConfigError::TooFewArguments);
        }
        let chunk_size: usize = if args.len() >= 4 {
            match parse_chunk_size(&args[3]) {
                Some(n) => n,
                None => {
                    return Err(ConfigError::InvalidChunkSize);
                },
            }
        } else {
            DEFAULT_CHUNK_SIZE
        };
        let line_ending: Vec<char> = if args.len() >= 5 {
            match parse_line_ending(&args[4]) {
                Ok(le) => le,
                Err(e) => {
                    return Err(e);
                },
            }
        } else {
            let d: Vec<char> = vec!['\n'];
            proof {
                assert(d@ =~= seq!['\n']);
            }
            d
        };
        let encoding: TextEncoding = if args.len() >= 6 {
            match parse_encoding(&args[5]) {
                Some(e) => e,
                None => {
                    return Err(ConfigError::UnsupportedEncoding);
                },
            }
        } else {
            TextEncoding::Utf8
        };
        let input_path = vstd::slice::slice_to_vec(args[1].as_slice());
        let output_prefix = vstd::slice::slice_to_vec(args[2].as_slice());
        Ok(
            Config {
                input_path,
                output_prefix,
                chunk_size,
                line_ending,
                encoding,
            },
        )
    }
}

} // verus!
