//! Argument parsing: an argument list (excluding the program name) becomes a
//! [`Config`] or a [`ConfigError`].
//!
//! The outcome for every argument list is pinned down by the spec function
//! [`parse_outcome`], and [`Config::new`] is proved to return exactly that.

use crate::DEFAULT_LINE_WIDTH;
use crate::MIN_LINE_WIDTH;
use vstd::prelude::*;

verus! {

/// What one run of the converter works with: where to read, where to write,
/// and how wide a rendered line may grow.
pub struct Config {
    pub in_filename: String,
    pub out_filename: String,
    pub line_width: usize,
}

/// Why an argument list was rejected.
#[derive(Clone, Copy, Debug, PartialEq, Eq, Structural)]
pub enum ConfigError {
    /// No arguments: the input path is missing.
    MissingInputPath,
    /// Only one argument: the output path is missing.
    MissingOutputPath,
    /// The width argument is not a decimal number, or does not fit the
    /// machine's word.
    InvalidLineWidth,
    /// The width argument is a number below the accepted floor.
    LineWidthOutOfRange,
}

impl ConfigError {
    /// The one-line diagnostic text for this error.
    pub fn message(&self) -> (r: &'static str)
        ensures
            *self is MissingInputPath ==> r@ == "didn't get a bin to dump."@,
            *self is MissingOutputPath ==> r@ == "didn't get a name for the output file."@,
            *self is InvalidLineWidth ==> r@ == "line width is not a valid number."@,
            *self is LineWidthOutOfRange ==> r@ == "line width too small, try bigger."@,
    {
        match self {
            ConfigError::MissingInputPath => "didn't get a bin to dump.",
            ConfigError::MissingOutputPath => "didn't get a name for the output file.",
            ConfigError::InvalidLineWidth => "line width is not a valid number.",
            ConfigError::LineWidthOutOfRange => "line width too small, try bigger.",
        }
    }
}

/// Is `c` a decimal digit?
pub open spec fn is_digit(c: char) -> bool {
    '0' as int <= c as int && c as int <= '9' as int
}

/// The value of a digit character.
pub open spec fn digit_val(c: char) -> int {
    c as int - '0' as int
}

/// Is `s` a non-empty string of decimal digits?
pub open spec fn is_decimal(s: Seq<char>) -> bool {
    s.len() > 0 && forall|k: int| 0 <= k < s.len() ==> is_digit(s[k])
}

/// The number a digit string denotes, most significant digit first.
pub open spec fn dec_value(s: Seq<char>) -> int
    decreases s.len(),
{
    if s.len() == 0 {
        0
    } else {
        dec_value(s.drop_last()) * 10 + digit_val(s.last())
    }
}

/// What parsing an argument list (program name excluded) yields: the input
/// path, the output path and the line width, or the error. The first two
/// arguments are taken as they stand; a third is read as a decimal width and
/// held to the floor; anything past the third is ignored.
pub open spec fn parse_outcome(args: Seq<Seq<char>>) -> Result<
    (Seq<char>, Seq<char>, int),
    ConfigError,
> {
    if args.len() == 0 {
        Err(ConfigError::MissingInputPath)
    } else if args.len() == 1 {
        Err(ConfigError::MissingOutputPath)
    } else if args.len() == 2 {
        Ok((args[0], args[1], DEFAULT_LINE_WIDTH as int))
    } else if !is_decimal(args[2]) || dec_value(args[2]) > usize::MAX {
        Err(ConfigError::InvalidLineWidth)
    } else if dec_value(args[2]) < MIN_LINE_WIDTH {
        Err(ConfigError::LineWidthOutOfRange)
    } else {
        Ok((args[0], args[1], dec_value(args[2])))
    }
}

/// A digit string denotes a value of at least zero.
proof fn lemma_dec_value_nonneg(s: Seq<char>)
    requires
        forall|k: int| 0 <= k < s.len() ==> is_digit(s[k]),
    ensures
        dec_value(s) >= 0,
    decreases s.len(),
{
    if s.len() > 0 {
        lemma_dec_value_nonneg(s.drop_last());
    }
}

/// Extending a digit string never shrinks its value: the whole string
/// denotes at least what any prefix does.
proof fn lemma_dec_value_prefix(s: Seq<char>, j: int)
    requires
        0 <= j <= s.len(),
        forall|k: int| 0 <= k < s.len() ==> is_digit(s[k]),
    ensures
        dec_value(s) >= dec_value(s.subrange(0, j)),
    decreases s.len() - j,
{
    if j == s.len() {
        assert(s.subrange(0, j) =~= s);
    } else {
        lemma_dec_value_prefix(s, j + 1);
        assert(s.subrange(0, j + 1).drop_last() =~= s.subrange(0, j));
        assert(s.subrange(0, j + 1).last() == s[j]);
        lemma_dec_value_nonneg(s.subrange(0, j));
    }
}

/// Read `s` as a decimal number. `Some` exactly when `s` is a non-empty
/// digit string whose value fits the machine's word, and then the value.
fn parse_usize(s: &str) -> (r: Option<usize>)
    ensures
        match r {
            Some(v) => is_decimal(s@) && dec_value(s@) == v as int,
            None => !is_decimal(s@) || dec_value(s@) > usize::MAX,
        },
{
    let n: usize = s.unicode_len();
    if n == 0 {
        return None;
    }
    let mut acc: usize = 0;
    let mut i: usize = 0;
    while i < n
        invariant
            n == s@.len(),
            i <= n,
            forall|k: int| 0 <= k < i ==> is_digit(s@[k]),
            acc as int == dec_value(s@.subrange(0, i as int)),
        decreases n - i,
    {
        let c: char = s.get_char(i);
        let code: u32 = c as u32;
        if code < 48 || code > 57 {
            assert(!is_digit(s@[i as int]));
            return None;
        }
        let d: u32 = code - 48;
        let stepped: Option<usize> = match acc.checked_mul(10) {
            Some(m) => m.checked_add(d as usize),
            None => None,
        };
        proof {
            assert(s@.subrange(0, i as int + 1).drop_last() =~= s@.subrange(0, i as int));
            assert(s@.subrange(0, i as int + 1).last() == s@[i as int]);
        }
        match stepped {
            Some(a) => {
                acc = a;
            },
            None => {
                proof {
                    if is_decimal(s@) {
                        lemma_dec_value_prefix(s@, i as int + 1);
                    }
                }
                return None;
            },
        }
        i = i + 1;
    }
    proof {
        assert(s@.subrange(0, n as int) =~= s@);
    }
    Some(acc)
}

impl Config {
    /// Build the configuration from the process's argument list, program
    /// name excluded: input path, output path, and an optional decimal line
    /// width of at least [`MIN_LINE_WIDTH`], [`DEFAULT_LINE_WIDTH`] when
    /// absent. Returns exactly what [`parse_outcome`] says for `args`.
    pub fn new(args: Vec<String>) -> (r: Result<Config, ConfigError>)
        ensures
            match parse_outcome(args.deep_view()) {
                Ok(t) => r matches Ok(c) && c.in_filename@ == t.0 && c.out_filename@ == t.1
                    && c.line_width as int == t.2,
                Err(e) => r matches Err(e2) && e2 == e,
            },
    {
        proof {
            assert(forall|k: int|
                0 <= k < args@.len() ==> args.deep_view()[k] == #[trigger] args@[k]@);
        }
        if args.len() == 0 {
            return Err(ConfigError::MissingInputPath);
        }
        if args.len() == 1 {
            return Err(ConfigError::MissingOutputPath);
        }
        let line_width: usize = if args.len() >= 3 {
            match parse_usize(args[2].as_str()) {
                Some(w) => {
                    if w < MIN_LINE_WIDTH {
                        return Err(ConfigError::LineWidthOutOfRange);
                    }
                    w
                },
                None => {
                    return Err(ConfigError::InvalidLineWidth);
                },
            }
        } else {
            DEFAULT_LINE_WIDTH
        };
        let in_filename: String = args[0].clone();
        let out_filename: String = args[1].clone();
        Ok(Config { in_filename, out_filename, line_width })
    }
}

/// Law: an argument list of exactly two entries parses to the same outcome
/// as that list with an explicit third entry of `80`, the default width.
pub proof fn lemma_default_width(args: Seq<Seq<char>>)
    requires
        args.len() == 2,
    ensures
        parse_outcome(args.push("80"@)) == parse_outcome(args),
{
    reveal_strlit("80");
    let a3 = args.push("80"@);
    assert(is_digit("80"@[0]));
    assert(is_digit("80"@[1]));
    assert(is_decimal("80"@));
    assert("80"@.drop_last() =~= seq!['8']);
    assert(seq!['8'].drop_last() =~= Seq::<char>::empty());
    assert(dec_value(Seq::<char>::empty()) == 0);
    assert(seq!['8'].last() == '8');
    assert(dec_value(seq!['8']) == 8);
    assert("80"@.last() == '0');
    assert(dec_value("80"@) == 80);
    assert(a3[0] == args[0]);
    assert(a3[1] == args[1]);
}

} // verus!
