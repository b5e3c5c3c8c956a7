//! Command-line arguments: flags, context sizes, the pattern and the path.
use vstd::prelude::*;
use crate::cli::output::OutputMode;
use crate::text::{chars_of, decimal, digit_char};

verus! {

/// The settings the flags control.
#[derive(Clone, Copy)]
pub struct Flags {
    pub output_mode: OutputMode,
    pub case_insensitive: bool,
    pub whole_word: bool,
    pub invert_match: bool,
    pub before_context: usize,
    pub after_context: usize,
    pub only_matching: bool,
    pub fixed_strings: bool,
}

/// The parsed command line.
#[derive(Debug, Clone, PartialEq, Eq)]
pub struct Args {
    pub pattern: String,
    /// The patterns to search for (the pattern, alone).
    pub patterns: Vec<String>,
    pub path: Option<String>,
    pub output_mode: OutputMode,
    pub case_insensitive: bool,
    pub whole_word: bool,
    pub invert_match: bool,
    pub before_context: usize,
    pub after_context: usize,
    pub only_matching: bool,
    pub fixed_strings: bool,
    /// How many threads search files (left to the program when `None`).
    pub threads_count: Option<usize>,
}

#[derive(Debug, Clone, PartialEq, Eq)]
pub struct ArgsError {
    pub kind: ArgsErrorKind,
}

#[derive(Debug, Clone, PartialEq, Eq)]
pub enum ArgsErrorKind {
    MissingPattern,
    UnexpectedArgument(String),
    UnexpectedEOI,
}

/// An argument error, with the offending argument as characters.
pub enum ArgsFault {
    MissingPattern,
    UnexpectedArgument(Seq<char>),
    UnexpectedEOI,
}

pub open spec fn fault_of(e: ArgsError) -> ArgsFault {
    match e.kind {
        ArgsErrorKind::MissingPattern => ArgsFault::MissingPattern,
        ArgsErrorKind::UnexpectedArgument(a) => ArgsFault::UnexpectedArgument(a@),
        ArgsErrorKind::UnexpectedEOI => ArgsFault::UnexpectedEOI,
    }
}

/// The message shown for an argument error.
pub open spec fn args_error_message(e: ArgsError) -> Seq<char> {
    match e.kind {
        ArgsErrorKind::MissingPattern => "Missing pattern"@,
        ArgsErrorKind::UnexpectedArgument(a) => "UnexpectedArgument '"@ + a@ + "'"@,
        ArgsErrorKind::UnexpectedEOI => "Unexpected end of input"@,
    }
}

impl ArgsError {
    fn missing_pattern() -> (r: Self)
        ensures
            fault_of(r) == ArgsFault::MissingPattern,
    {
        ArgsError { kind: ArgsErrorKind::MissingPattern }
    }

    fn unexpected(arg: String) -> (r: Self)
        ensures
            fault_of(r) == ArgsFault::UnexpectedArgument(arg@),
    {
        ArgsError { kind: ArgsErrorKind::UnexpectedArgument(arg) }
    }

    fn eoi() -> (r: Self)
        ensures
            fault_of(r) == ArgsFault::UnexpectedEOI,
    {
        ArgsError { kind: ArgsErrorKind::UnexpectedEOI }
    }

    /// The message that describes this error, as shown to users.
    pub fn message(&self) -> (r: String)
        ensures
            r@ == args_error_message(*self),
    {
        match &self.kind {
            ArgsErrorKind::MissingPattern => String::from_str("Missing pattern"),
            ArgsErrorKind::UnexpectedArgument(a) => {
                let mut r = String::from_str("UnexpectedArgument '");
                r.append(a.as_str());
                r.append("'");
                r
            },
            ArgsErrorKind::UnexpectedEOI => String::from_str("Unexpected end of input"),
        }
    }
}

pub open spec fn is_digit(c: char) -> bool {
    '0' <= c && c <= '9'
}

/// The number the decimal digits `d` stand for.
pub open spec fn digits_value(d: Seq<char>) -> nat
    decreases d.len(),
{
    if d.len() == 0 {
        0
    } else {
        digits_value(d.drop_last()) * 10 + ((d.last() as u32) - ('0' as u32)) as nat
    }
}

/// The digits of a count: all of it, or what follows a leading `+`.
pub open spec fn count_digits(s: Seq<char>) -> Seq<char> {
    if s.len() > 1 && s[0] == '+' {
        s.drop_first()
    } else {
        s
    }
}

/// A count written in decimal, with an optional leading `+`, if it fits in
/// `usize`.
pub open spec fn parse_count(s: Seq<char>) -> Option<nat> {
    let d = count_digits(s);
    if d.len() > 0 && (forall|k: int| 0 <= k < d.len() ==> is_digit(#[trigger] d[k])) && digits_value(d)
        <= usize::MAX {
        Some(digits_value(d))
    } else {
        None
    }
}

pub open spec fn default_flags() -> Flags {
    Flags {
        output_mode: OutputMode::Matches,
        case_insensitive: false,
        whole_word: false,
        invert_match: false,
        before_context: 0,
        after_context: 0,
        only_matching: false,
        fixed_strings: false,
    }
}

/// The effect of a flag that takes no value, by its long name.
pub open spec fn long_switch(name: Seq<char>, f: Flags) -> Option<Flags> {
    if name == "count"@ {
        Some(Flags { output_mode: OutputMode::Count, ..f })
    } else if name == "files-with-matches"@ {
        Some(Flags { output_mode: OutputMode::Files, ..f })
    } else if name == "ignore-case"@ {
        Some(Flags { case_insensitive: true, ..f })
    } else if name == "word-regexp"@ {
        Some(Flags { whole_word: true, ..f })
    } else if name == "invert-match"@ {
        Some(Flags { invert_match: true, ..f })
    } else if name == "only-matching"@ {
        Some(Flags { only_matching: true, ..f })
    } else if name == "fixed-strings"@ {
        Some(Flags { fixed_strings: true, ..f })
    } else {
        None
    }
}

/// The effect of a flag that takes no value, by its letter.
pub open spec fn short_switch(c: char, f: Flags) -> Option<Flags> {
    if c == 'c' {
        Some(Flags { output_mode: OutputMode::Count, ..f })
    } else if c == 'l' {
        Some(Flags { output_mode: OutputMode::Files, ..f })
    } else if c == 'i' {
        Some(Flags { case_insensitive: true, ..f })
    } else if c == 'w' {
        Some(Flags { whole_word: true, ..f })
    } else if c == 'v' {
        Some(Flags { invert_match: true, ..f })
    } else if c == 'o' {
        Some(Flags { only_matching: true, ..f })
    } else if c == 'F' {
        Some(Flags { fixed_strings: true, ..f })
    } else {
        None
    }
}

/// Context sizes set by a flag with a value: which of before and after.
pub open spec fn set_context(f: Flags, before: bool, after: bool, v: nat) -> Flags {
    Flags {
        before_context: if before {
            v as usize
        } else {
            f.before_context
        },
        after_context: if after {
            v as usize
        } else {
            f.after_context
        },
        ..f
    }
}

/// Which context sizes a long flag with a value sets, by its name.
pub open spec fn long_context(name: Seq<char>) -> Option<(bool, bool)> {
    if name == "after-context"@ {
        Some((false, true))
    } else if name == "before-context"@ {
        Some((true, false))
    } else if name == "context"@ {
        Some((true, true))
    } else {
        None
    }
}

/// Which context sizes a letter with a value sets.
pub open spec fn short_context(c: char) -> Option<(bool, bool)> {
    if c == 'A' {
        Some((false, true))
    } else if c == 'B' {
        Some((true, false))
    } else if c == 'C' {
        Some((true, true))
    } else {
        None
    }
}

/// The letters of the bundle `short` (argument `i`) from index `j` on: the
/// flags they leave, and whether the next argument was taken as a value.
pub open spec fn short_from(args: Seq<Seq<char>>, i: int, short: Seq<char>, j: int, f: Flags) -> Result<
    (Flags, bool),
    ArgsFault,
>
    decreases short.len() - j,
{
    if j < 0 || j >= short.len() {
        Ok((f, false))
    } else {
        let c = short[j];
        match short_switch(c, f) {
            Some(f2) => short_from(args, i, short, j + 1, f2),
            None => match short_context(c) {
                Some((b, a)) => {
                    let rest = short.subrange(j + 1, short.len() as int);
                    if rest.len() > 0 {
                        match parse_count(rest) {
                            Some(v) => Ok((set_context(f, b, a, v), false)),
                            None => Err(ArgsFault::UnexpectedArgument(rest)),
                        }
                    } else if i + 1 < args.len() {
                        match parse_count(args[i + 1]) {
                            Some(v) => Ok((set_context(f, b, a, v), true)),
                            None => Err(ArgsFault::UnexpectedArgument(args[i + 1])),
                        }
                    } else {
                        Err(ArgsFault::UnexpectedEOI)
                    }
                },
                None => Err(ArgsFault::UnexpectedArgument(args[i])),
            },
        }
    }
}

/// A flag with a long name (argument `i`): the flags it leaves, and whether
/// the next argument was taken as its value.
pub open spec fn long_step(args: Seq<Seq<char>>, i: int, name: Seq<char>, f: Flags) -> Result<(Flags, bool), ArgsFault> {
    match long_switch(name, f) {
        Some(f2) => Ok((f2, false)),
        None => match long_context(name) {
            Some((b, a)) => if i + 1 < args.len() {
                match parse_count(args[i + 1]) {
                    Some(v) => Ok((set_context(f, b, a, v), true)),
                    None => Err(ArgsFault::UnexpectedArgument(args[i + 1])),
                }
            } else {
                Err(ArgsFault::UnexpectedEOI)
            },
            None => Err(ArgsFault::UnexpectedArgument(args[i])),
        },
    }
}

/// Whether `arg` is a flag with a long name.
pub open spec fn is_long(arg: Seq<char>) -> bool {
    arg.len() >= 2 && arg[0] == '-' && arg[1] == '-'
}

/// Whether `arg` is a bundle of one-letter flags.
pub open spec fn is_short(arg: Seq<char>) -> bool {
    !is_long(arg) && arg.len() >= 1 && arg[0] == '-'
}

/// The arguments from index `i` on, given the flags and positional
/// arguments so far.
pub open spec fn parse_from(args: Seq<Seq<char>>, i: int, f: Flags, pos: Seq<Seq<char>>) -> Result<
    (Flags, Seq<Seq<char>>),
    ArgsFault,
>
    decreases args.len() + 1 - i,
{
    if i < 0 || i >= args.len() {
        Ok((f, pos))
    } else {
        let arg = args[i];
        let step = if is_long(arg) {
            long_step(args, i, arg.skip(2), f)
        } else if is_short(arg) {
            short_from(args, i, arg.skip(1), 0, f)
        } else {
            Ok((f, false))
        };
        match step {
            Err(e) => Err(e),
            Ok((f2, took)) => parse_from(
                args,
                if took {
                    i + 2
                } else {
                    i + 1
                },
                f2,
                if is_long(arg) || is_short(arg) {
                    pos
                } else {
                    pos.push(arg)
                },
            ),
        }
    }
}

/// What the command line `args` means: the flags, the pattern and the
/// path, or the first error.
pub open spec fn parse_spec(args: Seq<Seq<char>>) -> Result<(Flags, Seq<char>, Option<Seq<char>>), ArgsFault> {
    match parse_from(args, 0, default_flags(), Seq::empty()) {
        Err(e) => Err(e),
        Ok((f, pos)) => if pos.len() == 0 {
            Err(ArgsFault::MissingPattern)
        } else if pos.len() > 2 {
            Err(ArgsFault::UnexpectedArgument(pos[2]))
        } else {
            Ok((f, pos[0], if pos.len() == 2 {
                Some(pos[1])
            } else {
                None
            }))
        },
    }
}

/// The flags held by parsed arguments.
pub open spec fn flags_of(a: Args) -> Flags {
    Flags {
        output_mode: a.output_mode,
        case_insensitive: a.case_insensitive,
        whole_word: a.whole_word,
        invert_match: a.invert_match,
        before_context: a.before_context,
        after_context: a.after_context,
        only_matching: a.only_matching,
        fixed_strings: a.fixed_strings,
    }
}

pub open spec fn views(args: Seq<String>) -> Seq<Seq<char>> {
    Seq::new(args.len(), |i: int| args[i]@)
}

/// Whether `s` spells `lit`.
fn spells(s: &Vec<char>, lit: &str) -> (r: bool)
    ensures
        r == (s@ == lit@),
{
    let l = chars_of(lit);
    if s.len() != l.len() {
        return false;
    }
    let mut i: usize = 0;
    while i < s.len()
        invariant
            s@.len() == l@.len(),
            l@ == lit@,
            i <= s@.len(),
            forall|k: int| 0 <= k < i ==> s@[k] == l@[k],
        decreases s@.len() - i,
    {
        if s[i] != l[i] {
            return false;
        }
        i = i + 1;
    }
    assert(s@ =~= l@);
    true
}

/// The number `value` spells in decimal, if it is a valid count.
pub fn parse_usize(value: String) -> (r: Result<usize, ArgsError>)
    ensures
        match parse_count(value@) {
            Some(v) => r == Ok::<usize, ArgsError>(v as usize),
            None => r matches Err(e) && fault_of(e) == ArgsFault::UnexpectedArgument(value@),
        },
{
    let s = chars_of(value.as_str());
    let start: usize = if s.len() > 1 && s[0] == '+' {
        1
    } else {
        0
    };
    let ghost d = count_digits(value@);
    proof {
        assert(d =~= s@.subrange(start as int, s@.len() as int));
    }
    if start >= s.len() {
        proof {
            assert(d.len() == 0);
            assert(parse_count(value@) is None);
        }
        return Err(ArgsError::unexpected(value));
    }
    let mut n: usize = 0;
    let mut i: usize = start;
    while i < s.len()
        invariant
            start <= i <= s@.len(),
            d == s@.subrange(start as int, s@.len() as int),
            d == count_digits(value@),
            s@ == value@,
            forall|k: int| start <= k < i ==> is_digit(#[trigger] s@[k]),
            n == digits_value(s@.subrange(start as int, i as int)),
        decreases s@.len() - i,
    {
        let c = s[i];
        if !('0' <= c && c <= '9') {
            proof {
                assert(d[i - start] == s@[i as int]);
                assert(!is_digit(d[i - start]));
                assert(!(forall|k: int| 0 <= k < d.len() ==> is_digit(#[trigger] d[k])));
                assert(parse_count(value@) is None);
            }
            return Err(ArgsError::unexpected(value));
        }
        let digit = (c as u32 - '0' as u32) as usize;
        proof {
            assert(s@.subrange(start as int, i + 1).drop_last() =~= s@.subrange(start as int, i as int));
        }
        let next = match n.checked_mul(10) {
            Some(m) => m.checked_add(digit),
            None => None,
        };
        match next {
            Some(m) => {
                n = m;
            },
            None => {
                proof {
                    assert(digits_value(s@.subrange(start as int, i + 1)) > usize::MAX);
                    assert(d.take(i - start + 1) =~= s@.subrange(start as int, i + 1));
                    if forall|k: int| 0 <= k < d.len() ==> is_digit(#[trigger] d[k]) {
                        lemma_digits_value_grows(d, i - start + 1);
                    }
                    assert(parse_count(value@) is None);
                }
                return Err(ArgsError::unexpected(value));
            },
        }
        i = i + 1;
    }
    proof {
        assert(s@.subrange(start as int, s@.len() as int) =~= d);
        assert forall|k: int| 0 <= k < d.len() implies is_digit(#[trigger] d[k]) by {
            assert(d[k] == s@[start + k]);
        }
    }
    Ok(n)
}

/// A prefix of digits never stands for more than all of them.
proof fn lemma_digits_value_grows(d: Seq<char>, m: int)
    requires
        0 <= m <= d.len(),
        forall|k: int| 0 <= k < d.len() ==> is_digit(#[trigger] d[k]),
    ensures
        digits_value(d.take(m)) <= digits_value(d),
    decreases d.len() - m,
{
    if m < d.len() {
        lemma_digits_value_grows(d, m + 1);
        assert(d.take(m + 1).drop_last() =~= d.take(m));
    } else {
        assert(d.take(m) =~= d);
    }
}

/// The argument after index `i`, if there is one.
fn next_arg(args: &Vec<String>, i: usize) -> (r: Result<String, ArgsError>)
    requires
        i < args.len(),
    ensures
        i + 1 < args@.len() ==> (r matches Ok(s) && s@ == args@[i + 1]@),
        !(i + 1 < args@.len()) ==> (r matches Err(e) && fault_of(e) == ArgsFault::UnexpectedEOI),
{
    if i + 1 < args.len() {
        Ok(args[i + 1].clone())
    } else {
        Err(ArgsError::eoi())
    }
}

/// The value of the letter at index `j` of the bundle `short` (argument
/// `i`): the rest of the bundle, or else the next argument.
fn short_flag_value(short: &Vec<char>, j: usize, args: &Vec<String>, i: usize) -> (r: (Result<String, ArgsError>, bool))
    requires
        j < short.len(),
        i < args.len(),
    ensures
        ({
            let rest = short@.subrange(j + 1, short@.len() as int);
            if rest.len() > 0 {
                r.0 matches Ok(s) && s@ == rest && !r.1
            } else {
                &&& r.1
                &&& i + 1 < args@.len() ==> (r.0 matches Ok(s) && s@ == args@[i + 1]@)
                &&& !(i + 1 < args@.len()) ==> (r.0 matches Err(e) && fault_of(e) == ArgsFault::UnexpectedEOI)
            }
        }),
{
    if j + 1 < short.len() {
        let mut rest = String::new();
        let mut k = j + 1;
        while k < short.len()
            invariant
                j + 1 <= k <= short@.len(),
                rest@ == short@.subrange(j + 1, k as int),
            decreases short@.len() - k,
        {
            rest.push(short[k]);
            k = k + 1;
            assert(rest@ =~= short@.subrange(j + 1, k as int));
        }
        (Ok(rest), false)
    } else {
        (next_arg(args, i), true)
    }
}

/// Applies the flag with the long name `name` (argument `i`); tells whether
/// the next argument was taken as its value.
fn parse_long(args: &Vec<String>, i: usize, name: &Vec<char>, f: &mut Flags) -> (r: Result<bool, ArgsError>)
    requires
        i < args@.len(),
    ensures
        match long_step(views(args@), i as int, name@, *old(f)) {
            Ok((f2, took)) => r == Ok::<bool, ArgsError>(took) && *final(f) == f2,
            Err(e) => r matches Err(err) && fault_of(err) == e,
        },
        r == Ok::<bool, ArgsError>(true) ==> i + 1 < args@.len(),
{
    let ghost av = views(args@);
    proof {
        reveal_strlit("after-context");
        reveal_strlit("before-context");
        reveal_strlit("context");
    }
    if spells(name, "count") {
        f.output_mode = OutputMode::Count;
    } else if spells(name, "files-with-matches") {
        f.output_mode = OutputMode::Files;
    } else if spells(name, "ignore-case") {
        f.case_insensitive = true;
    } else if spells(name, "word-regexp") {
        f.whole_word = true;
    } else if spells(name, "invert-match") {
        f.invert_match = true;
    } else if spells(name, "only-matching") {
        f.only_matching = true;
    } else if spells(name, "fixed-strings") {
        f.fixed_strings = true;
    } else {
        let after = spells(name, "after-context");
        let before = spells(name, "before-context");
        let both = spells(name, "context");
        if after || before || both {
            let next = match next_arg(args, i) {
                Ok(s) => s,
                Err(e) => return Err(e),
            };
            proof {
                assert(av[i + 1] == args@[i + 1]@);
                assert(next@ == av[i + 1]);
            }
            let ghost next_chars = next@;
            let v = match parse_usize(next) {
                Ok(v) => v,
                Err(e) => return Err(e),
            };
            proof {
                assert(parse_count(next_chars) == Some(v as nat));
                assert("after-context"@.len() == 13);
                assert("before-context"@.len() == 14);
                assert(after ==> !before && !both);
                assert(before ==> !after && !both);
            }
            if after || both {
                f.after_context = v;
            }
            if before || both {
                f.before_context = v;
            }
            return Ok(true);
        }
        proof {
            assert(args@[i as int]@ == av[i as int]);
        }
        return Err(ArgsError::unexpected(args[i].clone()));
    }
    Ok(false)
}

/// Applies the bundle of one-letter flags `short` (argument `i`); tells
/// whether the next argument was taken as a value.
fn parse_short(args: &Vec<String>, i: usize, short: &Vec<char>, f: &mut Flags) -> (r: Result<bool, ArgsError>)
    requires
        i < args@.len(),
    ensures
        match short_from(views(args@), i as int, short@, 0, *old(f)) {
            Ok((f2, took)) => r == Ok::<bool, ArgsError>(took) && *final(f) == f2,
            Err(e) => r matches Err(err) && fault_of(err) == e,
        },
        r == Ok::<bool, ArgsError>(true) ==> i + 1 < args@.len(),
{
    let ghost av = views(args@);
    let ghost f0 = *f;
    let mut j: usize = 0;
    while j < short.len()
        invariant
            i < args@.len(),
            av == views(args@),
            f0 == *old(f),
            j <= short@.len(),
            short_from(av, i as int, short@, 0, f0) == short_from(av, i as int, short@, j as int, *f),
        decreases short@.len() - j,
    {
        let c = short[j];
        if c == 'c' {
            f.output_mode = OutputMode::Count;
        } else if c == 'l' {
            f.output_mode = OutputMode::Files;
        } else if c == 'i' {
            f.case_insensitive = true;
        } else if c == 'w' {
            f.whole_word = true;
        } else if c == 'v' {
            f.invert_match = true;
        } else if c == 'o' {
            f.only_matching = true;
        } else if c == 'F' {
            f.fixed_strings = true;
        } else if c == 'A' || c == 'B' || c == 'C' {
            let (value, taken) = short_flag_value(short, j, args, i);
            let ghost rest = short@.subrange(j + 1, short@.len() as int);
            proof {
                assert(short_switch(c, *f) is None);
                assert(short_context(c) is Some);
                if rest.len() == 0 && i + 1 < args@.len() {
                    assert(av[i + 1] == args@[i + 1]@);
                }
            }
            let value = match value {
                Ok(s) => s,
                Err(e) => {
                    proof {
                        assert(rest.len() == 0 && !(i + 1 < args@.len()));
                        assert(short_from(av, i as int, short@, j as int, *f) == Err::<(Flags, bool), ArgsFault>(
                            ArgsFault::UnexpectedEOI,
                        ));
                        assert(short_from(av, i as int, short@, 0, f0) == Err::<(Flags, bool), ArgsFault>(
                            ArgsFault::UnexpectedEOI,
                        ));

                    }
                    return Err(e);
                },
            };
            let ghost value_chars = value@;
            proof {
                if rest.len() > 0 {
                    assert(value_chars == rest);
                } else {
                    assert(value_chars == av[i + 1]);
                }
            }
            let v = match parse_usize(value) {
                Ok(v) => v,
                Err(e) => {
                    proof {
                        assert(parse_count(value_chars) is None);
                        assert(short_from(av, i as int, short@, j as int, *f) == Err::<(Flags, bool), ArgsFault>(
                            ArgsFault::UnexpectedArgument(value_chars),
                        ));
                    }
                    return Err(e);
                },
            };
            if c == 'A' || c == 'C' {
                f.after_context = v;
            }
            if c == 'B' || c == 'C' {
                f.before_context = v;
            }
            return Ok(taken);
        } else {
            proof {
                assert(args@[i as int]@ == av[i as int]);
                assert(short_switch(c, *f) is None);
                assert(short_context(c) is None);
            }
            return Err(ArgsError::unexpected(args[i].clone()));
        }
        j = j + 1;
    }
    Ok(false)
}

/// Parses the command line (program name left out).
pub fn parse(args: &Vec<String>) -> (r: Result<Args, ArgsError>)
    ensures
        match parse_spec(views(args@)) {
            Ok((f, pattern, path)) => r matches Ok(a) && flags_of(a) == f && a.pattern@ == pattern && a.patterns@.len()
                == 1 && a.patterns@[0]@ == pattern && a.threads_count is None && match path {
                Some(p) => a.path matches Some(q) && q@ == p,
                None => a.path is None,
            },
            Err(e) => r matches Err(err) && fault_of(err) == e,
        },
{
    let ghost av = views(args@);
    let mut positionals: Vec<String> = Vec::new();
    let mut f = Flags {
        output_mode: OutputMode::Matches,
        case_insensitive: false,
        whole_word: false,
        invert_match: false,
        before_context: 0,
        after_context: 0,
        only_matching: false,
        fixed_strings: false,
    };
    let mut i: usize = 0;
    proof {
        assert(views(positionals@) =~= Seq::<Seq<char>>::empty());
    }
    while i < args.len()
        invariant
            av == views(args@),
            i <= args@.len(),
            parse_from(av, 0, default_flags(), Seq::empty()) == parse_from(av, i as int, f, views(positionals@)),
        decreases args@.len() - i,
    {
        let arg = chars_of(args[i].as_str());
        let ghost pos0 = views(positionals@);
        let ghost f0 = f;
        proof {
            assert(arg@ == av[i as int]);
        }
        if arg.len() >= 2 && arg[0] == '-' && arg[1] == '-' {
            let mut name: Vec<char> = Vec::new();
            let mut k: usize = 2;
            while k < arg.len()
                invariant
                    2 <= k <= arg@.len(),
                    name@ == arg@.subrange(2, k as int),
                decreases arg@.len() - k,
            {
                name.push(arg[k]);
                k = k + 1;
                assert(name@ =~= arg@.subrange(2, k as int));
            }
            proof {
                assert(name@ =~= arg@.skip(2));
            }
            let took = match parse_long(args, i, &name, &mut f) {
                Ok(t) => t,
                Err(e) => return Err(e),
            };
            i = if took {
                i + 2
            } else {
                i + 1
            };
        } else if arg.len() >= 1 && arg[0] == '-' {
            let mut short: Vec<char> = Vec::new();
            let mut k: usize = 1;
            while k < arg.len()
                invariant
                    1 <= k <= arg@.len(),
                    short@ == arg@.subrange(1, k as int),
                decreases arg@.len() - k,
            {
                short.push(arg[k]);
                k = k + 1;
                assert(short@ =~= arg@.subrange(1, k as int));
            }
            proof {
                assert(short@ =~= arg@.skip(1));
            }
            let took = match parse_short(args, i, &short, &mut f) {
                Ok(t) => t,
                Err(e) => return Err(e),
            };
            i = if took {
                i + 2
            } else {
                i + 1
            };
        } else {
            positionals.push(args[i].clone());
            proof {
                assert(views(positionals@) =~= pos0.push(av[i as int]));
            }
            i = i + 1;
        }
    }
    let n = positionals.len();
    if n == 0 {
        return Err(ArgsError::missing_pattern());
    }
    if n > 2 {
        return Err(ArgsError::unexpected(positionals[2].clone()));
    }
    let pattern = positionals[0].clone();
    let path = if n == 2 {
        Some(positionals[1].clone())
    } else {
        None
    };
    let mut patterns: Vec<String> = Vec::new();
    patterns.push(pattern.clone());
    Ok(
        Args {
            pattern,
            patterns,
            path,
            output_mode: f.output_mode,
            case_insensitive: f.case_insensitive,
            whole_word: f.whole_word,
            invert_match: f.invert_match,
            before_context: f.before_context,
            after_context: f.after_context,
            only_matching: f.only_matching,
            fixed_strings: f.fixed_strings,
            threads_count: None,
        },
    )
}

/// Every argument that reads as a flag is one that takes no value: a known
/// long name, or `-` and letters that each stand for such a flag.
pub open spec fn only_switches(args: Seq<Seq<char>>) -> bool {
    forall|i: int| 0 <= i < args.len() ==> switch_arg(#[trigger] args[i])
}

pub open spec fn switch_arg(arg: Seq<char>) -> bool {
    &&& is_long(arg) ==> long_switch(arg.skip(2), default_flags()) is Some
    &&& is_short(arg) ==> forall|j: int| 1 <= j < arg.len() ==> short_switch(#[trigger] arg[j], default_flags()) is Some
}

/// The arguments from index `i` on that do not read as flags, in order.
pub open spec fn positionals_from(args: Seq<Seq<char>>, i: int) -> Seq<Seq<char>>
    decreases args.len() - i,
{
    if i < 0 || i >= args.len() {
        Seq::empty()
    } else {
        (if is_long(args[i]) || is_short(args[i]) {
            Seq::empty()
        } else {
            seq![args[i]]
        }) + positionals_from(args, i + 1)
    }
}

/// The output mode a letter chooses, if it chooses one.
pub open spec fn letter_modes(c: char) -> Seq<OutputMode> {
    if c == 'c' {
        seq![OutputMode::Count]
    } else if c == 'l' {
        seq![OutputMode::Files]
    } else {
        Seq::empty()
    }
}

/// The output modes the letters of `short` from index `j` on choose, in order.
pub open spec fn bundle_modes(short: Seq<char>, j: int) -> Seq<OutputMode>
    decreases short.len() - j,
{
    if j < 0 || j >= short.len() {
        Seq::empty()
    } else {
        letter_modes(short[j]) + bundle_modes(short, j + 1)
    }
}

/// The output modes one argument chooses, in order.
pub open spec fn arg_modes(arg: Seq<char>) -> Seq<OutputMode> {
    if is_long(arg) {
        if arg.skip(2) == "count"@ {
            seq![OutputMode::Count]
        } else if arg.skip(2) == "files-with-matches"@ {
            seq![OutputMode::Files]
        } else {
            Seq::empty()
        }
    } else if is_short(arg) {
        bundle_modes(arg.skip(1), 0)
    } else {
        Seq::empty()
    }
}

/// The output modes the arguments from index `i` on choose, in order.
pub open spec fn modes_from(args: Seq<Seq<char>>, i: int) -> Seq<OutputMode>
    decreases args.len() - i,
{
    if i < 0 || i >= args.len() {
        Seq::empty()
    } else {
        arg_modes(args[i]) + modes_from(args, i + 1)
    }
}

/// The last of `ms`, or `d` when there is none.
pub open spec fn last_or(ms: Seq<OutputMode>, d: OutputMode) -> OutputMode {
    if ms.len() == 0 {
        d
    } else {
        ms.last()
    }
}

proof fn lemma_last_or_concat(a: Seq<OutputMode>, b: Seq<OutputMode>, d: OutputMode)
    ensures
        last_or(a + b, d) == last_or(b, last_or(a, d)),
{
    if b.len() == 0 {
        assert(a + b =~= a);
    } else {
        assert((a + b).last() == b.last());
    }
}

proof fn lemma_bundle(args: Seq<Seq<char>>, i: int, short: Seq<char>, j: int, f: Flags)
    requires
        0 <= j <= short.len(),
        forall|jj: int| j <= jj < short.len() ==> short_switch(#[trigger] short[jj], default_flags()) is Some,
    ensures
        short_from(args, i, short, j, f) matches Ok((f2, took)) && !took && f2.output_mode == last_or(
            bundle_modes(short, j),
            f.output_mode,
        ),
    decreases short.len() - j,
{
    if j < short.len() {
        let c = short[j];
        let f2 = short_switch(c, f)->Some_0;
        lemma_bundle(args, i, short, j + 1, f2);
        lemma_last_or_concat(letter_modes(c), bundle_modes(short, j + 1), f.output_mode);
    }
}

proof fn lemma_parse_switches(args: Seq<Seq<char>>, i: int, f: Flags, pos: Seq<Seq<char>>)
    requires
        only_switches(args),
        0 <= i <= args.len(),
    ensures
        parse_from(args, i, f, pos) matches Ok((f2, pos2)) && pos2 == pos + positionals_from(args, i)
            && f2.output_mode == last_or(modes_from(args, i), f.output_mode),
    decreases args.len() - i,
{
    if i == args.len() {
        assert(pos + positionals_from(args, i) =~= pos);
    } else {
        let arg = args[i];
        assert(switch_arg(arg));
        if is_long(arg) {
            let f2 = long_switch(arg.skip(2), f)->Some_0;
            lemma_parse_switches(args, i + 1, f2, pos);
            lemma_last_or_concat(arg_modes(arg), modes_from(args, i + 1), f.output_mode);
            assert(pos + positionals_from(args, i) =~= pos + positionals_from(args, i + 1));
        } else if is_short(arg) {
            let short = arg.skip(1);
            assert forall|jj: int| 0 <= jj < short.len() implies short_switch(#[trigger] short[jj], default_flags()) is Some by {
                assert(short[jj] == arg[jj + 1]);
            }
            lemma_bundle(args, i, short, 0, f);
            let f2 = short_from(args, i, short, 0, f)->Ok_0.0;
            lemma_parse_switches(args, i + 1, f2, pos);
            lemma_last_or_concat(arg_modes(arg), modes_from(args, i + 1), f.output_mode);
            assert(pos + positionals_from(args, i) =~= pos + positionals_from(args, i + 1));
        } else {
            lemma_parse_switches(args, i + 1, f, pos.push(arg));
            lemma_last_or_concat(arg_modes(arg), modes_from(args, i + 1), f.output_mode);
            assert(pos.push(arg) + positionals_from(args, i + 1) =~= pos + positionals_from(args, i));
        }
    }
}

/// When every flag takes no value, the arguments that are not flags decide
/// the outcome: none is a missing pattern, a third one is unexpected, and
/// otherwise the first is the pattern and the second, if any, the path.
pub proof fn lemma_positionals_decide(args: Seq<Seq<char>>)
    requires
        only_switches(args),
    ensures
        ({
            let p = positionals_from(args, 0);
            &&& p.len() == 0 ==> parse_spec(args) == Err::<(Flags, Seq<char>, Option<Seq<char>>), ArgsFault>(
                ArgsFault::MissingPattern,
            )
            &&& p.len() >= 3 ==> parse_spec(args) == Err::<(Flags, Seq<char>, Option<Seq<char>>), ArgsFault>(
                ArgsFault::UnexpectedArgument(p[2]),
            )
            &&& 1 <= p.len() <= 2 ==> (parse_spec(args) matches Ok((_, pattern, path)) && pattern == p[0] && path == (
            if p.len() == 2 {
                Some(p[1])
            } else {
                None
            }))
        }),
{
    lemma_parse_switches(args, 0, default_flags(), Seq::empty());
    assert(Seq::<Seq<char>>::empty() + positionals_from(args, 0) =~= positionals_from(args, 0));
}

/// When every flag takes no value and the arguments are accepted, the output
/// mode is the one the last `-c`, `-l`, `--count` or `--files-with-matches`
/// chooses (each bundle of letters read left to right), or printing the
/// matches when there is none.
pub proof fn lemma_last_mode_wins(args: Seq<Seq<char>>)
    requires
        only_switches(args),
    ensures
        parse_spec(args) is Ok ==> parse_spec(args)->Ok_0.0.output_mode == last_or(modes_from(args, 0), OutputMode::Matches),
{
    lemma_parse_switches(args, 0, default_flags(), Seq::empty());
}

/// The decimal digits of `n` are digits, and they stand for `n`.
proof fn lemma_decimal_digits(n: nat)
    ensures
        decimal(n).len() > 0,
        forall|k: int| 0 <= k < decimal(n).len() ==> is_digit(#[trigger] decimal(n)[k]),
        digits_value(decimal(n)) == n,
    decreases n,
{
    let d = digit_char(n % 10);
    assert(('0' as u32) + n % 10 < 0xD800);
    assert(d as u32 == ('0' as u32) + n % 10);
    if n >= 10 {
        lemma_decimal_digits(n / 10);
        let s = decimal(n / 10).push(d);
        assert(s.drop_last() =~= decimal(n / 10));
        assert forall|k: int| 0 <= k < s.len() implies is_digit(#[trigger] s[k]) by {
            if k < s.len() - 1 {
                assert(s[k] == decimal(n / 10)[k]);
            }
        }
        assert(digits_value(s) == (n / 10) * 10 + n % 10);
        assert((n / 10) * 10 + n % 10 == n) by (nonlinear_arith);
    } else {
        assert(seq![d].drop_last() =~= Seq::<char>::empty());
        assert(seq![d].last() == d);
        assert(digits_value(seq![d]) == digits_value(Seq::<char>::empty()) * 10 + ((d as u32) - ('0' as u32)) as nat);
    }
}

/// A count written in decimal reads back as the number written: counts are
/// decimal numbers, most significant digit first.
pub proof fn lemma_count_reads_decimal(n: nat)
    requires
        n <= usize::MAX,
    ensures
        parse_count(decimal(n)) == Some(n),
{
    lemma_decimal_digits(n);
    assert(is_digit(decimal(n)[0]));
}

/// Writing one more digit after a count multiplies the count by ten and adds
/// the digit, while the result fits.
pub proof fn lemma_count_digit_appended(d: Seq<char>, c: char)
    requires
        parse_count(d) is Some,
        d[0] != '+',
        is_digit(c),
        parse_count(d)->Some_0 * 10 + (c as u32 - '0' as u32) <= usize::MAX,
    ensures
        parse_count(d.push(c)) == Some((parse_count(d)->Some_0 * 10 + (c as u32 - '0' as u32)) as nat),
{
    let e = d.push(c);
    assert(count_digits(d) == d);
    assert(e.drop_last() =~= d);
    assert(e[0] == d[0]);
    assert(count_digits(e) == e);
    assert forall|k: int| 0 <= k < e.len() implies is_digit(#[trigger] e[k]) by {
        if k < d.len() {
            assert(e[k] == d[k]);
            assert(is_digit(d[k]));
        }
    }
}

/// A leading `+` before the digits of a count changes nothing.
pub proof fn lemma_count_plus_sign(d: Seq<char>)
    requires
        d.len() > 0,
        forall|k: int| 0 <= k < d.len() ==> is_digit(#[trigger] d[k]),
    ensures
        parse_count(seq!['+'] + d) == parse_count(d),
{
    assert((seq!['+'] + d).drop_first() =~= d);
    assert(is_digit(d[0]));
}

} // verus!
