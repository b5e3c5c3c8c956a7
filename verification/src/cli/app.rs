//! The decisions of the program: which matcher the arguments ask for, which
//! paths to skip, and how a run ends.
use vstd::prelude::*;
use crate::cli::args::Args;
use crate::cli::error::AppError;
use crate::cli::gitignore::{GitignoreCache, file_name, ignored_after, levels};
use crate::cli::output::Output;
use crate::regex_engine::error::ParseError;
use crate::regex_engine::parser::spec_parse;
use crate::regex_engine::regex::{RegexBuilder, pattern_term};
use crate::search::line_match::LineMatch;
use crate::search::matcher::{LiteralMatcher, Matcher, MultiMatcher, fixed_finds, pattern_finds};
use crate::text::chars_of;

verus! {

/// How a run ended, which decides the exit status.
#[derive(Debug, Clone, Copy, PartialEq, Eq, Structural)]
pub enum RunOutcome {
    Matched,
    NoMatches,
    HadError,
}

/// The program's state: its arguments, its matcher, the ignore rules of the
/// tree it searches and its output.
pub struct App {
    args: Args,
    matcher: Box<dyn Matcher>,
    gitignore: GitignoreCache,
    output: Output,
}

/// `path` seen from `root`: what follows `root` and the separator after it
/// (a root that ends in a separator has it already), nothing when it is
/// `root` itself, and `path` unchanged when it is not under `root`.
pub open spec fn strip_root(path: Seq<char>, root: Seq<char>) -> Seq<char> {
    if root.len() == 0 {
        path
    } else if path == root {
        Seq::empty()
    } else if path.len() > root.len() && path.take(root.len() as int) == root && root.last() == '/' {
        path.skip(root.len() as int)
    } else if path.len() > root.len() && path.take(root.len() as int) == root && path[root.len() as int] == '/' {
        path.skip(root.len() + 1 as int)
    } else {
        path
    }
}

/// The characters of `path` from index `start` on.
fn suffix_from(path: &Vec<char>, start: usize) -> (r: String)
    requires
        start <= path@.len(),
    ensures
        r@ == path@.skip(start as int),
{
    let mut r = String::new();
    let mut m = start;
    while m < path.len()
        invariant
            start <= m <= path@.len(),
            r@ == path@.subrange(start as int, m as int),
        decreases path@.len() - m,
    {
        r.push(path[m]);
        m = m + 1;
        assert(r@ =~= path@.subrange(start as int, m as int));
    }
    assert(r@ =~= path@.skip(start as int));
    r
}

/// Whether the walk skips `path`: a directory named `.git`, or what the
/// ignore rules loaded so far ignore.
pub open spec fn skips(path: Seq<char>, is_dir: bool, root: Seq<char>, cache: GitignoreCache) -> bool {
    (is_dir && file_name(path) == seq!['.', 'g', 'i', 't']) || ignored_after(
        cache.loaded(),
        strip_root(path, root),
        is_dir,
        levels(strip_root(path, root)).len(),
    )
}

/// The outcome of a run: an error decides, then whether anything matched.
pub open spec fn outcome_of(had_error: bool, matched: bool) -> RunOutcome {
    if had_error {
        RunOutcome::HadError
    } else if matched {
        RunOutcome::Matched
    } else {
        RunOutcome::NoMatches
    }
}

fn strip_root_of(path: &Vec<char>, root: &Vec<char>) -> (r: String)
    ensures
        r@ == strip_root(path@, root@),
{
    if root.len() == 0 {
        return crate::text::string_of(path.as_slice());
    }
    let mut same_prefix = path.len() >= root.len();
    let mut k: usize = 0;
    while same_prefix && k < root.len()
        invariant
            k <= root@.len(),
            same_prefix ==> path@.len() >= root@.len(),
            same_prefix ==> forall|m: int| 0 <= m < k ==> path@[m] == root@[m],
            !same_prefix ==> !(path@.len() >= root@.len() && path@.take(root@.len() as int) == root@),
        decreases root@.len() - k,
    {
        if path[k] != root[k] {
            proof {
                if path@.take(root@.len() as int) == root@ {
                    assert(path@.take(root@.len() as int)[k as int] == path@[k as int]);
                }
            }
            same_prefix = false;
        }
        k = k + 1;
    }
    proof {
        if same_prefix {
            assert(path@.take(root@.len() as int) =~= root@);
        }
    }
    if same_prefix && path.len() == root.len() {
        proof {
            assert(path@ =~= root@);
        }
        return String::new();
    }
    if same_prefix && root[root.len() - 1] == '/' {
        proof {
            assert(path@ != root@);
        }
        return suffix_from(path, root.len());
    }
    if same_prefix && path[root.len()] == '/' {
        proof {
            assert(path@ != root@);
        }
        return suffix_from(path, root.len() + 1);
    }
    proof {
        if path@ == root@ {
            assert(path@.len() == root@.len());
            assert(path@.take(root@.len() as int) =~= path@);
        }
        if same_prefix {
            assert(path@.len() > root@.len());
        }
    }
    crate::text::string_of(path.as_slice())
}

impl App {
    pub closed spec fn arguments(&self) -> Args {
        self.args
    }

    pub closed spec fn out(&self) -> Output {
        self.output
    }

    pub closed spec fn ignores(&self) -> GitignoreCache {
        self.gitignore
    }

    pub fn new(args: Args, matcher: Box<dyn Matcher>, gitignore: GitignoreCache, output: Output) -> (r: Self)
        ensures
            r.arguments() == args,
            r.out() == output,
            r.ignores() == gitignore,
    {
        App { args, matcher, gitignore, output }
    }

    pub fn args(&self) -> (r: &Args)
        ensures
            *r == self.arguments(),
    {
        &self.args
    }

    /// What the matcher the program searches with may find in `t`.
    pub closed spec fn matcher_finds(&self, t: Seq<char>, x: Option<(int, int)>) -> bool {
        self.matcher.finds(t, x)
    }

    /// The matcher the program searches with.
    pub fn matcher(&self) -> (r: &Box<dyn Matcher>)
        ensures
            forall|t: Seq<char>, x: Option<(int, int)>| #[trigger] r.finds(t, x) == self.matcher_finds(t, x),
    {
        &self.matcher
    }

    pub fn output(&self) -> (r: &Output)
        ensures
            *r == self.out(),
    {
        &self.output
    }

    /// Prints the lines reported for the input named `path`.
    pub fn report(&mut self, matches: &Vec<LineMatch>, path: Option<&str>)
        requires
            old(self).out().mode_spec() == crate::cli::output::OutputMode::Matches ==> crate::cli::output::spans_fit(
                matches@,
            ),
        ensures
            ({
                let path_chars = match path {
                    Some(p) => Some(p@),
                    None => None,
                };
                let (more, printed) = old(self).out().report_text(matches@, path_chars);
                &&& final(self).out().printed() == old(self).out().printed() + more
                &&& final(self).out().header_printed() == printed
            }),
            final(self).out().has_matched() == (old(self).out().has_matched() || matches@.len() > 0),
            final(self).arguments() == old(self).arguments(),
            final(self).ignores() == old(self).ignores(),
    {
        self.output.report(matches, path);
    }

    /// Hands over what was printed so far.
    pub fn take_output(&mut self) -> (r: String)
        ensures
            r@ == old(self).out().printed(),
            final(self).out().printed() == Seq::<char>::empty(),
            final(self).out().has_matched() == old(self).out().has_matched(),
            final(self).arguments() == old(self).arguments(),
            final(self).ignores() == old(self).ignores(),
    {
        self.output.take_contents()
    }

    /// Keeps the ignore rules read for `dir`.
    pub fn load_gitignore(&mut self, dir: String, gitignore: crate::cli::gitignore::Gitignore)
        ensures
            final(self).ignores().loaded() == old(self).ignores().loaded().push((dir@, gitignore.rules())),
            final(self).ignores().root_dir() == old(self).ignores().root_dir(),
            final(self).arguments() == old(self).arguments(),
            final(self).out() == old(self).out(),
    {
        self.gitignore.insert(dir, gitignore);
    }

    pub fn gitignore(&self) -> (r: &GitignoreCache)
        ensures
            *r == self.ignores(),
    {
        &self.gitignore
    }

    /// How the run ends: with an error if there was one, else by whether
    /// anything matched.
    pub fn run_outcome(&self, had_error: bool) -> (r: RunOutcome)
        ensures
            r == outcome_of(had_error, self.out().has_matched()),
    {
        if had_error {
            RunOutcome::HadError
        } else if self.output.matched() {
            RunOutcome::Matched
        } else {
            RunOutcome::NoMatches
        }
    }

    /// Whether the walk of the tree under `root` skips `path`.
    pub fn should_skip_path(path: &str, is_dir: bool, root: &str, gitignore: &GitignoreCache) -> (r: bool)
        ensures
            r == skips(path@, is_dir, root@, *gitignore),
    {
        let p = chars_of(path);
        let name = crate::cli::gitignore::last_component_of(&p);
        let is_git = name.len() == 4 && name[0] == '.' && name[1] == 'g' && name[2] == 'i' && name[3] == 't';
        proof {
            if name@ == seq!['.', 'g', 'i', 't'] {
                assert(name@[3] == 't');
            }
            if is_git {
                assert(name@ =~= seq!['.', 'g', 'i', 't']);
            }
        }
        if is_dir && is_git {
            return true;
        }
        let r = chars_of(root);
        let relative = strip_root_of(&p, &r);
        gitignore.is_ignored(relative.as_str(), is_dir)
    }
}

/// `path` seen from `root`, as the ignore rules see it: the directories of
/// its result are those whose rules must be loaded before asking whether
/// the walk skips `path`.
pub fn relative_path(path: &str, root: &str) -> (r: String)
    ensures
        r@ == strip_root(path@, root@),
{
    let p = chars_of(path);
    let r = chars_of(root);
    strip_root_of(&p, &r)
}

/// What the matcher for `pattern` under the settings of `args` finds in
/// `t`: the first accepted occurrence of the fixed string, or the match of
/// the pattern that ends first and, of those, starts first.
#[verifier::opaque]
pub open spec fn pattern_matcher_finds(pattern: Seq<char>, args: Args, t: Seq<char>, x: Option<(int, int)>) -> bool {
    if args.fixed_strings {
        fixed_finds(pattern, args.case_insensitive, args.whole_word, t, x)
    } else {
        pattern_finds(pattern_term(spec_parse(pattern)->Ok_0, args.whole_word), args.case_insensitive, t, x)
    }
}

/// The matcher for one pattern: the fixed string itself, or the compiled
/// pattern; with the case and whole-word settings of the arguments.
pub fn build_matcher(pattern: &str, args: &Args) -> (r: Result<Box<dyn Matcher>, ParseError>)
    ensures
        args.fixed_strings ==> r is Ok,
        !args.fixed_strings ==> match spec_parse(pattern@) {
            Ok(_) => r is Ok,
            Err(e) => r matches Err(e2) && e2 == e,
        },
        r matches Ok(m) ==> forall|t: Seq<char>, x: Option<(int, int)>|
            #[trigger] m.finds(t, x) == pattern_matcher_finds(pattern@, *args, t, x),
{
    reveal(pattern_matcher_finds);
    if args.fixed_strings {
        let m = LiteralMatcher::new(pattern, args.case_insensitive, args.whole_word);
        let ghost gm = m;
        let r: Result<Box<dyn Matcher>, ParseError> = Ok(Box::new(m));
        assert(forall|t: Seq<char>, x: Option<(int, int)>| #[trigger] r->Ok_0.finds(t, x) == gm.finds(t, x));
        return r;
    }
    let built = RegexBuilder::new(String::from_str(pattern)).case_insensitive(args.case_insensitive).whole_word(
        args.whole_word,
    ).build();
    match built {
        Ok(re) => {
            let ghost gre = re;
            proof {
                assert(gre.pattern() == pattern_term(spec_parse(pattern@)->Ok_0, args.whole_word));
                assert(gre.ignores_case() == args.case_insensitive);
            }
            let r: Result<Box<dyn Matcher>, ParseError> = Ok(Box::new(re));
            assert(forall|t: Seq<char>, x: Option<(int, int)>| #[trigger] r->Ok_0.finds(t, x) == gre.finds(t, x));
            r
        },
        Err(e) => Err(e),
    }
}

/// Index of the first pattern that is not a valid pattern (fixed strings
/// are always valid), if any.
pub open spec fn first_bad(patterns: Seq<String>, fixed: bool, n: nat) -> Option<int>
    decreases n,
{
    if n == 0 || n > patterns.len() {
        None
    } else {
        match first_bad(patterns, fixed, (n - 1) as nat) {
            Some(i) => Some(i),
            None => if !fixed && spec_parse(patterns[n - 1]@) is Err {
                Some(n - 1)
            } else {
                None
            },
        }
    }
}

/// One matcher for all the patterns of the arguments: any of them may
/// match. Fails with the error of the first invalid pattern.
pub fn create_matcher_from_args(args: &Args) -> (r: Result<Box<dyn Matcher>, AppError>)
    ensures
        match first_bad(args.patterns@, args.fixed_strings, args.patterns@.len()) {
            None => r is Ok,
            Some(i) => r matches Err(e) && e == AppError::Pattern(spec_parse(args.patterns@[i]@)->Err_0),
        },
{
    let mut matchers: Vec<Box<dyn Matcher>> = Vec::new();
    let mut k: usize = 0;
    while k < args.patterns.len()
        invariant
            k <= args.patterns@.len(),
            first_bad(args.patterns@, args.fixed_strings, k as nat) is None,
        decreases args.patterns@.len() - k,
    {
        match build_matcher(args.patterns[k].as_str(), args) {
            Ok(m) => matchers.push(m),
            Err(e) => {
                proof {
                    assert(first_bad(args.patterns@, args.fixed_strings, (k + 1) as nat) == Some(k as int));
                    lemma_first_bad_stays(args.patterns@, args.fixed_strings, (k + 1) as nat, args.patterns@.len());
                }
                return Err(AppError::Pattern(e));
            },
        }
        k = k + 1;
    }
    Ok(Box::new(MultiMatcher::new(matchers)))
}

/// Once found, the first invalid pattern stays the first.
proof fn lemma_first_bad_stays(patterns: Seq<String>, fixed: bool, n: nat, m: nat)
    requires
        first_bad(patterns, fixed, n) is Some,
        n <= m <= patterns.len(),
    ensures
        first_bad(patterns, fixed, m) == first_bad(patterns, fixed, n),
    decreases m - n,
{
    if n < m {
        lemma_first_bad_stays(patterns, fixed, n, (m - 1) as nat);
    }
}

} // verus!

