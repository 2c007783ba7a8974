//! # process
//!
//! Working with external commands: the words of a command line, and what a
//! command that has run leaves behind.

use vstd::prelude::*;

verus! {

/// What `shlex::split` makes of the command line `cmd`: its words, as a POSIX
/// shell would split them, or `None` where a quotation or an escape is left open.
pub uninterp spec fn shell_words(cmd: Seq<char>) -> Option<Seq<Seq<char>>>;

/// The characters that `char::is_whitespace` of std counts as white space.
pub uninterp spec fn is_white_space(c: char) -> bool;

/// The texts that the strings of `words` hold.
pub open spec fn texts_of(words: Seq<String>) -> Seq<Seq<char>> {
    Seq::new(words.len(), |i: int| words[i]@)
}

/// Stores process information: exit code, stdout, stderr.
#[derive(Debug)]
pub struct ProcStat {
    pub exit_code: i32,
    pub stdout: String,
    pub stderr: String,
}

/// A command line in parts: the program and its arguments.
#[derive(Debug)]
pub struct CommandLine {
    pub program: String,
    pub args: Vec<String>,
}

/// `t` is `s` without the white space at its end.
pub open spec fn is_trimmed_end_of(t: Seq<char>, s: Seq<char>) -> bool {
    &&& t.len() <= s.len()
    &&& t == s.take(t.len() as int)
    &&& forall|i: int| t.len() <= i < s.len() ==> is_white_space(#[trigger] s[i])
    &&& t.len() > 0 ==> !is_white_space(t.last())
}

/// `shlex::split` of the shlex crate. What it returns depends on the line
/// alone; the contract gives it the name `shell_words` and says no more of it.
#[verifier::external_body]
fn split_words(cmd: &str) -> (r: Option<Vec<String>>)
    ensures
        match r {
            Some(words) => shell_words(cmd@) == Some(texts_of(words@)),
            None => shell_words(cmd@).is_none(),
        },
{
    shlex::split(cmd)
}

/// `str::trim_end` of std: the text without the white space at its end, white
/// space being what `char::is_whitespace` counts as such. The contract says
/// that the result is the beginning of the text, that only white space was
/// left off, and that the result does not end in white space.
#[verifier::external_body]
fn trim_end_of(s: &str) -> (r: &str)
    ensures
        r@.len() <= s@.len(),
        r@ == s@.take(r@.len() as int),
        forall|i: int| r@.len() <= i < s@.len() ==> is_white_space(#[trigger] s@[i]),
        r@.len() > 0 ==> !is_white_space(r@.last()),
{
    s.trim_end()
}

impl ProcStat {
    /// Returns a copy of the output.
    ///
    /// Use it if you want to avoid value moving.
    pub fn output(&self) -> (r: String)
        ensures
            r@ == self.stdout@,
    {
        self.stdout.clone()
    }

    /// Trims the trailing whitespaces from the output.
    pub fn trimmed_output(&self) -> (r: String)
        ensures
            is_trimmed_end_of(r@, self.stdout@),
    {
        trim_end_of(self.stdout.as_str()).to_owned()
    }

    /// What a command that has ended leaves behind: `None` where it ended
    /// without an exit code.
    pub fn from_outcome(exit_code: Option<i32>, stdout: String, stderr: String) -> (r: Option<
        ProcStat,
    >)
        ensures
            match exit_code {
                Some(code) => r == Some(ProcStat { exit_code: code, stdout: stdout, stderr: stderr }),
                None => r.is_none(),
            },
    {
        match exit_code {
            Some(code) => Some(ProcStat { exit_code: code, stdout, stderr }),
            None => None,
        }
    }
}

impl CommandLine {
    /// The first of the words is the program, the others are its arguments;
    /// `None` where there is no word.
    pub fn from_words(words: Vec<String>) -> (r: Option<CommandLine>)
        ensures
            words@.len() == 0 ==> r.is_none(),
            words@.len() > 0 ==> r.is_some() && r.unwrap().program@ == words@[0]@ && texts_of(
                r.unwrap().args@,
            ) == texts_of(words@).skip(1),
    {
        if words.len() == 0 {
            return None;
        }
        let mut args: Vec<String> = Vec::new();
        let mut i: usize = 1;
        while i < words.len()
            invariant
                1 <= i <= words@.len(),
                args@.len() == i - 1,
                forall|k: int| 0 <= k < args@.len() ==> #[trigger] args@[k]@ == words@[k + 1]@,
            decreases words@.len() - i,
        {
            args.push(words[i].clone());
            i += 1;
        }
        let program = words[0].clone();
        assert(texts_of(args@) =~= texts_of(words@).skip(1));
        Some(CommandLine { program, args })
    }

    /// Splits a command line into the program and its arguments, as a POSIX
    /// shell would; `None` where the line cannot be split or holds no word.
    pub fn parse(cmd: &str) -> (r: Option<CommandLine>)
        ensures
            match shell_words(cmd@) {
                Some(words) if words.len() > 0 => r.is_some() && r.unwrap().program@ == words[0]
                    && texts_of(r.unwrap().args@) == words.skip(1),
                _ => r.is_none(),
            },
    {
        match split_words(cmd) {
            Some(words) => CommandLine::from_words(words),
            None => None,
        }
    }
}

} // verus!
