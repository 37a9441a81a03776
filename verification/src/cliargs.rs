use vstd::prelude::*;
use crate::shell::{Shell, shell_for_name, unsupported_shell_message};
use crate::text::{lowercase, strings_view, str_eq};
use crate::version::{parse_u64, parse_u64_range};

verus! {

/// One argument of `sugg complete`, as the argument parser reports it.
pub enum ArgEvent {
    /// `--name` (a value attached with `=` is read with the next value request).
    Long(String),
    /// `-c`.
    Short(char),
    /// A positional value; after `--` every argument is one.
    Value(String),
}

/// An option whose value is read next.
#[derive(Debug, Clone, Copy, PartialEq, Eq, Structural)]
pub enum ValueSlot {
    CacheDir,
    MaxResults,
}

/// What the caller does after an argument.
#[derive(Debug, Clone, PartialEq, Eq)]
pub enum ArgStep {
    /// Read the next argument.
    Next,
    /// Read the option's value and hand it to [`CompleteArgs::on_value`].
    NeedValue(ValueSlot),
    /// Hand the whole command line to the engine, which prints the help.
    Help,
    /// The shell argument names no supported shell: print the message and exit with status 1.
    BadShell(String),
}

/// The arguments of `sugg complete <shell> [--cache-dir <dir>] [--max-results <n>] -- <words>`.
pub struct CompleteArgs {
    pub shell: Option<Shell>,
    pub cache_dir: Option<String>,
    pub input_words: Vec<String>,
    pub max_results: usize,
}

/// The value `usize::from_str` gives, where it gives one.
pub open spec fn parse_usize(s: Seq<char>) -> Option<usize> {
    match parse_u64(s) {
        Some(n) => if n <= usize::MAX {
            Some(n as usize)
        } else {
            None
        },
        None => None,
    }
}

/// Parses an unsigned size as `usize::from_str` does.
pub fn parse_usize_str(s: &str) -> (r: Option<usize>)
    ensures
        r == parse_usize(s@),
{
    let v = crate::text::chars_of(s);
    assert(v@.subrange(0, v@.len() as int) =~= v@);
    match parse_u64_range(&v, 0, v.len()) {
        Some(n) => if n <= usize::MAX as u64 {
            Some(n as usize)
        } else {
            None
        },
        None => None,
    }
}

impl CompleteArgs {
    /// No shell yet, no cache directory, no words, at most 50 results.
    pub fn new() -> (r: Self)
        ensures
            r.shell is None,
            r.cache_dir is None,
            r.input_words@.len() == 0,
            r.max_results == 50,
    {
        CompleteArgs { shell: None, cache_dir: None, input_words: Vec::new(), max_results: 50 }
    }

    /// Takes one argument: `--cache-dir` and `--max-results` ask for their value, `-h` and
    /// `--help` for the help, the first value names the shell and the others are the words
    /// to complete; other options are ignored.
    pub fn on_arg(&mut self, ev: ArgEvent) -> (r: ArgStep)
        ensures
            match ev {
                ArgEvent::Long(n) => if n@ == "cache-dir"@ {
                    r == ArgStep::NeedValue(ValueSlot::CacheDir) && *final(self) == *old(self)
                } else if n@ == "max-results"@ {
                    r == ArgStep::NeedValue(ValueSlot::MaxResults) && *final(self) == *old(self)
                } else if n@ == "help"@ {
                    r == ArgStep::Help && *final(self) == *old(self)
                } else {
                    r == ArgStep::Next && *final(self) == *old(self)
                },
                ArgEvent::Short(c) => if c == 'h' {
                    r == ArgStep::Help && *final(self) == *old(self)
                } else {
                    r == ArgStep::Next && *final(self) == *old(self)
                },
                ArgEvent::Value(v) => if old(self).shell is None {
                    match shell_for_name(lowercase(v@)) {
                        Some(sh) => r == ArgStep::Next && final(self).shell == Some(sh)
                            && final(self).cache_dir == old(self).cache_dir
                            && final(self).input_words == old(self).input_words
                            && final(self).max_results == old(self).max_results,
                        None => (r matches ArgStep::BadShell(m) && m@ == unsupported_shell_message(v@))
                            && *final(self) == *old(self),
                    }
                } else {
                    r == ArgStep::Next && final(self).input_words@ == old(self).input_words@.push(v)
                        && final(self).shell == old(self).shell
                        && final(self).cache_dir == old(self).cache_dir
                        && final(self).max_results == old(self).max_results
                },
            },
    {
        match ev {
            ArgEvent::Long(n) => {
                if str_eq(n.as_str(), "cache-dir") {
                    ArgStep::NeedValue(ValueSlot::CacheDir)
                } else if str_eq(n.as_str(), "max-results") {
                    ArgStep::NeedValue(ValueSlot::MaxResults)
                } else if str_eq(n.as_str(), "help") {
                    ArgStep::Help
                } else {
                    ArgStep::Next
                }
            },
            ArgEvent::Short(c) => {
                if c == 'h' {
                    ArgStep::Help
                } else {
                    ArgStep::Next
                }
            },
            ArgEvent::Value(v) => {
                if self.shell.is_none() {
                    match Shell::from_str(v.as_str()) {
                        Ok(sh) => {
                            self.shell = Some(sh);
                            ArgStep::Next
                        },
                        Err(m) => ArgStep::BadShell(m),
                    }
                } else {
                    self.input_words.push(v);
                    ArgStep::Next
                }
            },
        }
    }

    /// Takes the value of an option: the cache directory as given (none where it could not
    /// be read), the result limit where it is a number (else the limit stays).
    pub fn on_value(&mut self, slot: ValueSlot, value: Option<String>)
        ensures
            slot == ValueSlot::CacheDir ==> final(self).cache_dir == value && final(self).max_results == old(self).max_results,
            slot == ValueSlot::MaxResults ==> final(self).cache_dir == old(self).cache_dir && final(self).max_results == (match value {
                Some(v) => match parse_usize(v@) {
                    Some(n) => n,
                    None => old(self).max_results,
                },
                None => old(self).max_results,
            }),
            final(self).shell == old(self).shell,
            final(self).input_words == old(self).input_words,
    {
        match slot {
            ValueSlot::CacheDir => {
                self.cache_dir = value;
            },
            ValueSlot::MaxResults => {
                match value {
                    Some(v) => match parse_usize_str(v.as_str()) {
                        Some(n) => {
                            self.max_results = n;
                        },
                        None => {},
                    },
                    None => {},
                }
            },
        }
    }
}

/// The arguments after the program name with a leading `complete` left out.
pub fn skip_complete_word(args: Vec<String>) -> (r: Vec<String>)
    ensures
        strings_view(r@) == (if args@.len() > 0 && args@[0]@ == "complete"@ {
            strings_view(args@).drop_first()
        } else {
            strings_view(args@)
        }),
{
    if args.len() > 0 && str_eq(args[0].as_str(), "complete") {
        let ghost before = args@;
        let mut a = args;
        a.remove(0);
        assert(strings_view(a@) =~= strings_view(before).drop_first());
        a
    } else {
        args
    }
}

} // verus!
