use vstd::prelude::*;
use crate::text::{ascii_lowercase, ascii_only, lowercase, push_str, str_eq, to_lowercase};

verus! {

/// The shells whose completion protocols are supported.
#[derive(Debug, Clone, Copy, PartialEq, Eq, Structural)]
pub enum Shell {
    Nushell,
    Zsh,
    Fish,
    Bash,
    Powershell,
}

/// The canonical name of a shell.
pub open spec fn shell_name(s: Shell) -> Seq<char> {
    match s {
        Shell::Nushell => "nushell"@,
        Shell::Zsh => "zsh"@,
        Shell::Fish => "fish"@,
        Shell::Bash => "bash"@,
        Shell::Powershell => "powershell"@,
    }
}

impl Shell {
    /// The canonical name of the shell.
    pub fn as_str(&self) -> (r: &'static str)
        ensures
            r@ == shell_name(*self),
    {
        match self {
            Shell::Nushell => "nushell",
            Shell::Zsh => "zsh",
            Shell::Fish => "fish",
            Shell::Bash => "bash",
            Shell::Powershell => "powershell",
        }
    }
}

} // verus!

verus! {

/// The shell a lower-case name stands for (`nu` and `pwsh` are accepted as short names).
pub open spec fn shell_for_name(n: Seq<char>) -> Option<Shell> {
    if n == "nushell"@ || n == "nu"@ {
        Some(Shell::Nushell)
    } else if n == "zsh"@ {
        Some(Shell::Zsh)
    } else if n == "fish"@ {
        Some(Shell::Fish)
    } else if n == "bash"@ {
        Some(Shell::Bash)
    } else if n == "powershell"@ || n == "pwsh"@ {
        Some(Shell::Powershell)
    } else {
        None
    }
}

/// The message for a shell name that is not supported.
pub open spec fn unsupported_shell_message(s: Seq<char>) -> Seq<char> {
    "Unsupported shell: '"@ + s + "'. Supported shells: nushell, zsh, fish, bash, powershell"@
}

/// The shell a lower-case name stands for.
pub fn shell_from_lowercase(n: &str) -> (r: Option<Shell>)
    ensures
        r == shell_for_name(n@),
{
    if str_eq(n, "nushell") || str_eq(n, "nu") {
        Some(Shell::Nushell)
    } else if str_eq(n, "zsh") {
        Some(Shell::Zsh)
    } else if str_eq(n, "fish") {
        Some(Shell::Fish)
    } else if str_eq(n, "bash") {
        Some(Shell::Bash)
    } else if str_eq(n, "powershell") || str_eq(n, "pwsh") {
        Some(Shell::Powershell)
    } else {
        None
    }
}

impl Shell {
    /// Parses a shell name, ignoring case: `nushell`/`nu`, `zsh`, `fish`, `bash`,
    /// `powershell`/`pwsh`.
    pub fn from_str(s: &str) -> (r: Result<Shell, String>)
        ensures
            match shell_for_name(lowercase(s@)) {
                Some(sh) => r == Ok::<Shell, String>(sh),
                None => r matches Err(m) && m@ == unsupported_shell_message(s@),
            },
            ascii_only(s@) ==> match shell_for_name(ascii_lowercase(s@)) {
                Some(sh) => r == Ok::<Shell, String>(sh),
                None => r matches Err(m) && m@ == unsupported_shell_message(s@),
            },
    {
        let lower = to_lowercase(s);
        match shell_from_lowercase(lower.as_str()) {
            Some(sh) => Ok(sh),
            None => {
                let mut m = String::from_str("Unsupported shell: '");
                push_str(&mut m, s);
                push_str(&mut m, "'. Supported shells: nushell, zsh, fish, bash, powershell");
                Err(m)
            },
        }
    }
}

/// Printing a shell's name and parsing it back gives the same shell: every canonical name is
/// plain ASCII in lower case, and it names its shell.
pub proof fn lemma_shell_name_round_trip(s: Shell)
    ensures
        ascii_only(shell_name(s)),
        ascii_lowercase(shell_name(s)) == shell_name(s),
        shell_for_name(shell_name(s)) == Some(s),
{
    reveal_strlit("nushell");
    reveal_strlit("zsh");
    reveal_strlit("fish");
    reveal_strlit("bash");
    reveal_strlit("powershell");
    reveal_strlit("nu");
    reveal_strlit("pwsh");
    assert(ascii_lowercase(shell_name(s)) =~= shell_name(s));
    match s {
        Shell::Nushell => {},
        Shell::Zsh => {
            assert("zsh"@[0] != "nushell"@[0]);
        },
        Shell::Fish => {
            assert("fish"@[0] != "nushell"@[0]);
            assert("fish"@[0] != "zsh"@[0]);
        },
        Shell::Bash => {
            assert("bash"@[0] != "nushell"@[0]);
            assert("bash"@[0] != "zsh"@[0]);
            assert("bash"@[0] != "fish"@[0]);
        },
        Shell::Powershell => {
            assert("powershell"@[0] != "nushell"@[0]);
            assert("powershell"@[0] != "zsh"@[0]);
            assert("powershell"@[0] != "fish"@[0]);
            assert("powershell"@[0] != "bash"@[0]);
        },
    }
}

} // verus!
