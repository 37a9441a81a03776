use vstd::prelude::*;
use crate::text::{chars_of, concat, has_substring, push_str, replace_char, str_contains, str_eq, string_from_chars, trim, trim_chars};

verus! {

/// The line that puts a directory first on `PATH` in a POSIX shell profile.
pub open spec fn export_line(dir: Seq<char>) -> Seq<char> {
    "export PATH=\""@ + dir + ":$PATH\""@
}

/// The line that puts a directory first on `PATH` in a POSIX shell profile.
pub fn path_export_line(dir: &str) -> (r: String)
    ensures
        r@ == export_line(dir@),
{
    let mut s = concat("export PATH=\"", dir);
    push_str(&mut s, ":$PATH\"");
    s
}

/// Whether `s` ends with `t`.
pub open spec fn ends_with(s: Seq<char>, t: Seq<char>) -> bool {
    t.len() <= s.len() && s.skip(s.len() - t.len()) == t
}

/// Whether `s` ends with `t`.
pub fn str_ends_with(s: &str, t: &str) -> (b: bool)
    ensures
        b == ends_with(s@, t@),
{
    let sv = chars_of(s);
    let tv = chars_of(t);
    if tv.len() > sv.len() {
        return false;
    }
    let off = sv.len() - tv.len();
    let mut i: usize = 0;
    while i < tv.len()
        invariant
            sv@ == s@,
            tv@ == t@,
            off == sv.len() - tv.len(),
            i <= tv.len(),
            forall|k: int| 0 <= k < i ==> sv@[off + k] == tv@[k],
        decreases tv.len() - i,
    {
        if sv[off + i] != tv[i] {
            assert(s@.skip(off as int)[i as int] != t@[i as int]);
            return false;
        }
        i = i + 1;
    }
    assert(s@.skip(off as int) =~= t@);
    true
}

/// The profile files, under the home directory, that a user's login shell reads: those of
/// zsh or bash where `$SHELL` ends with that name, else `.profile`.
pub open spec fn profile_names(shell: Seq<char>) -> Seq<Seq<char>> {
    if ends_with(shell, "zsh"@) {
        seq![".zshrc"@, ".zprofile"@, ".zshenv"@]
    } else if ends_with(shell, "bash"@) {
        seq![".bashrc"@, ".bash_profile"@, ".profile"@]
    } else {
        seq![".profile"@]
    }
}

/// The profile files that the login shell `$SHELL` reads.
pub fn profile_files(shell: &str) -> (r: Vec<&'static str>)
    ensures
        r@.map_values(|s: &'static str| s@) == profile_names(shell@),
{
    let v: Vec<&'static str> = if str_ends_with(shell, "zsh") {
        vec![".zshrc", ".zprofile", ".zshenv"]
    } else if str_ends_with(shell, "bash") {
        vec![".bashrc", ".bash_profile", ".profile"]
    } else {
        vec![".profile"]
    };
    assert(v@.map_values(|s: &'static str| s@) =~= profile_names(shell@));
    v
}

/// What is appended to a profile that lacks the export line.
pub open spec fn profile_addition(line: Seq<char>) -> Seq<char> {
    "\n# added by sugg deploy\n"@ + line + "\n"@
}

/// What to append to a profile with the given content: nothing where it already holds the
/// export line, else a marker comment and the line.
pub fn profile_update(content: &str, line: &str) -> (r: Option<String>)
    ensures
        has_substring(content@, line@) ==> r is None,
        !has_substring(content@, line@) ==> (r matches Some(a) && a@ == profile_addition(line@)),
{
    if str_contains(content, line) {
        None
    } else {
        let mut a = String::from_str("\n# added by sugg deploy\n");
        push_str(&mut a, line);
        push_str(&mut a, "\n");
        Some(a)
    }
}

/// A directory written with Windows separators.
pub fn windows_dir(dir: &str) -> (r: String)
    ensures
        r@ == replace_char(dir@, '/', '\\'),
{
    let v = chars_of(dir);
    let mut out: Vec<char> = Vec::new();
    for i in 0..v.len()
        invariant
            v@ == dir@,
            out@ == replace_char(v@.take(i as int), '/', '\\'),
    {
        out.push(if v[i] == '/' { '\\' } else { v[i] });
        assert(v@.take(i + 1) == v@.take(i as int).push(v@[i as int]));
    }
    assert(v@.take(v.len() as int) == v@);
    string_from_chars(&out)
}

/// What the PowerShell command that edits the user's `Path` reported.
#[derive(Debug, Clone, Copy, PartialEq, Eq, Structural)]
pub enum PathEdit {
    /// The directory was added.
    Added,
    /// The directory was there already.
    AlreadyThere,
    /// Anything else: the user has to add it by hand.
    Failed,
}

/// What the PowerShell command's output says, trimmed: `ADDED`, `EXISTS`, or a failure.
pub fn path_edit_outcome(stdout: &str) -> (r: PathEdit)
    ensures
        trim(stdout@) == "ADDED"@ ==> r == PathEdit::Added,
        trim(stdout@) == "EXISTS"@ ==> r == PathEdit::AlreadyThere,
        trim(stdout@) != "ADDED"@ && trim(stdout@) != "EXISTS"@ ==> r == PathEdit::Failed,
{
    let t = string_from_chars(&trim_chars(&chars_of(stdout)));
    proof {
        reveal_strlit("ADDED");
        reveal_strlit("EXISTS");
        assert("ADDED"@.len() == 5 && "EXISTS"@.len() == 6);
    }
    if str_eq(t.as_str(), "ADDED") {
        PathEdit::Added
    } else if str_eq(t.as_str(), "EXISTS") {
        PathEdit::AlreadyThere
    } else {
        PathEdit::Failed
    }
}

} // verus!
