use vstd::prelude::*;
use crate::shell::{Shell, shell_name};
use crate::text::{chars_of, concat, push_str, replace_all, replace_char, replace_str, string_from_chars};

verus! {

/// The placeholder in a bridge script that stands for the path of the `sugg` binary.
pub const SUGG_BIN_PLACEHOLDER: &'static str = "{{SUGG_BIN}}";

/// The file of the bridge script for a shell, among the embedded shell assets.
pub open spec fn bridge_file(s: Shell) -> Seq<char> {
    match s {
        Shell::Bash => "bash.sh"@,
        Shell::Zsh => "zsh.zsh"@,
        Shell::Fish => "fish.fish"@,
        Shell::Nushell => "nushell.nu"@,
        Shell::Powershell => "powershell.ps1"@,
    }
}

/// The file of the bridge script for a shell.
pub fn bridge_script_name(s: Shell) -> (r: &'static str)
    ensures
        r@ == bridge_file(s),
{
    match s {
        Shell::Bash => "bash.sh",
        Shell::Zsh => "zsh.zsh",
        Shell::Fish => "fish.fish",
        Shell::Nushell => "nushell.nu",
        Shell::Powershell => "powershell.ps1",
    }
}

/// `base` joined with a relative component, with the platform's separator between them
/// unless `base` is empty or already ends with a separator.
pub open spec fn join_native(base: Seq<char>, name: Seq<char>, windows: bool) -> Seq<char> {
    if base.len() == 0 {
        name
    } else if base.last() == '/' || (windows && base.last() == '\\') {
        base + name
    } else {
        base + seq![if windows { '\\' } else { '/' }] + name
    }
}

fn join_native_exec(base: &str, name: &str, windows: bool) -> (r: String)
    ensures
        r@ == join_native(base@, name@, windows),
{
    let b = chars_of(base);
    let mut r = string_from_chars(&b);
    if b.len() > 0 && !(b[b.len() - 1] == '/' || (windows && b[b.len() - 1] == '\\')) {
        crate::text::push_char(&mut r, if windows { '\\' } else { '/' });
    }
    push_str(&mut r, name);
    r
}

/// The path of the `sugg` binary for an engine in directory `exe_dir`: `bin/sugg` (with
/// `.exe` on Windows) under it, written with forward slashes.
pub open spec fn sugg_bin_path(exe_dir: Seq<char>, windows: bool) -> Seq<char> {
    let exe = if windows { "sugg.exe"@ } else { "sugg"@ };
    replace_char(join_native(join_native(exe_dir, "bin"@, windows), exe, windows), '\\', '/')
}

/// The path of the `sugg` binary for an engine in directory `exe_dir`.
pub fn sugg_bin_for(exe_dir: &str, windows: bool) -> (r: String)
    ensures
        r@ == sugg_bin_path(exe_dir@, windows),
{
    let bin = join_native_exec(exe_dir, "bin", windows);
    let exe = if windows { "sugg.exe" } else { "sugg" };
    let full = join_native_exec(bin.as_str(), exe, windows);
    crate::paths::path_to_slash(full.as_str())
}

/// The bridge script with the path of the `sugg` binary filled in.
pub fn render_bridge_script(template: &str, sugg_bin: &str) -> (r: String)
    ensures
        r@ == replace_all(template@, SUGG_BIN_PLACEHOLDER@, sugg_bin@),
{
    proof {
        reveal_strlit("{{SUGG_BIN}}");
    }
    replace_str(template, SUGG_BIN_PLACEHOLDER, sugg_bin)
}

/// How a line of the setup banner is styled.
#[derive(Debug, Clone, Copy, PartialEq, Eq, Structural)]
pub enum LineStyle {
    Plain,
    Bold,
    Green,
    Yellow,
    Cyan,
}

/// The headline of the setup banner.
pub open spec fn banner_title(s: Shell) -> Seq<char> {
    crate::ICON_PARTY@ + " Sugg "@ + shell_name(s) + " shell integration generated successfully!"@
}

/// The lines of the setup banner that `sugg init <shell>` shows on a terminal: what was
/// generated, and how to load it on every start of that shell.
pub open spec fn banner_lines(s: Shell) -> Seq<(Seq<char>, LineStyle)> {
    let head = seq![
        (banner_title(s), LineStyle::Green),
        (Seq::<char>::empty(), LineStyle::Plain),
        (crate::ICON_POINTER@ + " To apply this automatically on shell startup,"@, LineStyle::Bold),
        ("  add the following to your config:"@, LineStyle::Bold),
    ];
    head + match s {
        Shell::Bash => seq![("    eval \"$(sugg init bash)\""@, LineStyle::Yellow)],
        Shell::Zsh => seq![("    eval \"$(sugg init zsh)\""@, LineStyle::Yellow)],
        Shell::Fish => seq![("    sugg init fish | source"@, LineStyle::Yellow)],
        Shell::Nushell => seq![
            ("    "@ + crate::ICON_SPARKLES@ + "  Recommended (Nushell 0.102+ — no config editing needed):"@, LineStyle::Cyan),
            ("      mkdir ($nu.default-config-dir | path join 'autoload')"@, LineStyle::Yellow),
            ("      sugg init nushell | save -f ($nu.default-config-dir | path join 'autoload/sugg.nu')"@, LineStyle::Yellow),
            (Seq::<char>::empty(), LineStyle::Plain),
            ("    Legacy (edit config.nu — script stored in sugg's own directory):"@, LineStyle::Cyan),
            ("  let sugg_dir = if ('SUGG_HOME' in $env) { $env.SUGG_HOME } else { ($nu.data-dir | path join 'sugg') }"@, LineStyle::Yellow),
            ("  mkdir ($sugg_dir | path join 'shells')"@, LineStyle::Yellow),
            ("  sugg init nushell | save -f ($sugg_dir | path join 'shells/nushell.nu')"@, LineStyle::Yellow),
            ("  # Then add to your config.nu:"@, LineStyle::Yellow),
            ("  source ($sugg_dir | path join 'shells/nushell.nu')"@, LineStyle::Yellow),
        ],
        Shell::Powershell => seq![
            (crate::ICON_SPARKLES@ + "  Save as static script (recommended, lower startup overhead):"@, LineStyle::Cyan),
            ("  $suggDir = if ($env:SUGG_HOME) { $env:SUGG_HOME } else { \"$env:APPDATA\\sugg\" }"@, LineStyle::Yellow),
            ("  New-Item -ItemType Directory -Path (Join-Path $suggDir \"shells\") -Force | Out-Null"@, LineStyle::Yellow),
            ("  sugg init powershell | Out-File -FilePath (Join-Path $suggDir \"shells\\powershell.ps1\") -Encoding utf8"@, LineStyle::Yellow),
            ("  # Then add to your $PROFILE:"@, LineStyle::Green),
            ("  . (Join-Path (if ($env:SUGG_HOME) { $env:SUGG_HOME } else { \"$env:APPDATA\\sugg\" }) \"shells\\powershell.ps1\")"@, LineStyle::Yellow),
        ],
    }
}

/// The views of banner lines.
pub open spec fn lines_view(v: Seq<(String, LineStyle)>) -> Seq<(Seq<char>, LineStyle)> {
    v.map_values(|l: (String, LineStyle)| (l.0@, l.1))
}

fn push_line(v: &mut Vec<(String, LineStyle)>, text: &str, style: LineStyle)
    ensures
        lines_view(final(v)@) == lines_view(old(v)@).push((text@, style)),
{
    let ghost before = lines_view(v@);
    v.push((String::from_str(text), style));
    assert(lines_view(v@) =~= before.push((text@, style)));
}

/// The lines of the setup banner for a shell.
pub fn init_banner(s: Shell) -> (r: Vec<(String, LineStyle)>)
    ensures
        lines_view(r@) == banner_lines(s),
{
    let mut v: Vec<(String, LineStyle)> = Vec::new();
    let mut title = concat(crate::ICON_PARTY, " Sugg ");
    push_str(&mut title, s.as_str());
    push_str(&mut title, " shell integration generated successfully!");
    let ghost b0 = lines_view(v@);
    v.push((title, LineStyle::Green));
    assert(lines_view(v@) =~= b0.push((banner_title(s), LineStyle::Green)));
    push_line(&mut v, "", LineStyle::Plain);
    let pointer = concat(crate::ICON_POINTER, " To apply this automatically on shell startup,");
    push_line(&mut v, pointer.as_str(), LineStyle::Bold);
    push_line(&mut v, "  add the following to your config:", LineStyle::Bold);
    proof {
        reveal_strlit("");
    }
    let ghost head = lines_view(v@);
    assert(head.len() == 4);
    assert(head[0] == (banner_title(s), LineStyle::Green));
    assert(head[1] == (Seq::<char>::empty(), LineStyle::Plain));
    assert(head[2] == (crate::ICON_POINTER@ + " To apply this automatically on shell startup,"@, LineStyle::Bold));
    assert(head[3] == ("  add the following to your config:"@, LineStyle::Bold));
    assert(head =~= seq![
        (banner_title(s), LineStyle::Green),
        (Seq::<char>::empty(), LineStyle::Plain),
        (crate::ICON_POINTER@ + " To apply this automatically on shell startup,"@, LineStyle::Bold),
        ("  add the following to your config:"@, LineStyle::Bold),
    ]);
    match s {
        Shell::Bash => {
            push_line(&mut v, "    eval \"$(sugg init bash)\"", LineStyle::Yellow);
            assert(lines_view(v@) =~= banner_lines(s));
        },
        Shell::Zsh => {
            push_line(&mut v, "    eval \"$(sugg init zsh)\"", LineStyle::Yellow);
            assert(lines_view(v@) =~= banner_lines(s));
        },
        Shell::Fish => {
            push_line(&mut v, "    sugg init fish | source", LineStyle::Yellow);
            assert(lines_view(v@) =~= banner_lines(s));
        },
        Shell::Nushell => {
            let rec = concat("    ", crate::ICON_SPARKLES);
            let mut rec = rec;
            push_str(&mut rec, "  Recommended (Nushell 0.102+ — no config editing needed):");
            push_line(&mut v, rec.as_str(), LineStyle::Cyan);
            push_line(&mut v, "      mkdir ($nu.default-config-dir | path join 'autoload')", LineStyle::Yellow);
            push_line(&mut v, "      sugg init nushell | save -f ($nu.default-config-dir | path join 'autoload/sugg.nu')", LineStyle::Yellow);
            push_line(&mut v, "", LineStyle::Plain);
            push_line(&mut v, "    Legacy (edit config.nu — script stored in sugg's own directory):", LineStyle::Cyan);
            push_line(&mut v, "  let sugg_dir = if ('SUGG_HOME' in $env) { $env.SUGG_HOME } else { ($nu.data-dir | path join 'sugg') }", LineStyle::Yellow);
            push_line(&mut v, "  mkdir ($sugg_dir | path join 'shells')", LineStyle::Yellow);
            push_line(&mut v, "  sugg init nushell | save -f ($sugg_dir | path join 'shells/nushell.nu')", LineStyle::Yellow);
            push_line(&mut v, "  # Then add to your config.nu:", LineStyle::Yellow);
            push_line(&mut v, "  source ($sugg_dir | path join 'shells/nushell.nu')", LineStyle::Yellow);
            assert(lines_view(v@).len() == 14);
            assert forall|i: int| 0 <= i < 14 implies lines_view(v@)[i] == banner_lines(s)[i] by {
                if i < 4 {
                    assert(lines_view(v@)[i] == head[i]);
                }
            }
            assert(lines_view(v@) =~= banner_lines(s));
        },
        Shell::Powershell => {
            let save = concat(crate::ICON_SPARKLES, "  Save as static script (recommended, lower startup overhead):");
            push_line(&mut v, save.as_str(), LineStyle::Cyan);
            push_line(&mut v, "  $suggDir = if ($env:SUGG_HOME) { $env:SUGG_HOME } else { \"$env:APPDATA\\sugg\" }", LineStyle::Yellow);
            push_line(&mut v, "  New-Item -ItemType Directory -Path (Join-Path $suggDir \"shells\") -Force | Out-Null", LineStyle::Yellow);
            push_line(&mut v, "  sugg init powershell | Out-File -FilePath (Join-Path $suggDir \"shells\\powershell.ps1\") -Encoding utf8", LineStyle::Yellow);
            push_line(&mut v, "  # Then add to your $PROFILE:", LineStyle::Green);
            push_line(&mut v, "  . (Join-Path (if ($env:SUGG_HOME) { $env:SUGG_HOME } else { \"$env:APPDATA\\sugg\" }) \"shells\\powershell.ps1\")", LineStyle::Yellow);
            assert(lines_view(v@).len() == 10);
            assert forall|i: int| 0 <= i < 10 implies lines_view(v@)[i] == banner_lines(s)[i] by {
                if i < 4 {
                    assert(lines_view(v@)[i] == head[i]);
                }
            }
            assert(lines_view(v@) =~= banner_lines(s));
        },
    }
    v
}

} // verus!
