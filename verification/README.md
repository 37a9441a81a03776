# sugg

A shell completion engine: completion scripts written in TypeScript/JavaScript are bundled
and compiled once into a binary cache; on each key press a small client maps the words typed
so far onto the cached command tree and prints the candidates in the format of the calling
shell (zsh, fish, bash, nushell, PowerShell).

## Layout

- `src/` — the library, verified with Verus. It holds the decisions of the program: how the
  typed words are scanned through the command tree (`cli`, `complete`), how the menu is
  filtered and rendered (`results`, `logger`), how the scripts' command trees are merged and
  their compiled modules indexed (`merge`, `dynindex`, `bundle`), how `dynamic(..)` calls are
  taken out of a script (`ast`), translations and their fallback chains (`i18n`,
  `icu_utils`), the disk cache entries (`disk`), installation plans (`install`), versions and
  upgrades (`version`, `upgrade`), shell integration (`init`, `deploy`, `shell`) and terminal
  output (`ui`).
- `app/` — the programs around the library: the `sugg` client, the `sugg-engine` builder and
  the `sugg-deploy` installer (one binary, chosen by the name it runs under). They do the
  file, process and network work, run QuickJS and the JavaScript parser and bundler, and hand
  plain values to the library.
- `tests/` — tests of the library on concrete values.
