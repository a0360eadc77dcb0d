# hermit

`hermit` is a small linter for install scripts and docs. It finds commands that send
remote content straight into a shell or a scripting interpreter, such as
`curl ... | bash`, before anybody could look at what was downloaded.

```sh
hermit .
hermit .github/workflows
```

It exits with status 0 when nothing was found and with status 1 otherwise.

| Rule ID | Severity | Example |
| --- | --- | --- |
| `pipe-to-shell` | Error | `curl https://example.com/install.sh \| bash` |
| `pipe-to-interpreter` | Error | `wget -qO- https://example.com/setup.py \| python3` |
| `eval-curl` | Warning | `eval "$(curl https://example.com/setup.sh)"` |

A raw file on GitHub at a full commit hash may be piped into a shell.

## What is checked

Shell scripts, Dockerfiles, makefiles, GitHub Actions workflows, and the shell code
blocks of Markdown files. Generated and vendored directories and Git submodules are not
entered.

## Ignoring a finding

A comment `hermit: ignore` on a line of its own ignores the next line, and no other; at the
end of a line it ignores that line. `hermit: ignore[pipe-to-shell]` ignores one rule. Markdown
uses HTML comments.

## Layout

- `src/` is the library, verified with Verus. What is taken on trust, and not proved, is what
  these calls return: those into `regex` in `patterns`, `std::str::from_utf8` and
  `String::from_utf8_lossy` in `path`, and `String::push` in `text`. Each is stated where it
  is made.
  - `text` trims, splits and searches text.
  - `path` reads paths, which are bytes with `/` between their parts. `app/` turns the
    separator of the system into `/`.
  - `grammar` says what directives and addresses look like.
  - `patterns` holds the regular expressions and the calls into the `regex` crate.
  - `directives` reads ignore directives.
  - `rules` says what is reported of a line.
  - `scan` passes over the lines of a file.
  - `files` says which files are checked.
  - `submodules` finds Git submodules.
  - `results` orders and counts what was found.
  - `report` lays out what is printed.
  - `guarantees` proves what holds of every report.
  - `comparisons` proves how a report with directives differs from one without.
- `app/` is the command line around it.
- `tests/` runs the library.
