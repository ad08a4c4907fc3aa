# pxdocs

A tool for finding PX docs in a local `px-docs` checkout, with GitHub (through
the `gh` CLI) as a fallback. The library in `src/` holds its logic, verified
with Verus; `app/` is the command-line program around it (files, processes,
the terminal and the JSON configuration file).

Modules of the library:

- `text`: trimming, lines, words, substring search and joining, each proved
  against a specification of the standard-library operation it stands for.
- `doc`: the metadata of a doc (title, status, type, guild, id, summary) read
  from its path and Markdown text.
- `query`: filtering, searching (ranked by matching terms, then path) and
  finding the docs a selector names, with their laws.
- `rank`: a stable sort by key, proved to produce the one ordering of a
  stable sort.
- `options`: the command-line options and decimal parsing.
- `config`: the persisted configuration and the fetch schedule.
- `paths`: joining and `~` expansion of paths.
- `source`: choosing between the checkout and GitHub, reading what `git` and
  `gh` answered, and deciding when to fetch.
- `command`: which command the arguments name and what a query answers.
