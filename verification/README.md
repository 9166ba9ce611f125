# Helix

A version control system with a content-addressed store of blobs, trees and commits,
an index file, branches, sandboxes (isolated working directories with a branch of
their own), three-way merging, an importer for Git repositories, and push and pull.

The logic is a Verus library. It works on plain values: the objects of a repository
(`object_store`), its references (`refs`), its index (`helix_index`), and the files of
a working directory. Every function states what it computes, and Verus proves it.

- `src/` is the library.
  - `helix_index/` holds the index file, commits and trees: their bytes, storing and
    reading them, walking history, and taking over a Git repository.
  - `object_store`, `refs`, `text_map`, `toml_text`, `codec`, `hash`, `order`, `path`,
    `text` are what the rest is built on.
  - `add_command` (with `add_select`, which files are meant, and `add_trace`, what is
    said), `commit_command`, `branch_command`, `checkout`, `diff_command`,
    `merge_command`, `sandbox_command`, `push_command`, `pull_command` are the commands.
  - `commit_graph`, `object_graph`, `reach` say which objects are reached from a commit,
    `lacking` which of them another repository lacks, and `exchange` what can be read
    where they arrive. `object_file` is the file of an object.
  - `status/`, `branch_tui/`, `sandbox_tui/`, `merge_tui/` are the states of the
    terminal views and what keys do to them.
- `tests/` runs the library.
- `app/` is the program around it: the command line, files, the terminal, and reading
  Git repositories.

A few functions call outside crates (BLAKE3, SHA-256, hexadecimal, Zstandard, glob
patterns, regular expressions, line differences, dates, TOML, Git hashes). Their contracts are stated
beside the calls and are not proved.
