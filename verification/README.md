# mini_grep

A small command-line search tool: it prints the lines of a file, or of the
files in a directory, that contain a string.

- `src/` is the library, verified with Verus:
  - `text.rs`: substring search on characters, splitting a text into lines
    the way line-by-line reading does, decimal notation of numbers;
  - `path.rs`: the components of a path, so that matches compare their
    paths as `Path` does (`a//b` and `a/b` are the same path);
  - `search.rs`: matches (`SearchMatch`), options (`SearchOptions`), and the
    search of one file's lines, with the exact set and order of matches stated;
  - `order.rs`: joining a directory's per-entry matches, and the order of
    paths by components, under which the joined matches are sorted;
  - `walk.rs`: how a search starts at a path, and the order in which a
    directory's entries are visited (by file name, subdirectories only when
    the search is recursive).
- `app/main.rs` is the program: argument parsing, reading files and
  directories, printing.

Usage: `mini_grep [--ignore-case] [--recursive] <needle> <path>`; matches are
printed as `path:line_number: line_content`.
