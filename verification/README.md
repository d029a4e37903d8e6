# terrain

A local-first MCP server for full-text search over a directory of Markdown
notes. The library in `src/` holds the logic, each function with a Verus
contract:

- `markdown`: which paths name Markdown files (`Path::file_name` and
  `Path::extension` semantics, for Unix paths and for Windows paths with
  both separators and a drive prefix; extension `md` in any ASCII case);
- `paths`: the components of a path, by which paths are compared as `Path`
  compares them (repeated separators and inner `.` pieces do not matter);
- `indexed_paths`: the registry of indexed paths, which is the permission
  grant for reading a file, and its sorted, paged listing;
- `events`: debouncing of file-system events into batches of paths to
  re-index and to drop;
- `debounce`: the decisions of the watch loop (gather events until a quiet
  period, then hand out one batch);
- `scan`: what a walk of the notes directory does with each entry;
- `index_location`: the key that keeps the index of each notes directory
  apart from the others;
- `config`: search defaults, the instructions, tool descriptions and server
  identity a configuration file may override, and the HTTP bind address;
- `order`: the code-point order that listings follow;
- `laws`: properties that span several operations, proved.

`app/` is the program around it: argument parsing, the configuration file,
the directory walk, the `traverze` search engine, the `notify` watcher loop,
and the `rmcp` server with its `search`, `read_file` and `list_files` tools,
its tool-call observer, and its stdio and Streamable HTTP transports.
