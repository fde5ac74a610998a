# p2p_share

A peer-to-peer file sharing node. Nodes join a network described by an
adjacency matrix, search it for files with hop-limited broadcasts, and download
a file in equal slices from several nodes at once.

- `src/` is the library, verified with Verus: the matrix and its connectivity
  repair (`adj`), the node settings (`config`), messages and their keys
  (`message`), the decisions of the session, search and file layers
  (`session`, `search`, `file`), the connection protocol (`connections`), the
  file manifest (`file_manifest`), the events between layers (`bus`) and the
  text handling they share (`text`).
- `app/` is the program around it: reading settings and the manifest from
  disk, TCP connections, the event bus and the command line.
- `tests/` runs the library on concrete networks, messages and commands.
