# lindirstat (verified core)

The logic of lindirstat, a disk-usage visualiser for remote Linux hosts,
written in Verus with its contracts proved.

- `src/` is the verified library:
  - `wire`: the messages between scanner and client and their framing
    (`u32` little-endian length, then the payload), with the round-trip law;
  - `model`: the tree built from the entry stream (subtree sizes, children,
    paths), modelled as a function of the pushed entries;
  - `tree_laws`: what the tree holds when the stream keeps the protocol
    (subtree sizes add up, streams can always be pushed, children match
    parent links, paths stay put, a child's path extends its parent's, and
    cutting the stream into batches differently gives the same tree);
  - `order`: the stable largest-first order used by the treemap and the
    listing of the largest directories;
  - `shell`: quoting for the remote shell and the remote command lines,
    with the law that the shell reads a quoted text back as the one word it
    was made from;
  - `human`, `remote`, `session`, `connect`, `agent`, `palette`,
    `build_tools`:
    the text, quoting, remote-report, streaming and bookkeeping rules of the
    front ends and the scanner agent (in `session`: the turning of frames
    into messages, which hands every entry read on exactly once, the GUI's
    handling of those messages, and its zoom steps).
- `app/` holds the programs around it: the GUI (egui), the command-line
  client, the SSH transport, the scanner agent and the cross-build helper,
  with the postcard serialisation and all I/O.
- `tests/` runs the library on concrete values.
