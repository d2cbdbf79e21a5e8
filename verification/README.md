# sswitch

A command-line Steam account switcher, and the reader/writer for Valve's text
key-value format (VDF) that it is built on.

- `src/` is the library, verified with Verus: VDF tokenizing, parsing and
  writing (with the proof that written text reads back as the same map, for
  maps whose keys and strings hold no newline, carriage return or tab), the
  account list of `loginusers.vdf`, tags, the listings the commands print, the
  edits made to Steam's configuration files, and reading Steam's settings from
  `registry.vdf` or from `reg query` output.
- `app/` is the program: command-line dispatch, file and process I/O, and the
  operating-system side of finding, starting and stopping Steam.
- `tests/` runs the library on concrete inputs.
