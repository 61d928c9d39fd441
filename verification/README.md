# gash

A small Unix shell (`gash`) and a small web server (`zhttpto`), with their
decision logic written and proved in Verus.

- `src/text.rs`: white space, trimming, splitting a line at a separator.
- `src/argv.rs`: the words of a command, and the `<`/`>` redirections taken
  out of them.
- `src/shell.rs`: the shell's state (prompt, history), what a typed line asks
  for, how a command line becomes a pipeline, what one command runs.
- `src/http.rs`: which path a request asks for and how the server answers.
- `app/`: the programs around the library: reading lines, pipes, processes,
  signals, sockets and files. Run under the name `zhttpto`, the binary is the
  web server.
