# portproc

Find the process that holds a port, and kill or restart it:

    portproc -p t8080 -k        # kill whatever serves TCP port 8080
    portproc -p ssh -r          # restart the SSH server (presets name well-known ports)
    portproc -a                 # list every port in use and its process

## Layout

- `src/` is the library, verified with Verus:
  - `port.rs`: protocols, ports, how a port is shown and how a port text
    (`t8080`, `U53`, `ssh`) is read;
  - `presets.rs`: the table of named presets and its lookup;
  - `cli.rs`: the command line, read from a list of arguments, with its
    rules on which options go together;
  - `finder.rs`: what the socket table gave, folded into a map from ports
    to processes;
  - `plan.rs`: choosing and ordering the processes to act on, and what
    restarting one runs;
  - `util.rs`: how a process is shown;
  - `text.rs`: character-level helpers (case folding, decimal digits);
  - `errors.rs`: the library's errors.
- `app/` is the program: reading the real command line, the socket table and
  the process table, logging, killing and spawning processes.
- `tests/` exercises the library on concrete values.
