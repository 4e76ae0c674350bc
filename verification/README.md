# wmx

Persistent Windows terminal sessions backed by ConPTY, with the session
logic verified by Verus.

- `src/` is the verified library: command-line parsing, request planning
  and authentication, the display-leadership policy, title coalescing,
  input filtering and console key translation, history capture, wire
  framing, registry records, and the checks that decide whether a recorded
  host process is still alive. Each public function carries a contract;
  the `law_*` proof functions state properties that span calls.
- `app/` is the Windows program around it: the console, sockets, threads,
  the pseudo console and the Win32 process API.
- `tests/` runs the library on concrete values.
