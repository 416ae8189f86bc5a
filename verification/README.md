# cube_session

A verified library for timing speed-cubing sessions: solves with penalties,
means and trimmed means ("average of 5" style), and the best solve and best
average of a session.

- `src/solve.rs`: solves, penalties and effective times.
- `src/average.rs`: the averaging rule, its model and its proof.
- `src/session.rs`: a session of solves, its best solve and its windows.
- `src/display.rs`: how a solve and an averaging error are written as text.
- `src/laws.rs`: properties that relate these functions.
- `app/main.rs`: the program entry point and the error message type.
