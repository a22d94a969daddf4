# challenge_client

A client for a challenge game played over TCP: it subscribes under its
name, answers the challenges the server sends (MD5 hash cash, secret
recovery, nonogram, monstrous maze), and aims each answer at the
strongest active player of the leader board.

The solvers, the message handling and the wire framing are verified with
Verus; `app/` holds the network loop and the JSON (de)serialisation.

- `src/challenges_compute/`: the four solvers, each with its specification
  and the laws it keeps (the hash-cash seed is the first accepted one, the
  recovered secret keeps its bytes and the order of every tuple, the
  nonogram grid is made of layouts of the row clues that pass the column
  check, which accepts a column whose runs are a prefix of its clue, the
  maze path is a walk to the exit).
- `src/messages/`: the messages of the game and what the client does with
  each of them.
- `src/wire.rs`: the length-prefixed frames messages travel in.
- `src/text.rs`: conversions between strings and characters.
- `tests/`: tests on concrete values.
- `app/`: `main`, the socket, and serde copies of the message types.
