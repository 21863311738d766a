# whisperer

Encrypted chat between two computers on a local network.

- `src/` is the verified library (Verus):
  - `kem` — the block-transposition cipher with a repeating XOR key, and its
    round-trip laws.
  - `tcp` — framing of requests on the wire, reading incoming data, the
    one-byte answers; `tcp::vector` — byte-vector helpers and the random
    key bytes.
  - `msg` — recipients, messages, chat histories, the recipient list and
    address validation.
  - `save` — the recipients and history file formats and their round-trip
    laws.
  - `comms` — the key exchange and what the listening end does with each
    request, with the key-agreement and delivery laws.
- `app/` is the program around it: the window, sockets, threads and files.
- `tests/` runs the library on concrete values.
