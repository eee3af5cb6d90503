# imap_rs

An IMAP4rev1 server core (RFC 3501, with IDLE, UIDPLUS, MOVE, ESEARCH,
ENABLE, ID, NAMESPACE and the other extensions it advertises), verified
with Verus. SEARCH takes the RFC 3501 keys one after another, NOT and OR
with their operands, but no parenthesized key lists.

- `src/` is the verified library: the command decoder and response
  encoder, sequence sets, the argument readers and response writers of
  every command, the connection state rules and the session tracker.
  Each public function states in its contract what it reads, what it
  writes and when it fails; the laws that span several functions are
  public proof functions.
- `app/` is the server around it: the connection loop, the
  mail-store traits that a user implements, and the calls into them.
- `tests/` runs the library on concrete input.
