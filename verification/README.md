# rpm

A small password manager made of a daemon, which holds the master password
for a while and keeps encrypted records in a file, and a client that talks to
it over TCP, with a terminal interface.

`src/` is the verified library:

- `constants`: the request kinds and their bytes on the wire, the reasons a
  master password is refused.
- `text`: splitting, joining and trimming text, with the lemmas that relate
  them.
- `cipher`: records written as decimal byte lists, their AES-128-CBC
  encryption (OpenSSL) and the master password's SHA-256 hash (rust-crypto).
- `storage`: the storage file's lines and records, lookups and the key
  listing.
- `daemon`: the session, the request handlers and the serving of one request.
- `cli`: the client's commands, requests and replies.
- `screen`: the terminal interface's state and what it draws.

`app/` holds the programs around it: sockets, files, threads, password
prompts and terminal drawing.
