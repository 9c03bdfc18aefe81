# topic_broker

A sharded topic broker. Clients create topics with a number of partitions
and append key/value records to them; the server routes each record to a
partition by the hash of its key and appends it to that partition's log
file.

- `src/` is the verified library (Verus): the wire format (`wire`), text
  handling (`text`), request encoding and decoding (`protocol`), the topic
  registry and routing (`broker`), the decisions of the worker pools —
  which worker takes a request and whether it must wait for the one before
  (`dispatch`) — the client's command language (`cli`), and helpers that
  copy and compare runs of bytes and characters (`seqs`).
- `app/` is the program around it: sockets, tokio tasks and channels (the
  waiting itself happens there, on the library's decisions), files, standard
  input and output.
- `tests/` exercises the library on concrete values.
