# mgen

Simulated messenger traffic, and the analysis of recorded chats that the
simulation's distributions come from.

- `src/` is the library, verified with Verus:
  - `wire`: the message and handshake formats, with read-after-write laws;
  - `messenger`: the conversation state machine, message construction,
    hosts files, the peer's thread plan, error classification;
  - `server`: the message server's registry and routing decisions;
  - `web`: attachment URLs and the web server's answers;
  - `sam`: per-user histograms of chat data, stats files, message labelling,
    the resulting distributions and weights files;
  - `alias`, `text`, `nonzero`: weights files and sampling, text fields and
    decimal numbers, non-zero counts.
- `app/` holds the programs (`client`, `peer`, `server`, `web`, `tools`,
  `extract`, `process`, `message-lens`): networking, files, floating-point
  distributions, and the loops that carry out the library's decisions.
- `tests/` runs the library on concrete inputs.
