# qingjian_fcitx5

The session logic of Qingjian's Fcitx5 front end, verified with Verus.

- `src/layout.rs`: a query's candidate layout (cells, pages) and the comment shown beside a candidate.
- `src/session.rs`: one input context's state: highlight, page, listed candidates, preedit, commit.
- `src/keys.rs`: key routing as a state machine that asks the host for engine calls.
- `src/paths.rs`: XDG paths and data-file lookup.
- `src/rime.rs`, `src/order.rs`: merging TSV dictionaries (largest weight per word and pinyin, sorted).
- `app/`: the C ABI over the engine, engine assembly, logging, and the dictionary conversion tool.
