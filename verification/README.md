# yinyidict

A local Chinese–English dictionary. Chinese and English words are headwords in their own
right; a lookup runs seven lanes at once and merges what they find, without a network.

`src/` is the library, verified with Verus.

| modules | what they hold |
|---|---|
| `model`, `codec`, `store`, `writer`, `fstmap` | entries, their records, the store and its indexes |
| `search`, `lane`, `tops`, `percentile` | lookup: candidates, score terms, ranking, tables of short prefixes |
| `pinyin`, `spelling`, `cedict`, `english`, `corpus`, `attach`, `lanekeys`, `assemble`, `whole` | the pipeline from the sources to a store |
| `json`, `llm`, `readback` | senses rewritten by a language model, and their files |
| `panel`, `page`, `window`, `tray`, `settings`, `theme`, `shot`, `icon`, `wide` | the decisions behind the interface |
| `voice`, `engine` | speech: what is said, in which order, with which files |
| `fetch` | unpacking the sources |
| `text`, `letters`, `number`, `bytes`, `single`, `order`, `sorted`, `fasthash` | foundations |

Contracts speak of sequences of characters and bytes. Proof functions named `law_…` state
what holds across functions: that a store answers by what was written into it, that every
headword is found, that a lookup which was not cut short misses nothing, that what goes to the
language model and comes back reads as it was written.

Numbers with a fraction are kept by their bits: the library orders them and computes none.
The formulas for scores and percentiles are in `app/`, together with files, threads, windows
and the sound device. `app/main.rs` opens the window; `build`, `llm`, `fetch`, `query`, `say`
and `icon` are its other commands.
