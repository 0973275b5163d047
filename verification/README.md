# ramaria-memory

The memory of a conversational assistant: it summarises conversations, keeps a dictionary and
an index of keywords, prepares statistics of remembered events, starts the assistant's own
persona from a file, and runs background jobs.

The library under `src/` is verified with Verus.

- `text`, `text_map`, `order`, `binary64`, `ids`, `chat`, `utils`: texts, maps, stable orders,
  floating-point numbers by their bit patterns, identifiers, requests, and reading answers.
- `keyword`: keywords in normal form, splitting text into keywords, the dictionary with its
  aliases, the inverted index, the search in steps, and the service that holds them.
- `l1`: prompts, reading and checking summaries, and summarising a session block by block.
- `inference::stats`: which events count, how they are grouped and ordered, which of them stand
  for their category, and which tentative events confirm each other.
- `init`: the persona file and the cold start.
- `job`: background jobs with retries.

Work that waits for storage or for a model is a machine of steps: it tells the next action and
takes what came of it (`job::JobRun`, `l1::run::SummaryRun`, `init::cold_start::ColdStart`). The
loops that perform the actions are in `app/`, and so is all floating-point arithmetic: weights,
means, scores and similarities. Where the library has to order or compare such numbers it takes
them by their bit patterns (`binary64::Real`).

What is not proved stands in a few places of `src/`, each with a comment: `text` (two functions
of the standard library), `ids` (identifiers by `uuid`), `keyword::service` (sharing by `Arc`).

`tests/` holds the tests of the library.
