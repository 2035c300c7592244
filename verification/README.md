# Security monitor

Correlates what a browser reports of its tabs with the CPU load of the browser, and alerts on
origins that compute while nobody is looking.

`src/` is the monitor itself, verified with Verus: the state and what events and samples change
in it (`state`, `correlate`, `cpu`), the score of a tab (`score`, on single-precision numbers that
`single` computes bit by bit), the best tab of each origin (`ranking`), alerts (`alert`), what the
dashboards show (`snapshot`, `terminal`), the answer to a reported event (`ingest`), the JSON
schema that it is held against (`schema`), and the records of the log (`record`). `laws` states
what holds of the monitor as a whole: which states it can be in, how far alerts lie apart, and what
has to come before one.

`app/` is the daemon around it: HTTP, JSON, the log file, the clock ticks, and the processes of the
system. It listens on `127.0.0.1:8787` and appends to `logs/events.jsonl`. When it starts, it reads
the JSON schema of events from `shared/event.schema.json`, two directories above the one that it is
started in (`desktop/daemon`). The schema may hold no references and no regular expressions.
