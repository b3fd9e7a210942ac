# flagset_cli

Feature flags read from a small text configuration and evaluated per key
(usually a user or account id), with a stable, hash-based rollout.

```text
# comment lines and blank lines are ignored
flag dark_mode
flag checkout_v2 rollout=25
flag legacy_export enabled=false
flag old_banner expires=2026-01-01
override legacy_export acct-9001=true
```

The library in `src/`, with a contract and a proof for each function:

- `text`: whitespace, lines, tokens, `key=value`, unsigned numbers;
- `date`: civil dates as day numbers and back;
- `hash`: FNV-1a over `flag`, a NUL byte and `key`; the rollout bucket;
- `config`: what a configuration text means, and how a flag evaluates;
- `flagset`: `parse`, `is_enabled`, `describe` and the other queries;
- `render`: what the command line writes, as text or JSON;
- `error`, `fmt`, `json`, `clock`, `assoc`: errors and their messages,
  text building, JSON quoting, today's date, association lists;
- `laws`: properties of every configuration and every evaluation.

`app/` is the `flagset` command line (`list`, `check`, `validate`, `--json`).
