# pimalaya-config

Configuration helpers for command-line tools, verified with Verus.

- `src/` is the library, every function with its contract:
  - `command`: a command as a configuration writes it (a shell line or a
    program and its arguments), the command line it runs as, and the
    shape it is written back as;
  - `secret`: secrets from a literal or a command's output, and a
    resolver that runs each distinct command once;
  - `notify`: a notification's summary and body as a table holds them;
  - `toml`: the TOML value model, deep merging, the wizard serializer,
    shell expansion of fields, and the decisions of configuration
    loading;
  - `text`: trimming, line cutting and comparison of characters.
- `app/` holds the edges: serde adapters, spawning secret commands,
  reading files and locating the platform's directories.
- `tests/` runs the library on concrete values.
