# typerlude

The rules of Typerlude, a Korean and English typing-practice program for the terminal, written
in Verus: each function states what it does in `requires` / `ensures`, and Verus proves it.

## Layout

- `src/` — the verified library.
  - `model.rs`: languages, difficulties, practice modes.
  - `text.rs`: character classes, string checks and the calls into the Unicode crates
    (normalization, width, grapheme clusters).
  - `content/`: content packs, their validation, and the catalog that holds them (insertion,
    removal, conflict checks, loading from built-in and user packs).
  - `app.rs`, `app/summaries.rs`, `app/keys.rs`, `app/navigation.rs`, `app/preferences.rs`,
    `app/finish.rs`: practice options and their cycling, key-practice stages and sequences,
    stream selection and targets, custom text, the content screen's summaries, what each key
    and a paste do, moving between screens, the statistics filters, goals and settings that
    the arrows step, and finishing a practice (its record, the session before it, the daily
    goal and the result screen), and the ranking of practice items by the user's weak keys
    (`app/adaptive.rs`).
  - `typing.rs`: the keys a cluster takes on the keyboard (key units), with Hangul syllables
    split into the keys of the Korean two-set layout.
  - `practice.rs`: how a practice target is wrapped into logical lines, none wider than the
    line width.
  - `practice/engine.rs`: the typing engine, cell by cell: right and wrong cells, key units
    attempted and right, errors, backspaces, Enter, pauses, the time limit, extending the
    target, and the tally of intended keys.
  - `game.rs`, `config.rs`: game tiers and bosses, settings, and the game records with their
    unlocking rules.
  - `stats.rs`: date ranges, history order, streaks, the daily goal, per-key tallies and the
    weak keys.
  - `cli.rs`, `diagnostic.rs`, `storage.rs`: argument parsing, the startup decisions for custom
    text, the checks of the `content` commands, terminal-safe messages and the data paths.
- `tests/` — tests of the library.
- `app/` — the command-line program around the library: file and terminal I/O, the TOML form
  of content packs, and locking.

Laws that relate several functions are public proof functions whose names start with
`lemma_`, such as `lemma_remove_undoes_insert` in `content/catalog.rs`.
