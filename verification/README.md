# hearts_of_modding

The data layer of a language server for Hearts of Iron IV mod scripts,
written in Verus: every function in `src/` carries a contract that Verus
proves, apart from three thin wrappers of `std` (`char::is_alphanumeric`,
`str::to_uppercase`, `String::push`) whose contracts are trusted.

## Layout

- `src/text.rs`, `src/numtext.rs`: character, line and number-text helpers
  with their specifications (UTF-8 offsets, `str::lines`, `f64` literal
  syntax).
- `src/ast.rs`: the abstract syntax tree; spans are byte ranges into the
  source that are proved to lie on character boundaries.
- `src/script.rs`: the character-level script parser with error recovery,
  specified by a grammar over the input's characters.
- `src/cst/`: the lossless pipeline. `lexer.rs` is the tokenizer, specified
  exactly by the scanner model in `lexmodel.rs`; `parser.rs` is the
  recovering recursive-descent parser, specified exactly by the token-level
  model in `model.rs`; `lower.rs` turns the concrete tree into the abstract
  one, specified over the same model. `preserve.rs` proves that a parse
  that reports nothing keeps every token, comment and piece of layout of
  its input; `bom.rs` that a leading byte-order mark only moves byte
  offsets; `token_laws.rs` that every token before the end-of-file token
  covers at least one byte.
- `src/loc.rs`: localisation files: parsing, structure and quote checks,
  and the formatter; `src/loc_load.rs`: which localisation files load, and
  how their keys merge across files.
- `src/csv.rs`, `src/defines.rs`, `src/provinces.rs`, `src/portraits.rs`,
  `src/gfx.rs`: CSV formatting, `defines` Lua assignments, province
  definitions, portrait extraction and the texture paths of `.gfx` files.
- `src/loc_string.rs`: the checks inside localisation values (bracketed
  scopes and commands, variable formatting, colour codes).
- `src/rename.rs`, `src/rules.rs`, `src/ai_visibility.rs`,
  `src/variables.rs`: symbol references for renaming and the decisions of
  the validation rules (structural keys, event options hidden from the AI,
  variable effects and the names they refer to).
- `src/findings.rs` and the rules built on it: `src/oob.rs` (unit types and
  division templates of order-of-battle files), `src/states.rs` (the checks
  after a state file is walked), `src/state_walk.rs` (the walk of a state
  file), `src/state_defs.rs` (state categories, resources and buildings),
  `src/aces.rs` (ace modifiers), `src/ai_areas.rs` (continents and
  strategic regions of AI areas), `src/abilities.rs`, `src/events.rs`
  (finished event definitions and options), `src/event_walk.rs` (the walk
  of an event file: namespaces, event calls that match no defined event,
  duplicate event ids), `src/event_ids.rs` (the number and namespace of an
  event id), `src/buildings.rs` (building levels), `src/characters.rs` (skill
  levels).  Each rule that walks a file is a state with `enter_assignment`
  / `exit_assignment` steps, specified as functions from state and
  assignment to next state and findings.
- `tests/`: tests on concrete inputs.
- `app/`: what is not verified: file-system scans and texture existence
  checks, the names and origins of files for the event-id namespace check, serializable copies of the syntax tree, and reading number
  literals as floating point.

## Checking

Verify with Verus on `src/lib.rs`; the tests run with `cargo test`.
