# rustygene

A genealogy engine's domain logic, written in Verus: entities and dates,
validation rules, kinship, GEDCOM 5.5.1 reading and writing, Gramps XML
mapping, record matching and import diffs, with contracts that Verus proves.

## Layout

- `src/` — the verified library.
  - `types.rs`, `calendar.rs`, `date_order.rs` — identifiers, fuzzy dates,
    day numbers and the chronological order of date values.
  - `person.rs`, `family.rs`, `event.rs`, `evidence.rs`, `place.rs`, `lds.rs`,
    `assertion.rs`, `research.rs`, `raw.rs` — the domain model; assertion
    idempotency keys.
  - `validation.rs`, `kinship.rs`, `search.rs` — date and lifespan rules,
    relationship naming, name search (Soundex, Metaphone) and merge planning.
  - `gedcom/` — tokenizer, tree builder, serializer (with `CONC`/`CONT`
    continuation), mapping of records to entities, import assertions,
    export, matching, diffs and Gramps XML mapping. `round_trip.rs` proves
    that written GEDCOM text reads back as the lines and forest it came from.
- `tests/` — tests run against the compiled library.
- `app/` — the command-line front end: argument handling, file reading
  and report printing.
