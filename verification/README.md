# archunit

Architecture rules for Rust crates, stated over a plain model of items (types, traits,
functions) and their dependencies, and proved with Verus.

- `src/domain.rs`: items, references and dependencies.
- `src/base/`: described predicates on items, dependencies and counts; package identifiers
  such as `..service..` or `app::(*)..`; matching names against regular expressions.
- `src/lang/`: condition events, conditions, rules, their evaluation and failure reports, the
  fluent rule syntax (`classes().that()...should()...`), and the configured values that rules
  read (whether a rule may check nothing, the limits of the cycle search).
- `src/library/`: layered, onion and modular-monolith architectures, slices and their
  cycles, PlantUML component diagrams, frozen rules with their violation stores and the
  `.properties` format, dependency rules.
- `src/text.rs`, `src/order.rs`: texts and their order.
- `app/`: the file-system side: violation stores kept in text files, diagrams and the ignore
  patterns file read from disk, error types with `Display`.
- `tests/`: scenarios on concrete items.

Functions in `src/` are verified by Verus against their contracts; the cycle search is proved
to find every elementary cycle, once, up to its limit. Laws that relate several functions (a condition negated twice, `no classes` as the negated
condition, filtering violation lines, the first evaluation and the check of a frozen rule, line
matching as an equivalence, stored properties loading back, dependencies along diagram arrows)
are stated as public proof functions.
