# aries_planning

A verified library for automated planning: reading PDDL/HDDL domains and problems, classical
(STRIPS) states and plan search, explanations of plans (support links, threats, necessity of
steps, weighted variants and centrality), geometric boxes and combination enumeration used by
timelines, and the messages of the unified-planning interface.

Layout:

- `src/` — the library, written in Verus; every function carries a contract that Verus proves.
  - `input.rs`, `parsing/` — source positions and errors, s-expressions (with the proof that a
    printed expression reads back as itself), PDDL/HDDL reading and printing.
  - `classical/` — states, operators, heuristics, plan search, centrality counts.
  - `explain/` — support and threat matrices, necessity searches (plain and weighted), threats,
    questions on a plan, coordination of steps around parameters, abstraction, comparisons.
  - `timelines/` — segments, boxes, box worlds and universes, combination enumeration; the
    transitions of timelines and the supports between them; the groundings bookkeeping of the
    LP relaxation, ground supports, and the lifted and ground rows of that relaxation.
  - `upf/`, `grpc/` — the unified-planning messages and their reading.
- `app/` — ordinary Rust around the library: finding a domain file on disk, writing explanation
  reports to files, printing, floating-point centrality ratios, and the streaming-iterator
  interface of the enumeration.
- `tests/` — tests run against the compiled library.
