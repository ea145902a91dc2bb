# docket

A verified library for a documentation register: it extracts claims
(heading-, bold- and HTML-anchored definitions with their `claim` blocks)
from markdown documents, resolves their citations, computes blast radii
and graph signals, plans and settles runs of the evidence markers that
back a claim (including `evaluator: absent` claims, settled by searching
the project's source), builds the register's input and index, and plans
renames of a claim id.

- `src/` is the library, written in Verus: every function carries a
  contract, and the laws the library keeps (such as "the blast radius is
  exactly the transitive citers" or "every claim fence becomes one claim
  or one orphan") are proof functions named `lemma_*`. The outside crates
  it calls (pulldown-cmark, serde_norway, serde_json, glob) stand behind
  small trusted wrappers whose contracts name their results.
- `tests/` exercises the library on concrete inputs.
- `app/` is the `docket` command line: file walks, git, the Nickel
  register and process spawning around the library's decisions.
