# sequential_combination

Skill-catalogue logic for the Sequential Combination MCP server, written in
Verus.

- `src/` — the verified library:
  - `text.rs`: characters, trimming, lines, substring search, words,
    joining, string order;
  - `str_map.rs`: a string-keyed map with distinct keys and sorted key
    listing;
  - `dna_extractor.rs`: the SKILL.md grammar (front matter, headings, key
    rules), `extract_dna`, `format_dna_compact` and the laws about them;
  - `config_loader.rs`: expert combos and stage profiles (YAML through
    `serde_yaml`);
  - `skills_index.rs`: the skill catalogue (registration, lookup, stage
    listing, expert combos, keyword hits).
- `app/` — the MCP server: configuration files, directory walk, embedding
  model, HNSW search, floating-point scores and the tool handlers.
- `tests/` — tests of the library, including agreement of the SKILL.md
  scanners with the equivalent regular expressions on generated documents.
