# mcp_bastion (JSON scanner)

The JSON field extractor of the MCP Bastion gateway, written in Verus and
proved against a mathematical model of its behaviour.

- `src/json_scan.rs`: the executable scanner: `skip_ws`, `scan_string`,
  `scan_container`, `scan_value_end`, `read_hex4`, `utf8_len`,
  `decode_string` and `decode_string_utf8`, each with a contract that pins its
  result to the model.
- `src/spec.rs`: the model: where whitespace, string literals, containers and
  scalars end, and what a string literal decodes to.
- `src/laws.rs`: properties proved of the model across functions and inputs.
- `src/round_trip.rs`: the minimal JSON encoding of a text, and the proof that
  decoding its literal gives the text back.
- `src/text.rs`: the standard-library text operations that vstd does not
  specify (`String::push`, `char::from_u32`, `std::str::from_utf8`), with the
  contracts they are trusted to meet.
- `tests/`: executable tests on concrete inputs.
