# byteseek

byteseek is a KV-native agent substrate: the agent's code, state, memory
and execution live in one addressable kvspace tree, driven by the kvlang
runtime. This crate holds its logic as a library verified with Verus, and
the process around it.

- `src/text.rs`: characters, whitespace, decimal numbers, lines.
- `src/tlv.rs`: stored values: little-endian integers, UTF-32 text, the
  body, kind and element count that a decoded TLV head designates.
- `src/json.rs`: a kvspace subtree read as a JSON object (`json.to`):
  directories as objects, scattered keys `b[i]` as arrays.
- `src/encode.rs`: JSON text written into kvspace (`json.from`): its parse
  through serde_json, the writes it makes and what each key holds.
- `src/roundtrip.rs`: what an object written and read back gives back.
- `src/host.rs`: the host's decisions: the talk queue, the vthread drive
  loop, rwir dispatch, tool output, terminal input, LLM settings.
- `app/`: the process: the C ABI of kvspace, the kvlang runtime and its
  layout compiler, the drive loop, stdin/stdout, child processes, and
  the JSON text that `json.to` prints.
