# albion_translator

Passive capture and translation of Albion Online chat. Captured frames are
parsed down to their UDP payload, filtered by the game servers' CIDR ranges,
decoded as Photon Protocol18 messages, and chat events come out as messages
that are then translated.

The library under `src/` is verified with Verus:

- `protocol18`: Protocol18 value decoding, proved against a specification of
  the wire format.
- `fragments`: reassembly of fragmented commands.
- `photon`: command walking, event handling, the channel map, and the
  decoder as a whole (`decode_step` is its specification).
- `channel`: channel tables and labels.
- `ip`, `number`, `hosts`, `network`: address text, integers in text, CIDR
  host filters, and Ethernet/IPv4/IPv6/UDP parsing.
- `sniffer`: tunnel-adapter recognition, device choice, frame handling,
  saved channel mappings and the diagnostic counters.
- `translator`, `glossary`: what is worth translating, cache keys, replies
  of the translation endpoints, HTML entities, the glossary, and the order
  in which backends are tried.
- `license`: trial, validation and offline grace decisions.
- `text`, `clock`: string helpers and the message time stamp.

`app/` holds the program around it: pcap capture, HTTP, SQLite, files, the
language detector's confidence scores, and a command-line front end.

Local translation models (CTranslate2) are not part of this build: the
`ct2rs` crate is not a dependency, so no local model can be loaded and every
translation goes to Google's endpoints (the `translate_a/single` JSON
endpoint first, then the mobile page), with the tagged fallback after them.
