# irontraffic_http

HTTP/1 messages for a proxy, parsed, brought into one canonical form and written
for the next hop. What a message says must not depend on who reads it: whatever
two readers could take for different messages is refused with a reason, never
repaired.

The library is written in Rust and verified with Verus. Every executable function
states what it returns for every input; the functions named `law_..` state what
holds of several of them together.

## Layout

- `text`, `num`, `net`, `addr_text`: byte classes, numbers and addresses as text.
- `scalar`, `known`, `field`, `section`, `limits`, `hlist`, `error`: methods,
  statuses and versions, field names and values, field sections, limits and
  budgets, and the reasons for refusing a message.
- `framing`, `response`, `authority`, `path`, `expect`: what a message says about
  its body, its target and `Expect`.
- `cidr`, `forwarded`, `peer`: who sent it.
- `strip`, `canonical`: what is taken off, and the canonical form itself.
- `h1`: HTTP/1 on the wire. `parser`, `chunked` and `canonicalize` read,
  `serialize` writes.
- `addr_laws`, `h1::chunk_laws`, `h1::trailer_laws`, `h1::round_trip`,
  `h1::request_round_trip`, `h1::response_round_trip`: what is written reads back.
- `h1::split_laws`: how a chunked body arrives makes no difference. `chain_laws`:
  the lines of a forwarding field are one list.
- `ext`: what is taken on trust from the `bytes`, `memchr` and `smallvec` crates.
  Nothing else is.

There is no I/O here: a caller reads into a buffer, hands it over, and writes out
what it is given.
