# parsed_email

A verified library for the parts of a DKIM-signed email: the canonicalized
header and body, the signature and public key, the headers grouped by name,
and the body with quoted-printable soft line breaks removed, together with
the fields (addresses, subject, timestamp, codes, commands) read out at the
byte ranges that a regex search reports.

- `src/soft_breaks.rs`: removal of `=\r\n` with the index map back to the
  input, and its laws (length, index map, padding, UTF-8).
- `src/headers.rs`: `EmailHeaders`, grouping of header fields by name.
- `src/email.rs`: `ParsedEmail`, its construction and its getters.
- `src/text.rs`: byte-range slices of UTF-8 text, `u64` parsing.
- `src/search.rs`: first occurrence of a pattern in a body.
- `src/trusted.rs`: the calls into mailparse, hex and std, with their contracts.
- `app/`: key fetching, DKIM canonicalization, regex searches and serde copies.
