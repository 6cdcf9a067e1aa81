# vireo_mail

How a mail reader leaves mailing lists, with every step verified by Verus:
reading the `List-Unsubscribe` family of headers (RFC 2369, RFC 8058), taking
`mailto:` handles apart (RFC 6068), making the one-click request. Beside it, the
right-click extension for GNOME Files: where it goes, whether the copy there is
this build's, and the steps that install and remove it.

- `src/` is the verified library. It does no input or output.
- `src/laws/` states, as proof functions, what holds across its functions.
- `tests/` runs the library on concrete values.
- `app/` is the ordinary Rust around it: network, files, session bus, and the
  text of the extension. The library holds for every such text.

What the library rests on without proof: `String::push` and
`String::from_utf8_lossy` of the standard library, and `mail_parser` (its
`parse_headers`, with every header kept raw) finding the same headers in the same
bytes.
