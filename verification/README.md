# ipmark

Marks up the IP addresses in text with their geo-locations, read from the
QQWry database (IPv4), the ZXInc IPDB database (IPv6) or MaxMind records.

```sh
echo 1.1.1.1 | ipmark
1.1.1.1(澳大利亚 APNIC/CloudFlare公共DNS服务器)
```

Layout:

- `src/` — the verified library (Verus):
  - `bytes.rs`: little-endian integers in a buffer;
  - `text.rs`: decoding of stored strings, whitespace trimming, joining,
    replacing, decimal digits;
  - `qqwry.rs`: the QQWry reader, with the laws of its binary search and of
    its redirections, and the dotted-quad law of its address parser;
  - `ipv6wry.rs`: the IPDB reader, with the law of its binary search;
  - `markup.rs`: the note of an address, the markup of a line, the LRU
    cache of notes and the law that the cache changes no note;
  - `error.rs`: errors.
- `tests/` — tests of the library.
- `app/` — the command line: file and stdin I/O, argument parsing, parsing
  of address texts with std, and MaxMind lookups.
