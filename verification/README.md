# storage

File storage for an Internet Computer canister: files arrive in chunks, are
published under their path once every chunk is in, and their content is kept
once per SHA-256 digest however many paths name it. The library's logic is
written in Verus and proved against its contracts.

## Layout

- `src/upload.rs`: the upload request types, the limits, and the checks on
  paths, headers, sizes, chunk layout and request batches.
- `src/state.rs`: the storage state (published files, stored contents, the
  digest-to-paths index, uploads in progress), its well-formedness invariant,
  uploading, publishing, deleting, listing, downloading and the upgrade
  snapshot parts.
- `src/assets.rs`, `src/digest.rs`: stored contents, published files, digests
  and their hexadecimal text.
- `src/permission.rs`: the permission names and kinds, the request guards,
  and how permissions move to a new version.
- `src/laws.rs`: what holds across operations, among them that uploading every
  chunk of a file publishes it with its size, headers and digest, and that
  reading any range of it that fits a direct query then gives that range of
  the file (a whole download needs the whole file to fit one). Uploading and
  deleting keep the storage within its limits on uploads in progress and on
  stored and buffered bytes.
- `src/topics.rs`, `src/explore.rs`, `src/example.rs`: record topics, the
  explorer page text, and the template's example records.
- `app/`: the canister around the library (heap, lifecycle hooks, endpoints,
  serialization), which Verus does not check.
- `tests/`: tests of the library on concrete values.
