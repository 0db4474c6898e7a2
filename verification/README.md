# rolldown_dx_cache

The machine caches of a JavaScript bundler, and the rules of the plugins around them, verified
with Verus.

A *machine artifact* is a compact binary form of something that was parsed before: a JSON module, a
`package.json`, a `tsconfig.json`, the name of a CSS bundle. It lies beside a metadata document that
records the digests of the source and of the artifact. An artifact is used only where both digests
agree with what is on disk; otherwise the source is parsed as ever, and the artifact is written
anew.

- `src/` is the library. Its verified functions have contracts over mathematical models: sequences
  of bytes and characters, maps, and the layout of each payload.
  - text and bytes: `text`, `text_edit`, `codec`, `decimal`, `digest`, `json_escape`, `json_text`,
    `base64_text`, `pattern`, `name_set`
  - paths: `path_text`, `directory`, `css_path`
  - the cache: `cache_name`, `metadata`, `machine_cache`, `machine_write`, `shared_map`
  - what is cached: `core_json`, `json_parse`, `json_module`, `package_json`, `package_json_cache`,
    `tsconfig`, `tsconfig_cache`, `css_name`
  - the CSS of a bundle: `css_text`, `css_url`, `css_asset`, `css_chunk`, `css_bundle`, `css_prune`
  - `module_source`, `file_system`
- `tests/` runs the library with the crates that it calls.
- `app/` is the ordinary Rust around it: files, the environment, typed documents, the AST, and the
  plugin host.

Calls into other crates stand behind small functions whose contracts are stated, not proved; each
says in its doc comment which function it calls and what is claimed of it.
