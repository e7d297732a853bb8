# envoy_render

Assembles an Envoy configuration from a template directory.

`base.yaml` holds everything shared: the listeners, the catch-all route, the
loopback clusters and the Lua filter. Each file in `upstreams/` holds one
upstream's routes, clusters and key-slot settings. A file `acme.yaml` is the
upstream `acme`; of `acme.cloud.yaml` and `acme.direct.yaml`, a selection picks
one.

Rendering takes three steps:

1. Every `__GM_<NAME>__` token in a file's text is replaced with the variable
   `GM_<NAME>`, in one pass from left to right. Inserted values are never scanned
   again, and a variable without a value is an error.
2. The files are read as YAML, and each upstream's routes and clusters are put
   into the base at the `gm:upstream-routes` and `gm:upstream-clusters` markers.
   Every upstream route gets the internal headers among those that it removes.
3. The Lua `slot_config` table is built from the upstreams' `slots` blocks and the
   `GM_<PROVIDER>_SLOT_IDS` variables, and takes the place of
   `__GM_SLOT_CONFIG__` in the base.

The result is JSON, so that no scalar can be retyped on the way into Envoy.

## Layout

- `src/` is the verified library. `render` states what comes out of the texts of
  the files, of a lookup of variables and of a reader of upstream files.
  `tokens`, `files`, `selection`, `load`, `lua`, `headers` and `splice` hold its
  steps, each with what holds of it for all inputs as public proof functions.
  `yaml` holds the calls into `serde_yaml_ng` and `serde_json`.
- `app/` reads the directory and the format of upstream files.
- `tests/` runs the library.
