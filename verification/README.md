# scip_cli

A converter from one SCIP index and its source tree to a static code browser, with the
logic written in Verus and proved against its contracts.

- `src/` is the verified library:
  - `text`, `paths`, `order`, `assoc`: characters, path components, a stable sort by text
    key, and a small association table;
  - `template`: `{name}` placeholder expansion;
  - `config`, `inheritance`: profile rules, reading profile documents from YAML text, and
    `extends` inheritance of those documents;
  - `generator`: the paths, variables and program runs of index generation;
  - `decode`: the documents of an index from its protobuf bytes, message by message;
  - `index`, `columns`, `definitions`, `documents`, `render`, `file_data`: the documents of
    an index, column conversion to UTF-16, first definitions, merging of duplicate
    documents, one occurrence row per range, and the data of one browser file;
  - `site`: route names, repository slugs, the catalog of published projects;
  - `function_docs`: the function index and its SHA-256 document keys.
- `app/` is the command line: reading the index and sources, writing the site, running
  programs for index generation.
- `tests/` runs the library on concrete values.

The browser shell (`index.html`, `app.js`, `style.css`) is read at run time from the
directory given by `--assets-dir`.
