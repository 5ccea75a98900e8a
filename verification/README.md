# pub-cli

The Public Software organization CLI (`pub`), with its rules and plans written in Verus and
proved.

- `src/` is the verified library:
  - `catalog`: the catalog model, the schema's rules (`validate`, `is_repo_name`, `is_login`,
    `is_layer`), where the catalog file is found, repositories by ring;
  - `render`: the ring tables of the organization README;
  - `sync`: the GitHub state each repository should have (description, homepage, topics,
    custom properties, labels), what GitHub reports read from its JSON, and the writes that
    get there;
  - `new`: `pub new` in memory: component names, the placeholder vocabulary, substitution,
    normalization, binary files, the skeleton's file listing, the rendered crate and its
    `[[component]]` entry;
  - `gh`: percent-encoding of a path segment, and how the output of one `gh api` process is
    read: an empty body, a JSON body, a 404, or an error naming the call;
  - `text`: character-level helpers the others share.
- `app/` is the binary: the command line, reading and writing files, running `git` and `gh`,
  the JSON bodies of writes, and the serde copies of the catalog and label types.
- `tests/` runs the library on the cases the CLI documents.
