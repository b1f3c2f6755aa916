# codewiki

Query GitHub repository wikis through Google Code Wiki, with the logic proved
by Verus.

- `src/` is the verified library: the `batchexecute` request and response
  framing (`boq`), the JSON model (`json`), reading a wiki out of an RPC payload
  (`wiki`), link rewriting (`links`), rendering (`render`), file names
  (`filename`), splitting a wiki into files (`split`), the output header
  (`output`), the client's requests, bootstrap and cache decisions (`client`),
  and the command-line grammar (`cli`, `commands`). Calls into `urlencoding`,
  `serde_json` and `regex` sit behind small trusted wrappers whose contracts
  name what they return.
- `app/` is the `codewiki` program: argument parsing through clap, HTTPS through
  reqwest and tokio, the bootstrap cache file, and printing.
- `tests/` runs the library on concrete inputs.
