# stowaway

An agentless configuration deployment tool for Linux servers: per-machine
configuration lives in Git and reaches the hosts through the system `ssh`.

The decisions of the tool are a library verified with Verus; the program
around it reads files, runs `git` and `ssh`, and prints.

## Layout

- `src/config.rs`: the machine manifest and its validation (paths, targets,
  modes, scripts), with the law that validation accepts exactly the valid
  manifests.
- `src/paths.rs`, `src/text.rs`: path components, character and number text.
- `src/repository.rs`: assembling a deployment from the files of a machine
  directory, the deterministic content digest and its input layout.
- `src/framing.rs`: the digest input is unambiguous.
- `src/remote.rs`: shell quoting, the commands sent to a host, the replies it
  sends back, and the deployment transaction script.
- `src/shell.rs`: a model of how a POSIX shell splits those commands into
  words, and the laws that every value arrives as one word, unchanged.
- `src/commands.rs`: previews, diffs, status, apply and pull decisions.
- `src/external.rs`: the calls into `std`, `sha2`, `hex` and `similar` whose
  behaviour is assumed, each with its contract.
- `app/`: the command-line program (`clap`, `serde`/`toml`, files, `git`,
  `ssh`).
- `tests/`: tests of the library on concrete values.
