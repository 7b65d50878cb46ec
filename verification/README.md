# nix_cache_pin

Pins nixpkgs-style flake inputs to the newest revision at which every
required package has a binary cache hit, watching optional wish packages and
refusing to move a pin backwards.

The decision logic is a Verus library whose behaviour is stated in
`requires`/`ensures` contracts and proved:

- `config`, `merge`: pin requirements, and combining those that target the
  same flake input (different inputs are never merged).
- `version`: version gates (`target`, `taints`) over `semver` comparators.
- `hydra`, `narinfo`, `github`: job URLs, evaluation records, narinfo
  lookups across caches, closure walks, commit listings, revision ordering.
- `orchestrate`: the target search as a state machine that names each
  outside step and is told what it found, with the wish-package gates
  before it starts and at the revision it finds.
- `runner`, `transaction`, `flake_update`, `manifest`: the revision policy
  that guards every write, the staging and commit order of `flake.nix`,
  `flake.lock` and `cache-pin.lock.json`, and the lock-graph merge.
- `commit`: renaming the staged files into place as one recoverable step,
  rolling back every moved-aside destination when a rename fails.
- `plan`: the read-only plan with its blocking diagnostics.
- `source_pins`: the Nix sidecar of Cargo git-dependency hashes.
- `text`, `textmap`, `pattern`, `report`, `error`: strings, ordered text
  maps, regular expressions, progress lines and error messages.

`app/` holds the programs (`cache-pin`, `cache-pin-source-pins`,
`narinfo-check`, `hydra-query`, `nix-eval-store-path`, chosen by the name
the binary runs under): argument parsing, HTTP, processes, files, threads and
terminal output, driving the library.

`tests/` exercises the library on concrete values.
