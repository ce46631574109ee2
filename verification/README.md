# nix-hapi

A declarative reconciler for remote APIs.  The desired state is one JSON object with an entry per
provider instance; `nix-hapi plan` shows what would change, and `nix-hapi apply` makes the changes.

An instance may depend on others, by `dependsOn` jq expressions or by `derived-from` fields that
read what another instance reported.  Instances are grouped into waves: all instances of a wave
run in parallel, after all instances that they depend on.

## Layout

* `src/` is the verified library.  Its public functions state what they return, and proof
  functions whose names begin with `law_` state what holds between them.
  * `json`, `strmap`, `text`, `order`, `views`: values, ordered maps, text and stable sorting.
  * `jq_expr`, `field_value`, `meta`, `sources`: what the desired state is made of, and how files
    and environment variables enter into it.
  * `jq`, `guard`: the evaluation of jq expressions.  An expression that might end the process,
    panic or go on for ever is refused, by a test on its words and characters.
  * `graph`, `dag`, `derived`, `saturation`: dependencies, waves and derived fields.
  * `plan`, `provider`, `executor`, `report`, `config`, `logging`: plans, providers, and the
    decisions of a run.
  * `provider_host`, `subprocess`: both ends of the JSON-RPC protocol with provider binaries.
  * `ldap`, `reconcile`, `ignore`: the comparison of an LDAP directory with its desired state.
  * `fake`: a provider for tests.
* `app/` is the program: arguments, files, processes and tasks.
* `tests/` runs the library.

What the library takes from outside crates stands behind small functions with stated contracts:
`serde_json` reads and writes JSON text, `jaq` evaluates jq expressions, and `regex` matches
patterns.
