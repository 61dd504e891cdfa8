# ikigai_core

A resource-resolution kernel's identity model and resolution rules, written in
Verus with their contracts proved.

- `src/` is the verified library: IRIs and URI templates, capabilities,
  requests and their content-addressed identity, representations and cache
  expiry, golden-thread invalidation, the bounded representation cache, alias
  rewriting, endpoint self-descriptions and their Turtle projection,
  transreptor and action selection, the kernel's routing, gating and readouts,
  and the builtin and file endpoints' decisions. Laws are public proof
  functions (`lemma_*`) beside the code they are about.
- `tests/` runs the library on concrete values.
- `app/` is the host around it: spaces and endpoints as trait objects, the
  async invocation and issue paths, the kernel that drives them, environment
  and filesystem access, and the JSON form of descriptions.
