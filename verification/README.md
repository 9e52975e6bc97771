# graphshell

Graphshell's host-side rules as a Verus library: who a resident host admits
and over which route, what a personal-sync lane refuses, what each device
projects and reports as a conflict, how disclosures and saved workspaces
are checked, and the small codes and names the host writes. Each public
function states its result in `requires` / `ensures` over spec functions.
Laws that span several calls stand as public proof functions (the
`lemma_*` items); the rest are stated in the `ensures` of the functions
they are about.

Layout:

- `src/` — the verified library, one module per concern (`lib.rs` lists
  them). Calls into outside crates (`blake3`, `uuid`, `base64`,
  `serde_json`) and the few std calls vstd does not specify sit behind small
  `#[verifier::external_body]` wrappers whose doc comments say what their
  contracts claim.
- `tests/` — runtime tests of the library.
- `app/` — ordinary Rust around the library: environment reads, file reads,
  serde wire forms and their conversions to the library's types.
