# unidpp-signatif

The trust layer of digital product passports, written in Rust and verified with
Verus: who may sign what, under which delegated scope, until when, and what a
verifier may conclude from what it was handed.

Everything under `src/` is verified. Each function states what it returns, for
every input it accepts; the properties that span several functions stand beside
them as public proof functions.

## What is where

| Modules | Subject |
| --- | --- |
| `sign`, `keyring`, `signer`, `digest`, `canon` | signature slots in separated domains, co-signatures and composites, key pairs and key ids, canonical bytes |
| `graph` (`search`, `walk`), `scope` | the delegation graph, narrowing scopes, and the search for a path from an anchored root to a key |
| `revoke`, `taint`, `lineage` | declarations of distrust, windows, and the taints that follow the ancestry of a passport |
| `anchor`, `merkle`, `spine_anchor` | the transparency log: roots, inclusion and consistency proofs, signed heads |
| `verify` | the pipeline that puts these together, and verifications as of a moment in the past |
| `threshold` (`any_order`, `material`), `curve`, `lagrange`, `ceremony`, `confium` (`bridge`, `mock`) | M-of-K root keys over Ed25519 and the ceremonies that use them |
| `envelope` | one payload sealed for several recipients, each under their own key establishment |
| `grid`, `segments`, `exchange`, `s13`, `sovereign`, `acceptance`, `dossier`, `frozen` | segment policies, spines, questions and answers, sovereign attestations, and the bundles that carry them across a border |
| `party`, `accreditation`, `declaration`, `device`, `hierarchy`, `provenance`, `scheme`, `transport`, `signed_profile`, `rollup`, `manifest` | the parties, their grants and declarations, devices, hierarchies, provenance coverage, recognition between schemes, delivery, profiles, roll-ups and deployments |
| `text`, `bytes`, `sets`, `maps`, `time`, `json` | the plain data underneath |

`tests/` runs the library against the real cryptography. `app/` is the command
line: `ceremony` runs threshold ceremonies on files, `device-drill` shows device
credentials at work; it also holds the JSON forms of dossiers and manifests.

## What is believed

The computations of `sha2`, `hkdf`, `aes-gcm`, `ed25519-dalek`, `p256`,
`curve25519-dalek`, `x25519-dalek`, `ml-kem` and `serde_json` are called, not
verified. Each call stands in one small function marked
`#[verifier::external_body]`, whose comment says what is taken for granted about
it. All of them are in `digest`, `curve`, `envelope`, `keyring`, `json` and
`text`.
