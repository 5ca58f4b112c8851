# git-forensic

A reader for the Git object store and a forensic auditor over it, written in
Verus: the reading and the auditing are proved against their specifications.

The library (`src/`) works on an image of a `.git` directory — the bytes of
`HEAD`, `packed-refs`, the files under `refs/` and `logs/`, the loose object
files and the pack indexes with their packs — and reads from it:

- loose objects (zlib, header, SHA-1 check) and pack v2 objects, resolving
  `OFS_DELTA` / `REF_DELTA` chains up to a depth guard;
- commits, trees, blobs, the first-parent commit walk;
- refs (loose, packed, symbolic) and reflogs.

The auditor grades what it observes, each as an observation, not a conclusion:

| Code | Severity | What it observes |
|---|---|---|
| `GIT-COMMIT-TIME-INVERSION` | Medium | committer time before author time |
| `GIT-HISTORY-REWRITE` | Medium | a reflog entry of a history-rewriting operation |
| `GIT-UNSIGNED-IN-SIGNED-HISTORY` | Medium | an unsigned commit in a predominantly signed history |
| `GIT-UNREACHABLE-OBJECT` | Medium / Low | an object reachable from no ref (a commit / anything else) |

It also builds the attribution timeline (author and committer events in time
order) and the distinct identities of a history.

`app/` holds what stays outside the proofs: loading a `.git` directory from
disk, the error type with its messages, and the `forensicnomicon` report
vocabulary (`Observation`, `Finding`, `Source`) for the anomalies.

Layout of `src/`: `hash`, `text`, `strings` (bytes and text), `commit`,
`tree`, `object`, `loose`, `pack`, `checksum` (zlib and SHA-1), `files` (the
directory image), `repo`, `refs`, `reflog`, `index` (a hash-keyed index of
names), `seqs`; the auditors `anomaly`, `rewrites`, `signatures`,
`attribution`, `reachability`, `unreachable`, with `report`.
