# subid

Allocation of subordinate uid and gid ranges, recorded in an append-only
database of `uid:start:count:type` lines, for an NSS subid module and a PAM
account hook.

- `src/` — the verified library (Verus):
  - `types.rs`: the plain types and the default settings;
  - `text.rs`: UTF-8 decoding, lines, trimming, splitting on whitespace or a separator;
  - `decimal.rs`: reading and writing unsigned decimal numbers;
  - `login_defs.rs`: the `SUB_UID_*` / `SUB_GID_*` settings of `login.defs`;
  - `db.rs`: reading the database text and writing an entry's line, and the law that a read gives back what was appended;
  - `allocation.rs`: first-fit search for a free range, and what it guarantees;
  - `queries.rs`: `has_range`, `list_ranges`, `find_owners`;
  - `planning.rs`: the decisions of an allocation and the invariants they keep.
- `app/` — file access, `flock`, user lookup, and the C interface (`shadow_subid_*`, `pam_sm_acct_mgmt`).
- `tests/` — tests of the library.
