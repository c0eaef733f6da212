use vstd::prelude::*;

use crate::allocation::{
    find_free_range, free_range, lemma_free_range_is_free, lemma_free_range_settings, owns_id,
    range_is_free, span_end,
};
use crate::db::{db_content, entry_line, lemma_append_then_read};
use crate::queries::{holds_id, holds_range, ranges_of};
use crate::types::{subid_type, DbEntry, SubidConfig};

verus! {

/// Why a user gets no new range.
#[derive(Debug, Clone, Copy, PartialEq, Eq, Structural)]
pub enum AllocError {
    /// System users (uid below 1000) are never given a range automatically.
    SystemUid,
    /// First fit finds no room within the configured limits.
    NoFreeRange,
    /// Another range of the kind, recorded meanwhile, overlaps the one found.
    Conflict,
}

/// What to do once the database has been read again under the lock.
#[derive(Debug, Clone, Copy, PartialEq, Eq, Structural)]
pub enum Confirmation {
    /// The user holds this range already; nothing is written.
    Existing(u64, u64),
    /// Nothing is written.
    Refused(AllocError),
    /// Append this entry to the database.
    Append(DbEntry),
}

/// The first decision of an allocation, made on the database as first
/// read.
#[derive(Debug, Clone, Copy, PartialEq, Eq, Structural)]
pub enum FirstStep {
    /// The user holds this range already; it is the answer.
    Existing(u64, u64),
    /// No range is given.
    Refused(AllocError),
    /// Read the settings and look for a free range.
    Propose,
}

/// The first range of kind `ty` that `uid` holds, as `(start, count)`.
pub open spec fn existing_range(entries: Seq<DbEntry>, uid: u32, ty: subid_type) -> Option<
    (u64, u64),
>
    decreases entries.len(),
{
    if entries.len() == 0 {
        None
    } else {
        match existing_range(entries.drop_last(), uid, ty) {
            Some(r) => Some(r),
            None => {
                let e = entries.last();
                if e.uid == uid && e.id_type == ty {
                    Some((e.start, e.count))
                } else {
                    None
                }
            },
        }
    }
}

/// The first range of kind `id_type` that `uid` holds in `entries`.
pub fn existing_allocation(entries: &[DbEntry], uid: u32, id_type: subid_type) -> (r: Option<
    (u64, u64),
>)
    ensures
        r == existing_range(entries@, uid, id_type),
{
    let mut i: usize = 0;
    assert(entries@.take(0) =~= Seq::<DbEntry>::empty());
    while i < entries.len()
        invariant
            0 <= i <= entries@.len(),
            existing_range(entries@.take(i as int), uid, id_type) is None,
        decreases entries@.len() - i,
    {
        assert(entries@.take(i + 1).drop_last() =~= entries@.take(i as int));
        assert(entries@.take(i + 1).last() == entries@[i as int]);
        let e = entries[i];
        if e.uid == uid && e.id_type == id_type {
            proof {
                assert(existing_range(entries@.take(i + 1), uid, id_type) == Some((e.start, e.count)));
                lemma_existing_extends(entries@, i + 1, uid, id_type);
            }
            return Some((e.start, e.count));
        }
        i = i + 1;
    }
    assert(entries@.take(i as int) =~= entries@);
    None
}

/// An existing range wins, for system users too; otherwise a system user
/// (uid below 1000) is refused; otherwise a new range is to be proposed.
pub open spec fn first_step(entries: Seq<DbEntry>, uid: u32, ty: subid_type) -> FirstStep {
    match existing_range(entries, uid, ty) {
        Some((start, count)) => FirstStep::Existing(start, count),
        None => if uid < 1000 {
            FirstStep::Refused(AllocError::SystemUid)
        } else {
            FirstStep::Propose
        },
    }
}

/// Decides how an allocation of kind `id_type` for `uid` begins: with the
/// user's own first range of that kind where there is one, and otherwise
/// with a refusal for a system user or a proposal for any other.
pub fn begin_allocation(entries: &[DbEntry], uid: u32, id_type: subid_type) -> (r: FirstStep)
    ensures
        r == first_step(entries@, uid, id_type),
        r matches FirstStep::Existing(s, n) ==> exists|i: int|
            0 <= i < entries@.len() && #[trigger] entries@[i].uid == uid && entries@[i].id_type
                == id_type && entries@[i].start == s && entries@[i].count == n && forall|j: int|
                0 <= j < i ==> !(#[trigger] entries@[j].uid == uid && entries@[j].id_type
                    == id_type),
        (exists|i: int|
            0 <= i < entries@.len() && #[trigger] entries@[i].uid == uid && entries@[i].id_type
                == id_type) ==> r is Existing,
        (forall|i: int|
            0 <= i < entries@.len() ==> !(#[trigger] entries@[i].uid == uid
                && entries@[i].id_type == id_type)) ==> r == (if uid < 1000 {
            FirstStep::Refused(AllocError::SystemUid)
        } else {
            FirstStep::Propose
        }),
{
    proof {
        lemma_first_step(entries@, uid, id_type);
    }
    match existing_allocation(entries, uid, id_type) {
        Some((start, count)) => FirstStep::Existing(start, count),
        None => if auto_allocation_allowed(uid) {
            FirstStep::Propose
        } else {
            FirstStep::Refused(AllocError::SystemUid)
        },
    }
}

/// `existing_range` is the range of the first entry of the user and kind,
/// and is none exactly when no entry is of that user and kind.
pub proof fn lemma_existing_range_first(entries: Seq<DbEntry>, uid: u32, ty: subid_type)
    ensures
        existing_range(entries, uid, ty) matches Some((s, n)) ==> exists|i: int|
            0 <= i < entries.len() && #[trigger] entries[i].uid == uid && entries[i].id_type == ty
                && entries[i].start == s && entries[i].count == n && forall|j: int|
                0 <= j < i ==> !(#[trigger] entries[j].uid == uid && entries[j].id_type == ty),
        existing_range(entries, uid, ty) is None <==> forall|i: int|
            0 <= i < entries.len() ==> !(#[trigger] entries[i].uid == uid && entries[i].id_type
                == ty),
    decreases entries.len(),
{
    if entries.len() > 0 {
        let d = entries.drop_last();
        lemma_existing_range_first(d, uid, ty);
        let e = entries.last();
        match existing_range(d, uid, ty) {
            Some((s, n)) => {
                let i = choose|i: int|
                    0 <= i < d.len() && #[trigger] d[i].uid == uid && d[i].id_type == ty
                        && d[i].start == s && d[i].count == n && forall|j: int|
                        0 <= j < i ==> !(#[trigger] d[j].uid == uid && d[j].id_type == ty);
                assert(entries[i] == d[i]);
                assert forall|j: int| 0 <= j < i implies !(#[trigger] entries[j].uid == uid
                    && entries[j].id_type == ty) by {
                    assert(entries[j] == d[j]);
                }
                assert(!(forall|k: int|
                    0 <= k < entries.len() ==> !(#[trigger] entries[k].uid == uid
                        && entries[k].id_type == ty)));
            },
            None => {
                assert forall|j: int| 0 <= j < d.len() implies !(#[trigger] entries[j].uid == uid
                    && entries[j].id_type == ty) by {
                    assert(entries[j] == d[j]);
                    assert(!(d[j].uid == uid && d[j].id_type == ty));
                }
                assert(entries[entries.len() - 1] == e);
                if e.uid == uid && e.id_type == ty {
                    assert(!(forall|k: int|
                        0 <= k < entries.len() ==> !(#[trigger] entries[k].uid == uid
                            && entries[k].id_type == ty)));
                }
            },
        }
    }
}

/// How an allocation begins, in terms of the entries: a user who has an
/// entry of the kind gets the start and count of the first such entry of
/// their own; a user with none is refused if a system user (uid below
/// 1000) and otherwise given a proposal.
pub proof fn lemma_first_step(entries: Seq<DbEntry>, uid: u32, ty: subid_type)
    ensures
        first_step(entries, uid, ty) matches FirstStep::Existing(s, n) ==> exists|i: int|
            0 <= i < entries.len() && #[trigger] entries[i].uid == uid && entries[i].id_type == ty
                && entries[i].start == s && entries[i].count == n && forall|j: int|
                0 <= j < i ==> !(#[trigger] entries[j].uid == uid && entries[j].id_type == ty),
        (exists|i: int|
            0 <= i < entries.len() && #[trigger] entries[i].uid == uid && entries[i].id_type == ty)
            ==> first_step(entries, uid, ty) is Existing,
        (forall|i: int|
            0 <= i < entries.len() ==> !(#[trigger] entries[i].uid == uid && entries[i].id_type
                == ty)) ==> first_step(entries, uid, ty) == (if uid < 1000 {
            FirstStep::Refused(AllocError::SystemUid)
        } else {
            FirstStep::Propose
        }),
{
    lemma_existing_range_first(entries, uid, ty);
}

/// Once a prefix of `entries` names a range of a user, so do all of them.
proof fn lemma_existing_extends(entries: Seq<DbEntry>, k: int, uid: u32, ty: subid_type)
    requires
        0 <= k <= entries.len(),
        existing_range(entries.take(k), uid, ty) is Some,
    ensures
        existing_range(entries, uid, ty) == existing_range(entries.take(k), uid, ty),
    decreases entries.len() - k,
{
    if k < entries.len() {
        assert(entries.take(k + 1).drop_last() =~= entries.take(k));
        lemma_existing_extends(entries, k + 1, uid, ty);
    } else {
        assert(entries.take(k) =~= entries);
    }
}

/// The entry that a new allocation of kind `ty` for `uid` would record:
/// none for a system user, and otherwise the range that first fit finds.
pub open spec fn proposal(entries: Seq<DbEntry>, uid: u32, ty: subid_type, cfg: SubidConfig) -> Result<
    DbEntry,
    AllocError,
> {
    if uid < 1000 {
        Err(AllocError::SystemUid)
    } else {
        match free_range(entries, ty, cfg) {
            None => Err(AllocError::NoFreeRange),
            Some((start, count)) => Ok(DbEntry { uid, start, count, id_type: ty }),
        }
    }
}

/// Whether a user may be given a range automatically: system users (uid
/// below 1000) may not.
pub fn auto_allocation_allowed(uid: u32) -> (r: bool)
    ensures
        r == (uid >= 1000),
{
    uid >= 1000
}

/// Chooses the entry to record for a user who holds no range of kind
/// `id_type` yet.
pub fn propose_allocation(
    entries: &[DbEntry],
    uid: u32,
    id_type: subid_type,
    cfg: &SubidConfig,
) -> (r: Result<DbEntry, AllocError>)
    ensures
        r == proposal(entries@, uid, id_type, *cfg),
        uid < 1000 ==> r == Err::<DbEntry, AllocError>(AllocError::SystemUid),
        uid >= 1000 ==> r == match free_range(entries@, id_type, *cfg) {
            Some((s, n)) => Ok(DbEntry { uid, start: s, count: n, id_type }),
            None => Err(AllocError::NoFreeRange),
        },
        r matches Ok(p) ==> {
            &&& p.uid == uid
            &&& p.id_type == id_type
            &&& id_type == subid_type::IdTypeUid ==> p.count == cfg.uid_count && cfg.uid_min
                <= p.start && p.start + p.count - 1 <= cfg.uid_max
            &&& id_type == subid_type::IdTypeGid ==> p.count == cfg.gid_count && cfg.gid_min
                <= p.start && p.start + p.count - 1 <= cfg.gid_max
            &&& range_is_free(entries@, id_type, p.start as int, p.count as int)
        },
{
    proof {
        lemma_proposal_is_first_fit(entries@, uid, id_type, *cfg);
    }
    if !auto_allocation_allowed(uid) {
        return Err(AllocError::SystemUid);
    }
    match find_free_range(entries, id_type, cfg) {
        None => Err(AllocError::NoFreeRange),
        Some((start, count)) => Ok(DbEntry { uid, start, count, id_type }),
    }
}

/// Two entries of one kind overlap: each starts before the other ends.
pub open spec fn overlaps(a: DbEntry, b: DbEntry) -> bool {
    a.id_type == b.id_type && a.start < b.start + b.count && b.start < a.start + a.count
}

/// The decision on `p` against the entries read under the lock: the
/// user's existing range if one appeared meanwhile, a conflict if `p`
/// overlaps an entry of its kind, and otherwise to append `p`.
pub open spec fn confirmation(entries: Seq<DbEntry>, p: DbEntry) -> Confirmation {
    match existing_range(entries, p.uid, p.id_type) {
        Some((start, count)) => Confirmation::Existing(start, count),
        None => if exists|i: int| 0 <= i < entries.len() && #[trigger] overlaps(p, entries[i]) {
            Confirmation::Refused(AllocError::Conflict)
        } else {
            Confirmation::Append(p)
        },
    }
}

/// Checks a proposed entry against the database as read again under the
/// lock.
pub fn confirm_allocation(entries: &[DbEntry], proposed: &DbEntry) -> (r: Confirmation)
    ensures
        r == confirmation(entries@, *proposed),
{
    match existing_allocation(entries, proposed.uid, proposed.id_type) {
        Some((start, count)) => {
            return Confirmation::Existing(start, count);
        },
        None => {},
    }
    assert(existing_range(entries@, proposed.uid, proposed.id_type) is None);
    let mut i: usize = 0;
    while i < entries.len()
        invariant
            0 <= i <= entries@.len(),
            existing_range(entries@, proposed.uid, proposed.id_type) is None,
            forall|k: int| 0 <= k < i ==> !#[trigger] overlaps(*proposed, entries@[k]),
        decreases entries@.len() - i,
    {
        let e = entries[i];
        if e.id_type == proposed.id_type {
            let e_end = e.start as u128 + e.count as u128;
            let n_end = proposed.start as u128 + proposed.count as u128;
            if (proposed.start as u128) < e_end && (e.start as u128) < n_end {
                assert(overlaps(*proposed, entries@[i as int]));
                return Confirmation::Refused(AllocError::Conflict);
            }
        }
        i = i + 1;
    }
    Confirmation::Append(*proposed)
}


// ---------------------------------------------------------------------------
// What allocation keeps
// ---------------------------------------------------------------------------

/// No two entries of one kind share an id.
pub open spec fn no_overlaps(entries: Seq<DbEntry>) -> bool {
    forall|i: int, j: int|
        0 <= i < j < entries.len() ==> !#[trigger] overlaps(entries[i], entries[j])
}

/// No user has two entries of one kind.
pub open spec fn one_range_per_user(entries: Seq<DbEntry>) -> bool {
    forall|i: int, j: int|
        0 <= i < j < entries.len() ==> !(#[trigger] entries[i].uid == #[trigger] entries[j].uid
            && entries[i].id_type == entries[j].id_type)
}

proof fn lemma_existing_none(entries: Seq<DbEntry>, uid: u32, ty: subid_type)
    requires
        existing_range(entries, uid, ty) is None,
    ensures
        forall|i: int|
            0 <= i < entries.len() ==> !(#[trigger] entries[i].uid == uid && entries[i].id_type
                == ty),
    decreases entries.len(),
{
    if entries.len() > 0 {
        let d = entries.drop_last();
        lemma_existing_none(d, uid, ty);
        assert forall|i: int| 0 <= i < entries.len() implies !(#[trigger] entries[i].uid == uid
            && entries[i].id_type == ty) by {
            if i < d.len() {
                assert(entries[i] == d[i]);
            }
        }
    }
}

/// The range a user holds stays what allocation returns for that user
/// whatever is appended to the database later.
pub proof fn lemma_existing_stable(entries: Seq<DbEntry>, more: Seq<DbEntry>, uid: u32, ty: subid_type)
    requires
        existing_range(entries, uid, ty) is Some,
    ensures
        existing_range(entries + more, uid, ty) == existing_range(entries, uid, ty),
{
    assert((entries + more).take(entries.len() as int) =~= entries);
    lemma_existing_extends(entries + more, entries.len() as int, uid, ty);
}

/// Appending a confirmed entry keeps the database free of overlapping
/// ranges and of second ranges for one user and kind, and makes the new
/// entry the range that allocation returns for its user and kind.
pub proof fn lemma_append_confirmed(entries: Seq<DbEntry>, p: DbEntry)
    requires
        confirmation(entries, p) == Confirmation::Append(p),
    ensures
        existing_range(entries.push(p), p.uid, p.id_type) == Some((p.start, p.count)),
        no_overlaps(entries) ==> no_overlaps(entries.push(p)),
        one_range_per_user(entries) ==> one_range_per_user(entries.push(p)),
{
    let n = entries.push(p);
    assert(n.drop_last() =~= entries);
    lemma_existing_none(entries, p.uid, p.id_type);
    assert forall|i: int| 0 <= i < entries.len() implies !#[trigger] overlaps(entries[i], p) by {
        assert(!overlaps(p, entries[i]));
    }
    if no_overlaps(entries) {
        assert forall|i: int, j: int| 0 <= i < j < n.len() implies !#[trigger] overlaps(n[i], n[j]) by {
            assert(n[i] == entries[i]);
            if j < entries.len() {
                assert(n[j] == entries[j]);
            } else {
                assert(n[j] == p);
            }
        }
    }
    if one_range_per_user(entries) {
        assert forall|i: int, j: int| 0 <= i < j < n.len() implies !(#[trigger] n[i].uid
            == #[trigger] n[j].uid && n[i].id_type == n[j].id_type) by {
            assert(n[i] == entries[i]);
            if j < entries.len() {
                assert(n[j] == entries[j]);
            } else {
                assert(n[j] == p);
            }
        }
    }
}

/// A new range is for a non-system user, of the kind asked for; and when
/// the database has not changed by the time it is read again under the
/// lock, the check there lets it be appended.
pub proof fn lemma_proposal_confirmed(entries: Seq<DbEntry>, uid: u32, ty: subid_type, cfg: SubidConfig)
    requires
        existing_range(entries, uid, ty) is None,
    ensures
        proposal(entries, uid, ty, cfg) matches Ok(p) ==> {
            &&& p.uid == uid
            &&& uid >= 1000
            &&& p.id_type == ty
            &&& confirmation(entries, p) == Confirmation::Append(p)
        },
{
    lemma_free_range_is_free(entries, ty, cfg);
    if let Ok(p) = proposal(entries, uid, ty, cfg) {
        assert forall|i: int| 0 <= i < entries.len() implies !#[trigger] overlaps(p, entries[i]) by {
            if entries[i].id_type == ty {
                assert(span_end(entries[i]) <= p.start || p.start + p.count <= entries[i].start);
            }
        }
    }
}

/// After a confirmed entry's line is appended to a database text that is
/// empty or ends in a newline, reading the database back gives the
/// entries read before followed by the new one, and the next allocation
/// for that user and kind returns the new range.
pub proof fn lemma_allocation_persists(content: Seq<u8>, p: DbEntry)
    requires
        content.len() == 0 || content.last() == 10u8,
        db_content(content) is Some,
        confirmation(db_content(content).unwrap(), p) == Confirmation::Append(p),
    ensures
        db_content(content + entry_line(p)) == Some(db_content(content).unwrap().push(p)),
        existing_range(db_content(content + entry_line(p)).unwrap(), p.uid, p.id_type) == Some(
            (p.start, p.count),
        ),
{
    lemma_append_then_read(content, p);
    lemma_append_confirmed(db_content(content).unwrap(), p);
}


/// The range that allocation returns for a user is an entry of that user
/// and kind: `has_range` finds every id of it held, and `list_ranges` lists
/// it.
pub proof fn lemma_existing_is_held(entries: Seq<DbEntry>, uid: u32, ty: subid_type)
    ensures
        existing_range(entries, uid, ty) matches Some((start, count)) ==> {
            &&& ranges_of(entries, uid, ty).contains((start, count))
            &&& holds_range(entries, uid, ty, start as int, count as int)
        },
    decreases entries.len(),
{
    if entries.len() > 0 {
        let d = entries.drop_last();
        let e = entries.last();
        lemma_existing_is_held(d, uid, ty);
        let r = ranges_of(entries, uid, ty);
        let q = ranges_of(d, uid, ty);
        match existing_range(d, uid, ty) {
            Some((start, count)) => {
                let m = choose|m: int| 0 <= m < q.len() && q[m] == (start, count);
                assert(r[m] == q[m]);
                assert forall|id: int| start <= id < start + count implies #[trigger] holds_id(
                    entries,
                    uid,
                    ty,
                    id,
                ) by {
                    assert(holds_id(d, uid, ty, id));
                    let i = choose|i: int|
                        0 <= i < d.len() && d[i].uid == uid && #[trigger] owns_id(d[i], ty, id);
                    assert(entries[i] == d[i]);
                }
            },
            None => {
                if e.uid == uid && e.id_type == ty {
                    assert(r[r.len() - 1] == (e.start, e.count));
                    assert(entries[entries.len() - 1] == e);
                    assert forall|id: int| e.start <= id < e.start + e.count implies #[trigger] holds_id(
                        entries,
                        uid,
                        ty,
                        id,
                    ) by {
                        assert(owns_id(entries[entries.len() - 1], ty, id));
                    }
                }
            },
        }
    }
}


/// A system user (uid below 1000) is always refused; any other user gets
/// exactly the range that first fit finds for the kind, recorded under
/// their uid, and is refused only when first fit finds none. The range
/// lies within the settings of its kind and holds no id of an entry of
/// that kind.
pub proof fn lemma_proposal_is_first_fit(entries: Seq<DbEntry>, uid: u32, ty: subid_type, cfg: SubidConfig)
    ensures
        uid < 1000 ==> proposal(entries, uid, ty, cfg) == Err::<DbEntry, AllocError>(
            AllocError::SystemUid,
        ),
        uid >= 1000 ==> proposal(entries, uid, ty, cfg) == match free_range(entries, ty, cfg) {
            Some((s, n)) => Ok(DbEntry { uid, start: s, count: n, id_type: ty }),
            None => Err(AllocError::NoFreeRange),
        },
        proposal(entries, uid, ty, cfg) matches Ok(p) ==> {
            &&& p.uid == uid
            &&& p.id_type == ty
            &&& ty == subid_type::IdTypeUid ==> p.count == cfg.uid_count && cfg.uid_min <= p.start
                && p.start + p.count - 1 <= cfg.uid_max
            &&& ty == subid_type::IdTypeGid ==> p.count == cfg.gid_count && cfg.gid_min <= p.start
                && p.start + p.count - 1 <= cfg.gid_max
            &&& range_is_free(entries, ty, p.start as int, p.count as int)
        },
{
    lemma_free_range_settings(entries, ty, cfg);
}

/// What the check under the lock decides, in terms of the entries: the
/// start and count of the first entry of the proposal's user and kind if
/// there is one; otherwise a conflict exactly when an entry of the kind
/// overlaps the proposal; otherwise the proposal itself is appended.
pub proof fn lemma_confirmation_outcomes(entries: Seq<DbEntry>, p: DbEntry)
    ensures
        match confirmation(entries, p) {
            Confirmation::Existing(s, n) => exists|i: int|
                0 <= i < entries.len() && #[trigger] entries[i].uid == p.uid && entries[i].id_type
                    == p.id_type && entries[i].start == s && entries[i].count == n && forall|j: int|
                    0 <= j < i ==> !(#[trigger] entries[j].uid == p.uid && entries[j].id_type
                        == p.id_type),
            Confirmation::Refused(e) => {
                &&& e == AllocError::Conflict
                &&& forall|i: int|
                    0 <= i < entries.len() ==> !(#[trigger] entries[i].uid == p.uid
                        && entries[i].id_type == p.id_type)
                &&& exists|i: int|
                    0 <= i < entries.len() && #[trigger] entries[i].id_type == p.id_type && p.start
                        < entries[i].start + entries[i].count && entries[i].start < p.start
                        + p.count
            },
            Confirmation::Append(q) => {
                &&& q == p
                &&& forall|i: int|
                    0 <= i < entries.len() ==> !(#[trigger] entries[i].uid == p.uid
                        && entries[i].id_type == p.id_type)
                &&& forall|i: int|
                    0 <= i < entries.len() && #[trigger] entries[i].id_type == p.id_type ==> (
                    entries[i].start + entries[i].count <= p.start || p.start + p.count
                        <= entries[i].start)
            },
        },
{
    lemma_existing_range_first(entries, p.uid, p.id_type);
    match confirmation(entries, p) {
        Confirmation::Refused(e) => {
            let i = choose|i: int| 0 <= i < entries.len() && #[trigger] overlaps(p, entries[i]);
            assert(entries[i].id_type == p.id_type);
        },
        Confirmation::Append(q) => {
            assert forall|i: int|
                0 <= i < entries.len() && #[trigger] entries[i].id_type == p.id_type implies (
            entries[i].start + entries[i].count <= p.start || p.start + p.count
                <= entries[i].start) by {
                assert(!overlaps(p, entries[i]));
            }
        },
        _ => {},
    }
}

} // verus!
