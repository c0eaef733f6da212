use vstd::prelude::*;

use crate::allocation::{owns_id, span_end};
use crate::types::{subid_type, DbEntry};

verus! {

// ---------------------------------------------------------------------------
// Does a user hold a range?
// ---------------------------------------------------------------------------

/// `start..start + count` overflows `u64`.
#[derive(Debug, Clone, Copy, PartialEq, Eq, Structural)]
pub enum RangeOverflow {
    Overflow,
}

/// Some entry of `uid` holds id `id` of kind `ty`.
pub open spec fn holds_id(entries: Seq<DbEntry>, uid: u32, ty: subid_type, id: int) -> bool {
    exists|i: int| 0 <= i < entries.len() && entries[i].uid == uid && #[trigger] owns_id(entries[i], ty, id)
}

/// Every id of `start..start + count` of kind `ty` is held by some entry of
/// `uid`.
pub open spec fn holds_range(
    entries: Seq<DbEntry>,
    uid: u32,
    ty: subid_type,
    start: int,
    count: int,
) -> bool {
    forall|id: int| start <= id < start + count ==> #[trigger] holds_id(entries, uid, ty, id)
}

/// The end of an entry of `uid` of kind `ty` that holds `id`, if one does.
fn find_cover(entries: &[DbEntry], uid: u32, ty: subid_type, id: u128) -> (r: Option<u128>)
    ensures
        match r {
            Some(end) => exists|i: int|
                0 <= i < entries@.len() && entries@[i].uid == uid && entries@[i].id_type == ty
                    && entries@[i].start <= id && end == span_end(entries@[i]) && id < end,
            None => !holds_id(entries@, uid, ty, id as int),
        },
{
    let mut i: usize = 0;
    while i < entries.len()
        invariant
            0 <= i <= entries@.len(),
            forall|k: int|
                0 <= k < i ==> !(entries@[k].uid == uid && #[trigger] owns_id(
                    entries@[k],
                    ty,
                    id as int,
                )),
        decreases entries@.len() - i,
    {
        let e = entries[i];
        let end = e.start as u128 + e.count as u128;
        if e.uid == uid && e.id_type == ty && e.start as u128 <= id && id < end {
            assert(entries@[i as int] == e);
            return Some(end);
        }
        assert(!(entries@[i as int].uid == uid && owns_id(entries@[i as int], ty, id as int)));
        i = i + 1;
    }
    None
}

/// Whether `uid` holds every id of kind `id_type` from `start` to
/// `start + count` (one entry or several together); an error where
/// `start + count` overflows `u64`.
pub fn has_range(entries: &[DbEntry], uid: u32, start: u64, count: u64, id_type: subid_type) -> (r:
    Result<bool, RangeOverflow>)
    ensures
        match r {
            Err(_) => start + count > u64::MAX,
            Ok(b) => {
                &&& start + count <= u64::MAX
                &&& b == holds_range(entries@, uid, id_type, start as int, count as int)
            },
        },
{
    let end = match start.checked_add(count) {
        Some(v) => v as u128,
        None => return Err(RangeOverflow::Overflow),
    };
    let mut cursor: u128 = start as u128;
    while cursor < end
        invariant
            start <= cursor <= 0x2_0000_0000_0000_0000,
            end == start + count,
            end <= u64::MAX,
            forall|id: int| start <= id < cursor && id < end ==> #[trigger] holds_id(
                entries@,
                uid,
                id_type,
                id,
            ),
        decreases 0x2_0000_0000_0000_0000 - cursor,
    {
        match find_cover(entries, uid, id_type, cursor) {
            None => {
                assert(!holds_id(entries@, uid, id_type, cursor as int));
                assert(!holds_range(entries@, uid, id_type, start as int, count as int));
                return Ok(false);
            },
            Some(next) => {
                proof {
                    let i = choose|i: int|
                        0 <= i < entries@.len() && entries@[i].uid == uid && entries@[i].id_type
                            == id_type && entries@[i].start <= cursor && next == span_end(
                            entries@[i],
                        ) && cursor < next;
                    assert forall|id: int| start <= id < next && id < end implies #[trigger] holds_id(
                        entries@,
                        uid,
                        id_type,
                        id,
                    ) by {
                        if id >= cursor {
                            assert(owns_id(entries@[i], id_type, id));
                        }
                    }
                }
                cursor = next;
            },
        }
    }
    Ok(true)
}

// ---------------------------------------------------------------------------
// A user's ranges
// ---------------------------------------------------------------------------

/// `(start, count)` of each entry of `uid` of kind `ty`, in the order of
/// `entries`.
pub open spec fn ranges_of(entries: Seq<DbEntry>, uid: u32, ty: subid_type) -> Seq<(u64, u64)>
    decreases entries.len(),
{
    if entries.len() == 0 {
        seq![]
    } else {
        let prev = ranges_of(entries.drop_last(), uid, ty);
        let e = entries.last();
        if e.uid == uid && e.id_type == ty {
            prev.push((e.start, e.count))
        } else {
            prev
        }
    }
}

/// All `(start, count)` ranges of `uid` of kind `id_type`, in database
/// order.
pub fn list_ranges(entries: &[DbEntry], uid: u32, id_type: subid_type) -> (r: Vec<(u64, u64)>)
    ensures
        r@ == ranges_of(entries@, uid, id_type),
{
    let mut out: Vec<(u64, u64)> = Vec::new();
    let mut i: usize = 0;
    assert(entries@.take(0) =~= Seq::<DbEntry>::empty());
    while i < entries.len()
        invariant
            0 <= i <= entries@.len(),
            out@ == ranges_of(entries@.take(i as int), uid, id_type),
        decreases entries@.len() - i,
    {
        assert(entries@.take(i + 1).drop_last() =~= entries@.take(i as int));
        assert(entries@.take(i + 1).last() == entries@[i as int]);
        let e = entries[i];
        if e.uid == uid && e.id_type == id_type {
            out.push((e.start, e.count));
        }
        i = i + 1;
    }
    assert(entries@.take(i as int) =~= entries@);
    out
}

/// The ranges listed for a user are exactly the `(start, count)` of the
/// user's entries of the kind, one for each such entry.
pub proof fn lemma_ranges_of(entries: Seq<DbEntry>, uid: u32, ty: subid_type)
    ensures
        forall|r: (u64, u64)| #[trigger]
            ranges_of(entries, uid, ty).contains(r) <==> exists|i: int|
                0 <= i < entries.len() && #[trigger] entries[i].uid == uid && entries[i].id_type
                    == ty && entries[i].start == r.0 && entries[i].count == r.1,
        ranges_of(entries, uid, ty).len() <= entries.len(),
    decreases entries.len(),
{
    if entries.len() > 0 {
        let d = entries.drop_last();
        let e = entries.last();
        let o = ranges_of(entries, uid, ty);
        let p = ranges_of(d, uid, ty);
        lemma_ranges_of(d, uid, ty);
        assert forall|r: (u64, u64)| #[trigger] o.contains(r) <==> exists|i: int|
            0 <= i < entries.len() && #[trigger] entries[i].uid == uid && entries[i].id_type == ty
                && entries[i].start == r.0 && entries[i].count == r.1 by {
            if o.contains(r) {
                let m = choose|m: int| 0 <= m < o.len() && o[m] == r;
                if m < p.len() {
                    assert(p[m] == r);
                    assert(p.contains(r));
                    let i = choose|i: int|
                        0 <= i < d.len() && #[trigger] d[i].uid == uid && d[i].id_type == ty
                            && d[i].start == r.0 && d[i].count == r.1;
                    assert(entries[i] == d[i]);
                } else {
                    assert(entries[entries.len() - 1] == e);
                }
            }
            if exists|i: int|
                0 <= i < entries.len() && #[trigger] entries[i].uid == uid && entries[i].id_type
                    == ty && entries[i].start == r.0 && entries[i].count == r.1 {
                let i = choose|i: int|
                    0 <= i < entries.len() && #[trigger] entries[i].uid == uid && entries[i].id_type
                        == ty && entries[i].start == r.0 && entries[i].count == r.1;
                if i < d.len() {
                    assert(d[i] == entries[i]);
                    assert(d[i].uid == uid);
                    assert(p.contains(r));
                    let m = choose|m: int| 0 <= m < p.len() && p[m] == r;
                    assert(o[m] == r);
                } else {
                    assert(o[o.len() - 1] == r);
                }
            }
        }
    }
}

/// Some range of `rs`, given as `(start, count)`, holds `id`.
pub open spec fn listed(rs: Seq<(u64, u64)>, id: int) -> bool {
    exists|k: int| 0 <= k < rs.len() && (#[trigger] rs[k]).0 <= id < rs[k].0 + rs[k].1
}

/// `has_range` and `list_ranges` agree: a user holds every id of a range
/// exactly when each of its ids lies in one of the ranges listed for the
/// user.
pub proof fn lemma_holds_range_listed(
    entries: Seq<DbEntry>,
    uid: u32,
    ty: subid_type,
    start: int,
    count: int,
)
    ensures
        holds_range(entries, uid, ty, start, count) <==> forall|id: int|
            start <= id < start + count ==> #[trigger] listed(ranges_of(entries, uid, ty), id),
{
    let rs = ranges_of(entries, uid, ty);
    lemma_ranges_of(entries, uid, ty);
    assert forall|id: int| #[trigger] holds_id(entries, uid, ty, id) <==> listed(rs, id) by {
        if holds_id(entries, uid, ty, id) {
            let i = choose|i: int|
                0 <= i < entries.len() && entries[i].uid == uid && #[trigger] owns_id(
                    entries[i],
                    ty,
                    id,
                );
            let r = (entries[i].start, entries[i].count);
            assert(entries[i].uid == uid);
            assert(rs.contains(r));
            let k = choose|k: int| 0 <= k < rs.len() && rs[k] == r;
            assert(rs[k].0 <= id < rs[k].0 + rs[k].1);
        }
        if listed(rs, id) {
            let k = choose|k: int| 0 <= k < rs.len() && (#[trigger] rs[k]).0 <= id < rs[k].0 + rs[k].1;
            assert(rs.contains(rs[k]));
            let i = choose|i: int|
                0 <= i < entries.len() && #[trigger] entries[i].uid == uid && entries[i].id_type
                    == ty && entries[i].start == rs[k].0 && entries[i].count == rs[k].1;
            assert(owns_id(entries[i], ty, id));
        }
    }
    if holds_range(entries, uid, ty, start, count) {
        assert forall|id: int| start <= id < start + count implies #[trigger] listed(rs, id) by {
            assert(holds_id(entries, uid, ty, id));
        }
    }
    if forall|id: int| start <= id < start + count ==> #[trigger] listed(rs, id) {
        assert forall|id: int| start <= id < start + count implies #[trigger] holds_id(
            entries,
            uid,
            ty,
            id,
        ) by {
            assert(listed(rs, id));
        }
    }
}

// ---------------------------------------------------------------------------
// Who holds an id?
// ---------------------------------------------------------------------------

/// `e` is of kind `ty` and holds `id`.
pub open spec fn covers_id(e: DbEntry, id: u64, ty: subid_type) -> bool {
    e.id_type == ty && id >= e.start && id < e.start + e.count
}

/// The uids of the entries that hold `id` of kind `ty`, each once, in the
/// order in which they first appear.
pub open spec fn owners(entries: Seq<DbEntry>, id: u64, ty: subid_type) -> Seq<u32>
    decreases entries.len(),
{
    if entries.len() == 0 {
        seq![]
    } else {
        let prev = owners(entries.drop_last(), id, ty);
        let e = entries.last();
        if covers_id(e, id, ty) && !prev.contains(e.uid) {
            prev.push(e.uid)
        } else {
            prev
        }
    }
}

fn contains_uid(v: &Vec<u32>, uid: u32) -> (r: bool)
    ensures
        r == v@.contains(uid),
{
    let mut i: usize = 0;
    while i < v.len()
        invariant
            0 <= i <= v@.len(),
            forall|k: int| 0 <= k < i ==> v@[k] != uid,
        decreases v@.len() - i,
    {
        if v[i] == uid {
            assert(v@[i as int] == uid);
            return true;
        }
        i = i + 1;
    }
    false
}

/// The uids whose ranges of kind `id_type` hold `id`, each once, in
/// database order.
pub fn find_owners(entries: &[DbEntry], id: u64, id_type: subid_type) -> (r: Vec<u32>)
    ensures
        r@ == owners(entries@, id, id_type),
{
    let mut out: Vec<u32> = Vec::new();
    let mut i: usize = 0;
    assert(entries@.take(0) =~= Seq::<DbEntry>::empty());
    while i < entries.len()
        invariant
            0 <= i <= entries@.len(),
            out@ == owners(entries@.take(i as int), id, id_type),
        decreases entries@.len() - i,
    {
        assert(entries@.take(i + 1).drop_last() =~= entries@.take(i as int));
        assert(entries@.take(i + 1).last() == entries@[i as int]);
        let e = entries[i];
        if e.id_type == id_type && id >= e.start && (id as u128) < e.start as u128 + e.count as u128 {
            if !contains_uid(&out, e.uid) {
                out.push(e.uid);
            }
        }
        i = i + 1;
    }
    assert(entries@.take(i as int) =~= entries@);
    out
}

/// The owners of an id are listed once each, and a uid is listed exactly
/// when one of its entries of that kind holds the id.
pub proof fn lemma_owners(entries: Seq<DbEntry>, id: u64, ty: subid_type)
    ensures
        owners(entries, id, ty).no_duplicates(),
        forall|u: u32| #[trigger]
            owners(entries, id, ty).contains(u) <==> exists|i: int|
                0 <= i < entries.len() && entries[i].uid == u && #[trigger] covers_id(
                    entries[i],
                    id,
                    ty,
                ),
    decreases entries.len(),
{
    if entries.len() > 0 {
        let d = entries.drop_last();
        let prev = owners(d, id, ty);
        let o = owners(entries, id, ty);
        let e = entries.last();
        lemma_owners(d, id, ty);
        assert forall|u: u32| #[trigger] o.contains(u) <==> exists|i: int|
            0 <= i < entries.len() && entries[i].uid == u && #[trigger] covers_id(
                entries[i],
                id,
                ty,
            ) by {
            if o.contains(u) {
                let m = choose|m: int| 0 <= m < o.len() && o[m] == u;
                if m < prev.len() {
                    assert(prev[m] == u);
                    assert(prev.contains(u));
                    let i = choose|i: int|
                        0 <= i < d.len() && d[i].uid == u && #[trigger] covers_id(d[i], id, ty);
                    assert(entries[i] == d[i]);
                } else {
                    assert(entries[entries.len() - 1] == e);
                    assert(covers_id(entries[entries.len() - 1], id, ty));
                }
            }
            if exists|i: int|
                0 <= i < entries.len() && entries[i].uid == u && #[trigger] covers_id(
                    entries[i],
                    id,
                    ty,
                ) {
                let i = choose|i: int|
                    0 <= i < entries.len() && entries[i].uid == u && #[trigger] covers_id(
                        entries[i],
                        id,
                        ty,
                    );
                if i < d.len() {
                    assert(d[i] == entries[i]);
                    assert(covers_id(d[i], id, ty));
                    assert(prev.contains(u));
                    let m = choose|m: int| 0 <= m < prev.len() && prev[m] == u;
                    assert(o[m] == u);
                } else if prev.contains(u) {
                    let m = choose|m: int| 0 <= m < prev.len() && prev[m] == u;
                    assert(o[m] == u);
                } else {
                    assert(o[o.len() - 1] == u);
                }
            }
        }
    }
}


/// `find_owners` and `has_range` agree: a uid is listed as an owner of an
/// id exactly when it holds that id, and each owner is listed once.
pub proof fn lemma_owners_hold(entries: Seq<DbEntry>, id: u64, ty: subid_type)
    ensures
        owners(entries, id, ty).no_duplicates(),
        forall|u: u32| #[trigger]
            owners(entries, id, ty).contains(u) <==> holds_id(entries, u, ty, id as int),
{
    lemma_owners(entries, id, ty);
    assert forall|u: u32| #[trigger]
        owners(entries, id, ty).contains(u) <==> holds_id(entries, u, ty, id as int) by {
        if owners(entries, id, ty).contains(u) {
            let i = choose|i: int|
                0 <= i < entries.len() && entries[i].uid == u && #[trigger] covers_id(
                    entries[i],
                    id,
                    ty,
                );
            assert(owns_id(entries[i], ty, id as int));
        }
        if holds_id(entries, u, ty, id as int) {
            let i = choose|i: int|
                0 <= i < entries.len() && entries[i].uid == u && #[trigger] owns_id(
                    entries[i],
                    ty,
                    id as int,
                );
            assert(covers_id(entries[i], id, ty));
        }
    }
}

} // verus!
