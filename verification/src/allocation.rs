use vstd::prelude::*;

use crate::types::{limits, subid_type, DbEntry, SubidConfig};

verus! {

// ---------------------------------------------------------------------------
// First fit
// ---------------------------------------------------------------------------

/// The end of the ids that `e` holds: one past its last id, which may lie
/// beyond `u64::MAX` where `start + count` does.
pub open spec fn span_end(e: DbEntry) -> int {
    e.start + e.count
}

/// The ids that `e` holds, as `(start, end)`.
pub open spec fn span_of(e: DbEntry) -> (u64, u128) {
    (e.start, span_end(e) as u128)
}

/// `(start, end)` of each entry of kind `ty`, in the order of `entries`.
pub open spec fn occupied(entries: Seq<DbEntry>, ty: subid_type) -> Seq<(u64, u128)>
    decreases entries.len(),
{
    if entries.len() == 0 {
        seq![]
    } else {
        let prev = occupied(entries.drop_last(), ty);
        let e = entries.last();
        if e.id_type == ty {
            prev.push(span_of(e))
        } else {
            prev
        }
    }
}

/// `x` placed into `s` after every span that starts no later than it.
pub open spec fn insert_by_start(s: Seq<(u64, u128)>, x: (u64, u128)) -> Seq<(u64, u128)>
    decreases s.len(),
{
    if s.len() == 0 {
        seq![x]
    } else if s.last().0 <= x.0 {
        s.push(x)
    } else {
        insert_by_start(s.drop_last(), x).push(s.last())
    }
}

/// `s` sorted by start, spans with equal starts kept in their order (a
/// stable sort, as `sort_by_key` does).
pub open spec fn sort_by_start(s: Seq<(u64, u128)>) -> Seq<(u64, u128)>
    decreases s.len(),
{
    if s.len() == 0 {
        s
    } else {
        insert_by_start(sort_by_start(s.drop_last()), s.last())
    }
}

/// `count` ids from `start` end no later than `max`: `start + count - 1 <=
/// max`, computed without overflow.
pub open spec fn fits(start: int, count: int, max: int) -> bool {
    start + count <= max + 1
}

/// The first-fit scan over spans sorted by start: the candidate begins at
/// the lowest allowed id and moves past each span that leaves no room of
/// `count` ids before it; the first room found is the answer if it ends
/// within `max`.
pub open spec fn first_fit(occ: Seq<(u64, u128)>, candidate: int, count: int, max: int) -> Option<
    (u64, u64),
>
    decreases occ.len(),
{
    if occ.len() == 0 || candidate + count <= occ[0].0 {
        if fits(candidate, count, max) {
            Some((candidate as u64, count as u64))
        } else {
            None
        }
    } else {
        let next = if occ[0].1 > candidate {
            occ[0].1 as int
        } else {
            candidate
        };
        first_fit(occ.drop_first(), next, count, max)
    }
}

/// The range that first fit finds for kind `ty` among `entries` under the
/// limits of `cfg`; none where the configured count is zero or the limits
/// are empty.
pub open spec fn free_range(entries: Seq<DbEntry>, ty: subid_type, cfg: SubidConfig) -> Option<
    (u64, u64),
> {
    let (min, max, count) = limits(cfg, ty);
    if count == 0 || min > max {
        None
    } else {
        first_fit(sort_by_start(occupied(entries, ty)), min as int, count as int, max as int)
    }
}

fn collect_occupied(entries: &[DbEntry], ty: subid_type) -> (out: Vec<(u64, u128)>)
    ensures
        out@ == occupied(entries@, ty),
{
    let mut out: Vec<(u64, u128)> = Vec::new();
    let mut i: usize = 0;
    assert(entries@.take(0) =~= Seq::<DbEntry>::empty());
    while i < entries.len()
        invariant
            0 <= i <= entries@.len(),
            out@ == occupied(entries@.take(i as int), ty),
        decreases entries@.len() - i,
    {
        assert(entries@.take(i + 1).drop_last() =~= entries@.take(i as int));
        assert(entries@.take(i + 1).last() == entries@[i as int]);
        let e = entries[i];
        if e.id_type == ty {
            out.push((e.start, e.start as u128 + e.count as u128));
        }
        i = i + 1;
    }
    assert(entries@.take(i as int) =~= entries@);
    out
}

proof fn lemma_insert_at(s: Seq<(u64, u128)>, x: (u64, u128), j: int)
    requires
        0 <= j <= s.len(),
        forall|k: int| j <= k < s.len() ==> s[k].0 > x.0,
        j == 0 || s[j - 1].0 <= x.0,
    ensures
        insert_by_start(s, x) == s.take(j).push(x) + s.skip(j),
    decreases s.len(),
{
    if j == s.len() {
        assert(s.take(j) =~= s);
        assert(s.skip(j) =~= Seq::<(u64, u128)>::empty());
        assert(s.take(j).push(x) + s.skip(j) =~= s.push(x));
    } else {
        let d = s.drop_last();
        assert(s.last().0 > x.0);
        lemma_insert_at(d, x, j);
        assert(d.take(j) =~= s.take(j));
        assert(s.take(j).push(x) + s.skip(j) =~= (d.take(j).push(x) + d.skip(j)).push(s.last()));
    }
}

fn insert_span(v: &mut Vec<(u64, u128)>, x: (u64, u128))
    ensures
        final(v)@ == insert_by_start(old(v)@, x),
{
    let mut j: usize = v.len();
    while j > 0 && v[j - 1].0 > x.0
        invariant
            0 <= j <= v@.len(),
            v@ == old(v)@,
            forall|k: int| j <= k < v@.len() ==> v@[k].0 > x.0,
        decreases j,
    {
        j = j - 1;
    }
    proof {
        lemma_insert_at(v@, x, j as int);
    }
    let ghost before = v@;
    v.insert(j, x);
    assert(v@ =~= before.take(j as int).push(x) + before.skip(j as int));
}

fn sort_spans(s: &Vec<(u64, u128)>) -> (out: Vec<(u64, u128)>)
    ensures
        out@ == sort_by_start(s@),
{
    let mut out: Vec<(u64, u128)> = Vec::new();
    let mut i: usize = 0;
    assert(s@.take(0) =~= Seq::<(u64, u128)>::empty());
    while i < s.len()
        invariant
            0 <= i <= s@.len(),
            out@ == sort_by_start(s@.take(i as int)),
        decreases s@.len() - i,
    {
        assert(s@.take(i + 1).drop_last() =~= s@.take(i as int));
        assert(s@.take(i + 1).last() == s@[i as int]);
        insert_span(&mut out, s[i]);
        i = i + 1;
    }
    assert(s@.take(i as int) =~= s@);
    out
}

/// First-fit search for a free range of kind `id_type`: the configured
/// number of ids, starting at the configured minimum or right after an
/// existing range of that kind, that overlaps no range of that kind, and
/// that lies within the configured minimum and maximum.
pub fn find_free_range(entries: &[DbEntry], id_type: subid_type, cfg: &SubidConfig) -> (r: Option<
    (u64, u64),
>)
    ensures
        r == free_range(entries@, id_type, *cfg),
        r matches Some((s, n)) ==> {
            &&& id_type == subid_type::IdTypeUid ==> n == cfg.uid_count && n > 0 && cfg.uid_min <= s
                && s + n - 1 <= cfg.uid_max
            &&& id_type == subid_type::IdTypeGid ==> n == cfg.gid_count && n > 0 && cfg.gid_min <= s
                && s + n - 1 <= cfg.gid_max
        },
{
    proof {
        lemma_free_range_settings(entries@, id_type, *cfg);
    }
    let (min, max, cnt) = match id_type {
        subid_type::IdTypeUid => (cfg.uid_min, cfg.uid_max, cfg.uid_count),
        subid_type::IdTypeGid => (cfg.gid_min, cfg.gid_max, cfg.gid_count),
    };
    if cnt == 0 || min > max {
        return None;
    }
    let occ = collect_occupied(entries, id_type);
    let sorted = sort_spans(&occ);
    let ghost all = sorted@;
    let mut candidate: u128 = min as u128;
    let mut i: usize = 0;
    assert(all.skip(0) =~= all);
    while i < sorted.len()
        invariant
            all == sorted@,
            all == sort_by_start(occupied(entries@, id_type)),
            (min, max, cnt) == limits(*cfg, id_type),
            cnt != 0,
            min <= max,
            0 <= i <= all.len(),
            first_fit(all, min as int, cnt as int, max as int) == first_fit(
                all.skip(i as int),
                candidate as int,
                cnt as int,
                max as int,
            ),
        decreases all.len() - i,
    {
        let (occ_start, occ_end) = sorted[i];
        assert(all.skip(i as int)[0] == all[i as int]);
        match candidate.checked_add(cnt as u128) {
            Some(end) => {
                if end <= occ_start as u128 {
                    proof {
                        lemma_free_range_settings(entries@, id_type, *cfg);
                    }
                    if end <= max as u128 + 1 {
                        return Some((candidate as u64, cnt));
                    } else {
                        return None;
                    }
                }
            },
            None => {},
        }
        assert(all.skip(i as int).drop_first() =~= all.skip(i + 1));
        if occ_end > candidate {
            candidate = occ_end;
        }
        i = i + 1;
    }
    match candidate.checked_add(cnt as u128) {
        Some(end) => {
            if end <= max as u128 + 1 {
                Some((candidate as u64, cnt))
            } else {
                None
            }
        },
        None => None,
    }
}

// ---------------------------------------------------------------------------
// What first fit guarantees
// ---------------------------------------------------------------------------

pub open spec fn sorted_by_start(s: Seq<(u64, u128)>) -> bool {
    forall|i: int, j: int| 0 <= i <= j < s.len() ==> s[i].0 <= s[j].0
}

proof fn lemma_insert_by_start(s: Seq<(u64, u128)>, x: (u64, u128))
    requires
        sorted_by_start(s),
    ensures
        sorted_by_start(insert_by_start(s, x)),
        insert_by_start(s, x).len() == s.len() + 1,
        forall|y: (u64, u128)| #[trigger]
            insert_by_start(s, x).contains(y) <==> (s.contains(y) || y == x),
    decreases s.len(),
{
    let t = insert_by_start(s, x);
    if s.len() == 0 {
        assert(t =~= seq![x]);
        assert forall|y: (u64, u128)| #[trigger] t.contains(y) <==> (s.contains(y) || y == x) by {
            if t.contains(y) {
                let k = choose|k: int| 0 <= k < t.len() && t[k] == y;
                assert(k == 0);
            }
            if y == x {
                assert(t[0] == x);
            }
        }
    } else if s.last().0 <= x.0 {
        assert(t == s.push(x));
        assert forall|y: (u64, u128)| #[trigger] t.contains(y) <==> (s.contains(y) || y == x) by {
            if t.contains(y) {
                let k = choose|k: int| 0 <= k < t.len() && t[k] == y;
                if k < s.len() {
                    assert(s[k] == y);
                }
            }
            if s.contains(y) {
                let k = choose|k: int| 0 <= k < s.len() && s[k] == y;
                assert(t[k] == y);
            }
            if y == x {
                assert(t[s.len() as int] == x);
            }
        }
    } else {
        let d = s.drop_last();
        let u = insert_by_start(d, x);
        let l = s.last();
        lemma_insert_by_start(d, x);
        assert(t == u.push(l));
        assert forall|y: (u64, u128)| #[trigger] t.contains(y) <==> (s.contains(y) || y == x) by {
            if t.contains(y) {
                let k = choose|k: int| 0 <= k < t.len() && t[k] == y;
                if k < u.len() {
                    assert(u[k] == y);
                    assert(u.contains(y));
                    if d.contains(y) {
                        let m = choose|m: int| 0 <= m < d.len() && d[m] == y;
                        assert(s[m] == y);
                    }
                } else {
                    assert(s[s.len() - 1] == y);
                }
            }
            if s.contains(y) {
                let k = choose|k: int| 0 <= k < s.len() && s[k] == y;
                if k < d.len() {
                    assert(d[k] == y);
                    assert(d.contains(y));
                    assert(u.contains(y));
                    let m = choose|m: int| 0 <= m < u.len() && u[m] == y;
                    assert(t[m] == y);
                } else {
                    assert(t[u.len() as int] == y);
                }
            }
            if y == x {
                assert(u.contains(x));
                let m = choose|m: int| 0 <= m < u.len() && u[m] == x;
                assert(t[m] == x);
            }
        }
        assert forall|i: int, j: int| 0 <= i <= j < t.len() implies t[i].0 <= t[j].0 by {
            if j == t.len() - 1 && i < j {
                assert(t[i] == u[i]);
                assert(u.contains(u[i]));
                if d.contains(u[i]) {
                    let m = choose|m: int| 0 <= m < d.len() && d[m] == u[i];
                    assert(s[m] == u[i]);
                }
            } else if j < t.len() - 1 {
                assert(t[i] == u[i]);
                assert(t[j] == u[j]);
            }
        }
    }
}

/// `sort_by_start` sorts: its result is ordered by start and holds the
/// spans it was given, as many as there were.
pub proof fn lemma_sort_by_start(s: Seq<(u64, u128)>)
    ensures
        sorted_by_start(sort_by_start(s)),
        sort_by_start(s).len() == s.len(),
        forall|y: (u64, u128)| #[trigger] sort_by_start(s).contains(y) <==> s.contains(y),
    decreases s.len(),
{
    if s.len() > 0 {
        let d = s.drop_last();
        lemma_sort_by_start(d);
        lemma_insert_by_start(sort_by_start(d), s.last());
        assert forall|y: (u64, u128)| #[trigger] sort_by_start(s).contains(y) <==> s.contains(y) by {
            if s.contains(y) {
                let k = choose|k: int| 0 <= k < s.len() && s[k] == y;
                if k < d.len() {
                    assert(d[k] == y);
                    assert(d.contains(y));
                }
            }
            if d.contains(y) {
                let k = choose|k: int| 0 <= k < d.len() && d[k] == y;
                assert(s[k] == y);
            }
        }
    }
}

/// The spans of `occupied` are those of the entries of kind `ty`.
proof fn lemma_occupied(entries: Seq<DbEntry>, ty: subid_type)
    ensures
        forall|i: int|
            0 <= i < entries.len() && entries[i].id_type == ty ==> #[trigger] occupied(
                entries,
                ty,
            ).contains(span_of(entries[i])),
        forall|y: (u64, u128)| #[trigger]
            occupied(entries, ty).contains(y) ==> exists|i: int|
                0 <= i < entries.len() && entries[i].id_type == ty && y == span_of(entries[i]),
    decreases entries.len(),
{
    if entries.len() > 0 {
        let d = entries.drop_last();
        let o = occupied(entries, ty);
        let p = occupied(d, ty);
        lemma_occupied(d, ty);
        let e = entries.last();
        assert forall|i: int|
            0 <= i < entries.len() && entries[i].id_type == ty implies #[trigger] occupied(
            entries,
            ty,
        ).contains(span_of(entries[i])) by {
            if i < d.len() {
                assert(d[i] == entries[i]);
                assert(p.contains(span_of(d[i])));
                let m = choose|m: int| 0 <= m < p.len() && p[m] == span_of(d[i]);
                assert(o[m] == p[m]);
            } else {
                assert(o[o.len() - 1] == span_of(e));
            }
        }
        assert forall|y: (u64, u128)| #[trigger] occupied(entries, ty).contains(y) implies exists|
            i: int,
        | 0 <= i < entries.len() && entries[i].id_type == ty && y == span_of(entries[i]) by {
            let m = choose|m: int| 0 <= m < o.len() && o[m] == y;
            if m < p.len() {
                assert(p[m] == y);
                assert(p.contains(y));
                let i = choose|i: int| 0 <= i < d.len() && d[i].id_type == ty && y == span_of(d[i]);
                assert(entries[i] == d[i]);
            } else {
                assert(y == span_of(e));
                assert(entries[entries.len() - 1] == e);
            }
        }
    }
}

/// The span `sp` holds one of the `count` ids from `y`.
pub open spec fn blocks(sp: (u64, u128), y: int, count: int) -> bool {
    y < sp.1 && sp.0 < y + count
}

/// Some span of `occ` holds one of the `count` ids from `y`.
pub open spec fn blocked(occ: Seq<(u64, u128)>, y: int, count: int) -> bool {
    exists|k: int| 0 <= k < occ.len() && #[trigger] blocks(occ[k], y, count)
}

/// First fit over sorted spans gives the lowest start from `c` that no span
/// blocks and whose range fits, or none when every fitting start from `c`
/// is blocked.
proof fn lemma_first_fit(occ: Seq<(u64, u128)>, c: int, cnt: int, max: int)
    requires
        sorted_by_start(occ),
        0 <= c,
        1 <= cnt <= u64::MAX,
        0 <= max <= u64::MAX,
    ensures
        match first_fit(occ, c, cnt, max) {
            Some((r, n)) => {
                &&& n == cnt
                &&& c <= r
                &&& fits(r as int, cnt, max)
                &&& !blocked(occ, r as int, cnt)
                &&& forall|y: int| c <= y < r ==> #[trigger] blocked(occ, y, cnt)
            },
            None => forall|y: int| c <= y && fits(y, cnt, max) ==> #[trigger] blocked(occ, y, cnt),
        },
    decreases occ.len(),
{
    if occ.len() == 0 || c + cnt <= occ[0].0 {
        if fits(c, cnt, max) {
            assert forall|k: int| 0 <= k < occ.len() implies !#[trigger] blocks(occ[k], c, cnt) by {
                assert(occ[0].0 <= occ[k].0);
            }
            assert((c as u64) as int == c);
        }
    } else {
        let next = if occ[0].1 > c {
            occ[0].1 as int
        } else {
            c
        };
        let rest = occ.drop_first();
        assert forall|i: int, j: int| 0 <= i <= j < rest.len() implies rest[i].0 <= rest[j].0 by {
            assert(rest[i] == occ[i + 1]);
            assert(rest[j] == occ[j + 1]);
        }
        lemma_first_fit(rest, next, cnt, max);
        assert forall|y: int| c <= y < next implies #[trigger] blocked(occ, y, cnt) by {
            assert(blocks(occ[0], y, cnt));
        }
        assert forall|y: int| #[trigger] blocked(rest, y, cnt) implies blocked(occ, y, cnt) by {
            let k = choose|k: int| 0 <= k < rest.len() && #[trigger] blocks(rest[k], y, cnt);
            assert(occ[k + 1] == rest[k]);
            assert(blocks(occ[k + 1], y, cnt));
        }
        match first_fit(occ, c, cnt, max) {
            Some((r, n)) => {
                if blocked(occ, r as int, cnt) {
                    let k = choose|k: int| 0 <= k < occ.len() && #[trigger] blocks(occ[k], r as int, cnt);
                    if k > 0 {
                        assert(rest[k - 1] == occ[k]);
                        assert(blocks(rest[k - 1], r as int, cnt));
                    }
                }
                assert forall|y: int| c <= y < r implies #[trigger] blocked(occ, y, cnt) by {
                    if y >= next {
                        assert(blocked(rest, y, cnt));
                    }
                }
            },
            None => {
                assert forall|y: int| c <= y && fits(y, cnt, max) implies #[trigger] blocked(
                    occ,
                    y,
                    cnt,
                ) by {
                    if y >= next {
                        assert(blocked(rest, y, cnt));
                    }
                }
            },
        }
    }
}

/// Entry `e` holds id `id` of kind `ty`.
pub open spec fn owns_id(e: DbEntry, ty: subid_type, id: int) -> bool {
    e.id_type == ty && e.start <= id < e.start + e.count
}

/// No entry holds any of the `count` ids of kind `ty` from `start`.
pub open spec fn range_is_free(entries: Seq<DbEntry>, ty: subid_type, start: int, count: int) -> bool {
    forall|i: int, id: int|
        0 <= i < entries.len() && start <= id < start + count ==> !#[trigger] owns_id(
            entries[i],
            ty,
            id,
        )
}

/// A range that first fit finds has the configured size, lies between the
/// configured minimum and maximum, neither overlaps nor surrounds any entry
/// of its kind, and so holds no id that an entry of its kind holds.
pub proof fn lemma_free_range_is_free(entries: Seq<DbEntry>, ty: subid_type, cfg: SubidConfig)
    ensures
        free_range(entries, ty, cfg) matches Some((start, count)) ==> {
            &&& count == limits(cfg, ty).2
            &&& count > 0
            &&& limits(cfg, ty).0 <= start
            &&& start + count - 1 <= limits(cfg, ty).1
            &&& forall|i: int|
                0 <= i < entries.len() && #[trigger] entries[i].id_type == ty ==> span_end(
                    entries[i],
                ) <= start || start + count <= entries[i].start
            &&& range_is_free(entries, ty, start as int, count as int)
        },
{
    let (min, max, cnt) = limits(cfg, ty);
    if cnt != 0 && min <= max {
        let occ = occupied(entries, ty);
        let sorted = sort_by_start(occ);
        lemma_sort_by_start(occ);
        lemma_occupied(entries, ty);
        lemma_first_fit(sorted, min as int, cnt as int, max as int);
        if let Some((r, n)) = free_range(entries, ty, cfg) {
            assert forall|i: int|
                0 <= i < entries.len() && #[trigger] entries[i].id_type == ty implies span_end(
                entries[i],
            ) <= r || r + n <= entries[i].start by {
                let sp = span_of(entries[i]);
                assert(occ.contains(sp));
                assert(sorted.contains(sp));
                let k = choose|k: int| 0 <= k < sorted.len() && sorted[k] == sp;
                assert(!blocks(sorted[k], r as int, cnt as int));
            }
            assert forall|i: int, id: int|
                0 <= i < entries.len() && r <= id < r + n implies !#[trigger] owns_id(
                entries[i],
                ty,
                id,
            ) by {
                if entries[i].id_type == ty {
                    assert(span_end(entries[i]) <= r || r + n <= entries[i].start);
                }
            }
        }
    }
}

/// First fit finds the lowest free range, and finds one whenever a free
/// range fits between the configured limits: where every entry of the
/// kind holds at least one id, a range found is free and every lower start
/// allowed by the minimum is not, and when none is found no free range
/// fits within the limits at all.
pub proof fn lemma_free_range_first_fit(entries: Seq<DbEntry>, ty: subid_type, cfg: SubidConfig)
    requires
        limits(cfg, ty).2 > 0,
        forall|i: int|
            0 <= i < entries.len() && #[trigger] entries[i].id_type == ty ==> entries[i].count > 0,
    ensures
        match free_range(entries, ty, cfg) {
            Some((r, n)) => {
                &&& n == limits(cfg, ty).2
                &&& limits(cfg, ty).0 <= r
                &&& r + n - 1 <= limits(cfg, ty).1
                &&& range_is_free(entries, ty, r as int, n as int)
                &&& forall|x: int|
                    limits(cfg, ty).0 <= x < r ==> !#[trigger] range_is_free(
                        entries,
                        ty,
                        x,
                        n as int,
                    )
            },
            None => forall|x: int|
                limits(cfg, ty).0 <= x && x + limits(cfg, ty).2 - 1 <= limits(cfg, ty).1
                    ==> !#[trigger] range_is_free(entries, ty, x, limits(cfg, ty).2 as int),
        },
{
    let (min, max, cnt) = limits(cfg, ty);
    lemma_free_range_is_free(entries, ty, cfg);
    if min <= max {
        let occ = occupied(entries, ty);
        let sorted = sort_by_start(occ);
        lemma_sort_by_start(occ);
        lemma_occupied(entries, ty);
        lemma_first_fit(sorted, min as int, cnt as int, max as int);
        // A span that blocks a start holds one of its ids.
        assert forall|y: int| #[trigger]
            blocked(sorted, y, cnt as int) implies !range_is_free(entries, ty, y, cnt as int) by {
            let k = choose|k: int| 0 <= k < sorted.len() && #[trigger] blocks(sorted[k], y, cnt as int);
            assert(sorted.contains(sorted[k]));
            assert(occ.contains(sorted[k]));
            let i = choose|i: int|
                0 <= i < entries.len() && entries[i].id_type == ty && sorted[k] == span_of(
                    entries[i],
                );
            let id = if y < entries[i].start {
                entries[i].start as int
            } else {
                y
            };
            assert(owns_id(entries[i], ty, id));
        }
        match free_range(entries, ty, cfg) {
            Some((r, n)) => {
                assert forall|x: int| min <= x < r implies !#[trigger] range_is_free(
                    entries,
                    ty,
                    x,
                    n as int,
                ) by {
                    assert(blocked(sorted, x, cnt as int));
                }
            },
            None => {
                assert forall|x: int|
                    min <= x && x + cnt - 1 <= max implies !#[trigger] range_is_free(
                    entries,
                    ty,
                    x,
                    cnt as int,
                ) by {
                    assert(fits(x, cnt as int, max as int));
                    assert(blocked(sorted, x, cnt as int));
                }
            },
        }
    }
}

/// First fit depends only on which entries of the kind the database
/// holds: not on their order, not on entries repeated, and not on entries
/// of the other kind.
pub proof fn lemma_free_range_same_entries(
    entries1: Seq<DbEntry>,
    entries2: Seq<DbEntry>,
    ty: subid_type,
    cfg: SubidConfig,
)
    requires
        forall|e: DbEntry| e.id_type == ty ==> (entries1.contains(e) <==> entries2.contains(e)),
    ensures
        free_range(entries1, ty, cfg) == free_range(entries2, ty, cfg),
{
    let (min, max, cnt) = limits(cfg, ty);
    if cnt != 0 && min <= max {
        let o1 = occupied(entries1, ty);
        let o2 = occupied(entries2, ty);
        let a = sort_by_start(o1);
        let b = sort_by_start(o2);
        lemma_occupied(entries1, ty);
        lemma_occupied(entries2, ty);
        lemma_sort_by_start(o1);
        lemma_sort_by_start(o2);
        assert forall|y: (u64, u128)| #[trigger] a.contains(y) <==> b.contains(y) by {
            if o1.contains(y) {
                let i = choose|i: int|
                    0 <= i < entries1.len() && entries1[i].id_type == ty && y == span_of(entries1[i]);
                assert(entries1.contains(entries1[i]));
                let j = choose|j: int| 0 <= j < entries2.len() && entries2[j] == entries1[i];
                assert(o2.contains(span_of(entries2[j])));
            }
            if o2.contains(y) {
                let j = choose|j: int|
                    0 <= j < entries2.len() && entries2[j].id_type == ty && y == span_of(entries2[j]);
                assert(entries2.contains(entries2[j]));
                let i = choose|i: int| 0 <= i < entries1.len() && entries1[i] == entries2[j];
                assert(o1.contains(span_of(entries1[i])));
            }
        }
        assert forall|y: int| #[trigger] blocked(a, y, cnt as int) <==> blocked(b, y, cnt as int) by {
            if blocked(a, y, cnt as int) {
                let k = choose|k: int| 0 <= k < a.len() && #[trigger] blocks(a[k], y, cnt as int);
                assert(a.contains(a[k]));
                assert(b.contains(a[k]));
                let m = choose|m: int| 0 <= m < b.len() && b[m] == a[k];
                assert(blocks(b[m], y, cnt as int));
            }
            if blocked(b, y, cnt as int) {
                let k = choose|k: int| 0 <= k < b.len() && #[trigger] blocks(b[k], y, cnt as int);
                assert(b.contains(b[k]));
                assert(a.contains(b[k]));
                let m = choose|m: int| 0 <= m < a.len() && a[m] == b[k];
                assert(blocks(a[m], y, cnt as int));
            }
        }
        lemma_first_fit(a, min as int, cnt as int, max as int);
        lemma_first_fit(b, min as int, cnt as int, max as int);
        match (free_range(entries1, ty, cfg), free_range(entries2, ty, cfg)) {
            (Some((r1, n1)), Some((r2, n2))) => {
                if r1 < r2 {
                    assert(blocked(b, r1 as int, cnt as int));
                } else if r2 < r1 {
                    assert(blocked(a, r2 as int, cnt as int));
                }
            },
            (Some((r1, n1)), None) => {
                assert(blocked(b, r1 as int, cnt as int));
            },
            (None, Some((r2, n2))) => {
                assert(blocked(a, r2 as int, cnt as int));
            },
            (None, None) => {},
        }
    }
}


/// Each kind is placed by its own settings: a range of uids has
/// `SUB_UID_COUNT` ids between `SUB_UID_MIN` and `SUB_UID_MAX`, a range of
/// gids `SUB_GID_COUNT` ids between `SUB_GID_MIN` and `SUB_GID_MAX`; and
/// no entry of the kind holds any of its ids.
pub proof fn lemma_free_range_settings(entries: Seq<DbEntry>, ty: subid_type, cfg: SubidConfig)
    ensures
        free_range(entries, ty, cfg) matches Some((s, n)) ==> {
            &&& ty == subid_type::IdTypeUid ==> n == cfg.uid_count && n > 0 && cfg.uid_min <= s && s
                + n - 1 <= cfg.uid_max
            &&& ty == subid_type::IdTypeGid ==> n == cfg.gid_count && n > 0 && cfg.gid_min <= s && s
                + n - 1 <= cfg.gid_max
            &&& range_is_free(entries, ty, s as int, n as int)
        },
{
    lemma_free_range_is_free(entries, ty, cfg);
}

/// In terms of the settings of the kind: where every entry of the kind
/// holds at least one id and the configured count is not zero, a range
/// found starts at the lowest start from the configured minimum whose range
/// is free, and none is found only when no free range fits between the
/// configured minimum and maximum.
pub proof fn lemma_free_range_lowest(entries: Seq<DbEntry>, ty: subid_type, cfg: SubidConfig)
    requires
        ty == subid_type::IdTypeUid ==> cfg.uid_count > 0,
        ty == subid_type::IdTypeGid ==> cfg.gid_count > 0,
        forall|i: int|
            0 <= i < entries.len() && #[trigger] entries[i].id_type == ty ==> entries[i].count > 0,
    ensures
        ({
            let min = if ty == subid_type::IdTypeUid {
                cfg.uid_min
            } else {
                cfg.gid_min
            };
            let max = if ty == subid_type::IdTypeUid {
                cfg.uid_max
            } else {
                cfg.gid_max
            };
            let count = if ty == subid_type::IdTypeUid {
                cfg.uid_count
            } else {
                cfg.gid_count
            };
            match free_range(entries, ty, cfg) {
                Some((r, n)) => {
                    &&& range_is_free(entries, ty, r as int, n as int)
                    &&& forall|x: int|
                        min <= x < r ==> !#[trigger] range_is_free(entries, ty, x, count as int)
                },
                None => forall|x: int|
                    min <= x && x + count - 1 <= max ==> !#[trigger] range_is_free(
                        entries,
                        ty,
                        x,
                        count as int,
                    ),
            }
        }),
{
    lemma_free_range_first_fit(entries, ty, cfg);
}

} // verus!
