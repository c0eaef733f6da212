use vstd::prelude::*;
use vstd::utf8::*;

use crate::decimal::{
    ascii_chars, decimal, lemma_decimal_digits, lemma_parse_decimal, parse_unsigned,
    parse_unsigned_max, push_decimal,
};
use crate::text::{
    decode_chars, is_ws, lemma_seg_len, lemma_seg_len_at, lines, seg_len, split_at_char,
    split_lines, split_on, strip_cr, trim, trim_chars, trim_end, trim_start, views,
};
use crate::types::{subid_type, DbEntry};

verus! {

/// The kind that the last field of a database line names: `u` or `g`.
pub open spec fn type_field(f: Seq<char>) -> Option<subid_type> {
    if f == seq!['u'] {
        Some(subid_type::IdTypeUid)
    } else if f == seq!['g'] {
        Some(subid_type::IdTypeGid)
    } else {
        None
    }
}

/// The entry that one line of the database holds, if any: after trimming,
/// a blank line or a `#` comment holds none, and otherwise the line must be
/// four `:`-separated fields `uid:start:count:type`, with a `u32` uid, two
/// `u64` numbers and `u` or `g`; any other line holds none.
pub open spec fn db_line_entry(line: Seq<char>) -> Option<DbEntry> {
    let t = trim(line);
    if t.len() == 0 || t[0] == '#' {
        None
    } else {
        let p = split_on(t, ':');
        if p.len() != 4 {
            None
        } else {
            match (
                parse_unsigned(p[0], u32::MAX as int),
                parse_unsigned(p[1], u64::MAX as int),
                parse_unsigned(p[2], u64::MAX as int),
                type_field(p[3]),
            ) {
                (Some(uid), Some(start), Some(count), Some(ty)) => Some(
                    DbEntry { uid: uid as u32, start: start as u64, count: count as u64, id_type: ty },
                ),
                _ => None,
            }
        }
    }
}

/// The entries of the lines `ls`, in order; `None` when a line is not
/// well-formed UTF-8.
pub open spec fn db_entries(ls: Seq<Seq<u8>>) -> Option<Seq<DbEntry>>
    decreases ls.len(),
{
    if ls.len() == 0 {
        Some(seq![])
    } else {
        match db_entries(ls.drop_last()) {
            None => None,
            Some(es) => if !valid_utf8(ls.last()) {
                None
            } else {
                match db_line_entry(decode_utf8(ls.last())) {
                    Some(e) => Some(es.push(e)),
                    None => Some(es),
                }
            },
        }
    }
}

/// The entries that the text of the database holds.
pub open spec fn db_content(content: Seq<u8>) -> Option<Seq<DbEntry>> {
    db_entries(lines(content))
}

/// The database holds a line that is not well-formed UTF-8.
#[derive(Debug, Clone, Copy, PartialEq, Eq, Structural)]
pub enum DbReadError {
    InvalidUtf8,
}

fn line_entry(line: &[char]) -> (r: Option<DbEntry>)
    ensures
        r == db_line_entry(line@),
{
    let t = trim_chars(line);
    if t.len() == 0 || t[0] == '#' {
        return None;
    }
    let p = split_at_char(t.as_slice(), ':');
    if p.len() != 4 {
        return None;
    }
    assert(views(p@)[0] == p@[0]@);
    assert(views(p@)[1] == p@[1]@);
    assert(views(p@)[2] == p@[2]@);
    assert(views(p@)[3] == p@[3]@);
    let uid = match parse_unsigned_max(p[0].as_slice(), 0xffff_ffffu64) {
        Some(v) => v,
        None => return None,
    };
    let start = match parse_unsigned_max(p[1].as_slice(), u64::MAX) {
        Some(v) => v,
        None => return None,
    };
    let count = match parse_unsigned_max(p[2].as_slice(), u64::MAX) {
        Some(v) => v,
        None => return None,
    };
    let f = p[3].as_slice();
    let id_type = if f.len() == 1 && f[0] == 'u' {
        assert(f@ =~= seq!['u']);
        subid_type::IdTypeUid
    } else if f.len() == 1 && f[0] == 'g' {
        assert(f@ =~= seq!['g']);
        subid_type::IdTypeGid
    } else {
        assert(f@ != seq!['u']);
        assert(f@ != seq!['g']);
        return None;
    };
    Some(DbEntry { uid: uid as u32, start, count, id_type })
}

/// Reads the entries from the text of the database, in the order of their
/// lines. Lines that do not hold an entry are passed over; a line that is
/// not well-formed UTF-8 fails the whole read.
pub fn read_db(content: &[u8]) -> (r: Result<Vec<DbEntry>, DbReadError>)
    ensures
        match r {
            Ok(v) => db_content(content@) == Some(v@),
            Err(_) => db_content(content@) is None,
        },
{
    let all = split_lines(content);
    let ghost ls = lines(content@);
    let mut entries: Vec<DbEntry> = Vec::new();
    let mut k: usize = 0;
    assert(ls.take(0) =~= Seq::<Seq<u8>>::empty());
    while k < all.len()
        invariant
            views(all@) == ls,
            ls == lines(content@),
            0 <= k <= all@.len(),
            db_entries(ls.take(k as int)) == Some(entries@),
        decreases all@.len() - k,
    {
        assert(ls.take(k + 1).drop_last() =~= ls.take(k as int));
        assert(ls.take(k + 1).last() == all@[k as int]@);
        match decode_chars(all[k].as_slice()) {
            Some(chars) => {
                match line_entry(chars.as_slice()) {
                    Some(e) => entries.push(e),
                    None => {},
                }
            },
            None => {
                proof {
                    assert(db_entries(ls.take(k + 1)) is None);
                    lemma_db_entries_fail_extends(ls, k as int + 1);
                }
                return Err(DbReadError::InvalidUtf8);
            },
        }
        k = k + 1;
    }
    assert(ls.take(k as int) =~= ls);
    Ok(entries)
}

/// Once a prefix of the lines fails to read, the whole does.
proof fn lemma_db_entries_fail_extends(ls: Seq<Seq<u8>>, k: int)
    requires
        0 <= k <= ls.len(),
        db_entries(ls.take(k)) is None,
    ensures
        db_entries(ls) is None,
    decreases ls.len() - k,
{
    if k < ls.len() {
        assert(ls.take(k + 1).drop_last() =~= ls.take(k));
        lemma_db_entries_fail_extends(ls, k + 1);
    } else {
        assert(ls.take(k) =~= ls);
    }
}


// ---------------------------------------------------------------------------
// Writing a line
// ---------------------------------------------------------------------------

/// The letter that names a kind in the database: `u` or `g`.
pub open spec fn type_byte(ty: subid_type) -> u8 {
    match ty {
        subid_type::IdTypeUid => 117u8,
        subid_type::IdTypeGid => 103u8,
    }
}

/// The line that records `e`: `uid:start:count:type` and a newline.
pub open spec fn entry_line(e: DbEntry) -> Seq<u8> {
    decimal(e.uid as nat) + seq![58u8] + decimal(e.start as nat) + seq![58u8] + decimal(
        e.count as nat,
    ) + seq![58u8, type_byte(e.id_type), 10u8]
}

/// The bytes of the line that records `e` in the database.
pub fn db_entry_line(e: &DbEntry) -> (out: Vec<u8>)
    ensures
        out@ == entry_line(*e),
{
    let mut out: Vec<u8> = Vec::new();
    push_decimal(&mut out, e.uid as u64);
    out.push(58u8);
    push_decimal(&mut out, e.start);
    out.push(58u8);
    push_decimal(&mut out, e.count);
    out.push(58u8);
    let t: u8 = match e.id_type {
        subid_type::IdTypeUid => 117u8,
        subid_type::IdTypeGid => 103u8,
    };
    out.push(t);
    out.push(10u8);
    assert(out@ =~= entry_line(*e));
    out
}

// ---------------------------------------------------------------------------
// Reading back what was written
// ---------------------------------------------------------------------------

pub proof fn lemma_seg_len_prefix<T>(a: Seq<T>, b: Seq<T>, sep: T)
    requires
        seg_len(a, sep) < a.len(),
    ensures
        seg_len(a + b, sep) == seg_len(a, sep),
{
    lemma_seg_len(a, sep);
    let k = seg_len(a, sep) as int;
    assert forall|i: int| 0 <= i < k implies (a + b)[i] != sep by {
        assert((a + b)[i] == a[i]);
    }
    assert((a + b)[k] == a[k]);
    lemma_seg_len_at(a + b, sep, k);
}

/// A text that is empty or ends in a newline, followed by one more
/// complete line, has that line as its last line.
pub proof fn lemma_lines_append(a: Seq<u8>, x: Seq<u8>)
    requires
        a.len() == 0 || a.last() == 10u8,
        x.len() > 0,
        x.last() != 13u8,
        forall|i: int| 0 <= i < x.len() ==> x[i] != 10u8,
    ensures
        lines(a + x.push(10u8)) == lines(a).push(x),
    decreases a.len(),
{
    let l = x.push(10u8);
    if a.len() == 0 {
        assert(a + l =~= l);
        assert forall|i: int| 0 <= i < x.len() implies l[i] != 10u8 by {
            assert(l[i] == x[i]);
        }
        lemma_seg_len_at(l, 10u8, x.len() as int);
        assert(l.take(x.len() as int) =~= x);
        assert(l.skip(x.len() + 1int) =~= Seq::<u8>::empty());
        assert(strip_cr(x) == x);
        assert(lines(l.skip(x.len() + 1int)) =~= Seq::<Seq<u8>>::empty());
        assert(lines(l) == seq![strip_cr(l.take(x.len() as int))] + lines(l.skip(x.len() + 1int)));
        assert(lines(l) =~= seq![x]);
        assert(lines(a) =~= Seq::<Seq<u8>>::empty());
        assert(lines(a).push(x) =~= seq![x]);
    } else {
        lemma_seg_len(a, 10u8);
        let k = seg_len(a, 10u8) as int;
        assert(k < a.len());
        lemma_seg_len_prefix(a, l, 10u8);
        let rest = a.skip(k + 1);
        assert((a + l).take(k) =~= a.take(k));
        assert((a + l).skip(k + 1) =~= rest + l);
        if rest.len() > 0 {
            assert(rest.last() == a.last());
        }
        lemma_lines_append(rest, x);
        assert(lines(a + l) =~= seq![strip_cr(a.take(k))] + lines(rest + l));
        assert(lines(a) =~= seq![strip_cr(a.take(k))] + lines(rest));
        assert(lines(a + l) =~= lines(a).push(x));
    }
}

/// ASCII bytes are well-formed UTF-8 and decode to the characters they
/// stand for.
pub proof fn lemma_ascii_decodes(x: Seq<u8>)
    requires
        forall|i: int| 0 <= i < x.len() ==> x[i] < 128,
    ensures
        valid_utf8(x),
        decode_utf8(x) == ascii_chars(x),
{
    let c = ascii_chars(x);
    assert forall|i: int| 0 <= i < c.len() implies '\0' <= #[trigger] c[i] <= '\u{7f}' by {
        assert(c[i] == x[i] as char);
    }
    assert(is_ascii_chars(c));
    is_ascii_chars_encode_utf8(c);
    assert forall|i: int| 0 <= i < x.len() implies encode_utf8(c)[i] == x[i] by {
        assert(c[i] == x[i] as char);
        assert(c[i] as u8 == encode_utf8(c)[i]);
    }
    assert(encode_utf8(c) =~= x);
    encode_utf8_valid_utf8(c);
    encode_utf8_decode_utf8(c);
}

/// A run without `sep`, then `sep`, then the rest, splits into the run
/// followed by the pieces of the rest.
proof fn lemma_split_prefix(a: Seq<char>, rest: Seq<char>, sep: char)
    requires
        forall|i: int| 0 <= i < a.len() ==> a[i] != sep,
    ensures
        split_on(a + seq![sep] + rest, sep) == seq![a] + split_on(rest, sep),
{
    let s = a + seq![sep] + rest;
    assert forall|i: int| 0 <= i < a.len() implies s[i] != sep by {
        assert(s[i] == a[i]);
    }
    assert(s[a.len() as int] == sep);
    lemma_seg_len_at(s, sep, a.len() as int);
    assert(s.take(a.len() as int) =~= a);
    assert(s.skip(a.len() + 1int) =~= rest);
}

/// A run without `sep` is a single piece.
proof fn lemma_split_whole(a: Seq<char>, sep: char)
    requires
        forall|i: int| 0 <= i < a.len() ==> a[i] != sep,
    ensures
        split_on(a, sep) == seq![a],
{
    lemma_seg_len_at(a, sep, a.len() as int);
}

proof fn lemma_decimal_chars(n: nat)
    ensures
        ascii_chars(decimal(n)).len() > 0,
        forall|i: int|
            0 <= i < ascii_chars(decimal(n)).len() ==> #[trigger] ascii_chars(decimal(n))[i]
                != ':' && !is_ws(ascii_chars(decimal(n))[i]) && ascii_chars(decimal(n))[i]
                != '#',
{
    lemma_decimal_digits(n);
    let c = ascii_chars(decimal(n));
    assert forall|i: int| 0 <= i < c.len() implies #[trigger] c[i] != ':' && !is_ws(c[i]) && c[i]
        != '#' by {
        assert(c[i] == decimal(n)[i] as char);
        assert(48 <= decimal(n)[i] <= 57);
    }
}

/// The line written for `e`, without its newline, reads back as `e`.
proof fn lemma_entry_line_reads_back(e: DbEntry)
    ensures
        db_line_entry(ascii_chars(entry_line(e).drop_last())) == Some(e),
{
    let d1 = ascii_chars(decimal(e.uid as nat));
    let d2 = ascii_chars(decimal(e.start as nat));
    let d3 = ascii_chars(decimal(e.count as nat));
    let tc = type_byte(e.id_type) as char;
    let c = ascii_chars(entry_line(e).drop_last());
    assert(entry_line(e).drop_last() =~= decimal(e.uid as nat) + seq![58u8] + decimal(
        e.start as nat,
    ) + seq![58u8] + decimal(e.count as nat) + seq![58u8, type_byte(e.id_type)]);
    assert(c =~= d1 + seq![':'] + (d2 + seq![':'] + (d3 + seq![':'] + seq![tc])));
    lemma_decimal_chars(e.uid as nat);
    lemma_decimal_chars(e.start as nat);
    lemma_decimal_chars(e.count as nat);
    // The line has no whitespace at its ends.
    assert(c[0] == d1[0]);
    assert(c.last() == tc);
    assert(!is_ws(c[0]));
    assert(!is_ws(c.last()));
    assert(trim_start(c) == c);
    assert(trim_end(c) == c);
    assert(trim(c) == c);
    // It has four fields.
    lemma_split_prefix(d1, d2 + seq![':'] + (d3 + seq![':'] + seq![tc]), ':');
    lemma_split_prefix(d2, d3 + seq![':'] + seq![tc], ':');
    lemma_split_prefix(d3, seq![tc], ':');
    lemma_split_whole(seq![tc], ':');
    let p = split_on(c, ':');
    assert(p =~= seq![d1, d2, d3, seq![tc]]);
    lemma_parse_decimal(e.uid as nat, u32::MAX as int);
    lemma_parse_decimal(e.start as nat, u64::MAX as int);
    lemma_parse_decimal(e.count as nat, u64::MAX as int);
    assert(type_field(seq![tc]) == Some(e.id_type));
}

/// Appending the line of `e` to a database that is empty or ends in a
/// newline: reading the database back gives the entries it held before,
/// followed by `e` (and still fails where it failed before).
pub proof fn lemma_append_then_read(content: Seq<u8>, e: DbEntry)
    requires
        content.len() == 0 || content.last() == 10u8,
    ensures
        db_content(content + entry_line(e)) == match db_content(content) {
            Some(es) => Some(es.push(e)),
            None => None,
        },
{
    let x = entry_line(e).drop_last();
    assert(entry_line(e) =~= x.push(10u8));
    lemma_decimal_digits(e.uid as nat);
    lemma_decimal_digits(e.start as nat);
    lemma_decimal_digits(e.count as nat);
    let n1 = decimal(e.uid as nat).len() as int;
    let n2 = decimal(e.start as nat).len() as int;
    let n3 = decimal(e.count as nat).len() as int;
    assert forall|i: int| 0 <= i < x.len() implies x[i] != 10u8 && x[i] != 13u8 && x[i] < 128 by {
        if i < n1 {
            assert(x[i] == decimal(e.uid as nat)[i]);
        } else if i == n1 {
        } else if i < n1 + 1 + n2 {
            assert(x[i] == decimal(e.start as nat)[i - n1 - 1]);
        } else if i == n1 + 1 + n2 {
        } else if i < n1 + 1 + n2 + 1 + n3 {
            assert(x[i] == decimal(e.count as nat)[i - n1 - 1 - n2 - 1]);
        } else {
        }
    }
    lemma_lines_append(content, x);
    let ls = lines(content);
    assert(lines(content + entry_line(e)) == ls.push(x));
    assert(ls.push(x).drop_last() =~= ls);
    assert(ls.push(x).last() == x);
    lemma_ascii_decodes(x);
    lemma_entry_line_reads_back(e);
}


/// A database of the single line `uid:start:count:u` (or `:g`), numbers in
/// decimal, reads as the one entry of that uid, start, count and kind.
pub proof fn lemma_read_db_line(uid: u32, start: u64, count: u64)
    ensures
        db_content(
            decimal(uid as nat) + seq![58u8] + decimal(start as nat) + seq![58u8] + decimal(
                count as nat,
            ) + seq![58u8, 117u8, 10u8],
        ) == Some(seq![DbEntry { uid, start, count, id_type: subid_type::IdTypeUid }]),
        db_content(
            decimal(uid as nat) + seq![58u8] + decimal(start as nat) + seq![58u8] + decimal(
                count as nat,
            ) + seq![58u8, 103u8, 10u8],
        ) == Some(seq![DbEntry { uid, start, count, id_type: subid_type::IdTypeGid }]),
{
    let eu = DbEntry { uid, start, count, id_type: subid_type::IdTypeUid };
    let eg = DbEntry { uid, start, count, id_type: subid_type::IdTypeGid };
    lemma_append_then_read(Seq::<u8>::empty(), eu);
    lemma_append_then_read(Seq::<u8>::empty(), eg);
    assert(Seq::<u8>::empty() + entry_line(eu) =~= entry_line(eu));
    assert(Seq::<u8>::empty() + entry_line(eg) =~= entry_line(eg));
    assert(lines(Seq::<u8>::empty()) =~= Seq::<Seq<u8>>::empty());
    assert(db_content(Seq::<u8>::empty()) == Some(Seq::<DbEntry>::empty()));
    assert(Seq::<DbEntry>::empty().push(eu) =~= seq![eu]);
    assert(Seq::<DbEntry>::empty().push(eg) =~= seq![eg]);
}

} // verus!
