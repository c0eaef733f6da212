use vstd::prelude::*;
use vstd::utf8::*;

use crate::db::{lemma_ascii_decodes, lemma_lines_append, lemma_seg_len_prefix};
use crate::decimal::{
    ascii_chars, decimal, lemma_decimal_digits, lemma_parse_decimal, parse_unsigned,
    parse_unsigned_max,
};
use crate::text::{
    chars_eq, decode_chars, is_ws, lemma_seg_len, lemma_seg_len_at, seg_len, lemma_word_len_at, lines,
    split_lines, split_words, strip_cr, trim, trim_chars, trim_end, trim_start, views, word_len,
    words,
};
use crate::types::{default_config, SubidConfig};

verus! {

pub open spec fn key_sub_uid_min() -> Seq<char> {
    seq!['S', 'U', 'B', '_', 'U', 'I', 'D', '_', 'M', 'I', 'N']
}

pub open spec fn key_sub_uid_max() -> Seq<char> {
    seq!['S', 'U', 'B', '_', 'U', 'I', 'D', '_', 'M', 'A', 'X']
}

pub open spec fn key_sub_uid_count() -> Seq<char> {
    seq!['S', 'U', 'B', '_', 'U', 'I', 'D', '_', 'C', 'O', 'U', 'N', 'T']
}

pub open spec fn key_sub_gid_min() -> Seq<char> {
    seq!['S', 'U', 'B', '_', 'G', 'I', 'D', '_', 'M', 'I', 'N']
}

pub open spec fn key_sub_gid_max() -> Seq<char> {
    seq!['S', 'U', 'B', '_', 'G', 'I', 'D', '_', 'M', 'A', 'X']
}

pub open spec fn key_sub_gid_count() -> Seq<char> {
    seq!['S', 'U', 'B', '_', 'G', 'I', 'D', '_', 'C', 'O', 'U', 'N', 'T']
}

/// `cfg` with the setting that `key` names set to `v`; unchanged for any
/// other key.
pub open spec fn set_setting(cfg: SubidConfig, key: Seq<char>, v: u64) -> SubidConfig {
    if key == key_sub_uid_min() {
        SubidConfig { uid_min: v, ..cfg }
    } else if key == key_sub_uid_max() {
        SubidConfig { uid_max: v, ..cfg }
    } else if key == key_sub_uid_count() {
        SubidConfig { uid_count: v, ..cfg }
    } else if key == key_sub_gid_min() {
        SubidConfig { gid_min: v, ..cfg }
    } else if key == key_sub_gid_max() {
        SubidConfig { gid_max: v, ..cfg }
    } else if key == key_sub_gid_count() {
        SubidConfig { gid_count: v, ..cfg }
    } else {
        cfg
    }
}

/// What one line of `login.defs` does to the settings: blank lines and
/// `#` comments do nothing; otherwise the first word names a setting and
/// the second is its value, and a line whose value is not a number does
/// nothing.
pub open spec fn login_defs_line(cfg: SubidConfig, line: Seq<char>) -> SubidConfig {
    let t = trim(line);
    if t.len() == 0 || t[0] == '#' {
        cfg
    } else {
        let parts = words(t);
        if parts.len() < 2 {
            cfg
        } else {
            match parse_unsigned(parts[1], u64::MAX as int) {
                Some(v) => set_setting(cfg, parts[0], v as u64),
                None => cfg,
            }
        }
    }
}

/// A line that is not well-formed UTF-8 is passed over.
pub open spec fn login_defs_raw_line(cfg: SubidConfig, raw: Seq<u8>) -> SubidConfig {
    if valid_utf8(raw) {
        login_defs_line(cfg, decode_utf8(raw))
    } else {
        cfg
    }
}

/// The settings after the lines `ls`, read in order from the defaults.
pub open spec fn login_defs_lines(ls: Seq<Seq<u8>>) -> SubidConfig
    decreases ls.len(),
{
    if ls.len() == 0 {
        default_config()
    } else {
        login_defs_raw_line(login_defs_lines(ls.drop_last()), ls.last())
    }
}

/// The settings that the text of a `login.defs` file gives.
pub open spec fn login_defs_config(content: Seq<u8>) -> SubidConfig {
    login_defs_lines(lines(content))
}

fn apply_setting(cfg: &mut SubidConfig, key: &[char], v: u64)
    ensures
        *final(cfg) == set_setting(*old(cfg), key@, v),
{
    let uid_min = ['S', 'U', 'B', '_', 'U', 'I', 'D', '_', 'M', 'I', 'N'];
    let uid_max = ['S', 'U', 'B', '_', 'U', 'I', 'D', '_', 'M', 'A', 'X'];
    let uid_count = ['S', 'U', 'B', '_', 'U', 'I', 'D', '_', 'C', 'O', 'U', 'N', 'T'];
    let gid_min = ['S', 'U', 'B', '_', 'G', 'I', 'D', '_', 'M', 'I', 'N'];
    let gid_max = ['S', 'U', 'B', '_', 'G', 'I', 'D', '_', 'M', 'A', 'X'];
    let gid_count = ['S', 'U', 'B', '_', 'G', 'I', 'D', '_', 'C', 'O', 'U', 'N', 'T'];
    assert(uid_min@ =~= key_sub_uid_min());
    assert(uid_max@ =~= key_sub_uid_max());
    assert(uid_count@ =~= key_sub_uid_count());
    assert(gid_min@ =~= key_sub_gid_min());
    assert(gid_max@ =~= key_sub_gid_max());
    assert(gid_count@ =~= key_sub_gid_count());
    if chars_eq(key, &uid_min) {
        cfg.uid_min = v;
    } else if chars_eq(key, &uid_max) {
        cfg.uid_max = v;
    } else if chars_eq(key, &uid_count) {
        cfg.uid_count = v;
    } else if chars_eq(key, &gid_min) {
        cfg.gid_min = v;
    } else if chars_eq(key, &gid_max) {
        cfg.gid_max = v;
    } else if chars_eq(key, &gid_count) {
        cfg.gid_count = v;
    }
}

fn apply_line(cfg: &mut SubidConfig, line: &[char])
    ensures
        *final(cfg) == login_defs_line(*old(cfg), line@),
{
    let t = trim_chars(line);
    if t.len() == 0 || t[0] == '#' {
        return;
    }
    let parts = split_words(t.as_slice());
    if parts.len() < 2 {
        return;
    }
    assert(views(parts@)[1] == parts@[1]@);
    assert(views(parts@)[0] == parts@[0]@);
    match parse_unsigned_max(parts[1].as_slice(), u64::MAX) {
        Some(v) => apply_setting(cfg, parts[0].as_slice(), v),
        None => {},
    }
}

/// Reads the settings from the text of a `login.defs` file: the
/// defaults, changed by each `SUB_UID_MIN`, `SUB_UID_MAX`,
/// `SUB_UID_COUNT`, `SUB_GID_MIN`, `SUB_GID_MAX` or `SUB_GID_COUNT` line
/// whose value is a number, the last such line of a key winning.
pub fn parse_login_defs(content: &[u8]) -> (cfg: SubidConfig)
    ensures
        cfg == login_defs_config(content@),
{
    let mut cfg = SubidConfig::default();
    let all = split_lines(content);
    let ghost ls = lines(content@);
    let mut k: usize = 0;
    assert(ls.take(0) =~= Seq::<Seq<u8>>::empty());
    while k < all.len()
        invariant
            views(all@) == ls,
            0 <= k <= all@.len(),
            cfg == login_defs_lines(ls.take(k as int)),
        decreases all@.len() - k,
    {
        assert(ls.take(k + 1).drop_last() =~= ls.take(k as int));
        assert(ls.take(k + 1).last() == all@[k as int]@);
        match decode_chars(all[k].as_slice()) {
            Some(chars) => apply_line(&mut cfg, chars.as_slice()),
            None => {},
        }
        k = k + 1;
    }
    assert(ls.take(k as int) =~= ls);
    cfg
}


// ---------------------------------------------------------------------------
// What reading login.defs guarantees
// ---------------------------------------------------------------------------

/// The settings after the lines `ls`, read in order from `cfg`.
pub open spec fn settings_after(cfg: SubidConfig, ls: Seq<Seq<u8>>) -> SubidConfig
    decreases ls.len(),
{
    if ls.len() == 0 {
        cfg
    } else {
        login_defs_raw_line(settings_after(cfg, ls.drop_last()), ls.last())
    }
}

proof fn lemma_settings_after_default(ls: Seq<Seq<u8>>)
    ensures
        login_defs_lines(ls) == settings_after(default_config(), ls),
    decreases ls.len(),
{
    if ls.len() > 0 {
        lemma_settings_after_default(ls.drop_last());
    }
}

proof fn lemma_settings_after_split(cfg: SubidConfig, a: Seq<Seq<u8>>, b: Seq<Seq<u8>>)
    ensures
        settings_after(cfg, a + b) == settings_after(settings_after(cfg, a), b),
    decreases b.len(),
{
    if b.len() == 0 {
        assert(a + b =~= a);
    } else {
        assert((a + b).drop_last() =~= a + b.drop_last());
        assert((a + b).last() == b.last());
        lemma_settings_after_split(cfg, a, b.drop_last());
    }
}

/// A text that is empty or ends in a newline, followed by any text, has
/// the lines of the first followed by the lines of the second.
proof fn lemma_lines_concat(a: Seq<u8>, b: Seq<u8>)
    requires
        a.len() == 0 || a.last() == 10u8,
    ensures
        lines(a + b) == lines(a) + lines(b),
    decreases a.len(),
{
    if a.len() == 0 {
        assert(a + b =~= b);
        assert(lines(a) =~= Seq::<Seq<u8>>::empty());
        assert(lines(a) + lines(b) =~= lines(b));
    } else {
        lemma_seg_len(a, 10u8);
        let k = seg_len(a, 10u8) as int;
        assert(k < a.len());
        lemma_seg_len_prefix(a, b, 10u8);
        let rest = a.skip(k + 1);
        assert((a + b).take(k) =~= a.take(k));
        assert((a + b).skip(k + 1) =~= rest + b);
        if rest.len() > 0 {
            assert(rest.last() == a.last());
        }
        lemma_lines_concat(rest, b);
        assert(lines(a + b) =~= seq![strip_cr(a.take(k))] + lines(rest + b));
        assert(lines(a) =~= seq![strip_cr(a.take(k))] + lines(rest));
        assert(lines(a + b) =~= lines(a) + lines(b));
    }
}

/// A line without a newline, ended by one, is one line.
proof fn lemma_one_line(line: Seq<u8>)
    requires
        forall|i: int| 0 <= i < line.len() ==> line[i] != 10u8,
        line.len() == 0 || line.last() != 13u8,
    ensures
        lines(line.push(10u8)) == seq![line],
{
    let l = line.push(10u8);
    assert forall|i: int| 0 <= i < line.len() implies l[i] != 10u8 by {
        assert(l[i] == line[i]);
    }
    lemma_seg_len_at(l, 10u8, line.len() as int);
    assert(l.take(line.len() as int) =~= line);
    assert(strip_cr(line) == line);
    assert(l.skip(line.len() + 1int) =~= Seq::<u8>::empty());
    assert(lines(l.skip(line.len() + 1int)) =~= Seq::<Seq<u8>>::empty());
    assert(lines(l) =~= seq![line]);
}

/// A blank line, a comment line, or a line that is not well-formed UTF-8
/// changes no setting: inserting one anywhere between the lines of a
/// `login.defs` text gives the same settings as the text without it.
pub proof fn lemma_login_defs_ignored_line(before: Seq<u8>, line: Seq<u8>, after: Seq<u8>)
    requires
        before.len() == 0 || before.last() == 10u8,
        forall|i: int| 0 <= i < line.len() ==> line[i] != 10u8,
        line.len() == 0 || line.last() != 13u8,
        valid_utf8(line) ==> (trim(decode_utf8(line)).len() == 0 || trim(decode_utf8(line))[0]
            == '#'),
    ensures
        login_defs_config(before + line.push(10u8) + after) == login_defs_config(before + after),
{
    let l = line.push(10u8);
    lemma_one_line(line);
    lemma_lines_concat(l, after);
    assert(before + l + after =~= before + (l + after));
    lemma_lines_concat(before, l + after);
    lemma_lines_concat(before, after);
    let lb = lines(before);
    let la = lines(after);
    assert(lines(before + l + after) =~= lb + seq![line] + la);
    lemma_settings_after_default(lb + seq![line] + la);
    lemma_settings_after_default(lb + la);
    let d = default_config();
    lemma_settings_after_split(d, lb + seq![line], la);
    lemma_settings_after_split(d, lb, seq![line]);
    lemma_settings_after_split(d, lb, la);
    let x = settings_after(d, lb);
    assert(seq![line].drop_last() =~= Seq::<Seq<u8>>::empty());
    assert(settings_after(x, seq![line].drop_last()) == x);
    assert(seq![line].last() == line);
    assert(settings_after(x, seq![line]) == login_defs_raw_line(x, line));
    assert(login_defs_raw_line(x, line) == x);
}

/// `ASCII key` then a space then `v` in decimal, and a newline.
pub open spec fn setting_line(key: Seq<u8>, v: u64) -> Seq<u8> {
    key + seq![32u8] + decimal(v as nat) + seq![10u8]
}

pub open spec fn sub_uid_min_bytes() -> Seq<u8> {
    seq![83u8, 85, 66, 95, 85, 73, 68, 95, 77, 73, 78]
}

pub open spec fn sub_uid_max_bytes() -> Seq<u8> {
    seq![83u8, 85, 66, 95, 85, 73, 68, 95, 77, 65, 88]
}

pub open spec fn sub_uid_count_bytes() -> Seq<u8> {
    seq![83u8, 85, 66, 95, 85, 73, 68, 95, 67, 79, 85, 78, 84]
}

pub open spec fn sub_gid_min_bytes() -> Seq<u8> {
    seq![83u8, 85, 66, 95, 71, 73, 68, 95, 77, 73, 78]
}

pub open spec fn sub_gid_max_bytes() -> Seq<u8> {
    seq![83u8, 85, 66, 95, 71, 73, 68, 95, 77, 65, 88]
}

pub open spec fn sub_gid_count_bytes() -> Seq<u8> {
    seq![83u8, 85, 66, 95, 71, 73, 68, 95, 67, 79, 85, 78, 84]
}

/// Two non-empty runs without whitespace, joined by one space, are two
/// words.
proof fn lemma_two_words(k: Seq<char>, d: Seq<char>)
    requires
        k.len() > 0,
        d.len() > 0,
        forall|i: int| 0 <= i < k.len() ==> !is_ws(k[i]),
        forall|i: int| 0 <= i < d.len() ==> !is_ws(d[i]),
    ensures
        words(k + seq![' '] + d) == seq![k, d],
{
    let s = k + seq![' '] + d;
    assert forall|i: int| 0 <= i < k.len() implies !is_ws(s[i]) by {
        assert(s[i] == k[i]);
    }
    assert(s[k.len() as int] == ' ');
    assert(is_ws(' '));
    lemma_word_len_at(s, k.len() as int);
    assert(s.take(k.len() as int) =~= k);
    let u = s.skip(k.len() as int);
    assert(u =~= seq![' '] + d);
    assert(u.drop_first() =~= d);
    lemma_word_len_at(d, d.len() as int);
    assert(d.take(d.len() as int) =~= d);
    assert(d.skip(d.len() as int) =~= Seq::<char>::empty());
    assert(words(d.skip(d.len() as int)) =~= Seq::<Seq<char>>::empty());
    assert(!is_ws(d[0]));
    assert(words(d) == seq![d.take(word_len(d) as int)] + words(d.skip(word_len(d) as int)));
    assert(words(d) =~= seq![d]);
    assert(words(u) == words(d));
    assert(words(s) =~= seq![k, d]);
}

/// A line `key v` appended to a `login.defs` text that is empty or ends in
/// a newline sets what the key names to `v`.
proof fn lemma_setting_line_applies(before: Seq<u8>, key: Seq<u8>, v: u64)
    requires
        before.len() == 0 || before.last() == 10u8,
        key.len() > 0,
        forall|i: int| 0 <= i < key.len() ==> (65 <= #[trigger] key[i] <= 90 || key[i] == 95),
    ensures
        login_defs_config(before + setting_line(key, v)) == set_setting(
            login_defs_config(before),
            ascii_chars(key),
            v,
        ),
{
    let dv = decimal(v as nat);
    lemma_decimal_digits(v as nat);
    let x = key + seq![32u8] + dv;
    assert(setting_line(key, v) =~= x.push(10u8));
    assert forall|i: int| 0 <= i < x.len() implies x[i] != 10u8 && x[i] < 128 by {
        if i < key.len() {
            assert(x[i] == key[i]);
        } else if i > key.len() {
            assert(x[i] == dv[i - key.len() - 1]);
        }
    }
    assert(x.last() == dv.last());
    lemma_lines_append(before, x);
    lemma_ascii_decodes(x);
    let kc = ascii_chars(key);
    let dc = ascii_chars(dv);
    let c = ascii_chars(x);
    assert(c =~= kc + seq![' '] + dc);
    assert forall|i: int| 0 <= i < kc.len() implies !is_ws(kc[i]) && kc[i] != '#' by {
        assert(kc[i] == key[i] as char);
    }
    assert forall|i: int| 0 <= i < dc.len() implies !is_ws(dc[i]) by {
        assert(dc[i] == dv[i] as char);
    }
    assert(c[0] == kc[0]);
    assert(c.last() == dc.last());
    assert(trim_start(c) == c);
    assert(trim_end(c) == c);
    assert(trim(c) == c);
    lemma_two_words(kc, dc);
    lemma_parse_decimal(v as nat, u64::MAX as int);
    let ls = lines(before);
    assert(lines(before + setting_line(key, v)) == ls.push(x));
    assert(ls.push(x).drop_last() =~= ls);
    assert(ls.push(x).last() == x);
}

/// An empty `login.defs` gives the default settings: ids 100000 to
/// 600100000, 65536 at a time, for uids and for gids alike.
pub proof fn lemma_login_defs_empty()
    ensures
        login_defs_config(Seq::<u8>::empty()).uid_min == 100000,
        login_defs_config(Seq::<u8>::empty()).uid_max == 600100000,
        login_defs_config(Seq::<u8>::empty()).uid_count == 65536,
        login_defs_config(Seq::<u8>::empty()).gid_min == 100000,
        login_defs_config(Seq::<u8>::empty()).gid_max == 600100000,
        login_defs_config(Seq::<u8>::empty()).gid_count == 65536,
{
    assert(lines(Seq::<u8>::empty()) =~= Seq::<Seq<u8>>::empty());
}

/// Each of the six keys sets its own setting and leaves the other five as
/// they were: a line `SUB_UID_MIN v` (and so on for `SUB_UID_MAX`,
/// `SUB_UID_COUNT`, `SUB_GID_MIN`, `SUB_GID_MAX`, `SUB_GID_COUNT`) appended
/// to a text that is empty or ends in a newline.
pub proof fn lemma_login_defs_setting(before: Seq<u8>, v: u64)
    requires
        before.len() == 0 || before.last() == 10u8,
    ensures
        login_defs_config(before + setting_line(sub_uid_min_bytes(), v)) == (SubidConfig {
            uid_min: v,
            ..login_defs_config(before)
        }),
        login_defs_config(before + setting_line(sub_uid_max_bytes(), v)) == (SubidConfig {
            uid_max: v,
            ..login_defs_config(before)
        }),
        login_defs_config(before + setting_line(sub_uid_count_bytes(), v)) == (SubidConfig {
            uid_count: v,
            ..login_defs_config(before)
        }),
        login_defs_config(before + setting_line(sub_gid_min_bytes(), v)) == (SubidConfig {
            gid_min: v,
            ..login_defs_config(before)
        }),
        login_defs_config(before + setting_line(sub_gid_max_bytes(), v)) == (SubidConfig {
            gid_max: v,
            ..login_defs_config(before)
        }),
        login_defs_config(before + setting_line(sub_gid_count_bytes(), v)) == (SubidConfig {
            gid_count: v,
            ..login_defs_config(before)
        }),
{
    let k1 = sub_uid_min_bytes();
    let k2 = sub_uid_max_bytes();
    let k3 = sub_uid_count_bytes();
    let k4 = sub_gid_min_bytes();
    let k5 = sub_gid_max_bytes();
    let k6 = sub_gid_count_bytes();
    lemma_setting_line_applies(before, k1, v);
    lemma_setting_line_applies(before, k2, v);
    lemma_setting_line_applies(before, k3, v);
    lemma_setting_line_applies(before, k4, v);
    lemma_setting_line_applies(before, k5, v);
    lemma_setting_line_applies(before, k6, v);
    assert(ascii_chars(k1) =~= key_sub_uid_min());
    assert(ascii_chars(k2) =~= key_sub_uid_max());
    assert(ascii_chars(k3) =~= key_sub_uid_count());
    assert(ascii_chars(k4) =~= key_sub_gid_min());
    assert(ascii_chars(k5) =~= key_sub_gid_max());
    assert(ascii_chars(k6) =~= key_sub_gid_count());
    // The six keys differ from one another.
    assert(key_sub_uid_max()[9] != key_sub_uid_min()[9]);
    assert(key_sub_uid_count().len() != key_sub_uid_min().len());
    assert(key_sub_uid_count().len() != key_sub_uid_max().len());
    assert(key_sub_gid_min()[4] != key_sub_uid_min()[4]);
    assert(key_sub_gid_min()[4] != key_sub_uid_max()[4]);
    assert(key_sub_gid_min().len() != key_sub_uid_count().len());
    assert(key_sub_gid_max()[4] != key_sub_uid_min()[4]);
    assert(key_sub_gid_max()[4] != key_sub_uid_max()[4]);
    assert(key_sub_gid_max().len() != key_sub_uid_count().len());
    assert(key_sub_gid_max()[9] != key_sub_gid_min()[9]);
    assert(key_sub_gid_count().len() != key_sub_uid_min().len());
    assert(key_sub_gid_count().len() != key_sub_uid_max().len());
    assert(key_sub_gid_count()[4] != key_sub_uid_count()[4]);
    assert(key_sub_gid_count().len() != key_sub_gid_min().len());
    assert(key_sub_gid_count().len() != key_sub_gid_max().len());
}

} // verus!
