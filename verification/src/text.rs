use vstd::prelude::*;
use vstd::utf8::*;
use vstd::string::StringSliceAdditionalSpecFns;

verus! {

// ---------------------------------------------------------------------------
// Characters
// ---------------------------------------------------------------------------

/// Unicode `White_Space`, the set that `char::is_whitespace`, `str::trim`
/// and `str::split_whitespace` use.
pub open spec fn is_ws(c: char) -> bool {
    let u = c as u32;
    ||| 9 <= u <= 13
    ||| u == 32
    ||| u == 0x85
    ||| u == 0xA0
    ||| u == 0x1680
    ||| 0x2000 <= u <= 0x200A
    ||| u == 0x2028
    ||| u == 0x2029
    ||| u == 0x202F
    ||| u == 0x205F
    ||| u == 0x3000
}

pub fn is_whitespace(c: char) -> (r: bool)
    ensures
        r == is_ws(c),
{
    let u = c as u32;
    (9 <= u && u <= 13) || u == 32 || u == 0x85 || u == 0xA0 || u == 0x1680 || (0x2000 <= u && u
        <= 0x200A) || u == 0x2028 || u == 0x2029 || u == 0x202F || u == 0x205F || u == 0x3000
}

/// Whether two character slices hold the same characters.
pub fn chars_eq(a: &[char], b: &[char]) -> (r: bool)
    ensures
        r == (a@ == b@),
{
    if a.len() != b.len() {
        return false;
    }
    let mut i: usize = 0;
    while i < a.len()
        invariant
            a@.len() == b@.len(),
            0 <= i <= a@.len(),
            forall|j: int| 0 <= j < i ==> a@[j] == b@[j],
        decreases a@.len() - i,
    {
        if a[i] != b[i] {
            return false;
        }
        i = i + 1;
    }
    assert(a@ =~= b@);
    true
}

// ---------------------------------------------------------------------------
// UTF-8
// ---------------------------------------------------------------------------

/// `std::str::from_utf8`: succeeds exactly on well-formed UTF-8, and then
/// the string holds the bytes that were given.
#[verifier::external_body]
fn str_from_utf8(bytes: &[u8]) -> (res: Option<&str>)
    ensures
        res is Some <==> valid_utf8(bytes@),
        res matches Some(s) ==> s.spec_bytes() == bytes@,
{
    std::str::from_utf8(bytes).ok()
}

/// The characters that `bytes` encode in UTF-8, or `None` where the bytes
/// are not well-formed UTF-8.
pub fn decode_chars(bytes: &[u8]) -> (res: Option<Vec<char>>)
    ensures
        res is Some <==> valid_utf8(bytes@),
        res matches Some(v) ==> v@ == decode_utf8(bytes@),
{
    match str_from_utf8(bytes) {
        None => None,
        Some(s) => {
            proof {
                encode_utf8_decode_utf8(s@);
            }
            let mut out: Vec<char> = Vec::new();
            for c in it: s.chars()
                invariant
                    out@ == it.seq().take(it.index() as int),
            {
                out.push(c);
            }
            Some(out)
        },
    }
}


// ---------------------------------------------------------------------------
// Splitting at a separator
// ---------------------------------------------------------------------------

/// Length of the leading run of `s` that holds no `sep`.
pub open spec fn seg_len<T>(s: Seq<T>, sep: T) -> nat
    decreases s.len(),
{
    if s.len() == 0 || s[0] == sep {
        0
    } else {
        1 + seg_len(s.drop_first(), sep)
    }
}

pub proof fn lemma_seg_len<T>(s: Seq<T>, sep: T)
    ensures
        seg_len(s, sep) <= s.len(),
        seg_len(s, sep) < s.len() ==> s[seg_len(s, sep) as int] == sep,
        forall|i: int| 0 <= i < seg_len(s, sep) ==> s[i] != sep,
    decreases s.len(),
{
    if s.len() > 0 && s[0] != sep {
        lemma_seg_len(s.drop_first(), sep);
        assert forall|i: int| 0 <= i < seg_len(s, sep) implies s[i] != sep by {
            if i > 0 {
                assert(s[i] == s.drop_first()[i - 1]);
            }
        }
    }
}

/// The run of `s` up to its first `sep` is `k` long when `k` is where the
/// first `sep` stands (or the end of `s`).
pub proof fn lemma_seg_len_at<T>(s: Seq<T>, sep: T, k: int)
    requires
        0 <= k <= s.len(),
        forall|i: int| 0 <= i < k ==> s[i] != sep,
        k == s.len() || s[k] == sep,
    ensures
        seg_len(s, sep) == k,
    decreases s.len(),
{
    if k > 0 {
        let t = s.drop_first();
        assert forall|i: int| 0 <= i < k - 1 implies t[i] != sep by {
            assert(t[i] == s[i + 1]);
        }
        if k < s.len() {
            assert(t[k - 1] == s[k]);
        }
        lemma_seg_len_at(t, sep, k - 1);
    }
}

/// `s` cut at every `sep`, as `str::split` with a single separator does:
/// `n` separators give `n + 1` pieces.
pub open spec fn split_on<T>(s: Seq<T>, sep: T) -> Seq<Seq<T>>
    decreases s.len(),
{
    let k = seg_len(s, sep);
    if k >= s.len() {
        seq![s]
    } else {
        seq![s.take(k as int)] + split_on(s.skip(k + 1 as int), sep)
    }
}

/// The character sequences that a vector of vectors holds.
pub open spec fn views<T>(v: Seq<Vec<T>>) -> Seq<Seq<T>> {
    v.map_values(|x: Vec<T>| x@)
}

/// Cuts `s` at every `sep`.
pub fn split_at_char(s: &[char], sep: char) -> (out: Vec<Vec<char>>)
    ensures
        views(out@) == split_on(s@, sep),
{
    let mut out: Vec<Vec<char>> = Vec::new();
    let mut i: usize = 0;
    assert(s@.skip(0) =~= s@);
    assert(views(out@) =~= Seq::<Seq<char>>::empty());
    loop
        invariant
            0 <= i <= s@.len(),
            views(out@) + split_on(s@.skip(i as int), sep) == split_on(s@, sep),
        decreases s@.len() - i,
    {
        let ghost rest = s@.skip(i as int);
        let mut j: usize = i;
        while j < s.len() && s[j] != sep
            invariant
                i <= j <= s@.len(),
                forall|k: int| i <= k < j ==> s@[k] != sep,
            decreases s@.len() - j,
        {
            j = j + 1;
        }
        proof {
            assert forall|k: int| 0 <= k < j - i implies rest[k] != sep by {
                assert(rest[k] == s@[i + k]);
            }
            if j < s@.len() {
                assert(rest[j - i] == s@[j as int]);
            }
            lemma_seg_len_at(rest, sep, j - i);
        }
        let piece = vstd::slice::slice_to_vec(&s[i..j]);
        let ghost before = views(out@);
        let ghost piece_view = piece@;
        out.push(piece);
        proof {
            assert(views(out@) =~= before.push(piece_view));
            assert(rest.take(j - i) =~= s@.subrange(i as int, j as int));
        }
        if j >= s.len() {
            assert(split_on(rest, sep) == seq![rest]);
            assert(rest =~= s@.subrange(i as int, j as int));
            assert(views(out@) =~= before + split_on(rest, sep));
            return out;
        }
        assert(rest.skip(j - i + 1) =~= s@.skip(j + 1));
        assert(before + split_on(rest, sep) =~= views(out@) + split_on(s@.skip(j + 1), sep));
        i = j + 1;
    }
}


// ---------------------------------------------------------------------------
// Whitespace: `trim` and `split_whitespace`
// ---------------------------------------------------------------------------

pub open spec fn trim_start(s: Seq<char>) -> Seq<char>
    decreases s.len(),
{
    if s.len() > 0 && is_ws(s[0]) {
        trim_start(s.drop_first())
    } else {
        s
    }
}

pub open spec fn trim_end(s: Seq<char>) -> Seq<char>
    decreases s.len(),
{
    if s.len() > 0 && is_ws(s.last()) {
        trim_end(s.drop_last())
    } else {
        s
    }
}

/// `s` without the whitespace at either end, as `str::trim` gives it.
pub open spec fn trim(s: Seq<char>) -> Seq<char> {
    trim_end(trim_start(s))
}

/// Removes the whitespace at both ends of `s`.
pub fn trim_chars(s: &[char]) -> (out: Vec<char>)
    ensures
        out@ == trim(s@),
{
    let mut a: usize = 0;
    assert(s@.skip(0) =~= s@);
    while a < s.len() && is_whitespace(s[a])
        invariant
            0 <= a <= s@.len(),
            trim_start(s@) == trim_start(s@.skip(a as int)),
        decreases s@.len() - a,
    {
        assert(s@.skip(a as int).drop_first() =~= s@.skip(a + 1));
        a = a + 1;
    }
    let ghost front = s@.skip(a as int);
    assert(trim_start(s@) == front);
    let mut b: usize = s.len();
    assert(front =~= s@.subrange(a as int, b as int));
    while b > a && is_whitespace(s[b - 1])
        invariant
            a <= b <= s@.len(),
            trim_end(front) == trim_end(s@.subrange(a as int, b as int)),
        decreases b,
    {
        assert(s@.subrange(a as int, b as int).drop_last() =~= s@.subrange(a as int, b - 1));
        b = b - 1;
    }
    vstd::slice::slice_to_vec(&s[a..b])
}

/// Length of the leading run of `s` that holds no whitespace.
pub open spec fn word_len(s: Seq<char>) -> nat
    decreases s.len(),
{
    if s.len() == 0 || is_ws(s[0]) {
        0
    } else {
        1 + word_len(s.drop_first())
    }
}

pub proof fn lemma_word_len(s: Seq<char>)
    ensures
        word_len(s) <= s.len(),
        s.len() > 0 && !is_ws(s[0]) ==> word_len(s) >= 1,
    decreases s.len(),
{
    if s.len() > 0 && !is_ws(s[0]) {
        lemma_word_len(s.drop_first());
    }
}

pub proof fn lemma_word_len_at(s: Seq<char>, k: int)
    requires
        0 <= k <= s.len(),
        forall|i: int| 0 <= i < k ==> !is_ws(s[i]),
        k == s.len() || is_ws(s[k]),
    ensures
        word_len(s) == k,
    decreases s.len(),
{
    if k > 0 {
        let t = s.drop_first();
        assert forall|i: int| 0 <= i < k - 1 implies !is_ws(t[i]) by {
            assert(t[i] == s[i + 1]);
        }
        if k < s.len() {
            assert(t[k - 1] == s[k]);
        }
        lemma_word_len_at(t, k - 1);
    }
}

/// The whitespace-separated words of `s`, as `str::split_whitespace`
/// gives them.
pub open spec fn words(s: Seq<char>) -> Seq<Seq<char>>
    decreases s.len(),
{
    if s.len() == 0 {
        seq![]
    } else if is_ws(s[0]) {
        words(s.drop_first())
    } else {
        proof {
            lemma_word_len(s);
        }
        seq![s.take(word_len(s) as int)] + words(s.skip(word_len(s) as int))
    }
}

/// Splits `s` into its whitespace-separated words.
pub fn split_words(s: &[char]) -> (out: Vec<Vec<char>>)
    ensures
        views(out@) == words(s@),
{
    let mut out: Vec<Vec<char>> = Vec::new();
    let mut i: usize = 0;
    assert(s@.skip(0) =~= s@);
    assert(views(out@) =~= Seq::<Seq<char>>::empty());
    while i < s.len()
        invariant
            0 <= i <= s@.len(),
            views(out@) + words(s@.skip(i as int)) == words(s@),
        decreases s@.len() - i,
    {
        let ghost rest = s@.skip(i as int);
        if is_whitespace(s[i]) {
            assert(rest.drop_first() =~= s@.skip(i + 1));
            i = i + 1;
        } else {
            let mut j: usize = i;
            while j < s.len() && !is_whitespace(s[j])
                invariant
                    i <= j <= s@.len(),
                    forall|k: int| i <= k < j ==> !is_ws(s@[k]),
                decreases s@.len() - j,
            {
                j = j + 1;
            }
            proof {
                assert forall|k: int| 0 <= k < j - i implies !is_ws(rest[k]) by {
                    assert(rest[k] == s@[i + k]);
                }
                if j < s@.len() {
                    assert(rest[j - i] == s@[j as int]);
                }
                lemma_word_len_at(rest, j - i);
            }
            let piece = vstd::slice::slice_to_vec(&s[i..j]);
            let ghost before = views(out@);
            let ghost piece_view = piece@;
            out.push(piece);
            proof {
                assert(views(out@) =~= before.push(piece_view));
                assert(rest.take(j - i) =~= s@.subrange(i as int, j as int));
                assert(rest.skip(j - i) =~= s@.skip(j as int));
                assert(before + words(rest) =~= views(out@) + words(s@.skip(j as int)));
            }
            i = j;
        }
    }
    assert(s@.skip(i as int) =~= Seq::<char>::empty());
    assert(views(out@) =~= views(out@) + words(s@.skip(i as int)));
    out
}


// ---------------------------------------------------------------------------
// Lines
// ---------------------------------------------------------------------------

/// A line without the carriage return that ends it, if one does.
pub open spec fn strip_cr(l: Seq<u8>) -> Seq<u8> {
    if l.len() > 0 && l.last() == 13u8 {
        l.drop_last()
    } else {
        l
    }
}

/// The lines of `b`, as `BufRead::lines` yields them: cut after every
/// `\n`, the `\n` (or `\r\n`) dropped, and no empty line after a final `\n`.
pub open spec fn lines(b: Seq<u8>) -> Seq<Seq<u8>>
    decreases b.len(),
{
    if b.len() == 0 {
        seq![]
    } else {
        let k = seg_len(b, 10u8);
        if k >= b.len() {
            seq![b]
        } else {
            seq![strip_cr(b.take(k as int))] + lines(b.skip(k + 1 as int))
        }
    }
}

/// Cuts `b` into its lines.
pub fn split_lines(b: &[u8]) -> (out: Vec<Vec<u8>>)
    ensures
        views(out@) == lines(b@),
{
    let mut out: Vec<Vec<u8>> = Vec::new();
    let mut i: usize = 0;
    assert(b@.skip(0) =~= b@);
    assert(views(out@) =~= Seq::<Seq<u8>>::empty());
    while i < b.len()
        invariant
            0 <= i <= b@.len(),
            views(out@) + lines(b@.skip(i as int)) == lines(b@),
        decreases b@.len() - i,
    {
        let ghost rest = b@.skip(i as int);
        let mut j: usize = i;
        while j < b.len() && b[j] != 10u8
            invariant
                i <= j <= b@.len(),
                forall|k: int| i <= k < j ==> b@[k] != 10u8,
            decreases b@.len() - j,
        {
            j = j + 1;
        }
        proof {
            assert forall|k: int| 0 <= k < j - i implies rest[k] != 10u8 by {
                assert(rest[k] == b@[i + k]);
            }
            if j < b@.len() {
                assert(rest[j - i] == b@[j as int]);
            }
            lemma_seg_len_at(rest, 10u8, j - i);
        }
        let mut end: usize = j;
        if j < b.len() && j > i && b[j - 1] == 13u8 {
            end = j - 1;
        }
        let piece = vstd::slice::slice_to_vec(&b[i..end]);
        let ghost before = views(out@);
        let ghost piece_view = piece@;
        out.push(piece);
        proof {
            assert(views(out@) =~= before.push(piece_view));
            if j < b@.len() {
                assert(strip_cr(rest.take(j - i)) =~= b@.subrange(i as int, end as int));
                assert(rest.skip(j - i + 1) =~= b@.skip(j + 1));
            } else {
                assert(rest =~= b@.subrange(i as int, end as int));
                assert(b@.skip(j as int) =~= Seq::<u8>::empty());
            }
        }
        if j < b.len() {
            assert(before + lines(rest) =~= views(out@) + lines(b@.skip(j + 1)));
            i = j + 1;
        } else {
            assert(before + lines(rest) =~= views(out@) + lines(b@.skip(j as int)));
            i = j;
        }
    }
    assert(b@.skip(i as int) =~= Seq::<u8>::empty());
    assert(views(out@) =~= views(out@) + lines(b@.skip(i as int)));
    out
}

} // verus!
