use vstd::prelude::*;

verus! {

// ---------------------------------------------------------------------------
// Reading unsigned decimal numbers
// ---------------------------------------------------------------------------

pub open spec fn is_digit(c: char) -> bool {
    48 <= (c as u32) <= 57
}

pub open spec fn digit_value(c: char) -> int {
    (c as u32) - 48
}

/// The number that a run of decimal digits writes.
pub open spec fn digits_value(s: Seq<char>) -> int
    decreases s.len(),
{
    if s.len() == 0 {
        0
    } else {
        digits_value(s.drop_last()) * 10 + digit_value(s.last())
    }
}

pub open spec fn all_digits(s: Seq<char>) -> bool {
    forall|i: int| 0 <= i < s.len() ==> is_digit(#[trigger] s[i])
}

/// The digits of an unsigned number: `s` without one leading `+`.
pub open spec fn unsigned_digits(s: Seq<char>) -> Seq<char> {
    if s.len() > 0 && s[0] == '+' {
        s.drop_first()
    } else {
        s
    }
}

/// What `FromStr` of an unsigned integer type whose largest value is `max`
/// gives for `s`: an optional `+`, then at least one ASCII digit and
/// nothing else, and a value no larger than `max`.
pub open spec fn parse_unsigned(s: Seq<char>, max: int) -> Option<int> {
    let d = unsigned_digits(s);
    if d.len() > 0 && all_digits(d) && digits_value(d) <= max {
        Some(digits_value(d))
    } else {
        None
    }
}

pub proof fn lemma_digits_value_bounds(s: Seq<char>, k: int)
    requires
        all_digits(s),
        0 <= k <= s.len(),
    ensures
        0 <= digits_value(s.take(k)) <= digits_value(s),
    decreases s.len(),
{
    if s.len() > 0 {
        assert(is_digit(s[s.len() - 1]));
        if k < s.len() {
            assert(s.drop_last().take(k) =~= s.take(k));
            lemma_digits_value_bounds(s.drop_last(), k);
        } else {
            assert(s.take(k) =~= s);
            lemma_digits_value_bounds(s.drop_last(), k - 1);
            assert(s.drop_last().take(k - 1) =~= s.drop_last());
        }
    } else {
        assert(s.take(k) =~= s);
    }
}

/// Reads an unsigned decimal number no larger than `max`, as `FromStr` of
/// the unsigned type whose largest value is `max` does.
pub fn parse_unsigned_max(s: &[char], max: u64) -> (r: Option<u64>)
    ensures
        match r {
            Some(v) => parse_unsigned(s@, max as int) == Some(v as int),
            None => parse_unsigned(s@, max as int) is None,
        },
{
    let mut start: usize = 0;
    if s.len() > 0 && s[0] == '+' {
        start = 1;
    }
    let ghost d = unsigned_digits(s@);
    assert(d =~= s@.skip(start as int));
    if start >= s.len() {
        return None;
    }
    let mut acc: u64 = 0;
    let mut j: usize = start;
    assert(d.take(0) =~= Seq::<char>::empty());
    while j < s.len()
        invariant
            start <= j <= s@.len(),
            d == s@.skip(start as int),
            d == unsigned_digits(s@),
            acc as int == digits_value(d.take(j - start)),
            acc <= max,
            forall|k: int| 0 <= k < j - start ==> is_digit(#[trigger] d[k]),
        decreases s@.len() - j,
    {
        let c = s[j];
        let u = c as u32;
        if u < 48 || u > 57 {
            assert(d[j - start] == c);
            assert(!is_digit(d[j - start]));
            return None;
        }
        let dig = (u - 48) as u64;
        let next: u128 = acc as u128 * 10 + dig as u128;
        proof {
            assert(d.take(j - start + 1).drop_last() =~= d.take(j - start));
            assert(d.take(j - start + 1).last() == c);
            assert(digits_value(d.take(j - start + 1)) == acc * 10 + dig);
        }
        if next > max as u128 {
            // The value only grows with more digits, or a later non-digit
            // makes the whole text fail.
            proof {
                if all_digits(d) {
                    lemma_digits_value_bounds(d, j - start + 1);
                }
            }
            return None;
        }
        acc = next as u64;
        j = j + 1;
    }
    assert(d.take(j - start) =~= d);
    Some(acc)
}

// ---------------------------------------------------------------------------
// Writing decimal numbers
// ---------------------------------------------------------------------------

/// The ASCII decimal digits of `n`, without leading zeros.
pub open spec fn decimal(n: nat) -> Seq<u8>
    decreases n,
{
    if n < 10 {
        seq![(n + 48) as u8]
    } else {
        decimal(n / 10).push((n % 10 + 48) as u8)
    }
}

/// The characters that ASCII bytes stand for.
pub open spec fn ascii_chars(b: Seq<u8>) -> Seq<char> {
    b.map_values(|x: u8| x as char)
}

/// Appends the decimal digits of `n` to `out`.
pub fn push_decimal(out: &mut Vec<u8>, n: u64)
    ensures
        final(out)@ == old(out)@ + decimal(n as nat),
    decreases n,
{
    if n >= 10 {
        push_decimal(out, n / 10);
    }
    out.push((n % 10 + 48) as u8);
    proof {
        if n < 10 {
            assert(n % 10 == n);
        }
    }
}

/// The digits of `n` read back as `n`.
pub proof fn lemma_decimal_digits(n: nat)
    ensures
        decimal(n).len() > 0,
        all_digits(ascii_chars(decimal(n))),
        digits_value(ascii_chars(decimal(n))) == n,
        forall|i: int| 0 <= i < decimal(n).len() ==> 48 <= #[trigger] decimal(n)[i] <= 57,
    decreases n,
{
    let c = ascii_chars(decimal(n));
    let last = decimal(n).last();
    assert(last == (n % 10 + 48) as u8);
    assert(c.last() == last as char);
    assert(digit_value(c.last()) == n % 10);
    if n < 10 {
        assert(c.drop_last() =~= Seq::<char>::empty());
        assert(c.len() == 1);
        assert(digits_value(c) == digits_value(c.drop_last()) * 10 + digit_value(c.last()));
    } else {
        lemma_decimal_digits(n / 10);
        assert(c.drop_last() =~= ascii_chars(decimal(n / 10)));
        assert(c.len() > 0);
        assert(digits_value(c) == digits_value(c.drop_last()) * 10 + digit_value(c.last()));
        assert(n == (n / 10) * 10 + n % 10);
        assert forall|i: int| 0 <= i < decimal(n).len() implies 48 <= #[trigger] decimal(n)[i]
            <= 57 by {
            if i < decimal(n).len() - 1 {
                assert(decimal(n)[i] == decimal(n / 10)[i]);
            }
        }
    }
    assert forall|i: int| 0 <= i < c.len() implies is_digit(#[trigger] c[i]) by {
        assert(c[i] == decimal(n)[i] as char);
    }
}

/// `parse_unsigned` reads back what `decimal` writes.
pub proof fn lemma_parse_decimal(n: nat, max: int)
    requires
        n <= max,
    ensures
        parse_unsigned(ascii_chars(decimal(n)), max) == Some(n as int),
{
    lemma_decimal_digits(n);
    let c = ascii_chars(decimal(n));
    assert(is_digit(c[0]));
    assert(unsigned_digits(c) == c);
}

} // verus!
