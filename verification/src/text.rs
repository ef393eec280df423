//! Decimal numerals and the separator search that the record text uses.

use vstd::prelude::*;

verus! {

/// The byte `|` that separates the fields of an encoded entry.
pub const BAR: u8 = 0x7c;

/// The decimal numeral of `n`, most significant digit first, with no
/// leading zeros (`0` is written `"0"`).  This is what `format!("{}", n)`
/// writes for an unsigned integer.
pub open spec fn decimal(n: nat) -> Seq<u8>
    decreases n,
{
    if n < 10 {
        seq![(48 + n) as u8]
    } else {
        decimal(n / 10).push((48 + n % 10) as u8)
    }
}

/// True when every byte of `s` is an ASCII digit.
pub open spec fn all_digits(s: Seq<u8>) -> bool {
    forall|i: int| 0 <= i < s.len() ==> 48 <= #[trigger] s[i] <= 57
}

/// The value of a string of ASCII digits read in base ten.
pub open spec fn digits_value(s: Seq<u8>) -> nat
    decreases s.len(),
{
    if s.len() == 0 {
        0
    } else {
        digits_value(s.drop_last()) * 10 + (s.last() - 48) as nat
    }
}

/// How `str::parse` reads an unsigned integer no larger than `max`: an
/// optional leading `+`, then one or more ASCII digits whose value does not
/// exceed `max`.  A lone sign, an empty string, any other byte or a value
/// past `max` is refused.
pub open spec fn parse_unsigned(s: Seq<u8>, max: nat) -> Option<nat> {
    if s.len() == 0 {
        None
    } else if (s[0] == 43 || s[0] == 45) && s.len() == 1 {
        None
    } else {
        let d = if s[0] == 43 { s.drop_first() } else { s };
        if all_digits(d) && digits_value(d) <= max {
            Some(digits_value(d))
        } else {
            None
        }
    }
}

/// Appends the decimal numeral of `n` to `v`.
pub fn push_decimal(v: &mut Vec<u8>, n: u64)
    ensures
        final(v)@ == old(v)@ + decimal(n as nat),
    decreases n,
{
    if n >= 10 {
        push_decimal(v, n / 10);
    }
    let d: u8 = (n % 10) as u8;
    v.push(48 + d);
    assert(final(v)@ =~= old(v)@ + decimal(n as nat));
}

/// Lemma: a numeral is all digits, non-empty, and reads back as its number.
pub proof fn lemma_decimal_parses(n: nat)
    ensures
        decimal(n).len() >= 1,
        all_digits(decimal(n)),
        digits_value(decimal(n)) == n,
    decreases n,
{
    if n >= 10 {
        lemma_decimal_parses(n / 10);
        assert(decimal(n).drop_last() =~= decimal(n / 10));
        assert((n / 10) * 10 + n % 10 == n) by (nonlinear_arith);
        let last = decimal(n).last();
        assert(last == (48 + n % 10) as u8);
        assert(last - 48 == n % 10);
        assert(digits_value(decimal(n)) == digits_value(decimal(n / 10)) * 10 + (n % 10));
    } else {
        assert(decimal(n).drop_last() =~= Seq::<u8>::empty());
        assert(digits_value(decimal(n).drop_last()) == 0);
        assert(decimal(n).last() - 48 == n);
    }
}

/// Lemma: the digit value of a prefix never exceeds that of the whole.
pub proof fn lemma_digits_value_prefix(s: Seq<u8>, k: int)
    requires
        0 <= k <= s.len(),
        all_digits(s),
    ensures
        digits_value(s.subrange(0, k)) <= digits_value(s),
    decreases s.len() - k,
{
    if k < s.len() {
        lemma_digits_value_prefix(s, k + 1);
        assert(s.subrange(0, k + 1).drop_last() =~= s.subrange(0, k));
    } else {
        assert(s.subrange(0, k) =~= s);
    }
}

/// Reads `s` as `str::parse::<u64>` does.
pub fn parse_u64(s: &[u8]) -> (out: Option<u64>)
    ensures
        out == (match parse_unsigned(s@, u64::MAX as nat) {
            Some(v) => Some(v as u64),
            None => None,
        }),
{
    let n = s.len();
    if n == 0 {
        return None;
    }
    if (s[0] == 43 || s[0] == 45) && n == 1 {
        return None;
    }
    let start: usize = if s[0] == 43 { 1 } else { 0 };
    let ghost d = if s@[0] == 43 { s@.drop_first() } else { s@ };
    assert(d =~= s@.subrange(start as int, n as int));
    let mut acc: u64 = 0;
    let mut i: usize = start;
    while i < n
        invariant
            start <= i <= n,
            n == s@.len(),
            d == s@.subrange(start as int, n as int),
            n > 0,
            !((s@[0] == 43 || s@[0] == 45) && n == 1),
            d == (if s@[0] == 43 { s@.drop_first() } else { s@ }),
            all_digits(s@.subrange(start as int, i as int)),
            acc as nat == digits_value(s@.subrange(start as int, i as int)),
        decreases n - i,
    {
        let b = s[i];
        if b < 48 || b > 57 {
            assert(d[i - start] == b);
            assert(!all_digits(d));
            return None;
        }
        let ghost pre = s@.subrange(start as int, i as int);
        let ghost next = s@.subrange(start as int, i + 1);
        assert(next.drop_last() =~= pre);
        assert(all_digits(next));
        let dv: u64 = (b - 48) as u64;
        if acc > (u64::MAX - dv) / 10 {
            proof {
                assert(digits_value(next) > u64::MAX) by (nonlinear_arith)
                    requires
                        digits_value(next) == acc * 10 + dv,
                        acc > (u64::MAX - dv) / 10,
                        dv <= 9,
                ;
                if all_digits(d) {
                    lemma_digits_value_prefix(d, i + 1 - start);
                    assert(d.subrange(0, i + 1 - start) =~= next);
                }
            }
            return None;
        }
        assert(acc * 10 + dv <= u64::MAX) by (nonlinear_arith)
            requires
                acc <= (u64::MAX - dv) / 10,
                dv <= 9,
        ;
        acc = acc * 10 + dv;
        i = i + 1;
    }
    assert(s@.subrange(start as int, i as int) =~= d);
    Some(acc)
}

/// Reads `s` as `str::parse::<u32>` does.
pub fn parse_u32(s: &[u8]) -> (out: Option<u32>)
    ensures
        out == (match parse_unsigned(s@, u32::MAX as nat) {
            Some(v) => Some(v as u32),
            None => None,
        }),
{
    match parse_u64(s) {
        Some(v) => {
            if v <= u32::MAX as u64 {
                Some(v as u32)
            } else {
                None
            }
        },
        None => None,
    }
}

/// The index of the first `|` in `s` at or after `from`, if there is one.
pub open spec fn find_bar(s: Seq<u8>, from: int) -> Option<int>
    decreases s.len() - from,
{
    if from < 0 || from >= s.len() {
        None
    } else if s[from] == BAR {
        Some(from)
    } else {
        find_bar(s, from + 1)
    }
}

/// Lemma: what `find_bar` returns is a `|` at or after `from`, with none
/// between; and `None` means there is none from `from` on.
pub proof fn lemma_find_bar(s: Seq<u8>, from: int)
    requires
        0 <= from,
    ensures
        match find_bar(s, from) {
            Some(p) => from <= p < s.len() && s[p] == BAR
                && forall|k: int| from <= k < p ==> s[k] != BAR,
            None => forall|k: int| from <= k < s.len() ==> s[k] != BAR,
        },
    decreases s.len() - from,
{
    if from < s.len() && s[from] != BAR {
        lemma_find_bar(s, from + 1);
    }
}

/// Lemma: a `|` at `p` with none in `[from, p)` is what `find_bar` finds.
pub proof fn lemma_find_bar_at(s: Seq<u8>, from: int, p: int)
    requires
        0 <= from <= p < s.len(),
        s[p] == BAR,
        forall|k: int| from <= k < p ==> s[k] != BAR,
    ensures
        find_bar(s, from) == Some(p),
    decreases p - from,
{
    if from < p {
        lemma_find_bar_at(s, from + 1, p);
    }
}

/// Finds the first `|` in `s` at or after `from`.
pub fn next_bar(s: &[u8], from: usize) -> (out: Option<usize>)
    ensures
        out == (match find_bar(s@, from as int) {
            Some(p) => Some(p as usize),
            None => None,
        }),
{
    let mut i = from;
    while i < s.len()
        invariant
            from <= i,
            find_bar(s@, from as int) == find_bar(s@, i as int),
        decreases s@.len() - i,
    {
        if s[i] == BAR {
            return Some(i);
        }
        i = i + 1;
    }
    None
}

} // verus!
