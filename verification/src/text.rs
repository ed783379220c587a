//! Character-level parsing helpers: decimal and hexadecimal digits,
//! locating the last separator in a string, and splitting a string on a
//! separator character.
//!
//! Every executable function here is specified against a spec-level
//! model of the same operation on `Seq<char>`.

use vstd::prelude::*;

verus! {

/// `c` is a decimal digit `'0'..='9'`.
pub open spec fn is_digit(c: char) -> bool {
    48 <= c as u32 <= 57
}

/// Numeric value of a decimal digit.
pub open spec fn digit_val(c: char) -> int {
    c as u32 - 48
}

/// Every character of `s` is a decimal digit.
pub open spec fn all_digits(s: Seq<char>) -> bool {
    forall|i: int| 0 <= i < s.len() ==> is_digit(#[trigger] s[i])
}

/// The value of `s` read as a decimal numeral.
pub open spec fn dec_value(s: Seq<char>) -> int
    decreases s.len(),
{
    if s.len() == 0 {
        0
    } else {
        dec_value(s.drop_last()) * 10 + digit_val(s.last())
    }
}

/// `c` is a hexadecimal digit, upper or lower case.
pub open spec fn is_hex_digit(c: char) -> bool {
    is_digit(c) || 97 <= c as u32 <= 102 || 65 <= c as u32 <= 70
}

/// Numeric value of a hexadecimal digit.
pub open spec fn hex_digit_val(c: char) -> int {
    if is_digit(c) {
        c as u32 - 48
    } else if 97 <= c as u32 {
        c as u32 - 87
    } else {
        c as u32 - 55
    }
}

/// Every character of `s` is a hexadecimal digit.
pub open spec fn all_hex_digits(s: Seq<char>) -> bool {
    forall|i: int| 0 <= i < s.len() ==> is_hex_digit(#[trigger] s[i])
}

/// The value of `s` read as a hexadecimal numeral.
pub open spec fn hex_value(s: Seq<char>) -> int
    decreases s.len(),
{
    if s.len() == 0 {
        0
    } else {
        hex_value(s.drop_last()) * 16 + hex_digit_val(s.last())
    }
}

/// Powers of ten, used to bound the value of short numerals.
pub open spec fn pow10(n: nat) -> int
    decreases n,
{
    if n == 0 {
        1
    } else {
        10 * pow10((n - 1) as nat)
    }
}

/// Powers of sixteen.
pub open spec fn pow16(n: nat) -> int
    decreases n,
{
    if n == 0 {
        1
    } else {
        16 * pow16((n - 1) as nat)
    }
}

/// Concrete bounds for the small powers of ten used below.
pub proof fn lemma_pow10_small(n: nat)
    requires
        n <= 4,
    ensures
        1 <= pow10(n) <= 10000,
{
    reveal_with_fuel(pow10, 5);
    if n == 0 {
        assert(pow10(n) == 1);
    } else if n == 1 {
        assert(pow10(n) == 10);
    } else if n == 2 {
        assert(pow10(n) == 100);
    } else if n == 3 {
        assert(pow10(n) == 1000);
    } else {
        assert(pow10(n) == 10000);
    }
}

/// Concrete bounds for the small powers of sixteen used below.
pub proof fn lemma_pow16_small(n: nat)
    requires
        n <= 4,
    ensures
        1 <= pow16(n) <= 65536,
{
    reveal_with_fuel(pow16, 5);
    if n == 0 {
        assert(pow16(n) == 1);
    } else if n == 1 {
        assert(pow16(n) == 16);
    } else if n == 2 {
        assert(pow16(n) == 256);
    } else if n == 3 {
        assert(pow16(n) == 4096);
    } else {
        assert(pow16(n) == 65536);
    }
}

/// A numeral of digits is non-negative.
pub proof fn lemma_dec_value_nonneg(s: Seq<char>)
    requires
        all_digits(s),
    ensures
        dec_value(s) >= 0,
    decreases s.len(),
{
    if s.len() > 0 {
        assert(forall|i: int| 0 <= i < s.drop_last().len() ==> #[trigger] s.drop_last()[i] == s[i]);
        lemma_dec_value_nonneg(s.drop_last());
    }
}

/// A prefix of a numeral of digits never exceeds the whole numeral.
pub proof fn lemma_dec_value_prefix_le(s: Seq<char>, k: int)
    requires
        all_digits(s),
        0 <= k <= s.len(),
    ensures
        dec_value(s.take(k)) <= dec_value(s),
    decreases s.len(),
{
    if k == s.len() {
        assert(s.take(k) =~= s);
    } else {
        assert(forall|i: int| 0 <= i < s.drop_last().len() ==> #[trigger] s.drop_last()[i] == s[i]);
        assert(s.take(k) =~= s.drop_last().take(k));
        lemma_dec_value_prefix_le(s.drop_last(), k);
        lemma_dec_value_nonneg(s.drop_last());
    }
}

/// The index of the last occurrence of `c` in `s`, if any.
pub open spec fn rfind(s: Seq<char>, c: char) -> Option<int>
    decreases s.len(),
{
    if s.len() == 0 {
        None
    } else if s.last() == c {
        Some(s.len() - 1)
    } else {
        rfind(s.drop_last(), c)
    }
}

/// What `rfind` returns: the last occurrence, or the absence of any.
pub proof fn lemma_rfind(s: Seq<char>, c: char)
    ensures
        match rfind(s, c) {
            Some(i) => 0 <= i < s.len() && s[i] == c && forall|j: int|
                i < j < s.len() ==> s[j] != c,
            None => forall|j: int| 0 <= j < s.len() ==> s[j] != c,
        },
    decreases s.len(),
{
    if s.len() > 0 && s.last() != c {
        lemma_rfind(s.drop_last(), c);
        assert(forall|i: int| 0 <= i < s.drop_last().len() ==> s.drop_last()[i] == #[trigger] s[i]);
    }
}

/// Conversely, an occurrence with nothing equal after it is what `rfind` returns.
pub proof fn lemma_rfind_is(s: Seq<char>, c: char, i: int)
    requires
        0 <= i < s.len(),
        s[i] == c,
        forall|j: int| i < j < s.len() ==> s[j] != c,
    ensures
        rfind(s, c) == Some(i),
    decreases s.len(),
{
    if i == s.len() - 1 {
    } else {
        assert(s.last() != c);
        assert(forall|j: int| 0 <= j < s.drop_last().len() ==> #[trigger] s.drop_last()[j] == s[j]);
        lemma_rfind_is(s.drop_last(), c, i);
    }
}

/// Locate the last occurrence of `c` in `s`.
pub fn rfind_char(s: &str, c: char) -> (r: Option<usize>)
    ensures
        match r {
            Some(i) => i < s@.len() && rfind(s@, c) == Some(i as int),
            None => rfind(s@, c) is None,
        },
{
    let n = s.unicode_len();
    let mut i = n;
    assert(s@.take(n as int) =~= s@);
    while i > 0
        invariant
            i <= n,
            n == s@.len(),
            rfind(s@, c) == rfind(s@.take(i as int), c),
        decreases i,
    {
        i = i - 1;
        let ch = s.get_char(i);
        assert(s@.take(i + 1 as int).drop_last() =~= s@.take(i as int));
        assert(s@.take(i + 1 as int).last() == s@[i as int]);
        if ch == c {
            return Some(i);
        }
    }
    assert(s@.take(0) =~= Seq::<char>::empty());
    None
}

/// `s` split at every occurrence of `sep`: one piece more than there are
/// separators, in order, the separators themselves dropped.
pub open spec fn split_on(s: Seq<char>, sep: char) -> Seq<Seq<char>>
    decreases s.len(),
{
    if s.len() == 0 {
        seq![Seq::<char>::empty()]
    } else if s.last() == sep {
        split_on(s.drop_last(), sep).push(Seq::<char>::empty())
    } else {
        let p = split_on(s.drop_last(), sep);
        p.update(p.len() - 1, p.last().push(s.last()))
    }
}

/// A split always has at least one piece.
pub proof fn lemma_split_on_len(s: Seq<char>, sep: char)
    ensures
        split_on(s, sep).len() >= 1,
    decreases s.len(),
{
    if s.len() > 0 {
        lemma_split_on_len(s.drop_last(), sep);
    }
}

/// Splitting a string that contains no separator yields one piece: the string.
pub proof fn lemma_split_on_no_sep(s: Seq<char>, sep: char)
    requires
        forall|i: int| 0 <= i < s.len() ==> s[i] != sep,
    ensures
        split_on(s, sep) =~= seq![s],
    decreases s.len(),
{
    if s.len() == 0 {
        assert(s =~= Seq::<char>::empty());
    } else {
        assert(forall|i: int|
            0 <= i < s.drop_last().len() ==> #[trigger] s.drop_last()[i] == s[i]);
        lemma_split_on_no_sep(s.drop_last(), sep);
        assert(s.drop_last().push(s.last()) =~= s);
    }
}

/// Split `s` at every occurrence of `sep`.
pub fn split_str<'a>(s: &'a str, sep: char) -> (parts: Vec<&'a str>)
    ensures
        parts.deep_view() == split_on(s@, sep),
        parts.len() >= 1,
{
    let n = s.unicode_len();
    let mut parts: Vec<&'a str> = Vec::new();
    let mut start: usize = 0;
    let mut i: usize = 0;
    assert(s@.take(0) =~= Seq::<char>::empty());
    while i < n
        invariant
            start <= i <= n,
            n == s@.len(),
            split_on(s@.take(i as int), sep) == parts.deep_view().push(
                s@.subrange(start as int, i as int),
            ),
        decreases n - i,
    {
        let ch = s.get_char(i);
        assert(s@.take(i + 1 as int).drop_last() =~= s@.take(i as int));
        assert(s@.take(i + 1 as int).last() == s@[i as int]);
        proof {
            lemma_split_on_len(s@.take(i as int), sep);
        }
        if ch == sep {
            let tok = s.substring_char(start, i);
            let ghost old_parts = parts.deep_view();
            parts.push(tok);
            assert(parts.deep_view() =~= old_parts.push(tok@));
            start = i + 1;
            assert(s@.subrange(start as int, i + 1 as int) =~= Seq::<char>::empty());
            assert(split_on(s@.take(i + 1 as int), sep) =~= parts.deep_view().push(
                s@.subrange(start as int, i + 1 as int),
            ));
        } else {
            proof {
                let x = s@.take(i + 1 as int);
                let p = split_on(s@.take(i as int), sep);
                assert(x.len() == i + 1);
                assert(x.last() == s@[i as int]);
                assert(x.last() != sep);
                assert(x.drop_last() =~= s@.take(i as int));
                assert(split_on(x, sep) == p.update(p.len() - 1, p.last().push(x.last())));
                assert(p.last() == s@.subrange(start as int, i as int));
                assert(p.last().push(x.last()) =~= s@.subrange(start as int, i + 1 as int));
                assert(split_on(x, sep) =~= parts.deep_view().push(
                    s@.subrange(start as int, i + 1 as int),
                ));
            }
        }
        i = i + 1;
    }
    let tok = s.substring_char(start, n);
    let ghost old_parts = parts.deep_view();
    parts.push(tok);
    assert(s@.take(n as int) =~= s@);
    assert(parts.deep_view() =~= old_parts.push(tok@));
    parts
}

/// Parse a dotted-quad octet: one to three decimal digits, no leading
/// zero unless the octet is exactly `"0"`, value at most 255.
pub open spec fn is_octet(s: Seq<char>) -> bool {
    1 <= s.len() <= 3 && all_digits(s) && dec_value(s) <= 255 && (s.len() > 1 ==> s[0] != '0')
}

pub fn parse_octet(t: &str) -> (r: Option<u8>)
    ensures
        is_octet(t@) ==> r == Some(dec_value(t@) as u8),
        !is_octet(t@) ==> r is None,
{
    let n = t.unicode_len();
    if n == 0 || n > 3 {
        return None;
    }
    if n > 1 && t.get_char(0) == '0' {
        return None;
    }
    let mut val: u32 = 0;
    let mut i: usize = 0;
    assert(t@.take(0) =~= Seq::<char>::empty());
    while i < n
        invariant
            i <= n,
            n == t@.len(),
            n <= 3,
            all_digits(t@.take(i as int)),
            val == dec_value(t@.take(i as int)),
            val < pow10(i as nat),
        decreases n - i,
    {
        let c = t.get_char(i);
        let u = c as u32;
        if u < 48 || u > 57 {
            assert(!is_digit(t@[i as int]));
            assert(!all_digits(t@));
            return None;
        }
        assert(t@.take(i + 1 as int).drop_last() =~= t@.take(i as int));
        assert(t@.take(i + 1 as int).last() == t@[i as int]);
        assert(pow10((i + 1) as nat) == 10 * pow10(i as nat));
        proof {
            lemma_pow10_small(i as nat);
        }
        val = val * 10 + (u - 48);
        i = i + 1;
    }
    assert(t@.take(n as int) =~= t@);
    if val <= 255 {
        Some(val as u8)
    } else {
        None
    }
}

/// Parse one 16-bit group of an IPv6 address: one to four hexadecimal digits.
pub open spec fn is_hex_group(s: Seq<char>) -> bool {
    1 <= s.len() <= 4 && all_hex_digits(s)
}

pub fn parse_hex_group(t: &str) -> (r: Option<u16>)
    ensures
        is_hex_group(t@) ==> r == Some(hex_value(t@) as u16),
        !is_hex_group(t@) ==> r is None,
{
    let n = t.unicode_len();
    if n == 0 || n > 4 {
        return None;
    }
    let mut val: u32 = 0;
    let mut i: usize = 0;
    assert(t@.take(0) =~= Seq::<char>::empty());
    while i < n
        invariant
            i <= n,
            n == t@.len(),
            n <= 4,
            all_hex_digits(t@.take(i as int)),
            val == hex_value(t@.take(i as int)),
            val < pow16(i as nat),
        decreases n - i,
    {
        let c = t.get_char(i);
        let u = c as u32;
        let d: u32 = if 48 <= u && u <= 57 {
            u - 48
        } else if 97 <= u && u <= 102 {
            u - 87
        } else if 65 <= u && u <= 70 {
            u - 55
        } else {
            assert(!is_hex_digit(t@[i as int]));
            assert(!all_hex_digits(t@));
            return None;
        };
        assert(d == hex_digit_val(t@[i as int]));
        assert(t@.take(i + 1 as int).drop_last() =~= t@.take(i as int));
        assert(t@.take(i + 1 as int).last() == t@[i as int]);
        assert(pow16((i + 1) as nat) == 16 * pow16(i as nat));
        proof {
            lemma_pow16_small(i as nat);
        }
        val = val * 16 + d;
        i = i + 1;
    }
    assert(t@.take(n as int) =~= t@);
    proof {
        lemma_pow16_small(n as nat);
    }
    Some(val as u16)
}

/// The digits of a port numeral: an optional leading `'+'` is allowed
/// and ignored, as in the usual unsigned-integer grammar.
pub open spec fn port_digits(s: Seq<char>) -> Seq<char> {
    if s.len() > 0 && s[0] == '+' {
        s.drop_first()
    } else {
        s
    }
}

/// `s` is a valid port numeral: after an optional `'+'`, at least one
/// decimal digit, and a value that fits in sixteen bits.
pub open spec fn is_port(s: Seq<char>) -> bool {
    port_digits(s).len() > 0 && all_digits(port_digits(s)) && dec_value(port_digits(s)) <= 65535
}

/// The value of a valid port numeral.
pub open spec fn port_value(s: Seq<char>) -> u16 {
    dec_value(port_digits(s)) as u16
}

pub fn parse_port(t: &str) -> (r: Option<u16>)
    ensures
        is_port(t@) ==> r == Some(port_value(t@)),
        !is_port(t@) ==> r is None,
{
    let n = t.unicode_len();
    let start: usize = if n > 0 && t.get_char(0) == '+' {
        1
    } else {
        0
    };
    assert(port_digits(t@) =~= t@.skip(start as int));
    if n == start {
        return None;
    }
    let ghost d = t@.skip(start as int);
    let mut val: u32 = 0;
    let mut i: usize = start;
    assert(d.take(0) =~= Seq::<char>::empty());
    while i < n
        invariant
            start <= i <= n,
            n == t@.len(),
            d == t@.skip(start as int),
            d == port_digits(t@),
            d.len() == n - start,
            forall|j: int| 0 <= j < d.len() ==> d[j] == t@[j + start],
            all_digits(d.take(i - start)),
            val == dec_value(d.take(i - start)),
            val <= 65535,
        decreases n - i,
    {
        let c = t.get_char(i);
        let u = c as u32;
        if u < 48 || u > 57 {
            assert(!is_digit(d[i - start]));
            assert(!all_digits(d));
            return None;
        }
        assert(d.take(i + 1 - start).drop_last() =~= d.take(i - start));
        assert(d.take(i + 1 - start).last() == d[i - start]);
        let nv = val * 10 + (u - 48);
        if nv > 65535 {
            proof {
                if all_digits(d) {
                    lemma_dec_value_prefix_le(d, i + 1 - start);
                }
            }
            assert(!is_port(t@));
            return None;
        }
        val = nv;
        i = i + 1;
    }
    assert(d.take(n - start as int) =~= d);
    Some(val as u16)
}

} // verus!
