//! Parsing of textual IP literals.
//!
//! An IPv4 literal is a dotted quad `a.b.c.d` of decimal octets without
//! leading zeros.  An IPv6 literal is up to eight groups of one to four
//! hexadecimal digits separated by `':'`, where at most one `"::"` stands
//! for a run of zero groups of at least length one, and the final group
//! position may instead hold an embedded IPv4 literal standing for two
//! groups.  Both grammars follow the usual textual address forms.

use vstd::prelude::*;

use crate::addr::{IpAddr, Ipv4Addr, Ipv6Addr};
use crate::text::{
    dec_value, hex_value, is_hex_group, is_octet, lemma_split_on_no_sep, parse_hex_group,
    parse_octet, split_on, split_str,
};

verus! {

/// The IPv4 address denoted by `s` as a dotted quad, if any.
pub open spec fn ipv4_of(s: Seq<char>) -> Option<Ipv4Addr> {
    let parts = split_on(s, '.');
    if parts.len() == 4 && is_octet(parts[0]) && is_octet(parts[1]) && is_octet(parts[2])
        && is_octet(parts[3]) {
        Some(
            Ipv4Addr {
                a: dec_value(parts[0]) as u8,
                b: dec_value(parts[1]) as u8,
                c: dec_value(parts[2]) as u8,
                d: dec_value(parts[3]) as u8,
            },
        )
    } else {
        None
    }
}

/// Parse a dotted-quad IPv4 literal.
pub fn parse_ipv4(t: &str) -> (r: Option<Ipv4Addr>)
    ensures
        r == ipv4_of(t@),
{
    let parts = split_str(t, '.');
    if parts.len() != 4 {
        return None;
    }
    assert(parts.deep_view()[0] == parts@[0]@);
    assert(parts.deep_view()[1] == parts@[1]@);
    assert(parts.deep_view()[2] == parts@[2]@);
    assert(parts.deep_view()[3] == parts@[3]@);
    let a = match parse_octet(parts[0]) {
        Some(v) => v,
        None => {
            return None;
        },
    };
    let b = match parse_octet(parts[1]) {
        Some(v) => v,
        None => {
            return None;
        },
    };
    let c = match parse_octet(parts[2]) {
        Some(v) => v,
        None => {
            return None;
        },
    };
    let d = match parse_octet(parts[3]) {
        Some(v) => v,
        None => {
            return None;
        },
    };
    Some(Ipv4Addr { a, b, c, d })
}

/// Index of the first empty piece, if any.
pub open spec fn first_empty(parts: Seq<Seq<char>>) -> Option<int>
    decreases parts.len(),
{
    if parts.len() == 0 {
        None
    } else if parts[0].len() == 0 {
        Some(0)
    } else {
        match first_empty(parts.drop_first()) {
            Some(i) => Some(i + 1),
            None => None,
        }
    }
}

/// An empty piece at `i` bounds what `first_empty` returns.
proof fn lemma_first_empty_le(parts: Seq<Seq<char>>, i: int)
    requires
        0 <= i < parts.len(),
        parts[i].len() == 0,
    ensures
        first_empty(parts) matches Some(e) && e <= i,
    decreases parts.len(),
{
    if parts[0].len() != 0 {
        assert(parts.drop_first()[i - 1] == parts[i]);
        lemma_first_empty_le(parts.drop_first(), i - 1);
    }
}

/// What `first_empty` returns is an empty piece.
proof fn lemma_first_empty_at(parts: Seq<Seq<char>>)
    ensures
        first_empty(parts) matches Some(e) ==> 0 <= e < parts.len() && parts[e].len() == 0,
    decreases parts.len(),
{
    if parts.len() > 0 && parts[0].len() != 0 {
        lemma_first_empty_at(parts.drop_first());
        if first_empty(parts.drop_first()) is Some {
            let e0: int = first_empty(parts.drop_first())->Some_0;
            assert(parts.drop_first()[e0] == parts[e0 + 1]);
        }
    }
}

/// Locate the first empty piece of a split.
fn find_first_empty(parts: &Vec<&str>) -> (r: Option<usize>)
    ensures
        match r {
            Some(e) => e < parts.len() && first_empty(parts.deep_view()) == Some(e as int),
            None => first_empty(parts.deep_view()) is None,
        },
{
    let ghost dv = parts.deep_view();
    assert(dv.len() == parts@.len());
    let n = parts.len();
    let mut k: usize = 0;
    while k < n
        invariant
            k <= n,
            n == parts.len(),
            dv == parts.deep_view(),
            n == dv.len(),
            forall|j: int| 0 <= j < k ==> #[trigger] dv[j].len() != 0,
        decreases n - k,
    {
        let p = parts[k];
        assert(dv[k as int] == p@);
        if p.unicode_len() == 0 {
            proof {
                lemma_first_empty_le(dv, k as int);
                lemma_first_empty_at(dv);
            }
            return Some(k);
        }
        k = k + 1;
    }
    proof {
        lemma_first_empty_at(dv);
    }
    None
}

/// All pieces with index in `[lo, hi)` are hexadecimal groups.
pub open spec fn hex_groups_in(parts: Seq<Seq<char>>, lo: int, hi: int) -> bool {
    forall|i: int| lo <= i < hi ==> is_hex_group(#[trigger] parts[i])
}

/// The group values of the hexadecimal pieces with index in `[lo, hi)`.
pub open spec fn hex_group_vals(parts: Seq<Seq<char>>, lo: int, hi: int) -> Seq<u16> {
    Seq::new((hi - lo) as nat, |i: int| hex_value(parts[lo + i]) as u16)
}

/// The two group values of an embedded IPv4 address.
pub open spec fn v4_group_vals(v: Ipv4Addr) -> Seq<u16> {
    seq![
        ((v.a as int) * 256 + (v.b as int)) as u16,
        ((v.c as int) * 256 + (v.d as int)) as u16,
    ]
}

/// The pieces with index in `[lo, hi)` form a valid run of groups:
/// hexadecimal groups, except that the last piece may be an embedded
/// IPv4 literal.
pub open spec fn run_ok(parts: Seq<Seq<char>>, lo: int, hi: int) -> bool {
    hex_groups_in(parts, lo, hi - 1) && (hi <= lo || is_hex_group(parts[hi - 1]) || ipv4_of(
        parts[hi - 1],
    ) is Some)
}

/// How many 16-bit groups the run `[lo, hi)` stands for: one per piece,
/// and one more when the last piece is an embedded IPv4 literal.
pub open spec fn run_len(parts: Seq<Seq<char>>, lo: int, hi: int) -> int {
    if hi <= lo {
        0
    } else if ipv4_of(parts[hi - 1]) is Some {
        hi - lo + 1
    } else {
        hi - lo
    }
}

/// The group values the run `[lo, hi)` stands for.
pub open spec fn run_vals(parts: Seq<Seq<char>>, lo: int, hi: int) -> Seq<u16> {
    if hi <= lo {
        Seq::<u16>::empty()
    } else if ipv4_of(parts[hi - 1]) is Some {
        hex_group_vals(parts, lo, hi - 1) + v4_group_vals(ipv4_of(parts[hi - 1])->Some_0)
    } else {
        hex_group_vals(parts, lo, hi)
    }
}

/// A run of zero groups.
pub open spec fn zero_groups(n: int) -> Seq<u16> {
    Seq::new(n as nat, |i: int| 0u16)
}

/// The address with the given eight groups.
pub open spec fn addr_from_groups(g: Seq<u16>) -> Ipv6Addr {
    Ipv6Addr {
        g0: g[0],
        g1: g[1],
        g2: g[2],
        g3: g[3],
        g4: g[4],
        g5: g[5],
        g6: g[6],
        g7: g[7],
    }
}

/// The eight groups denoted by an IPv6 literal whose split on `':'`
/// shows a gap: `front_hi` pieces before the `"::"`, and the pieces
/// from `rest_lo` on after it.
pub open spec fn gap_groups(parts: Seq<Seq<char>>, front_hi: int, rest_lo: int) -> Option<
    Seq<u16>,
> {
    let n = parts.len() as int;
    if rest_lo >= n {
        None
    } else if rest_lo == n - 1 && parts[n - 1].len() == 0 {
        if hex_groups_in(parts, 0, front_hi) && front_hi <= 7 {
            Some(hex_group_vals(parts, 0, front_hi) + zero_groups(8 - front_hi))
        } else {
            None
        }
    } else {
        if hex_groups_in(parts, 0, front_hi) && run_ok(parts, rest_lo, n) && front_hi + run_len(
            parts,
            rest_lo,
            n,
        ) <= 7 {
            Some(
                hex_group_vals(parts, 0, front_hi) + zero_groups(
                    8 - front_hi - run_len(parts, rest_lo, n),
                ) + run_vals(parts, rest_lo, n),
            )
        } else {
            None
        }
    }
}

/// The eight groups denoted by `s` as an IPv6 literal, if any.
pub open spec fn ipv6_groups(s: Seq<char>) -> Option<Seq<u16>> {
    let parts = split_on(s, ':');
    match first_empty(parts) {
        None => if run_ok(parts, 0, parts.len() as int) && run_len(
            parts,
            0,
            parts.len() as int,
        ) == 8 {
            Some(run_vals(parts, 0, parts.len() as int))
        } else {
            None
        },
        Some(e) => if e == 0 {
            if parts.len() >= 2 && parts[1].len() == 0 {
                gap_groups(parts, 0, 2)
            } else {
                None
            }
        } else {
            gap_groups(parts, e, e + 1)
        },
    }
}

/// The IPv6 address denoted by `s`, if any.
pub open spec fn ipv6_of(s: Seq<char>) -> Option<Ipv6Addr> {
    match ipv6_groups(s) {
        Some(g) => Some(addr_from_groups(g)),
        None => None,
    }
}

/// A hexadecimal group contains no dot, so it is no IPv4 literal.
proof fn lemma_hex_group_not_ipv4(s: Seq<char>)
    requires
        is_hex_group(s),
    ensures
        ipv4_of(s) is None,
{
    assert(forall|i: int| 0 <= i < s.len() ==> s[i] != '.') by {
        assert(forall|i: int|
            0 <= i < s.len() ==> crate::text::is_hex_digit(#[trigger] s[i]));
    }
    lemma_split_on_no_sep(s, '.');
}

/// Parse the pieces `[lo, hi)` as hexadecimal groups.
fn parse_hex_run(parts: &Vec<&str>, lo: usize, hi: usize) -> (r: Option<Vec<u16>>)
    requires
        lo <= hi <= parts.len(),
    ensures
        match r {
            Some(v) => hex_groups_in(parts.deep_view(), lo as int, hi as int) && v@
                == hex_group_vals(parts.deep_view(), lo as int, hi as int),
            None => !hex_groups_in(parts.deep_view(), lo as int, hi as int),
        },
{
    let ghost dv = parts.deep_view();
    assert(dv.len() == parts@.len());
    let mut out: Vec<u16> = Vec::new();
    let mut k: usize = lo;
    assert(out@ =~= hex_group_vals(dv, lo as int, lo as int));
    while k < hi
        invariant
            lo <= k <= hi <= parts.len(),
            dv == parts.deep_view(),
            dv.len() == parts.len(),
            hex_groups_in(dv, lo as int, k as int),
            out@ == hex_group_vals(dv, lo as int, k as int),
        decreases hi - k,
    {
        let p = parts[k];
        assert(dv[k as int] == p@);
        match parse_hex_group(p) {
            Some(g) => {
                out.push(g);
                assert(out@ =~= hex_group_vals(dv, lo as int, k + 1 as int));
            },
            None => {
                assert(!is_hex_group(dv[k as int]));
                return None;
            },
        }
        k = k + 1;
    }
    Some(out)
}

/// Parse the pieces `[lo, hi)` as a run of groups, the last piece
/// possibly an embedded IPv4 literal.
fn parse_run(parts: &Vec<&str>, lo: usize, hi: usize) -> (r: Option<Vec<u16>>)
    requires
        lo <= hi <= parts.len(),
    ensures
        match r {
            Some(v) => run_ok(parts.deep_view(), lo as int, hi as int) && v@ == run_vals(
                parts.deep_view(),
                lo as int,
                hi as int,
            ) && v@.len() == run_len(parts.deep_view(), lo as int, hi as int),
            None => !run_ok(parts.deep_view(), lo as int, hi as int),
        },
{
    let ghost dv = parts.deep_view();
    assert(dv.len() == parts@.len());
    if hi == lo {
        let out: Vec<u16> = Vec::new();
        assert(out@ =~= run_vals(dv, lo as int, hi as int));
        return Some(out);
    }
    let mut out = match parse_hex_run(parts, lo, hi - 1) {
        Some(v) => v,
        None => {
            return None;
        },
    };
    let p = parts[hi - 1];
    assert(dv[hi - 1 as int] == p@);
    match parse_hex_group(p) {
        Some(g) => {
            proof {
                lemma_hex_group_not_ipv4(dv[hi - 1 as int]);
            }
            out.push(g);
            assert(hex_groups_in(dv, lo as int, hi as int));
            assert(out@ =~= hex_group_vals(dv, lo as int, hi as int));
            Some(out)
        },
        None => {
            match parse_ipv4(p) {
                Some(q) => {
                    let hi16: u16 = (q.a as u16) * 256 + (q.b as u16);
                    let lo16: u16 = (q.c as u16) * 256 + (q.d as u16);
                    out.push(hi16);
                    out.push(lo16);
                    assert(out@ =~= run_vals(dv, lo as int, hi as int));
                    Some(out)
                },
                None => {
                    assert(!run_ok(dv, lo as int, hi as int));
                    None
                },
            }
        },
    }
}

/// Extend the groups with zeros to a total of eight, then append `back`.
fn fill_groups(front: Vec<u16>, back: &Vec<u16>) -> (r: Vec<u16>)
    requires
        front.len() + back.len() <= 8,
    ensures
        r@ == front@ + zero_groups(8 - front.len() - back.len()) + back@,
        r@.len() == 8,
{
    let z: usize = 8 - front.len() - back.len();
    let mut out = front;
    let ghost f = out@;
    let mut k: usize = 0;
    while k < z
        invariant
            k <= z,
            out@ == f + zero_groups(k as int),
        decreases z - k,
    {
        out.push(0);
        assert(out@ =~= f + zero_groups(k + 1 as int));
        k = k + 1;
    }
    let mut j: usize = 0;
    let ghost fz = out@;
    while j < back.len()
        invariant
            j <= back.len(),
            out@ == fz + back@.take(j as int),
        decreases back.len() - j,
    {
        assert(out@.push(back@[j as int]) =~= fz + back@.take(j + 1 as int));
        let b = back[j];
        out.push(b);
        j = j + 1;
    }
    assert(out@.take(0) =~= Seq::<u16>::empty());
    assert(back@.take(back.len() as int) =~= back@);
    assert(f + zero_groups(z as int) + Seq::<u16>::empty() =~= fz);
    assert(zero_groups(0) =~= Seq::<u16>::empty());
    out
}

/// Build the address with the given eight groups.
fn groups_to_addr(g: &Vec<u16>) -> (r: Ipv6Addr)
    requires
        g.len() == 8,
    ensures
        r == addr_from_groups(g@),
{
    Ipv6Addr {
        g0: g[0],
        g1: g[1],
        g2: g[2],
        g3: g[3],
        g4: g[4],
        g5: g[5],
        g6: g[6],
        g7: g[7],
    }
}

/// Parse an IPv6 literal.
pub fn parse_ipv6(t: &str) -> (r: Option<Ipv6Addr>)
    ensures
        r == ipv6_of(t@),
{
    let parts = split_str(t, ':');
    let ghost dv = parts.deep_view();
    assert(dv.len() == parts@.len());
    let n = parts.len();
    match find_first_empty(&parts) {
        None => {
            match parse_run(&parts, 0, n) {
                Some(v) => {
                    if v.len() == 8 {
                        Some(groups_to_addr(&v))
                    } else {
                        None
                    }
                },
                None => None,
            }
        },
        Some(e) => {
            let rest_lo: usize = if e == 0 {
                if n >= 2 && parts[1].unicode_len() == 0 {
                    assert(dv[1] == parts@[1]@);
                    2
                } else {
                    assert(n >= 2 ==> dv[1] == parts@[1]@);
                    return None;
                }
            } else {
                e + 1
            };
            if rest_lo >= n {
                return None;
            }
            let front = match parse_hex_run(&parts, 0, e) {
                Some(v) => v,
                None => {
                    return None;
                },
            };
            assert(front.len() == e);
            let last = parts[n - 1];
            assert(dv[n - 1 as int] == last@);
            if rest_lo == n - 1 && last.unicode_len() == 0 {
                if front.len() <= 7 {
                    let g = fill_groups(front, &Vec::new());
                    assert(g@ =~= hex_group_vals(dv, 0, e as int) + zero_groups(8 - e));
                    Some(groups_to_addr(&g))
                } else {
                    None
                }
            } else {
                let back = match parse_run(&parts, rest_lo, n) {
                    Some(v) => v,
                    None => {
                        return None;
                    },
                };
                if front.len() + back.len() <= 7 {
                    let g = fill_groups(front, &back);
                    Some(groups_to_addr(&g))
                } else {
                    None
                }
            }
        },
    }
}

/// The IP address denoted by `s`, if any: an IPv4 literal, or else an
/// IPv6 literal.
pub open spec fn ip_of(s: Seq<char>) -> Option<IpAddr> {
    if ipv4_of(s) is Some {
        Some(IpAddr::V4(ipv4_of(s)->Some_0))
    } else if ipv6_of(s) is Some {
        Some(IpAddr::V6(ipv6_of(s)->Some_0))
    } else {
        None
    }
}

/// The empty string denotes no IP address, in either family.
pub proof fn lemma_empty_not_ip(s: Seq<char>)
    requires
        s.len() == 0,
    ensures
        ipv4_of(s) is None,
        ipv6_of(s) is None,
        ip_of(s) is None,
{
    assert(split_on(s, '.').len() == 1);
    assert(split_on(s, ':').len() == 1);
    assert(split_on(s, ':')[0].len() == 0);
    assert(first_empty(split_on(s, ':')) == Some(0int));
}

/// Parse an IP literal, trying the IPv4 form first.
pub fn parse_ip(t: &str) -> (r: Option<IpAddr>)
    ensures
        r == ip_of(t@),
{
    match parse_ipv4(t) {
        Some(v) => Some(IpAddr::V4(v)),
        None => match parse_ipv6(t) {
            Some(v) => Some(IpAddr::V6(v)),
            None => None,
        },
    }
}

} // verus!
