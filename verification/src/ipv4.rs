//! Recognising a dotted-quad IPv4 literal: four decimal octets, each
//! `0`..`255` without leading zeros, separated by single dots.

use vstd::prelude::*;
use vstd::string::StrSliceExecFns;

verus! {

/// A decimal digit.
pub open spec fn is_digit(c: char) -> bool {
    '0' <= c && c <= '9'
}

/// The value of a decimal digit.
pub open spec fn digit_val(c: char) -> int {
    c as int - '0' as int
}

/// The value of a string of decimal digits.
pub open spec fn decimal_val(cs: Seq<char>) -> int
    decreases cs.len(),
{
    if cs.len() == 0 {
        0
    } else {
        decimal_val(cs.drop_last()) * 10 + digit_val(cs.last())
    }
}

/// One octet as text: one to three digits, no leading zero unless the octet
/// is the single digit `0`, value at most 255.
pub open spec fn is_octet_text(cs: Seq<char>) -> bool {
    &&& 1 <= cs.len() <= 3
    &&& forall|i: int| 0 <= i < cs.len() ==> is_digit(cs[i])
    &&& (cs.len() > 1 ==> cs[0] != '0')
    &&& decimal_val(cs) <= 255
}

/// `cs` is a dotted quad whose three dots sit at `p1 < p2 < p3`, the four
/// pieces between them being octet texts.
pub open spec fn ipv4_split(cs: Seq<char>, p1: int, p2: int, p3: int) -> bool {
    &&& 0 <= p1 < p2 < p3 < cs.len()
    &&& cs[p1] == '.'
    &&& cs[p2] == '.'
    &&& cs[p3] == '.'
    &&& is_octet_text(cs.subrange(0, p1))
    &&& is_octet_text(cs.subrange(p1 + 1, p2))
    &&& is_octet_text(cs.subrange(p2 + 1, p3))
    &&& is_octet_text(cs.subrange(p3 + 1, cs.len() as int))
}

/// `cs` is a dotted-quad IPv4 literal.
pub open spec fn is_ipv4_text(cs: Seq<char>) -> bool {
    exists|p1: int, p2: int, p3: int| ipv4_split(cs, p1, p2, p3)
}

/// In a dotted quad the dots are exactly the three split positions: any
/// other position falls inside an octet text and holds a digit.
proof fn lemma_split_dots(cs: Seq<char>, p1: int, p2: int, p3: int, j: int)
    requires
        ipv4_split(cs, p1, p2, p3),
        0 <= j < cs.len(),
        cs[j] == '.',
    ensures
        j == p1 || j == p2 || j == p3,
{
    if j < p1 {
        assert(is_digit(cs.subrange(0, p1)[j]));
    } else if p1 < j < p2 {
        assert(is_digit(cs.subrange(p1 + 1, p2)[j - (p1 + 1)]));
    } else if p2 < j < p3 {
        assert(is_digit(cs.subrange(p2 + 1, p3)[j - (p2 + 1)]));
    } else if p3 < j {
        assert(is_digit(cs.subrange(p3 + 1, cs.len() as int)[j - (p3 + 1)]));
    }
}

/// Parse the digits of `val` between `start` and `end` as one octet.
/// `None` exactly when that piece is not an octet text.
fn parse_octet(val: &str, start: usize, end: usize) -> (r: Option<u8>)
    requires
        start <= end <= val@.len(),
    ensures
        match r {
            Some(b) => {
                &&& is_octet_text(val@.subrange(start as int, end as int))
                &&& b == decimal_val(val@.subrange(start as int, end as int))
            },
            None => !is_octet_text(val@.subrange(start as int, end as int)),
        },
{
    let ghost seg = val@.subrange(start as int, end as int);
    let len = end - start;
    if len < 1 || len > 3 {
        return None;
    }
    if len > 1 && val.get_char(start) == '0' {
        return None;
    }
    let mut v: u32 = 0;
    let mut i: usize = start;
    while i < end
        invariant
            start <= i <= end <= val@.len(),
            seg == val@.subrange(start as int, end as int),
            1 <= end - start <= 3,
            forall|j: int| 0 <= j < i - start ==> is_digit(seg[j]),
            v == decimal_val(val@.subrange(start as int, i as int)),
            i - start == 0 ==> v == 0,
            i - start == 1 ==> v <= 9,
            i - start == 2 ==> v <= 99,
            i - start == 3 ==> v <= 999,
        decreases end - i,
    {
        let c = val.get_char(i);
        if c < '0' || c > '9' {
            proof {
                assert(seg[i - start] == c);
            }
            return None;
        }
        let d = c as u32 - 48;
        proof {
            let pre = val@.subrange(start as int, i as int);
            let cur = val@.subrange(start as int, i + 1);
            assert(cur.drop_last() =~= pre);
            assert(cur.last() == c);
        }
        v = v * 10 + d;
        i = i + 1;
    }
    proof {
        assert(val@.subrange(start as int, i as int) == seg);
    }
    if v > 255 {
        return None;
    }
    Some(v as u8)
}

/// The whole string as one IPv4 literal: `Some` of the four octet values
/// exactly when the text is a dotted quad, `None` otherwise.
pub fn parse_into_ipv4(val: &str) -> (r: Option<[u8; 4]>)
    ensures
        match r {
            Some(oct) => exists|p1: int, p2: int, p3: int|
                {
                    &&& ipv4_split(val@, p1, p2, p3)
                    &&& oct[0] == decimal_val(val@.subrange(0, p1))
                    &&& oct[1] == decimal_val(val@.subrange(p1 + 1, p2))
                    &&& oct[2] == decimal_val(val@.subrange(p2 + 1, p3))
                    &&& oct[3] == decimal_val(val@.subrange(p3 + 1, val@.len() as int))
                },
            None => !is_ipv4_text(val@),
        },
{
    let ghost cs = val@;
    let n = val.unicode_len();

    // Find every dot.
    let mut dots: Vec<usize> = Vec::new();
    let mut i: usize = 0;
    while i < n
        invariant
            n == cs.len(),
            cs == val@,
            i <= n,
            forall|k: int|
                0 <= k < dots@.len() ==> dots@[k] < i && cs[dots@[k] as int] == '.',
            forall|k: int| 0 < k < dots@.len() ==> dots@[k - 1] < #[trigger] dots@[k],
            forall|j: int|
                0 <= j < i && cs[j] == '.' ==> exists|k: int|
                    0 <= k < dots@.len() && dots@[k] == j,
        decreases n - i,
    {
        let c = val.get_char(i);
        if c == '.' {
            let ghost prev = dots@;
            dots.push(i);
            proof {
                assert forall|k: int|
                    0 <= k < dots@.len() implies dots@[k] < i + 1 && cs[dots@[k] as int]
                    == '.' by {
                    if k < prev.len() {
                        assert(dots@[k] == prev[k]);
                    } else {
                        assert(dots@[k] == i as usize);
                    }
                };
                assert forall|k: int| 0 < k < dots@.len() implies dots@[k - 1] < #[trigger] dots@[k] by {
                    if k < prev.len() {
                        assert(dots@[k] == prev[k] && dots@[k - 1] == prev[k - 1]);
                    } else {
                        assert(dots@[k] == i as usize && dots@[k - 1] == prev[k - 1]);
                    }
                };
                assert forall|j: int| 0 <= j < i + 1 && cs[j] == '.' implies exists|k: int|
                    0 <= k < dots@.len() && dots@[k] == j by {
                    if j < i {
                        let k0 = choose|k: int| 0 <= k < prev.len() && prev[k] == j;
                        assert(dots@[k0] == j);
                    } else {
                        assert(dots@[prev.len() as int] == j);
                    }
                };
            }
        }
        i = i + 1;
    }

    if dots.len() != 3 {
        proof {
            lemma_wrong_dot_count(cs, dots@);
        }
        return None;
    }

    let d1 = dots[0];
    let d2 = dots[1];
    let d3 = dots[2];

    let o0 = parse_octet(val, 0, d1);
    let o1 = parse_octet(val, d1 + 1, d2);
    let o2 = parse_octet(val, d2 + 1, d3);
    let o3 = parse_octet(val, d3 + 1, n);

    proof {
        // Any split of the string must use exactly these three dots.
        assert forall|p1: int, p2: int, p3: int| ipv4_split(cs, p1, p2, p3) implies p1 == d1 && p2
            == d2 && p3 == d3 by {
            lemma_split_is_found(cs, dots@, p1, p2, p3);
        };
    }

    match (o0, o1, o2, o3) {
        (Some(a), Some(b), Some(c), Some(d)) => {
            let oct: [u8; 4] = [a, b, c, d];
            proof {
                assert(ipv4_split(cs, d1 as int, d2 as int, d3 as int));
            }
            Some(oct)
        },
        _ => {
            proof {
                assert(!is_ipv4_text(cs)) by {
                    if is_ipv4_text(cs) {
                        let (p1, p2, p3) = choose|p1: int, p2: int, p3: int|
                            ipv4_split(cs, p1, p2, p3);
                        assert(p1 == d1 && p2 == d2 && p3 == d3);
                    }
                };
            }
            None
        },
    }
}

/// With the collected dots not numbering three, the string cannot be a
/// dotted quad: a split would put exactly three dots in the string.
proof fn lemma_wrong_dot_count(cs: Seq<char>, ds: Seq<usize>)
    requires
        ds.len() != 3,
        forall|k: int| 0 <= k < ds.len() ==> ds[k] < cs.len() && cs[ds[k] as int] == '.',
        forall|k: int| 0 < k < ds.len() ==> ds[k - 1] < #[trigger] ds[k],
        forall|j: int|
            0 <= j < cs.len() && cs[j] == '.' ==> exists|k: int| 0 <= k < ds.len() && ds[k] == j,
    ensures
        !is_ipv4_text(cs),
{
    if is_ipv4_text(cs) {
        let (p1, p2, p3) = choose|p1: int, p2: int, p3: int| ipv4_split(cs, p1, p2, p3);
        assert(ipv4_split(cs, p1, p2, p3));
        // each split dot was collected, at three distinct indices
        let k1 = choose|k: int| 0 <= k < ds.len() && ds[k] == p1;
        let k2 = choose|k: int| 0 <= k < ds.len() && ds[k] == p2;
        let k3 = choose|k: int| 0 <= k < ds.len() && ds[k] == p3;
        assert(0 <= k1 < ds.len() && ds[k1] == p1);
        assert(0 <= k2 < ds.len() && ds[k2] == p2);
        assert(0 <= k3 < ds.len() && ds[k3] == p3);
        assert(ds.len() >= 3);
        // a fourth collected dot would be a fourth dot position in the string
        if ds.len() > 3 {
            assert forall|k: int| 0 <= k < ds.len() implies #[trigger] ds[k] == p1 || ds[k] == p2
                || ds[k] == p3 by {
                lemma_split_dots(cs, p1, p2, p3, ds[k] as int);
            };
            lemma_four_distinct(ds);
        }
    }
}

/// A strictly increasing sequence maps lower indices to smaller values.
proof fn lemma_dots_sorted(ds: Seq<usize>, k1: int, k2: int)
    requires
        forall|k: int| 0 < k < ds.len() ==> ds[k - 1] < #[trigger] ds[k],
        0 <= k1 < ds.len(),
        0 <= k2 < ds.len(),
        k1 < k2,
    ensures
        ds[k1] < ds[k2],
    decreases k2 - k1,
{
    if k1 + 1 < k2 {
        lemma_dots_sorted(ds, k1 + 1, k2);
    }
}

/// More than three strictly increasing values cannot all lie in a
/// three-element set.
proof fn lemma_four_distinct(ds: Seq<usize>)
    requires
        ds.len() > 3,
        forall|k: int| 0 < k < ds.len() ==> ds[k - 1] < #[trigger] ds[k],
    ensures
        !(forall|k: int|
            0 <= k < ds.len() ==> #[trigger] ds[k] == ds[0] || ds[k] == ds[1] || ds[k] == ds[2]),
{
    lemma_dots_sorted(ds, 0, 3);
    lemma_dots_sorted(ds, 1, 3);
    lemma_dots_sorted(ds, 2, 3);
}

/// When exactly three dots were collected, any dotted-quad split uses them
/// in order.
proof fn lemma_split_is_found(cs: Seq<char>, ds: Seq<usize>, p1: int, p2: int, p3: int)
    requires
        ipv4_split(cs, p1, p2, p3),
        ds.len() == 3,
        forall|k: int| 0 <= k < ds.len() ==> ds[k] < cs.len() && cs[ds[k] as int] == '.',
        forall|k: int| 0 < k < ds.len() ==> ds[k - 1] < #[trigger] ds[k],
        forall|j: int|
            0 <= j < cs.len() && cs[j] == '.' ==> exists|k: int| 0 <= k < ds.len() && ds[k] == j,
    ensures
        p1 == ds[0] && p2 == ds[1] && p3 == ds[2],
{
    // the three split dots are among the collected ones
    assert(exists|k: int| 0 <= k < ds.len() && ds[k] == p1);
    assert(exists|k: int| 0 <= k < ds.len() && ds[k] == p2);
    assert(exists|k: int| 0 <= k < ds.len() && ds[k] == p3);
    let k1 = choose|k: int| 0 <= k < ds.len() && ds[k] == p1;
    let k2 = choose|k: int| 0 <= k < ds.len() && ds[k] == p2;
    let k3 = choose|k: int| 0 <= k < ds.len() && ds[k] == p3;
    // every collected dot is one of the split dots
    assert forall|k: int| 0 <= k < ds.len() implies #[trigger] ds[k] == p1 || ds[k] == p2 || ds[k]
        == p3 by {
        lemma_split_dots(cs, p1, p2, p3, ds[k] as int);
    };
    assert(ds[0] < ds[1]) by {
        lemma_dots_sorted(ds, 0, 1);
    };
    assert(ds[1] < ds[2]) by {
        lemma_dots_sorted(ds, 1, 2);
    };
}

} // verus!
