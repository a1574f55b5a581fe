//! Structural validation of URL hosts and ports: dotted-decimal IPv4
//! literals, bracketed IPv6 literals, the digit-and-dot heuristic for
//! mistyped IPv4 hosts, and the port range check.
use vstd::prelude::*;

use crate::text::{is_digit, is_hex_digit, digit_val, split_char, split_on};

verus! {

/// The host components a URL parser hands over, exactly as written in the
/// input, together with the serialized form of the whole URL.
#[derive(Debug)]
pub struct ParsedUrl {
    pub scheme: String,
    pub host: Option<String>,
    pub port: Option<u32>,
    pub serialized: String,
}

/// Which kind of IP literal a host failed to be.
#[derive(Clone, Copy, Debug, PartialEq, Eq, Structural)]
pub enum IpKind {
    V4,
    V6,
}

/// The result of structural validation; terminal, consumed once.
#[derive(Clone, Copy, Debug, PartialEq, Eq, Structural)]
pub enum ValidationOutcome {
    Valid,
    InvalidHost(IpKind),
    InvalidPort,
    NoHost,
}

/// Every character is a decimal digit.
pub open spec fn all_digits(s: Seq<char>) -> bool {
    forall|i: int| 0 <= i < s.len() ==> is_digit(s[i])
}

/// Numeric value of a digit sequence read as a decimal number.
pub open spec fn digits_val(s: Seq<char>) -> int
    decreases s.len(),
{
    if s.len() == 0 {
        0
    } else {
        digits_val(s.drop_last()) * 10 + digit_val(s.last())
    }
}

/// One octet of a dotted-decimal IPv4 address: one to three digits, no
/// leading zero, value at most 255.
pub open spec fn valid_ipv4_octet(s: Seq<char>) -> bool {
    &&& 1 <= s.len() <= 3
    &&& all_digits(s)
    &&& digits_val(s) <= 255
    &&& (s.len() > 1 ==> s[0] != '0')
}

/// A valid dotted-decimal IPv4 address: exactly four octets.
pub open spec fn valid_ipv4(s: Seq<char>) -> bool {
    let p = split_char(s, '.');
    p.len() == 4 && (forall|i: int| 0 <= i < 4 ==> valid_ipv4_octet(#[trigger] p[i]))
}

/// Every character is a digit or a literal dot: the shape of an attempted
/// IPv4 address.
pub open spec fn digit_dot_only(s: Seq<char>) -> bool {
    forall|i: int| 0 <= i < s.len() ==> is_digit(s[i]) || s[i] == '.'
}

fn check_octet(s: &str) -> (r: bool)
    ensures
        r == valid_ipv4_octet(s@),
{
    let n = s.unicode_len();
    if n < 1 || n > 3 {
        return false;
    }
    let mut i: usize = 0;
    let mut val: u32 = 0;
    while i < n
        invariant
            0 <= i <= n == s@.len(),
            n <= 3,
            all_digits(s@.subrange(0, i as int)),
            val == digits_val(s@.subrange(0, i as int)),
            i == 0 ==> val == 0,
            i == 1 ==> val <= 9,
            i == 2 ==> val <= 99,
            i == 3 ==> val <= 999,
        decreases n - i,
    {
        let c = s.get_char(i);
        if !('0' <= c && c <= '9') {
            assert(!all_digits(s@));
            return false;
        }
        proof {
            assert(s@.subrange(0, i + 1).drop_last() =~= s@.subrange(0, i as int));
            assert(s@.subrange(0, i + 1).last() == s@[i as int]);
            if i == 0 {
                assert(digits_val(s@.subrange(0, 1)) == digit_val(s@[0]));
            }
        }
        val = val * 10 + ((c as u32) - 48);
        i += 1;
    }
    assert(s@.subrange(0, n as int) =~= s@);
    if n > 1 && s.get_char(0) == '0' {
        return false;
    }
    val <= 255
}

/// Whether a string is a valid dotted-decimal IPv4 address.
pub fn is_valid_ipv4(host: &str) -> (r: bool)
    ensures
        r == valid_ipv4(host@),
{
    let parts = split_on(host, '.');
    let ghost p = split_char(host@, '.');
    if parts.len() != 4 {
        return false;
    }
    let mut i: usize = 0;
    while i < 4
        invariant
            0 <= i <= 4,
            parts.len() == 4,
            parts.deep_view() =~~= p,
            p =~~= split_char(host@, '.'),
            forall|j: int| 0 <= j < i ==> valid_ipv4_octet(#[trigger] p[j]),
        decreases 4 - i,
    {
        if !check_octet(parts[i].as_str()) {
            assert(!valid_ipv4_octet(p[i as int]));
            return false;
        }
        i += 1;
    }
    true
}

/// One colon-separated group of an IPv6 address: one to four hex digits.
pub open spec fn valid_hex_quad(s: Seq<char>) -> bool {
    1 <= s.len() <= 4 && (forall|i: int| 0 <= i < s.len() ==> is_hex_digit(s[i]))
}

/// Parts `from..to` are all nonempty.
pub open spec fn parts_nonempty(p: Seq<Seq<char>>, from: int, to: int) -> bool {
    forall|i: int| from <= i < to ==> (#[trigger] p[i]).len() > 0
}

/// Parts `from..to` are all hex groups.
pub open spec fn parts_hex(p: Seq<Seq<char>>, from: int, to: int) -> bool {
    forall|i: int| from <= i < to ==> valid_hex_quad(#[trigger] p[i])
}

/// The final part may be an embedded dotted-decimal IPv4 address, which
/// stands for two groups instead of one.
pub open spec fn last_extra(p: Seq<Seq<char>>) -> int {
    if valid_ipv4(p[p.len() - 1]) {
        1
    } else {
        0
    }
}

/// The final part is a hex group or an embedded IPv4 address.
pub open spec fn last_part_ok(p: Seq<Seq<char>>) -> bool {
    valid_hex_quad(p[p.len() - 1]) || valid_ipv4(p[p.len() - 1])
}

/// A valid textual IPv6 address, over its colon-separated parts: either
/// eight hex groups (or six and a trailing embedded IPv4 address), or a
/// single `::` — leading, trailing, in the middle, or alone — standing for
/// at least one zero group, so that at most seven groups are written out.
pub open spec fn valid_ipv6(s: Seq<char>) -> bool {
    let p = split_char(s, ':');
    let n = p.len() as int;
    ||| (n == 3 && p[0].len() == 0 && p[1].len() == 0 && p[2].len() == 0)
    ||| (parts_nonempty(p, 0, n) && ((n == 8 && parts_hex(p, 0, 8)) || (n == 7 && parts_hex(p, 0, 6)
        && valid_ipv4(p[6]))))
    ||| (n >= 3 && p[0].len() == 0 && p[1].len() == 0 && parts_nonempty(p, 2, n) && parts_hex(
        p,
        2,
        n - 1,
    ) && last_part_ok(p) && n - 2 + last_extra(p) <= 7)
    ||| (n >= 3 && p[n - 1].len() == 0 && p[n - 2].len() == 0 && parts_nonempty(p, 0, n - 2)
        && parts_hex(p, 0, n - 2) && n - 2 <= 7)
    ||| (n >= 3 && (exists|k: int|
        1 <= k < n - 1 && #[trigger] p[k].len() == 0 && parts_nonempty(p, 0, k) && parts_nonempty(
            p,
            k + 1,
            n,
        ) && parts_hex(p, 0, k) && parts_hex(p, k + 1, n - 1) && last_part_ok(p) && n - 1
            + last_extra(p) <= 7))
}

fn check_hex_quad(s: &str) -> (r: bool)
    ensures
        r == valid_hex_quad(s@),
{
    let n = s.unicode_len();
    if n < 1 || n > 4 {
        return false;
    }
    let mut i: usize = 0;
    while i < n
        invariant
            0 <= i <= n == s@.len(),
            forall|j: int| 0 <= j < i ==> is_hex_digit(s@[j]),
        decreases n - i,
    {
        let c = s.get_char(i);
        if !(('0' <= c && c <= '9') || ('a' <= c && c <= 'f') || ('A' <= c && c <= 'F')) {
            return false;
        }
        i += 1;
    }
    true
}

fn all_hex_parts(parts: &Vec<String>, from: usize, to: usize) -> (r: bool)
    requires
        from <= to <= parts.len(),
    ensures
        r == parts_hex(parts.deep_view(), from as int, to as int),
{
    let mut i: usize = from;
    while i < to
        invariant
            from <= i <= to <= parts.len(),
            parts_hex(parts.deep_view(), from as int, i as int),
        decreases to - i,
    {
        if !check_hex_quad(parts[i].as_str()) {
            assert(!valid_hex_quad(parts.deep_view()[i as int]));
            return false;
        }
        i += 1;
    }
    true
}

/// The invariants tying the list `es` of empty-part indices to the parts
/// `p`: it lists, in strictly increasing order, exactly the indices of the
/// empty parts.
pub open spec fn empties_of(p: Seq<Seq<char>>, es: Seq<usize>) -> bool {
    &&& (forall|j: int| 0 <= j < p.len() && p[j].len() == 0 ==> es.contains(j as usize))
    &&& (forall|k: int|
        0 <= k < es.len() ==> (#[trigger] es[k]) < p.len() && p[es[k] as int].len() == 0)
    &&& (forall|k1: int, k2: int| 0 <= k1 < k2 < es.len() ==> es[k1] < es[k2])
}

/// `valid_ipv6` restated over the list of empty-part indices, in the shape
/// the checker tests directly.
pub open spec fn ipv6_by_empties(s: Seq<char>, es: Seq<usize>) -> bool {
    let p = split_char(s, ':');
    let n = p.len() as int;
    ||| (es.len() == 0 && ((n == 8 && parts_hex(p, 0, 8)) || (n == 7 && parts_hex(p, 0, 6)
        && valid_ipv4(p[6]))))
    ||| (es.len() == 3 && n == 3)
    ||| (es.len() == 2 && n >= 3 && es[0] == 0 && es[1] == 1 && parts_hex(p, 2, n - 1)
        && last_part_ok(p) && n - 2 + last_extra(p) <= 7)
    ||| (es.len() == 2 && n >= 3 && es[0] == n - 2 && es[1] == n - 1 && parts_hex(p, 0, n - 2) && n
        - 2 <= 7)
    ||| (es.len() == 1 && 1 <= es[0] <= n - 2 && parts_hex(p, 0, es[0] as int) && parts_hex(
        p,
        es[0] + 1,
        n - 1,
    ) && last_part_ok(p) && n - 1 + last_extra(p) <= 7)
}

/// With a faithful list of empty-part indices, the textual IPv6 grammar and
/// its restatement over that list agree.
proof fn lemma_ipv6_cases(s: Seq<char>, es: Seq<usize>)
    requires
        empties_of(split_char(s, ':'), es),
    ensures
        valid_ipv6(s) == ipv6_by_empties(s, es),
{
    let p = split_char(s, ':');
    let n = p.len() as int;
    crate::text::lemma_split_char_len(s, ':');
    // Any index that all-nonempty ranges cover cannot be listed in `es`.
    assert forall|k: int| 0 <= k < es.len() implies p[es[k] as int].len() == 0 by {}
    if valid_ipv6(s) {
        if parts_nonempty(p, 0, n) && ((n == 8 && parts_hex(p, 0, 8)) || (n == 7 && parts_hex(
            p,
            0,
            6,
        ) && valid_ipv4(p[6]))) {
            assert(es.len() == 0) by {
                if es.len() > 0 {
                    assert(p[es[0] as int].len() == 0);
                }
            }
        } else if n == 3 && p[0].len() == 0 && p[1].len() == 0 && p[2].len() == 0 {
            assert(es.contains(0usize) && es.contains(1usize) && es.contains(2usize));
            let k0 = choose|k: int| 0 <= k < es.len() && es[k] == 0usize;
            let k1 = choose|k: int| 0 <= k < es.len() && es[k] == 1usize;
            let k2 = choose|k: int| 0 <= k < es.len() && es[k] == 2usize;
            assert(es.len() >= 3);
            assert(es.len() <= 3) by {
                if es.len() > 3 {
                    assert(es[0] < es[1] < es[2] < es[3] < 3);
                }
            }
        } else if n >= 3 && p[0].len() == 0 && p[1].len() == 0 && parts_nonempty(p, 2, n)
            && parts_hex(p, 2, n - 1) && last_part_ok(p) && n - 2 + last_extra(p) <= 7 {
            assert(es.contains(0usize) && es.contains(1usize));
            let k0 = choose|k: int| 0 <= k < es.len() && es[k] == 0usize;
            let k1 = choose|k: int| 0 <= k < es.len() && es[k] == 1usize;
            assert(k0 != k1);
            assert(es.len() >= 2);
            assert(es.len() <= 2) by {
                if es.len() > 2 {
                    assert(es[0] < es[1] < es[2]);
                    assert(es[2] >= 2);
                    assert(p[es[2] as int].len() == 0);
                }
            }
            assert(es[0] < es[1]);
            assert(es[1] >= 2 ==> p[es[1] as int].len() == 0 && es[1] < n);
            assert(es[0] == 0 && es[1] == 1) by {
                if es[1] >= 2 {
                    assert(p[es[1] as int].len() > 0);
                }
            }
        } else if n >= 3 && p[n - 1].len() == 0 && p[n - 2].len() == 0 && parts_nonempty(
            p,
            0,
            n - 2,
        ) && parts_hex(p, 0, n - 2) && n - 2 <= 7 {
            assert(es.contains((n - 1) as usize) && es.contains((n - 2) as usize));
            let k0 = choose|k: int| 0 <= k < es.len() && es[k] == (n - 2) as usize;
            let k1 = choose|k: int| 0 <= k < es.len() && es[k] == (n - 1) as usize;
            assert(k0 != k1);
            assert(es.len() >= 2);
            assert(es.len() <= 2) by {
                if es.len() > 2 {
                    assert(es[0] < es[1] < es[2] < n);
                    assert(es[0] < n - 2);
                    assert(p[es[0] as int].len() == 0);
                }
            }
            assert(es[0] == n - 2 && es[1] == n - 1) by {
                assert(es[0] < es[1] < n);
                if es[0] < n - 2 {
                    assert(p[es[0] as int].len() > 0);
                }
            }
        } else {
            let k = choose|k: int|
                1 <= k < n - 1 && #[trigger] p[k].len() == 0 && parts_nonempty(p, 0, k)
                    && parts_nonempty(p, k + 1, n) && parts_hex(p, 0, k) && parts_hex(
                    p,
                    k + 1,
                    n - 1,
                ) && last_part_ok(p) && n - 1 + last_extra(p) <= 7;
            assert(es.contains(k as usize));
            assert(es.len() >= 1);
            assert(es.len() <= 1) by {
                if es.len() > 1 {
                    assert(es[0] < es[1]);
                    assert(p[es[0] as int].len() == 0 && p[es[1] as int].len() == 0);
                    if es[0] as int != k {
                        assert(p[es[0] as int].len() > 0);
                    }
                    if es[1] as int != k {
                        assert(p[es[1] as int].len() > 0);
                    }
                }
            }
            assert(es[0] == k as usize) by {
                if es[0] as int != k {
                    assert(p[es[0] as int].len() > 0);
                }
            }
        }
    }
    if ipv6_by_empties(s, es) {
        if es.len() == 0 {
            assert(parts_nonempty(p, 0, n)) by {
                assert forall|j: int| 0 <= j < n implies (#[trigger] p[j]).len() > 0 by {
                    if p[j].len() == 0 {
                        assert(es.contains(j as usize));
                    }
                }
            }
        } else if es.len() == 3 && n == 3 {
            assert(0 <= es[0] < es[1] < es[2] < 3);
            assert(es[0] == 0 && es[1] == 1 && es[2] == 2);
            assert(p[0].len() == 0 && p[1].len() == 0 && p[2].len() == 0);
        } else if es.len() == 2 && n >= 3 && es[0] == 0 && es[1] == 1 {
            assert(p[0].len() == 0 && p[1].len() == 0);
            assert(parts_nonempty(p, 2, n)) by {
                assert forall|j: int| 2 <= j < n implies (#[trigger] p[j]).len() > 0 by {
                    if p[j].len() == 0 {
                        assert(es.contains(j as usize));
                        let k = choose|k: int| 0 <= k < es.len() && es[k] == j as usize;
                        assert(k == 0 || k == 1);
                    }
                }
            }
        } else if es.len() == 2 && n >= 3 && es[0] == n - 2 && es[1] == n - 1 {
            assert(p[n - 1].len() == 0 && p[n - 2].len() == 0);
            assert(parts_nonempty(p, 0, n - 2)) by {
                assert forall|j: int| 0 <= j < n - 2 implies (#[trigger] p[j]).len() > 0 by {
                    if p[j].len() == 0 {
                        assert(es.contains(j as usize));
                        let k = choose|k: int| 0 <= k < es.len() && es[k] == j as usize;
                        assert(k == 0 || k == 1);
                    }
                }
            }
        } else {
            let k = es[0] as int;
            assert(p[k].len() == 0);
            assert(parts_nonempty(p, 0, k) && parts_nonempty(p, k + 1, n)) by {
                assert forall|j: int| 0 <= j < n && j != k implies (#[trigger] p[j]).len() > 0 by {
                    if p[j].len() == 0 {
                        assert(es.contains(j as usize));
                        let kk = choose|kk: int| 0 <= kk < es.len() && es[kk] == j as usize;
                        assert(kk == 0);
                    }
                }
            }
            assert(valid_ipv6(s));
        }
    }
}

/// Whether a string (brackets already stripped) is a valid IPv6 address.
pub fn is_valid_ipv6(s: &str) -> (r: bool)
    ensures
        r == valid_ipv6(s@),
{
    let parts = split_on(s, ':');
    let n = parts.len();
    let ghost p = split_char(s@, ':');
    proof {
        crate::text::lemma_split_char_len(s@, ':');
    }
    // Record the indices of the empty parts, in increasing order.
    let mut empties: Vec<usize> = Vec::new();
    let mut i: usize = 0;
    while i < n
        invariant
            0 <= i <= n == parts.len(),
            parts.deep_view() =~~= p,
            forall|j: int| 0 <= j < i && p[j].len() == 0 ==> empties@.contains(j as usize),
            forall|k: int|
                0 <= k < empties@.len() ==> (#[trigger] empties@[k]) < i && p[
                    empties@[k] as int
                ].len() == 0,
            forall|k1: int, k2: int|
                0 <= k1 < k2 < empties@.len() ==> empties@[k1] < empties@[k2],
        decreases n - i,
    {
        if parts[i].as_str().unicode_len() == 0 {
            let ghost prev = empties@;
            empties.push(i);
            proof {
                assert forall|j: int|
                    0 <= j < i + 1 && p[j].len() == 0 implies empties@.contains(j as usize) by {
                    if j < i {
                        let k = choose|k: int| 0 <= k < prev.len() && prev[k] == j as usize;
                        assert(empties@[k] == j as usize);
                    } else {
                        assert(empties@[empties@.len() - 1] == i);
                    }
                }
            }
        }
        i += 1;
    }
    proof {
        lemma_ipv6_cases(s@, empties@);
    }
    let r: bool;
    if empties.len() == 0 {
        if n == 8 {
            r = all_hex_parts(&parts, 0, 8);
        } else if n == 7 {
            r = all_hex_parts(&parts, 0, 6) && is_valid_ipv4(parts[6].as_str());
        } else {
            r = false;
        }
    } else if empties.len() == 3 && n == 3 {
        r = true;
    } else if empties.len() == 2 && n >= 3 && empties[0] == 0 && empties[1] == 1 {
        let hexes = all_hex_parts(&parts, 2, n - 1);
        let last_quad = check_hex_quad(parts[n - 1].as_str());
        let last_v4 = is_valid_ipv4(parts[n - 1].as_str());
        let extra: usize = if last_v4 {
            1
        } else {
            0
        };
        r = hexes && (last_quad || last_v4) && n - 2 + extra <= 7;
    } else if empties.len() == 2 && n >= 3 && empties[0] == n - 2 && empties[1] == n - 1 {
        r = all_hex_parts(&parts, 0, n - 2) && n - 2 <= 7;
    } else if empties.len() == 1 && n >= 3 && empties[0] >= 1 && empties[0] <= n - 2 {
        let k = empties[0];
        let hexes = all_hex_parts(&parts, 0, k) && all_hex_parts(&parts, k + 1, n - 1);
        let last_quad = check_hex_quad(parts[n - 1].as_str());
        let last_v4 = is_valid_ipv4(parts[n - 1].as_str());
        let extra: usize = if last_v4 {
            1
        } else {
            0
        };
        r = hexes && (last_quad || last_v4) && n - 1 + extra <= 7;
    } else {
        assert(!ipv6_by_empties(s@, empties@)) by {
            if empties@.len() == 1 && 1 <= empties@[0] <= p.len() - 2 {
                assert(p.len() >= 3);
            }
        }
        r = false;
    }
    r
}

/// When every part of a string split on dots holds only digits, the string
/// holds only digits and dots.
proof fn lemma_digit_parts_shape(s: Seq<char>)
    requires
        forall|i: int|
            0 <= i < split_char(s, '.').len() ==> all_digits(#[trigger] split_char(s, '.')[i]),
    ensures
        digit_dot_only(s),
    decreases s.len(),
{
    let p = split_char(s, '.');
    if s.len() == 0 {
    } else if s[0] == '.' {
        let rp = split_char(s.drop_first(), '.');
        assert(forall|j: int| 0 <= j < rp.len() ==> rp[j] == p[j + 1]);
        lemma_digit_parts_shape(s.drop_first());
        assert forall|i: int| 0 <= i < s.len() implies is_digit(s[i]) || s[i] == '.' by {
            if i > 0 {
                assert(s.drop_first()[i - 1] == s[i]);
            }
        }
    } else {
        let rp = split_char(s.drop_first(), '.');
        assert(p[0] == seq![s[0]] + rp[0]);
        assert(is_digit(s[0])) by {
            assert(p[0][0] == s[0]);
        }
        assert forall|j: int| 0 <= j < rp.len() implies all_digits(#[trigger] rp[j]) by {
            if j == 0 {
                assert forall|i: int| 0 <= i < rp[0].len() implies is_digit(rp[0][i]) by {
                    assert(p[0][i + 1] == rp[0][i]);
                }
            } else {
                assert(rp[j] == p[j]);
            }
        }
        lemma_digit_parts_shape(s.drop_first());
        assert forall|i: int| 0 <= i < s.len() implies is_digit(s[i]) || s[i] == '.' by {
            if i > 0 {
                assert(s.drop_first()[i - 1] == s[i]);
            }
        }
    }
}

/// A valid dotted-decimal IPv4 address is made of digits and dots alone.
pub proof fn lemma_valid_ipv4_is_digit_dot(h: Seq<char>)
    requires
        valid_ipv4(h),
    ensures
        digit_dot_only(h),
{
    lemma_digit_parts_shape(h);
}

/// Every valid dotted-decimal IPv4 host validates.
pub proof fn lemma_valid_ipv4_host_accepted(h: Seq<char>)
    requires
        valid_ipv4(h),
    ensures
        host_decision(h) == ValidationOutcome::Valid,
{
}

/// A host that is neither digit-and-dot shaped nor bracket-delimited
/// validates, whatever it names: no resolution is attempted.
pub proof fn lemma_plain_hostname_accepted(h: Seq<char>)
    requires
        !digit_dot_only(h),
        !(h.len() >= 2 && h[0] == '[' && h[h.len() - 1] == ']'),
    ensures
        host_decision(h) == ValidationOutcome::Valid,
{
    if valid_ipv4(h) {
        lemma_valid_ipv4_is_digit_dot(h);
    }
}

/// The decision on one host string: a valid IPv4 literal passes; a
/// bracketed host passes exactly when its interior is a valid IPv6 address;
/// a digit-and-dot shaped host that is not valid IPv4 is flagged as a
/// mistyped IPv4 address; anything else is an ordinary hostname and passes.
pub open spec fn host_decision(h: Seq<char>) -> ValidationOutcome {
    if valid_ipv4(h) {
        ValidationOutcome::Valid
    } else if h.len() >= 2 && h[0] == '[' && h[h.len() - 1] == ']' {
        if valid_ipv6(h.subrange(1, h.len() - 1)) {
            ValidationOutcome::Valid
        } else {
            ValidationOutcome::InvalidHost(IpKind::V6)
        }
    } else if digit_dot_only(h) {
        ValidationOutcome::InvalidHost(IpKind::V4)
    } else {
        ValidationOutcome::Valid
    }
}

impl ParsedUrl {
    /// The host component as a character sequence, if present.
    pub open spec fn host_view(&self) -> Option<Seq<char>> {
        match self.host {
            Some(h) => Some(h@),
            None => None,
        }
    }
}

/// The host check of validation: `NoHost` without a host, else the decision
/// on the host string.
pub open spec fn ip_outcome(url: &ParsedUrl) -> ValidationOutcome {
    match url.host_view() {
        None => ValidationOutcome::NoHost,
        Some(h) => host_decision(h),
    }
}

/// The port check of validation: an explicit port must lie in [0, 65535].
pub open spec fn port_outcome(url: &ParsedUrl) -> ValidationOutcome {
    match url.port {
        None => ValidationOutcome::Valid,
        Some(p) => if p <= 65535 {
            ValidationOutcome::Valid
        } else {
            ValidationOutcome::InvalidPort
        },
    }
}

/// The validation decision over bare host and port components: the host
/// check first, the port only when the host passed.
pub open spec fn components_outcome(host: Option<Seq<char>>, port: Option<u32>) -> ValidationOutcome {
    let ho = match host {
        None => ValidationOutcome::NoHost,
        Some(h) => host_decision(h),
    };
    if ho != ValidationOutcome::Valid {
        ho
    } else {
        match port {
            None => ValidationOutcome::Valid,
            Some(p) => if p <= 65535 {
                ValidationOutcome::Valid
            } else {
                ValidationOutcome::InvalidPort
            },
        }
    }
}

/// Host validation then port validation, short-circuiting on a host error.
pub open spec fn validate_spec(url: &ParsedUrl) -> ValidationOutcome {
    if ip_outcome(url) != ValidationOutcome::Valid {
        ip_outcome(url)
    } else {
        port_outcome(url)
    }
}

/// `validate_spec` is the decision over the URL's bare components.
pub proof fn lemma_validate_spec_components(url: &ParsedUrl)
    ensures
        validate_spec(url) == components_outcome(url.host_view(), url.port),
{
}

/// The diagnostic line a failed outcome stands for; a valid outcome has
/// none and gets the empty sequence.
pub open spec fn outcome_line(o: ValidationOutcome) -> Seq<char> {
    match o {
        ValidationOutcome::Valid => Seq::<char>::empty(),
        ValidationOutcome::InvalidHost(IpKind::V4) => "The URL contains an invalid IPv4 address."@,
        ValidationOutcome::InvalidHost(IpKind::V6) => "The URL contains an invalid IPv6 address."@,
        ValidationOutcome::InvalidPort => "The URL contains an invalid port number."@,
        ValidationOutcome::NoHost => "The URL does not contain a host."@,
    }
}

/// Check the host component for a malformed IP literal.
pub fn check_ip_address(url: &ParsedUrl) -> (r: ValidationOutcome)
    ensures
        r == ip_outcome(url),
{
    match &url.host {
        None => ValidationOutcome::NoHost,
        Some(h) => {
            let hs = h.as_str();
            let n = hs.unicode_len();
            if is_valid_ipv4(hs) {
                ValidationOutcome::Valid
            } else if n >= 2 && hs.get_char(0) == '[' && hs.get_char(n - 1) == ']' {
                let inner = hs.substring_char(1, n - 1);
                if is_valid_ipv6(inner) {
                    ValidationOutcome::Valid
                } else {
                    ValidationOutcome::InvalidHost(IpKind::V6)
                }
            } else if is_digit_dot_only(hs) {
                ValidationOutcome::InvalidHost(IpKind::V4)
            } else {
                ValidationOutcome::Valid
            }
        },
    }
}

/// Check an explicit port for range.
pub fn check_port_number(url: &ParsedUrl) -> (r: ValidationOutcome)
    ensures
        r == port_outcome(url),
{
    match url.port {
        None => ValidationOutcome::Valid,
        Some(p) => if p <= 65535 {
            ValidationOutcome::Valid
        } else {
            ValidationOutcome::InvalidPort
        },
    }
}

/// Full structural validation: the host is checked first, and the port only
/// when the host passed.
pub fn validate(url: &ParsedUrl) -> (r: ValidationOutcome)
    ensures
        r == validate_spec(url),
{
    let host_r = check_ip_address(url);
    match host_r {
        ValidationOutcome::Valid => check_port_number(url),
        _ => host_r,
    }
}

/// The diagnostic line for a validation outcome; a valid outcome has none.
pub fn outcome_message(o: &ValidationOutcome) -> (r: Option<String>)
    ensures
        (r is None) == (*o == ValidationOutcome::Valid),
        r matches Some(m) ==> m@ == outcome_line(*o),
{
    match o {
        ValidationOutcome::Valid => None,
        ValidationOutcome::InvalidHost(IpKind::V4) => Some(
            String::from_str("The URL contains an invalid IPv4 address."),
        ),
        ValidationOutcome::InvalidHost(IpKind::V6) => Some(
            String::from_str("The URL contains an invalid IPv6 address."),
        ),
        ValidationOutcome::InvalidPort => Some(
            String::from_str("The URL contains an invalid port number."),
        ),
        ValidationOutcome::NoHost => Some(
            String::from_str("The URL does not contain a host."),
        ),
    }
}

/// Whether every character of a string is a digit or a dot.
pub fn is_digit_dot_only(host: &str) -> (r: bool)
    ensures
        r == digit_dot_only(host@),
{
    let n = host.unicode_len();
    let mut i: usize = 0;
    while i < n
        invariant
            0 <= i <= n == host@.len(),
            forall|j: int| 0 <= j < i ==> is_digit(host@[j]) || host@[j] == '.',
        decreases n - i,
    {
        let c = host.get_char(i);
        if !(('0' <= c && c <= '9') || c == '.') {
            return false;
        }
        i += 1;
    }
    true
}

} // verus!
