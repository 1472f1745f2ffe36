//! Dotted-decimal addresses.
//!
//! A record's address arrives as four raw octets in reversed order; it is
//! stored and shown as the usual dotted-decimal string.  This module builds
//! that string, and parses one back into octets when a live query needs the
//! numeric address again.

use vstd::prelude::*;
use vstd::arithmetic::div_mod::lemma_fundamental_div_mod;
use vstd::string::StringExecFns;

verus! {

/// The decimal digit character for `d`.
pub open spec fn dec_digit(d: int) -> char
    recommends
        0 <= d < 10,
{
    if d == 0 {
        '0'
    } else if d == 1 {
        '1'
    } else if d == 2 {
        '2'
    } else if d == 3 {
        '3'
    } else if d == 4 {
        '4'
    } else if d == 5 {
        '5'
    } else if d == 6 {
        '6'
    } else if d == 7 {
        '7'
    } else if d == 8 {
        '8'
    } else {
        '9'
    }
}

/// The shortest decimal spelling of an octet: no leading zeros, except
/// that zero itself is "0".
pub open spec fn dec_chars(n: int) -> Seq<char>
    recommends
        0 <= n < 256,
{
    if n < 10 {
        seq![dec_digit(n)]
    } else if n < 100 {
        seq![dec_digit(n / 10), dec_digit(n % 10)]
    } else {
        seq![dec_digit(n / 100), dec_digit((n / 10) % 10), dec_digit(n % 10)]
    }
}

/// The dotted-decimal string "a.b.c.d".
pub open spec fn spec_addr_str(a: u8, b: u8, c: u8, d: u8) -> Seq<char> {
    dec_chars(a as int) + seq!['.'] + dec_chars(b as int) + seq!['.'] + dec_chars(c as int)
        + seq!['.'] + dec_chars(d as int)
}

/// Appends one decimal digit character.
fn push_digit(s: &mut String, d: u8)
    requires
        d < 10,
    ensures
        final(s)@ == old(s)@ + seq![dec_digit(d as int)],
{
    match d {
        0 => {
            s.append("0");
            proof {
                reveal_strlit("0");
                assert(s@ =~= old(s)@ + seq![dec_digit(d as int)]);
            }
        },
        1 => {
            s.append("1");
            proof {
                reveal_strlit("1");
                assert(s@ =~= old(s)@ + seq![dec_digit(d as int)]);
            }
        },
        2 => {
            s.append("2");
            proof {
                reveal_strlit("2");
                assert(s@ =~= old(s)@ + seq![dec_digit(d as int)]);
            }
        },
        3 => {
            s.append("3");
            proof {
                reveal_strlit("3");
                assert(s@ =~= old(s)@ + seq![dec_digit(d as int)]);
            }
        },
        4 => {
            s.append("4");
            proof {
                reveal_strlit("4");
                assert(s@ =~= old(s)@ + seq![dec_digit(d as int)]);
            }
        },
        5 => {
            s.append("5");
            proof {
                reveal_strlit("5");
                assert(s@ =~= old(s)@ + seq![dec_digit(d as int)]);
            }
        },
        6 => {
            s.append("6");
            proof {
                reveal_strlit("6");
                assert(s@ =~= old(s)@ + seq![dec_digit(d as int)]);
            }
        },
        7 => {
            s.append("7");
            proof {
                reveal_strlit("7");
                assert(s@ =~= old(s)@ + seq![dec_digit(d as int)]);
            }
        },
        8 => {
            s.append("8");
            proof {
                reveal_strlit("8");
                assert(s@ =~= old(s)@ + seq![dec_digit(d as int)]);
            }
        },
        _ => {
            s.append("9");
            proof {
                reveal_strlit("9");
                assert(s@ =~= old(s)@ + seq![dec_digit(d as int)]);
            }
        },
    }
}

/// Appends the decimal spelling of one octet.
fn push_octet(s: &mut String, n: u8)
    ensures
        final(s)@ == old(s)@ + dec_chars(n as int),
{
    if n >= 100 {
        push_digit(s, n / 100);
        push_digit(s, (n / 10) % 10);
        push_digit(s, n % 10);
        assert(s@ =~= old(s)@ + dec_chars(n as int));
    } else if n >= 10 {
        push_digit(s, n / 10);
        push_digit(s, n % 10);
        assert(s@ =~= old(s)@ + dec_chars(n as int));
    } else {
        push_digit(s, n);
        assert(s@ =~= old(s)@ + dec_chars(n as int));
    }
}

/// Builds the dotted-decimal string "a.b.c.d".
pub fn addr_string(a: u8, b: u8, c: u8, d: u8) -> (r: String)
    ensures
        r@ == spec_addr_str(a, b, c, d),
{
    let mut s = String::new();
    push_octet(&mut s, a);
    s.append(".");
    push_octet(&mut s, b);
    s.append(".");
    push_octet(&mut s, c);
    s.append(".");
    push_octet(&mut s, d);
    proof {
        reveal_strlit(".");
        assert(s@ =~= spec_addr_str(a, b, c, d));
    }
    s
}

} // verus!

verus! {

/// A decimal digit character.
pub open spec fn is_digit(c: char) -> bool {
    '0' <= c && c <= '9'
}

/// The value of a decimal digit character.
pub open spec fn digit_val(c: char) -> int
    recommends
        is_digit(c),
{
    c as u32 - '0' as u32
}

/// Every character is a decimal digit.
pub open spec fn all_digits(s: Seq<char>) -> bool {
    forall|m: int| 0 <= m < s.len() ==> is_digit(#[trigger] s[m])
}

/// The value of a run of decimal digit characters.
pub open spec fn dec_val(s: Seq<char>) -> int
    recommends
        all_digits(s),
    decreases s.len(),
{
    if s.len() == 0 {
        0
    } else {
        dec_val(s.drop_last()) * 10 + digit_val(s.last())
    }
}

/// The number a group of an address spells: at least one character, all
/// of them digits.
pub open spec fn spec_group_val(s: Seq<char>) -> Option<int> {
    if s.len() == 0 || !all_digits(s) {
        None
    } else {
        Some(dec_val(s))
    }
}

/// The first '.' at or after `from`, or the length when there is none.
pub open spec fn find_dot(s: Seq<char>, from: int) -> int
    recommends
        0 <= from <= s.len(),
    decreases s.len() - from,
{
    if from < 0 || from >= s.len() {
        s.len() as int
    } else if s[from] == '.' {
        from
    } else {
        find_dot(s, from + 1)
    }
}

/// The four octets of a dotted-decimal address: exactly four groups of
/// digits separated by '.', each no larger than 255.  Leading zeros are
/// allowed; anything else is not an address.
pub open spec fn spec_parse_ipv4(s: Seq<char>) -> Option<(u8, u8, u8, u8)> {
    let n = s.len() as int;
    let i = find_dot(s, 0);
    let j = find_dot(s, i + 1);
    let k = find_dot(s, j + 1);
    if i >= n || j >= n || k >= n || find_dot(s, k + 1) < n {
        None
    } else {
        match (
            spec_group_val(s.subrange(0, i)),
            spec_group_val(s.subrange(i + 1, j)),
            spec_group_val(s.subrange(j + 1, k)),
            spec_group_val(s.subrange(k + 1, n)),
        ) {
            (Some(a), Some(b), Some(c), Some(d)) => {
                if 0 <= a <= 255 && 0 <= b <= 255 && 0 <= c <= 255 && 0 <= d <= 255 {
                    Some((a as u8, b as u8, c as u8, d as u8))
                } else {
                    None
                }
            },
            _ => None,
        }
    }
}

/// What `find_dot` finds: no '.' before it, a '.' at it unless it is the
/// end.
proof fn lemma_find_dot_props(s: Seq<char>, from: int)
    requires
        0 <= from <= s.len(),
    ensures
        from <= find_dot(s, from) <= s.len(),
        find_dot(s, from) < s.len() ==> s[find_dot(s, from)] == '.',
        forall|m: int| from <= m < find_dot(s, from) ==> s[m] != '.',
    decreases s.len() - from,
{
    if from < s.len() && s[from] != '.' {
        lemma_find_dot_props(s, from + 1);
    }
}

/// A scan that saw no '.' up to `i` pins `find_dot` down.
proof fn lemma_find_dot_value(s: Seq<char>, from: int, i: int)
    requires
        0 <= from <= i <= s.len(),
        forall|m: int| from <= m < i ==> s[m] != '.',
        i == s.len() || s[i] == '.',
    ensures
        find_dot(s, from) == i,
    decreases i - from,
{
    if from < i {
        lemma_find_dot_value(s, from + 1, i);
    }
}

/// Digit runs have non-negative values that only grow as the run extends.
proof fn lemma_dec_val_grows(s: Seq<char>, p: int)
    requires
        all_digits(s),
        0 <= p <= s.len(),
    ensures
        dec_val(s) >= dec_val(s.take(p)) >= 0,
    decreases s.len() - p,
{
    if p == s.len() {
        assert(s.take(p) =~= s);
        lemma_dec_val_nonneg(s);
    } else {
        lemma_dec_val_grows(s, p + 1);
        let t = s.take(p + 1);
        assert(t.drop_last() =~= s.take(p));
        assert(is_digit(t.last()));
        lemma_dec_val_nonneg(s.take(p));
        assert(dec_val(t) == dec_val(s.take(p)) * 10 + digit_val(t.last()));
    }
}

/// Digit runs have non-negative values.
proof fn lemma_dec_val_nonneg(s: Seq<char>)
    requires
        all_digits(s),
    ensures
        dec_val(s) >= 0,
    decreases s.len(),
{
    if s.len() > 0 {
        assert(all_digits(s.drop_last())) by {
            assert(forall|m: int| 0 <= m < s.len() - 1 ==> s.drop_last()[m] == s[m]);
        }
        lemma_dec_val_nonneg(s.drop_last());
        assert(is_digit(s.last()));
    }
}

/// A string with a character beyond ASCII is no address.
proof fn lemma_non_ascii_no_parse(s: Seq<char>)
    requires
        !vstd::utf8::is_ascii_chars(s),
    ensures
        spec_parse_ipv4(s) is None,
{
    assert(exists|m: int| 0 <= m < s.len() && !('\0' <= #[trigger] s[m] <= '\u{7f}'));
    let m = choose|m: int| 0 <= m < s.len() && !('\0' <= #[trigger] s[m] <= '\u{7f}');
    let c = s[m];
    assert(c != '.');
    assert(!is_digit(c));
    let n = s.len() as int;
    let i = find_dot(s, 0);
    if i < n {
        let j = find_dot(s, i + 1);
        if j < n {
            let k = find_dot(s, j + 1);
            if k < n && find_dot(s, k + 1) >= n {
                lemma_find_dot_props(s, 0);
                lemma_find_dot_props(s, i + 1);
                lemma_find_dot_props(s, j + 1);
                lemma_find_dot_props(s, k + 1);
                if m < i {
                    assert(s.subrange(0, i)[m] == c);
                    assert(!all_digits(s.subrange(0, i)));
                } else if m == i || m == j || m == k {
                    assert(false);
                } else if m < j {
                    assert(s.subrange(i + 1, j)[m - (i + 1)] == c);
                    assert(!all_digits(s.subrange(i + 1, j)));
                } else if m < k {
                    assert(s.subrange(j + 1, k)[m - (j + 1)] == c);
                    assert(!all_digits(s.subrange(j + 1, k)));
                } else {
                    assert(s.subrange(k + 1, n)[m - (k + 1)] == c);
                    assert(!all_digits(s.subrange(k + 1, n)));
                }
            }
        }
    }
}

} // verus!

verus! {

/// Scans for the next '.' at or after `from`.
fn find_dot_exec(s: &str, from: usize, n: usize) -> (r: usize)
    requires
        s.is_ascii(),
        n == s@.len(),
        from <= n,
    ensures
        r == find_dot(s@, from as int),
        from <= r <= n,
{
    let mut i: usize = from;
    while i < n
        invariant
            s.is_ascii(),
            n == s@.len(),
            from <= i <= n,
            forall|m: int| from <= m < i ==> s@[m] != '.',
        decreases n - i,
    {
        let b = s.get_ascii(i);
        if b == 46 {
            proof {
                let c = s@[i as int];
                assert(c as u8 == 46);
                assert(c <= '\u{7f}');
                vstd::utf8::char_u32_cast(c, c as u32);
                assert(c as u32 == 46) by {
                    assert(c as u32 <= 0x7f);
                }
                assert(c == '.') by {
                    assert('.' as u32 == 46);
                    vstd::utf8::char_u32_cast('.', 46);
                }
                lemma_find_dot_value(s@, from as int, i as int);
            }
            return i;
        }
        proof {
            let c = s@[i as int];
            assert(c as u8 != 46);
            assert(c != '.') by {
                assert('.' as u8 == 46);
            }
        }
        i += 1;
    }
    proof {
        lemma_find_dot_value(s@, from as int, n as int);
    }
    n
}

/// Reads one digit group as a number, refusing anything over 255.
fn group_val_exec(s: &str, from: usize, to: usize, n: usize) -> (r: Option<u8>)
    requires
        s.is_ascii(),
        n == s@.len(),
        from <= to <= n,
    ensures
        match r {
            Some(v) => spec_group_val(s@.subrange(from as int, to as int)) == Some(v as int),
            None => {
                ||| spec_group_val(s@.subrange(from as int, to as int)) is None
                ||| spec_group_val(s@.subrange(from as int, to as int))->Some_0 > 255
            },
        },
{
    let ghost sub = s@.subrange(from as int, to as int);
    if from == to {
        return None;
    }
    let mut acc: u32 = 0;
    let mut i: usize = from;
    while i < to
        invariant
            s.is_ascii(),
            n == s@.len(),
            from <= i <= to <= n,
            sub == s@.subrange(from as int, to as int),
            all_digits(sub.take(i - from)),
            acc == dec_val(sub.take(i - from)),
            acc <= 255,
        decreases to - i,
    {
        let b = s.get_ascii(i);
        let ghost c = s@[i as int];
        proof {
            assert(c as u8 == b);
            assert(c <= '\u{7f}');
            assert(c as u32 == b as u32) by {
                vstd::utf8::char_u32_cast(c, c as u32);
                assert(c as u32 <= 0x7f);
            }
            assert(sub[i - from] == c);
        }
        if b < 48 || b > 57 {
            proof {
                assert(!is_digit(c)) by {
                    assert('0' as u32 == 48 && '9' as u32 == 57);
                }
                assert(!all_digits(sub));
            }
            return None;
        }
        proof {
            assert(is_digit(c)) by {
                assert('0' as u32 == 48 && '9' as u32 == 57);
            }
            let t = sub.take(i - from + 1);
            assert(t.drop_last() =~= sub.take(i - from));
            assert(t.last() == c);
            assert(dec_val(t) == dec_val(sub.take(i - from)) * 10 + digit_val(c));
            assert(digit_val(c) == b - 48);
        }
        acc = acc * 10 + (b - 48) as u32;
        if acc > 255 {
            proof {
                if all_digits(sub) {
                    lemma_dec_val_grows(sub, i + 1 - from);
                    assert(spec_group_val(sub)->Some_0 > 255);
                }
            }
            return None;
        }
        i += 1;
    }
    proof {
        assert(sub.take(to - from) =~= sub);
        assert(spec_group_val(sub) == Some(acc as int));
    }
    Some(acc as u8)
}

/// Parses a dotted-decimal address string into its four octets.
pub fn parse_ipv4(s: &str) -> (r: Option<(u8, u8, u8, u8)>)
    ensures
        r == spec_parse_ipv4(s@),
{
    if !s.is_ascii() {
        proof {
            lemma_non_ascii_no_parse(s@);
        }
        return None;
    }
    let n = s.unicode_len();
    let i = find_dot_exec(s, 0, n);
    if i >= n {
        return None;
    }
    let j = find_dot_exec(s, i + 1, n);
    if j >= n {
        return None;
    }
    let k = find_dot_exec(s, j + 1, n);
    if k >= n {
        return None;
    }
    if find_dot_exec(s, k + 1, n) < n {
        return None;
    }
    let a = match group_val_exec(s, 0, i, n) {
        Some(v) => v,
        None => {
            return None;
        },
    };
    let b = match group_val_exec(s, i + 1, j, n) {
        Some(v) => v,
        None => {
            return None;
        },
    };
    let c = match group_val_exec(s, j + 1, k, n) {
        Some(v) => v,
        None => {
            return None;
        },
    };
    let d = match group_val_exec(s, k + 1, n, n) {
        Some(v) => v,
        None => {
            return None;
        },
    };
    Some((a, b, c, d))
}

/// The two endpoints of a live query against `ip:port`: the octets of the
/// address, the fixed TCP probe port, and the UDP query port `port + 123`.
/// `None` when the address is not dotted-decimal or the UDP port would
/// not fit.
pub fn get_tcp_and_udp_addrs(ip: &str, port: u16) -> (r: Option<((u8, u8, u8, u8), u16, u16)>)
    ensures
        match r {
            Some((q, tcp, udp)) => {
                &&& spec_parse_ipv4(ip@) == Some(q)
                &&& port + 123 <= u16::MAX
                &&& tcp == 80
                &&& udp == port + 123
            },
            None => spec_parse_ipv4(ip@) is None || port + 123 > u16::MAX,
        },
{
    let q = match parse_ipv4(ip) {
        Some(q) => q,
        None => {
            return None;
        },
    };
    if port > u16::MAX - 123 {
        return None;
    }
    Some((q, 80, port + 123))
}

} // verus!

verus! {

/// Digit characters are digits, carry their value, and are never dots.
proof fn lemma_digit_char(d: int)
    requires
        0 <= d < 10,
    ensures
        is_digit(dec_digit(d)),
        digit_val(dec_digit(d)) == d,
        dec_digit(d) != '.',
{
}

/// An octet's decimal spelling is one to three digit characters and no dot.
proof fn lemma_dec_chars_digits(n: int)
    requires
        0 <= n < 256,
    ensures
        all_digits(dec_chars(n)),
        1 <= dec_chars(n).len() <= 3,
        forall|m: int| 0 <= m < dec_chars(n).len() ==> #[trigger] dec_chars(n)[m] != '.',
{
    if n < 10 {
        lemma_digit_char(n);
    } else if n < 100 {
        lemma_digit_char(n / 10);
        lemma_digit_char(n % 10);
    } else {
        lemma_digit_char(n / 100);
        lemma_digit_char((n / 10) % 10);
        lemma_digit_char(n % 10);
    }
}

/// An octet's decimal spelling spells that octet.
proof fn lemma_dec_chars_value(n: int)
    requires
        0 <= n < 256,
    ensures
        dec_val(dec_chars(n)) == n,
{
    lemma_fundamental_div_mod(n, 10);
    assert(dec_val(Seq::<char>::empty()) == 0);
    if n < 10 {
        let s = dec_chars(n);
        assert(s.drop_last() =~= Seq::<char>::empty());
        lemma_digit_char(n);
        assert(s.last() == dec_digit(n));
        assert(dec_val(s) == dec_val(s.drop_last()) * 10 + digit_val(s.last()));
    } else if n < 100 {
        let s = dec_chars(n);
        let s1 = seq![dec_digit(n / 10)];
        assert(s.drop_last() =~= s1);
        assert(s1.drop_last() =~= Seq::<char>::empty());
        lemma_digit_char(n / 10);
        lemma_digit_char(n % 10);
        assert(dec_val(s1) == dec_val(s1.drop_last()) * 10 + digit_val(s1.last()));
        assert(dec_val(s1) == n / 10);
        assert(s.last() == dec_digit(n % 10));
        assert(dec_val(s) == dec_val(s.drop_last()) * 10 + digit_val(s.last()));
    } else {
        let s = dec_chars(n);
        let s2 = seq![dec_digit(n / 100), dec_digit((n / 10) % 10)];
        let s1 = seq![dec_digit(n / 100)];
        assert(s.drop_last() =~= s2);
        assert(s2.drop_last() =~= s1);
        assert(s1.drop_last() =~= Seq::<char>::empty());
        lemma_digit_char(n / 100);
        lemma_digit_char((n / 10) % 10);
        lemma_digit_char(n % 10);
        assert(dec_val(s1) == dec_val(s1.drop_last()) * 10 + digit_val(s1.last()));
        assert(dec_val(s1) == n / 100);
        assert(dec_val(s2) == dec_val(s2.drop_last()) * 10 + digit_val(s2.last()));
        assert(dec_val(s2) == (n / 100) * 10 + (n / 10) % 10);
        assert(dec_val(s) == dec_val(s.drop_last()) * 10 + digit_val(s.last()));
        lemma_fundamental_div_mod(n / 10, 10);
        vstd::arithmetic::div_mod::lemma_div_denominator(n, 10, 10);
        assert(n / 10 / 10 == n / 100);
        assert((n / 100) * 10 + (n / 10) % 10 == n / 10);
        assert(dec_val(s) == (n / 10) * 10 + n % 10);
    }
}

/// Every address string the decoder builds parses back to its own octets,
/// so a live query can always be aimed at a decoded record's address.
pub proof fn lemma_addr_str_parses(a: u8, b: u8, c: u8, d: u8)
    ensures
        spec_parse_ipv4(spec_addr_str(a, b, c, d)) == Some((a, b, c, d)),
{
    let ga = dec_chars(a as int);
    let gb = dec_chars(b as int);
    let gc = dec_chars(c as int);
    let gd = dec_chars(d as int);
    lemma_dec_chars_digits(a as int);
    lemma_dec_chars_digits(b as int);
    lemma_dec_chars_digits(c as int);
    lemma_dec_chars_digits(d as int);
    let s = spec_addr_str(a, b, c, d);
    let la = ga.len() as int;
    let i = la;
    let j = la + 1 + gb.len();
    let k = j + 1 + gc.len();
    let n = k + 1 + gd.len();
    assert(s.len() == n);
    assert(s[i] == '.' && s[j] == '.' && s[k] == '.');
    assert forall|m: int| 0 <= m < i implies s[m] != '.' by {
        assert(s[m] == ga[m]);
    }
    lemma_find_dot_value(s, 0, i);
    assert forall|m: int| i + 1 <= m < j implies s[m] != '.' by {
        assert(s[m] == gb[m - (i + 1)]);
    }
    lemma_find_dot_value(s, i + 1, j);
    assert forall|m: int| j + 1 <= m < k implies s[m] != '.' by {
        assert(s[m] == gc[m - (j + 1)]);
    }
    lemma_find_dot_value(s, j + 1, k);
    assert forall|m: int| k + 1 <= m < n implies s[m] != '.' by {
        assert(s[m] == gd[m - (k + 1)]);
    }
    lemma_find_dot_value(s, k + 1, n);
    assert(s.subrange(0, i) =~= ga);
    assert(s.subrange(i + 1, j) =~= gb);
    assert(s.subrange(j + 1, k) =~= gc);
    assert(s.subrange(k + 1, n) =~= gd);
    lemma_dec_chars_value(a as int);
    lemma_dec_chars_value(b as int);
    lemma_dec_chars_value(c as int);
    lemma_dec_chars_value(d as int);
    assert(spec_group_val(ga) == Some(a as int));
    assert(spec_group_val(gb) == Some(b as int));
    assert(spec_group_val(gc) == Some(c as int));
    assert(spec_group_val(gd) == Some(d as int));
}

} // verus!
