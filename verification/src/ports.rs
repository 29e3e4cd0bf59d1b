//! Port specifications: comma-separated ports and inclusive ranges such as
//! `22,80,443,8000-8010`.
use crate::text::{
    char_index, chars_of, concat, find_at, lemma_trim_idempotent, find_from, lemma_find_at_some, slice_of, split_chars, split_on, string_from_chars, trim,
    trim_chars, views, decimal, digit_char, join, is_ws, trim_start, trim_end, lemma_char_absent,
    lemma_split_join,
};
use std::collections::BTreeSet;
use vstd::prelude::*;

verus! {

pub open spec fn is_digit(c: char) -> bool {
    '0' <= c && c <= '9'
}

pub open spec fn all_digits(s: Seq<char>) -> bool {
    forall|i: int| 0 <= i < s.len() ==> is_digit(#[trigger] s[i])
}

/// The number written by a run of decimal digits.
pub open spec fn digits_value(s: Seq<char>) -> nat
    decreases s.len(),
{
    if s.len() == 0 {
        0
    } else {
        digits_value(s.drop_last()) * 10 + ((s.last() as int - 48) as nat)
    }
}

/// `<u16 as FromStr>::from_str`: an optional `+`, then one or more ASCII
/// digits whose value is at most `u16::MAX`.
pub open spec fn parse_u16(s: Seq<char>) -> Option<u16> {
    let d = if s.len() > 0 && s[0] == '+' {
        s.drop_first()
    } else {
        s
    };
    if d.len() > 0 && all_digits(d) && digits_value(d) <= 65535 {
        Some(digits_value(d) as u16)
    } else {
        None
    }
}

/// A digit string is worth at least as much as each of its prefixes.
proof fn lemma_digits_value_prefix(s: Seq<char>, k: int)
    requires
        all_digits(s),
        0 <= k <= s.len(),
    ensures
        digits_value(s.take(k)) <= digits_value(s),
    decreases s.len(),
{
    if k < s.len() {
        let t = s.drop_last();
        assert(all_digits(t));
        lemma_digits_value_prefix(t, k);
        assert(t.take(k) =~= s.take(k));
    } else {
        assert(s.take(k) =~= s);
    }
}

/// `str::parse::<u16>` on a character sequence.
pub fn parse_u16_chars(s: &Vec<char>) -> (r: Option<u16>)
    ensures
        r == parse_u16(s@),
{
    let start: usize = if s.len() > 0 && s[0] == '+' {
        1
    } else {
        0
    };
    let ghost d = s@.skip(start as int);
    assert(d =~= (if s@.len() > 0 && s@[0] == '+' {
        s@.drop_first()
    } else {
        s@
    }));
    if start == s.len() {
        return None;
    }
    let mut v: u32 = 0;
    let mut i: usize = start;
    assert(d.take(0) =~= Seq::<char>::empty());
    while i < s.len()
        invariant
            start <= i <= s.len(),
            d == s@.skip(start as int),
            d == (if s@.len() > 0 && s@[0] == '+' {
                s@.drop_first()
            } else {
                s@
            }),
            all_digits(d.take(i - start)),
            v == digits_value(d.take(i - start)),
            v <= 65535,
        decreases s.len() - i,
    {
        let c = s[i];
        if !('0' <= c && c <= '9') {
            assert(d[i - start] == c);
            assert(!is_digit(d[i - start]));
            assert(!all_digits(d));
            return None;
        }
        let nv = v * 10 + (c as u32 - 48);
        proof {
            let t = d.take(i - start + 1);
            assert(t.drop_last() =~= d.take(i - start));
            assert(t.last() == c);
            assert(all_digits(t));
        }
        if nv > 65535 {
            proof {
                if all_digits(d) {
                    lemma_digits_value_prefix(d, i - start + 1);
                    assert(digits_value(d) > 65535);
                }
            }
            return None;
        }
        v = nv;
        i = i + 1;
    }
    assert(d.take(i - start) =~= d);
    Some(v as u16)
}

/// `parse_port`: a trimmed decimal port number other than 0.
pub open spec fn spec_parse_port(value: Seq<char>) -> Result<u16, Seq<char>> {
    match parse_u16(trim(value)) {
        None => Err("invalid port: "@ + value),
        Some(p) => if p == 0 {
            Err("port 0 is not supported"@)
        } else {
            Ok(p)
        },
    }
}

/// The inclusive range that one non-empty item of a port specification names:
/// `a-b` (split at the first `-`) or a single port `p` as `(p, p)`.
pub open spec fn spec_item_range(item: Seq<char>) -> Result<(u16, u16), Seq<char>> {
    match char_index(item, '-') {
        Some(i) => match spec_parse_port(item.take(i)) {
            Err(e) => Err(e),
            Ok(a) => match spec_parse_port(item.skip(i + 1)) {
                Err(e) => Err(e),
                Ok(b) => if a > b {
                    Err("invalid descending port range: "@ + item)
                } else {
                    Ok((a, b))
                },
            },
        },
        None => match spec_parse_port(item) {
            Err(e) => Err(e),
            Ok(p) => Ok((p, p)),
        },
    }
}

/// The ranges named by the first `k` comma-separated pieces, or the first error.
pub open spec fn ranges_upto(pieces: Seq<Seq<char>>, k: int) -> Result<Seq<(u16, u16)>, Seq<char>>
    decreases k,
{
    if k <= 0 {
        Ok(seq![])
    } else {
        match ranges_upto(pieces, k - 1) {
            Err(e) => Err(e),
            Ok(rs) => {
                let item = trim(pieces[k - 1]);
                if item.len() == 0 {
                    Ok(rs)
                } else {
                    match spec_item_range(item) {
                        Err(e) => Err(e),
                        Ok(r) => Ok(rs.push(r)),
                    }
                }
            },
        }
    }
}

/// The ranges a whole specification names, or the first error in it.
pub open spec fn port_ranges(spec: Seq<char>) -> Result<Seq<(u16, u16)>, Seq<char>> {
    let pieces = split_on(spec, ',');
    ranges_upto(pieces, pieces.len() as int)
}

pub open spec fn in_ranges(rs: Seq<(u16, u16)>, p: u16) -> bool {
    exists|i: int| 0 <= i < rs.len() && #[trigger] rs[i].0 <= p && p <= rs[i].1
}

pub open spec fn strictly_increasing(s: Seq<u16>) -> bool {
    forall|i: int, j: int| 0 <= i < j < s.len() ==> s[i] < s[j]
}

fn parse_port(value: &Vec<char>) -> (r: Result<u16, Vec<char>>)
    ensures
        match r {
            Ok(p) => spec_parse_port(value@) == Ok::<u16, Seq<char>>(p),
            Err(e) => spec_parse_port(value@) == Err::<u16, Seq<char>>(e@),
        },
{
    let t = trim_chars(value);
    match parse_u16_chars(&t) {
        None => Err(concat(&chars_of("invalid port: "), value)),
        Some(p) => if p == 0 {
            Err(chars_of("port 0 is not supported"))
        } else {
            Ok(p)
        },
    }
}

fn item_range(item: &Vec<char>) -> (r: Result<(u16, u16), Vec<char>>)
    ensures
        match r {
            Ok(ab) => spec_item_range(item@) == Ok::<(u16, u16), Seq<char>>(ab),
            Err(e) => spec_item_range(item@) == Err::<(u16, u16), Seq<char>>(e@),
        },
{
    let dash = vec!['-'];
    assert(dash@ =~= seq!['-']);
    match find_from(item, &dash, 0) {
        Some(i) => {
            proof {
                lemma_find_at_some(item@, dash@, 0);
                assert(find_at(item@, dash@, 0) == Some(i as int));
                assert(i + 1 <= item@.len());
            }
            let n = item.len();
            let start = slice_of(item, 0, i);
            let end = slice_of(item, i + 1, n);
            assert(start@ =~= item@.take(i as int));
            assert(end@ =~= item@.skip(i + 1));
            let a = match parse_port(&start) {
                Ok(a) => a,
                Err(e) => return Err(e),
            };
            let b = match parse_port(&end) {
                Ok(b) => b,
                Err(e) => return Err(e),
            };
            if a > b {
                Err(concat(&chars_of("invalid descending port range: "), item))
            } else {
                Ok((a, b))
            }
        },
        None => match parse_port(item) {
            Ok(p) => Ok((p, p)),
            Err(e) => Err(e),
        },
    }
}

/// Parses a port specification into its ports, ascending and without repeats.
///
/// Items are separated by `,`, trimmed, and empty ones skipped; an item is a
/// port or an inclusive range `start-end`. Ports must lie in `1..=65535`.
pub fn parse_ports(spec: &str) -> (r: Result<Vec<u16>, String>)
    ensures
        match port_ranges(spec@) {
            Err(e) => r matches Err(m) && m@ == e,
            Ok(rs) => if rs.len() == 0 {
                r matches Err(m) && m@ == "at least one port is required"@
            } else {
                r matches Ok(v) && strictly_increasing(v@) && forall|p: u16|
                    v@.contains(p) <==> in_ranges(rs, p)
            },
        },
{
    let chars = chars_of(spec);
    let pieces = split_chars(&chars, ',');
    let mut ports: BTreeSet<u16> = BTreeSet::new();
    let ghost mut rs: Seq<(u16, u16)> = seq![];
    let mut any = false;
    let mut k: usize = 0;
    while k < pieces.len()
        invariant
            any == (rs.len() > 0),
            views(pieces@) == split_on(spec@, ','),
            k <= pieces.len(),
            ranges_upto(views(pieces@), k as int) == Ok::<Seq<(u16, u16)>, Seq<char>>(rs),
            forall|q: u16| #[trigger] ports@.contains(q) == in_ranges(rs, q),
            forall|i: int| 0 <= i < rs.len() ==> #[trigger] rs[i].0 <= rs[i].1,
        decreases pieces.len() - k,
    {
        let item = trim_chars(&pieces[k]);
        assert(views(pieces@)[k as int] == pieces@[k as int]@);
        if item.len() > 0 {
            match item_range(&item) {
                Err(e) => {
                    proof {
                        lemma_ranges_error_sticks(views(pieces@), k as int + 1, pieces.len() as int);
                    }
                    return Err(string_from_chars(&e));
                },
                Ok((a, b)) => {
                    let ghost old_rs = rs;
                    proof {
                        rs = rs.push((a, b));
                    }
                    any = true;
                    let mut p: u32 = a as u32;
                    while p <= b as u32
                        invariant
                            a <= b,
                            a <= p <= b as u32 + 1,
                            rs == old_rs.push((a, b)),
                            forall|q: u16| #[trigger] ports@.contains(q) == (in_ranges(old_rs, q) || (
                            a <= q < p)),
                        decreases b as u32 + 1 - p,
                    {
                        ports.insert(p as u16);
                        p = p + 1;
                    }
                    assert forall|q: u16| #[trigger] ports@.contains(q) == in_ranges(rs, q) by {
                        if in_ranges(old_rs, q) {
                            let i = choose|i: int| 0 <= i < old_rs.len() && #[trigger] old_rs[i].0 <= q && q <= old_rs[i].1;
                            assert(rs[i] == old_rs[i]);
                        }
                        if a <= q <= b {
                            assert(rs[old_rs.len() as int] == (a, b));
                        }
                        if in_ranges(rs, q) {
                            let i = choose|i: int| 0 <= i < rs.len() && #[trigger] rs[i].0 <= q && q <= rs[i].1;
                            if i < old_rs.len() {
                                assert(old_rs[i] == rs[i]);
                            }
                        }
                    }
                },
            }
        }
        k = k + 1;
    }
    assert(pieces@.len() == views(pieces@).len());
    if !any {
        return Err(string_from_chars(&chars_of("at least one port is required")));
    }
    let out = ascending_members(&ports);
    assert forall|x: u16| out@.contains(x) <==> in_ranges(rs, x) by {
        assert(ports@.contains(x) == in_ranges(rs, x));
    }
    Ok(out)
}

/// The members of a set of ports in ascending order (`BTreeSet::iter`).
fn ascending_members(ports: &BTreeSet<u16>) -> (r: Vec<u16>)
    ensures
        strictly_increasing(r@),
        forall|x: u16| r@.contains(x) <==> ports@.contains(x),
{
    let mut out: Vec<u16> = Vec::new();
    let ghost keys = vstd::std_specs::iter::IteratorSpec::remaining(
        &vstd::std_specs::btree::spec_btree_keys_iter(ports),
    );
    for p in it: ports.iter()
        invariant
            it.seq() == keys,
            out@ == it.seq().take(it.index() as int).map_values(|x: &u16| *x),
    {
        out.push(*p);
        proof {
            assert(out@ =~= it.seq().take(it.index() + 1).map_values(|x: &u16| *x));
        }
    }
    proof {
        assert(keys.take(keys.len() as int) =~= keys);
        assert(out@ =~= keys.unref());
        lemma_increasing_keys(keys);
        assert forall|i: int, j: int| 0 <= i < j < out@.len() implies out@[i] < out@[j] by {
            assert(out@[i] == *keys[i]);
            assert(out@[j] == *keys[j]);
        }
    }
    out
}

/// Keys that a `BTreeSet` yields in increasing order are ascending numbers.
proof fn lemma_increasing_keys(keys: Seq<&u16>)
    requires
        vstd::std_specs::btree::increasing_seq(keys),
    ensures
        forall|i: int, j: int| 0 <= i < j < keys.len() ==> *keys[i] < *keys[j],
{
    assert(vstd::laws_cmp::obeys_cmp::<u16>());
    assert(vstd::laws_cmp::obeys_cmp::<&u16>());
    assert forall|i: int, j: int| 0 <= i < j < keys.len() implies *keys[i] < *keys[j] by {
        assert(vstd::std_specs::cmp::OrdSpec::cmp_spec(&keys[i], &keys[j]) is Less);
        assert(vstd::std_specs::cmp::OrdSpec::cmp_spec(keys[i], keys[j]) is Less);
    }
}

/// Once a prefix of the pieces fails, every longer prefix fails the same way.
proof fn lemma_ranges_error_sticks(pieces: Seq<Seq<char>>, k: int, n: int)
    requires
        1 <= k <= n,
        ranges_upto(pieces, k) is Err,
    ensures
        ranges_upto(pieces, n) == ranges_upto(pieces, k),
    decreases n - k,
{
    if k < n {
        lemma_ranges_error_sticks(pieces, k, n - 1);
    }
}

} // verus!

verus! {

/// Whether one trimmed item of a specification covers `port`: a range
/// `start-end` (split at the first `-`, both sides trimmed) or a single port.
pub open spec fn item_contains(item: Seq<char>, port: u16) -> bool {
    match char_index(item, '-') {
        Some(i) => match (parse_u16(trim(item.take(i))), parse_u16(trim(item.skip(i + 1)))) {
            (Some(a), Some(b)) => a <= port && port <= b,
            _ => false,
        },
        None => parse_u16(item) == Some(port),
    }
}

pub open spec fn spec_port_spec_contains(spec: Seq<char>, port: u16) -> bool {
    let pieces = split_on(spec, ',');
    exists|i: int| 0 <= i < pieces.len() && #[trigger] item_contains(trim(pieces[i]), port)
}

/// Whether `port` is named by `spec`, as a port or inside a range; items
/// that do not parse cover nothing.
pub fn port_spec_contains(spec: &str, port: u16) -> (r: bool)
    ensures
        r == spec_port_spec_contains(spec@, port),
{
    let chars = chars_of(spec);
    let pieces = split_chars(&chars, ',');
    let dash = vec!['-'];
    assert(dash@ =~= seq!['-']);
    let mut k: usize = 0;
    while k < pieces.len()
        invariant
            views(pieces@) == split_on(spec@, ','),
            dash@ == seq!['-'],
            k <= pieces.len(),
            forall|i: int| 0 <= i < k ==> !#[trigger] item_contains(trim(views(pieces@)[i]), port),
        decreases pieces.len() - k,
    {
        let item = trim_chars(&pieces[k]);
        assert(views(pieces@)[k as int] == pieces@[k as int]@);
        let covered = match find_from(&item, &dash, 0) {
            Some(i) => {
                proof {
                    lemma_find_at_some(item@, dash@, 0);
                    assert(find_at(item@, dash@, 0) == Some(i as int));
                }
                let n = item.len();
                let start = trim_chars(&slice_of(&item, 0, i));
                let end = trim_chars(&slice_of(&item, i + 1, n));
                assert(item@.take(i as int) =~= item@.subrange(0, i as int));
                assert(item@.skip(i + 1) =~= item@.subrange(i + 1, n as int));
                match (parse_u16_chars(&start), parse_u16_chars(&end)) {
                    (Some(a), Some(b)) => a <= port && port <= b,
                    _ => false,
                }
            },
            None => parse_u16_chars(&item) == Some(port),
        };
        if covered {
            assert(item_contains(trim(views(pieces@)[k as int]), port));
            return true;
        }
        k = k + 1;
    }
    false
}

/// Items up to `k` that parse into ranges cover exactly the ports those ranges hold.
proof fn lemma_ranges_cover(pieces: Seq<Seq<char>>, k: int, p: u16)
    requires
        0 <= k <= pieces.len(),
        ranges_upto(pieces, k) is Ok,
    ensures
        ranges_upto(pieces, k) matches Ok(rs) && (in_ranges(rs, p) <==> exists|i: int|
            0 <= i < k && #[trigger] item_contains(trim(pieces[i]), p)),
        ranges_upto(pieces, k) matches Ok(rs) && (in_ranges(rs, p) ==> p >= 1),
    decreases k,
{
    if k > 0 {
        lemma_ranges_cover(pieces, k - 1, p);
        let rs0 = ranges_upto(pieces, k - 1)->Ok_0;
        let item = trim(pieces[k - 1]);
        lemma_trim_idempotent(pieces[k - 1]);
        let rs = ranges_upto(pieces, k)->Ok_0;
        if item.len() == 0 {
            assert(rs == rs0);
            assert(item =~= Seq::<char>::empty());
            assert(char_index(item, '-') is None);
            assert(!item_contains(item, p));
            if exists|i: int| 0 <= i < k && #[trigger] item_contains(trim(pieces[i]), p) {
                let i = choose|i: int| 0 <= i < k && #[trigger] item_contains(trim(pieces[i]), p);
                assert(i < k - 1);
            }
        } else {
            let r = spec_item_range(item)->Ok_0;
            assert(rs == rs0.push(r));
            assert(r.0 >= 1 && r.0 <= r.1);
            assert(item_contains(item, p) <==> (r.0 <= p && p <= r.1));
            if in_ranges(rs, p) {
                let j = choose|j: int| 0 <= j < rs.len() && #[trigger] rs[j].0 <= p && p <= rs[j].1;
                if j < rs0.len() {
                    assert(rs0[j] == rs[j]);
                    assert(in_ranges(rs0, p));
                } else {
                    assert(item_contains(trim(pieces[k - 1]), p));
                }
            }
            if exists|i: int| 0 <= i < k && #[trigger] item_contains(trim(pieces[i]), p) {
                let i = choose|i: int| 0 <= i < k && #[trigger] item_contains(trim(pieces[i]), p);
                if i < k - 1 {
                    let j = choose|j: int| 0 <= j < rs0.len() && #[trigger] rs0[j].0 <= p && p <= rs0[j].1;
                    assert(rs[j] == rs0[j]);
                } else {
                    assert(rs[rs0.len() as int] == r);
                }
            }
            if in_ranges(rs0, p) {
                let j = choose|j: int| 0 <= j < rs0.len() && #[trigger] rs0[j].0 <= p && p <= rs0[j].1;
                assert(rs[j] == rs0[j]);
            }
        }
    }
}

/// When a specification parses, the ports `parse_ports` lists are exactly
/// those `port_spec_contains` accepts for it, and none of them is 0.
pub proof fn law_parsed_ports_match_contains(spec: Seq<char>, p: u16)
    requires
        port_ranges(spec) is Ok,
    ensures
        port_ranges(spec) matches Ok(rs) && (in_ranges(rs, p) <==> spec_port_spec_contains(spec, p)),
        port_ranges(spec) matches Ok(rs) && (in_ranges(rs, p) ==> p >= 1),
{
    let pieces = split_on(spec, ',');
    lemma_ranges_cover(pieces, pieces.len() as int, p);
}

} // verus!

verus! {

/// `<u8 as FromStr>::from_str`: an optional `+`, then one or more ASCII
/// digits whose value is at most `u8::MAX`.
pub open spec fn parse_u8(s: Seq<char>) -> Option<u8> {
    let d = if s.len() > 0 && s[0] == '+' {
        s.drop_first()
    } else {
        s
    };
    if d.len() > 0 && all_digits(d) && digits_value(d) <= 255 {
        Some(digits_value(d) as u8)
    } else {
        None
    }
}

/// `str::parse::<u8>` on a character sequence.
pub fn parse_u8_chars(s: &Vec<char>) -> (r: Option<u8>)
    ensures
        r == parse_u8(s@),
{
    match parse_u16_chars(s) {
        Some(v) => if v <= 255 {
            Some(v as u8)
        } else {
            None
        },
        None => None,
    }
}

} // verus!

verus! {

/// Two ascending lists without repeats that hold the same ports are equal.
proof fn lemma_ascending_unique(v1: Seq<u16>, v2: Seq<u16>)
    requires
        strictly_increasing(v1),
        strictly_increasing(v2),
        forall|p: u16| v1.contains(p) <==> v2.contains(p),
    ensures
        v1 == v2,
    decreases v1.len(),
{
    if v1.len() > 0 && v2.len() > 0 {
        let a = v1[0];
        let b = v2[0];
        assert(v1.contains(a));
        assert(v2.contains(b));
        let i = choose|i: int| 0 <= i < v2.len() && v2[i] == a;
        let j = choose|j: int| 0 <= j < v1.len() && v1[j] == b;
        assert(a == b) by {
            if a < b {
                assert(i > 0 ==> v2[0] < v2[i]);
            } else if b < a {
                assert(j > 0 ==> v1[0] < v1[j]);
            }
        }
        let t1 = v1.drop_first();
        let t2 = v2.drop_first();
        assert forall|p: u16| t1.contains(p) <==> t2.contains(p) by {
            if t1.contains(p) {
                let k = choose|k: int| 0 <= k < t1.len() && t1[k] == p;
                assert(v1[k + 1] == p);
                assert(v1.contains(p));
                let m = choose|m: int| 0 <= m < v2.len() && v2[m] == p;
                assert(m != 0);
                assert(t2[m - 1] == p);
            }
            if t2.contains(p) {
                let k = choose|k: int| 0 <= k < t2.len() && t2[k] == p;
                assert(v2[k + 1] == p);
                assert(v2.contains(p));
                let m = choose|m: int| 0 <= m < v1.len() && v1[m] == p;
                assert(m != 0);
                assert(t1[m - 1] == p);
            }
        }
        lemma_ascending_unique(t1, t2);
        assert(v1 =~= seq![a] + t1);
        assert(v2 =~= seq![b] + t2);
    } else if v1.len() > 0 {
        assert(v1.contains(v1[0]));
    } else if v2.len() > 0 {
        assert(v2.contains(v2[0]));
    } else {
        assert(v1 =~= v2);
    }
}

/// A parsed port list is canonical: any two ascending lists without repeats
/// that hold exactly the ports a specification's ranges cover are the same
/// list, so `parse_ports` yields one list per set of ports.
pub proof fn law_port_lists_are_canonical(rs: Seq<(u16, u16)>, v1: Seq<u16>, v2: Seq<u16>)
    requires
        strictly_increasing(v1),
        strictly_increasing(v2),
        forall|p: u16| v1.contains(p) <==> in_ranges(rs, p),
        forall|p: u16| v2.contains(p) <==> in_ranges(rs, p),
    ensures
        v1 == v2,
{
    lemma_ascending_unique(v1, v2);
}

/// An item that is blank, or names a valid port or range.
pub open spec fn item_ok(item: Seq<char>) -> bool {
    item.len() == 0 || spec_item_range(item) is Ok
}

proof fn lemma_ranges_ok(pieces: Seq<Seq<char>>, k: int)
    requires
        0 <= k <= pieces.len(),
    ensures
        ranges_upto(pieces, k) is Ok <==> forall|i: int| 0 <= i < k ==> item_ok(#[trigger] trim(pieces[i])),
        ranges_upto(pieces, k) matches Ok(rs) ==> (rs.len() == 0 <==> forall|i: int|
            0 <= i < k ==> #[trigger] trim(pieces[i]).len() == 0),
    decreases k,
{
    if k > 0 {
        lemma_ranges_ok(pieces, k - 1);
        if ranges_upto(pieces, k - 1) is Err {
            assert(!item_ok(trim(pieces[choose|i: int| 0 <= i < k - 1 && !item_ok(#[trigger] trim(pieces[i]))])));
        }
    }
}

/// The order of a specification's items does not matter, nor does
/// repeating them: two specifications with the same items (after
/// trimming) name the same ports, and if one parses so does the other.
pub proof fn law_item_order_does_not_matter(s1: Seq<char>, s2: Seq<char>)
    requires
        port_ranges(s1) is Ok,
        forall|i: int|
            0 <= i < split_on(s1, ',').len() ==> exists|j: int|
                0 <= j < split_on(s2, ',').len() && #[trigger] trim(split_on(s1, ',')[i]) == trim(
                    #[trigger] split_on(s2, ',')[j],
                ),
        forall|j: int|
            0 <= j < split_on(s2, ',').len() ==> exists|i: int|
                0 <= i < split_on(s1, ',').len() && #[trigger] trim(split_on(s1, ',')[i]) == trim(
                    #[trigger] split_on(s2, ',')[j],
                ),
    ensures
        port_ranges(s2) is Ok,
        (port_ranges(s1)->Ok_0.len() == 0) <==> (port_ranges(s2)->Ok_0.len() == 0),
        forall|p: u16| in_ranges(port_ranges(s1)->Ok_0, p) <==> in_ranges(port_ranges(s2)->Ok_0, p),
{
    let p1 = split_on(s1, ',');
    let p2 = split_on(s2, ',');
    lemma_ranges_ok(p1, p1.len() as int);
    lemma_ranges_ok(p2, p2.len() as int);
    assert forall|j: int| 0 <= j < p2.len() implies item_ok(#[trigger] trim(p2[j])) by {
        let i = choose|i: int| 0 <= i < p1.len() && #[trigger] trim(p1[i]) == trim(p2[j]);
        assert(item_ok(trim(p1[i])));
    }
    let rs1 = port_ranges(s1)->Ok_0;
    let rs2 = port_ranges(s2)->Ok_0;
    if rs1.len() == 0 {
        assert forall|j: int| 0 <= j < p2.len() implies #[trigger] trim(p2[j]).len() == 0 by {
            let i = choose|i: int| 0 <= i < p1.len() && #[trigger] trim(p1[i]) == trim(p2[j]);
            assert(trim(p1[i]).len() == 0);
        }
    }
    if rs2.len() == 0 {
        assert forall|i: int| 0 <= i < p1.len() implies #[trigger] trim(p1[i]).len() == 0 by {
            let j = choose|j: int| 0 <= j < p2.len() && trim(p1[i]) == #[trigger] trim(p2[j]);
            assert(trim(p2[j]).len() == 0);
        }
    }
    assert forall|p: u16| in_ranges(rs1, p) <==> in_ranges(rs2, p) by {
        lemma_ranges_cover(p1, p1.len() as int, p);
        lemma_ranges_cover(p2, p2.len() as int, p);
        if in_ranges(rs1, p) {
            let i = choose|i: int| 0 <= i < p1.len() && #[trigger] item_contains(trim(p1[i]), p);
            let j = choose|j: int| 0 <= j < p2.len() && trim(p1[i]) == #[trigger] trim(p2[j]);
            assert(item_contains(trim(p2[j]), p));
        }
        if in_ranges(rs2, p) {
            let j = choose|j: int| 0 <= j < p2.len() && #[trigger] item_contains(trim(p2[j]), p);
            let i = choose|i: int| 0 <= i < p1.len() && #[trigger] trim(p1[i]) == trim(p2[j]);
            assert(item_contains(trim(p1[i]), p));
        }
    }
}

} // verus!

verus! {

/// The decimal rendering of a number is a non-empty run of digits worth that number.
proof fn lemma_decimal_digits(n: nat)
    ensures
        decimal(n).len() > 0,
        all_digits(decimal(n)),
        digits_value(decimal(n)) == n,
    decreases n,
{
    if n >= 10 {
        lemma_decimal_digits(n / 10);
        let d = decimal(n);
        assert(d.drop_last() =~= decimal(n / 10));
        assert(d.last() == digit_char(n % 10));
        assert(digit_char(n % 10) as int == n % 10 + 48);
        assert((n / 10) * 10 + n % 10 == n);
        assert(digits_value(d) == digits_value(d.drop_last()) * 10 + ((d.last() as int - 48) as nat));
        assert forall|i: int| 0 <= i < d.len() implies is_digit(#[trigger] d[i]) by {
            if i < d.len() - 1 {
                assert(d[i] == decimal(n / 10)[i]);
            }
        }
    } else {
        let d = decimal(n);
        assert(digit_char(n) as int == n + 48);
        assert(d.drop_last() =~= Seq::<char>::empty());
        assert(digits_value(d) == digits_value(d.drop_last()) * 10 + ((d.last() as int - 48) as nat));
    }
}

/// A port written in decimal is one port item.
proof fn lemma_decimal_port(p: u16)
    requires
        p >= 1,
    ensures
        ({
            let d = decimal(p as nat);
            &&& trim(d) == d
            &&& char_index(d, '-') is None
            &&& forall|j: int| 0 <= j < d.len() ==> #[trigger] d[j] != ','
            &&& spec_item_range(d) == Ok::<(u16, u16), Seq<char>>((p, p))
            &&& forall|q: u16| item_contains(d, q) <==> q == p
        }),
{
    let d = decimal(p as nat);
    lemma_decimal_digits(p as nat);
    assert forall|j: int| 0 <= j < d.len() implies #[trigger] d[j] != ',' && d[j] != '-' && !is_ws(d[j]) && d[j] != '+' by {
        assert(is_digit(d[j]));
    }
    assert(trim_start(d) == d);
    assert(trim_end(d) == d);
    lemma_char_absent(d, '-');
    assert(parse_u16(d) == Some(p));
}

/// The comma-separated decimal text of a list of ports.
pub open spec fn port_list_text(v: Seq<u16>) -> Seq<char> {
    join(v.map_values(|p: u16| decimal(p as nat)), seq![','])
}

/// Writing non-zero ports as decimal numbers separated by commas gives a
/// specification that parses and names exactly those ports; for an
/// ascending list without repeats, `parse_ports` therefore gives the list
/// back (see `law_port_lists_are_canonical`).
pub proof fn law_port_list_text_round_trip(v: Seq<u16>)
    requires
        v.len() > 0,
        forall|i: int| 0 <= i < v.len() ==> #[trigger] v[i] >= 1,
    ensures
        port_ranges(port_list_text(v)) matches Ok(rs) && rs.len() > 0 && forall|p: u16|
            in_ranges(rs, p) <==> v.contains(p),
{
    let parts = v.map_values(|p: u16| decimal(p as nat));
    assert forall|i: int| 0 <= i < parts.len() implies parts[i] == decimal(v[i] as nat) by {}
    assert forall|i: int, j: int| 0 <= i < parts.len() && 0 <= j < parts[i].len() implies #[trigger] parts[i][j]
        != ',' by {
        lemma_decimal_port(v[i]);
    }
    lemma_split_join(parts, ',');
    let pieces = split_on(port_list_text(v), ',');
    assert(pieces == parts);
    lemma_ranges_ok(pieces, pieces.len() as int);
    assert forall|i: int| 0 <= i < pieces.len() implies item_ok(#[trigger] trim(pieces[i])) by {
        lemma_decimal_port(v[i]);
    }
    lemma_decimal_port(v[0]);
    assert(trim(pieces[0]).len() != 0);
    let rs = port_ranges(port_list_text(v))->Ok_0;
    assert forall|p: u16| in_ranges(rs, p) <==> v.contains(p) by {
        lemma_ranges_cover(pieces, pieces.len() as int, p);
        if in_ranges(rs, p) {
            let i = choose|i: int| 0 <= i < pieces.len() && #[trigger] item_contains(trim(pieces[i]), p);
            lemma_decimal_port(v[i]);
            assert(v[i] == p);
        }
        if v.contains(p) {
            let i = choose|i: int| 0 <= i < v.len() && v[i] == p;
            lemma_decimal_port(v[i]);
            assert(item_contains(trim(pieces[i]), p));
        }
    }
}

} // verus!
