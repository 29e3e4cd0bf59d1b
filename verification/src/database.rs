//! The `nmap-service-probes` database format: `Probe` lines, the `match` and
//! `softmatch` lines that follow them, and their directives.
use crate::probe::{
    MatchRule, MatchRuleView, NmapProbe, NmapProbeView, VersionInfo, VersionInfoView,
};
use crate::text::{
    append, find_at, lemma_find_at_some, lemma_find_ws_at_bounds, replace, replace_chars, slice_of, string_from_chars,
    views,
};
use vstd::prelude::*;

verus! {

/// The first position at or after `i` of `d` that is not escaped by a
/// backslash (a backslash escapes the character after it).
pub open spec fn unescaped_at(s: Seq<char>, d: char, i: int, escaped: bool) -> Option<int>
    decreases s.len() - i,
{
    if i < 0 || i >= s.len() {
        None
    } else if escaped {
        unescaped_at(s, d, i + 1, false)
    } else if s[i] == '\\' {
        unescaped_at(s, d, i + 1, true)
    } else if s[i] == d {
        Some(i)
    } else {
        unescaped_at(s, d, i + 1, false)
    }
}

/// `find_unescaped`: the first unescaped `d` in `s`.
pub open spec fn spec_find_unescaped(s: Seq<char>, d: char) -> Option<int> {
    unescaped_at(s, d, 0, false)
}

pub proof fn lemma_unescaped_at_bounds(s: Seq<char>, d: char, i: int, escaped: bool)
    ensures
        unescaped_at(s, d, i, escaped) matches Some(k) ==> i <= k < s.len() && 0 <= k && s[k]
            == d,
    decreases s.len() - i,
{
    if !(i < 0 || i >= s.len()) {
        lemma_unescaped_at_bounds(s, d, i + 1, false);
        lemma_unescaped_at_bounds(s, d, i + 1, true);
    }
}

/// The first unescaped `delimiter` in `text` at or after `from`.
pub fn find_unescaped(text: &Vec<char>, from: usize, delimiter: char) -> (r: Option<usize>)
    ensures
        as_opt(r) == unescaped_at(text@, delimiter, from as int, false),
{
    let mut escaped = false;
    let mut i = from;
    while i < text.len()
        invariant
            from <= i,
            unescaped_at(text@, delimiter, from as int, false) == unescaped_at(
                text@,
                delimiter,
                i as int,
                escaped,
            ),
        decreases text.len() - i,
    {
        let c = text[i];
        if escaped {
            escaped = false;
        } else if c == '\\' {
            escaped = true;
        } else if c == delimiter {
            return Some(i);
        }
        i = i + 1;
    }
    None
}

pub open spec fn as_opt(o: Option<usize>) -> Option<int> {
    match o {
        Some(k) => Some(k as int),
        None => None,
    }
}

/// `unescape_delimiter`: every `\d` becomes `d`.
pub open spec fn spec_unescape(text: Seq<char>, d: char) -> Seq<char> {
    replace(text, seq!['\\', d], seq![d])
}

fn unescape_delimiter(text: &Vec<char>, delimiter: char) -> (r: Vec<char>)
    ensures
        r@ == spec_unescape(text@, delimiter),
{
    let pat = vec!['\\', delimiter];
    let rep = vec![delimiter];
    assert(pat@ =~= seq!['\\', delimiter]);
    assert(rep@ =~= seq![delimiter]);
    replace_chars(text, &pat, &rep)
}

/// The values of the `marker…/` fields in `text` from `offset` on. A marker
/// counts only at the start or after whitespace; a value ends at the next
/// unescaped `/` and has its `\/` unescaped; a value without its closing
/// `/` ends the scan.
pub open spec fn fields_from(text: Seq<char>, marker: Seq<char>, offset: int) -> Seq<Seq<char>>
    decreases text.len() + 1 - offset,
{
    if offset < 0 || offset >= text.len() || marker.len() == 0 {
        seq![]
    } else {
        match find_at(text, marker, offset) {
            None => seq![],
            Some(ms) => {
                proof {
                    lemma_find_at_some(text, marker, offset);
                }
                let vs = ms + marker.len();
                if ms > 0 && !crate::text::is_ws(text[ms - 1]) {
                    fields_from(text, marker, vs)
                } else {
                    match unescaped_at(text, '/', vs, false) {
                        None => seq![],
                        Some(ve) => {
                            proof {
                                lemma_unescaped_at_bounds(text, '/', vs, false);
                            }
                            seq![spec_unescape(text.subrange(vs, ve), '/')] + fields_from(
                                text,
                                marker,
                                ve + 1,
                            )
                        },
                    }
                }
            },
        }
    }
}

/// `all_fields`: every `marker…/` value in `text`, in order.
pub open spec fn spec_all_fields(text: Seq<char>, marker: Seq<char>) -> Seq<Seq<char>> {
    fields_from(text, marker, 0)
}

fn all_fields(text: &Vec<char>, marker: &Vec<char>) -> (r: Vec<Vec<char>>)
    requires
        marker.len() > 0,
    ensures
        views(r@) == spec_all_fields(text@, marker@),
{
    let mut fields: Vec<Vec<char>> = Vec::new();
    let mut offset: usize = 0;
    assert(views(fields@) =~= Seq::<Seq<char>>::empty());
    while offset < text.len()
        invariant
            marker.len() > 0,
            offset <= text.len(),
            spec_all_fields(text@, marker@) == views(fields@) + fields_from(
                text@,
                marker@,
                offset as int,
            ),
        ensures
            spec_all_fields(text@, marker@) == views(fields@),
        decreases text.len() - offset,
    {
        let ghost before = fields@;
        let marker_start = match crate::text::find_from(text, marker, offset) {
            Some(k) => k,
            None => {
                assert(fields_from(text@, marker@, offset as int) == Seq::<Seq<char>>::empty());
                break;
            },
        };
        proof {
            lemma_find_at_some(text@, marker@, offset as int);
        }
        let value_start = marker_start + marker.len();
        if marker_start > 0 && !crate::text::is_whitespace(text[marker_start - 1]) {
            offset = value_start;
            continue;
        }
        let value_end = match find_unescaped(text, value_start, '/') {
            Some(k) => k,
            None => {
                assert(fields_from(text@, marker@, offset as int) == Seq::<Seq<char>>::empty());
                break;
            },
        };
        proof {
            lemma_unescaped_at_bounds(text@, '/', value_start as int, false);
        }
        let value = unescape_delimiter(&slice_of(text, value_start, value_end), '/');
        fields.push(value);
        proof {
            let rest = fields_from(text@, marker@, value_end + 1);
            assert(views(fields@) =~= views(before).push(value@));
            assert(views(before) + (seq![value@] + rest) =~= views(fields@) + rest);
        }
        offset = value_end + 1;
    }
    fields
}

} // verus!

verus! {

/// The first `marker…/` value, or the empty text when there is none.
pub open spec fn first_field_or_empty(text: Seq<char>, marker: Seq<char>) -> Seq<char> {
    let f = spec_all_fields(text, marker);
    if f.len() > 0 {
        f[0]
    } else {
        seq![]
    }
}

/// `parse_version_info`: the first `p/ v/ i/ h/ o/ d/` values and every
/// `cpe:/` value (which keeps its `cpe:/` prefix).
pub open spec fn spec_version_info(text: Seq<char>) -> VersionInfoView {
    VersionInfoView {
        vendorproductname: first_field_or_empty(text, "p/"@),
        version: first_field_or_empty(text, "v/"@),
        info: first_field_or_empty(text, "i/"@),
        hostname: first_field_or_empty(text, "h/"@),
        operatingsystem: first_field_or_empty(text, "o/"@),
        devicetype: first_field_or_empty(text, "d/"@),
        cpename: spec_all_fields(text, "cpe:/"@).map_values(|v: Seq<char>| "cpe:/"@ + v),
    }
}

fn first_field(text: &Vec<char>, marker: &str) -> (r: Option<Vec<char>>)
    requires
        marker@.len() > 0,
    ensures
        match r {
            Some(v) => spec_all_fields(text@, marker@).len() > 0 && v@ == spec_all_fields(
                text@,
                marker@,
            )[0],
            None => spec_all_fields(text@, marker@).len() == 0,
        },
{
    let m = crate::text::chars_of(marker);
    let mut fields = all_fields(text, &m);
    if fields.len() == 0 {
        None
    } else {
        assert(views(fields@)[0] == fields@[0]@);
        Some(fields.swap_remove(0))
    }
}

fn first_field_string(text: &Vec<char>, marker: &str) -> (r: String)
    requires
        marker@.len() > 0,
    ensures
        r@ == first_field_or_empty(text@, marker@),
{
    match first_field(text, marker) {
        Some(v) => string_from_chars(v.as_slice()),
        None => String::new(),
    }
}

fn parse_version_info(text: &Vec<char>) -> (r: VersionInfo)
    ensures
        r@ == spec_version_info(text@),
{
    proof {
        reveal_strlit("p/");
        reveal_strlit("v/");
        reveal_strlit("i/");
        reveal_strlit("h/");
        reveal_strlit("o/");
        reveal_strlit("d/");
        reveal_strlit("cpe:/");
    }
    let prefix = crate::text::chars_of("cpe:/");
    let values = all_fields(text, &prefix);
    let ghost want = spec_all_fields(text@, "cpe:/"@).map_values(|v: Seq<char>| "cpe:/"@ + v);
    let mut cpename: Vec<String> = Vec::new();
    let mut i: usize = 0;
    while i < values.len()
        invariant
            i <= values.len(),
            prefix@ == "cpe:/"@,
            views(values@) == spec_all_fields(text@, "cpe:/"@),
            want == spec_all_fields(text@, "cpe:/"@).map_values(|v: Seq<char>| "cpe:/"@ + v),
            crate::text::string_views(cpename@) == want.take(i as int),
        decreases values.len() - i,
    {
        let mut item = slice_of(&prefix, 0, prefix.len());
        append(&mut item, &values[i]);
        let s = string_from_chars(item.as_slice());
        let ghost before = cpename@;
        cpename.push(s);
        proof {
            assert(prefix@.subrange(0, prefix@.len() as int) =~= prefix@);
            assert(views(values@)[i as int] == values@[i as int]@);
            assert(crate::text::string_views(before).len() == before.len());
            assert forall|j: int| 0 <= j < i + 1 implies crate::text::string_views(cpename@)[j]
                == want.take(i + 1)[j] by {
                if j < i {
                    assert(cpename@[j] == before[j]);
                    assert(want.take(i as int)[j] == want.take(i + 1)[j]);
                }
            }
            assert(crate::text::string_views(cpename@) =~= want.take(i + 1));
        }
        i = i + 1;
    }
    assert(want.take(values.len() as int) =~= want);
    VersionInfo {
        vendorproductname: first_field_string(text, "p/"),
        version: first_field_string(text, "v/"),
        info: first_field_string(text, "i/"),
        hostname: first_field_string(text, "h/"),
        operatingsystem: first_field_string(text, "o/"),
        devicetype: first_field_string(text, "d/"),
        cpename,
    }
}

} // verus!

verus! {

/// The value of a hexadecimal digit (`char::to_digit(16)`).
pub open spec fn hex_value(c: char) -> Option<nat> {
    if '0' <= c && c <= '9' {
        Some((c as int - 48) as nat)
    } else if 'a' <= c && c <= 'f' {
        Some((c as int - 87) as nat)
    } else if 'A' <= c && c <= 'F' {
        Some((c as int - 55) as nat)
    } else {
        None
    }
}

/// `u8::from_str_radix` on the two characters of a `\x` escape: an optional
/// `+` sign, then hexadecimal digits.
pub open spec fn hex_escape(high: char, low: char) -> Option<u8> {
    if high == '+' {
        match hex_value(low) {
            Some(v) => Some(v as u8),
            None => None,
        }
    } else {
        match (hex_value(high), hex_value(low)) {
            (Some(a), Some(b)) => Some((a * 16 + b) as u8),
            _ => None,
        }
    }
}

/// The byte a one-letter escape stands for: `\0 \a \b \f \n \r \t \v`.
pub open spec fn simple_escape(c: char) -> Option<u8> {
    if c == '0' {
        Some(0u8)
    } else if c == 'a' {
        Some(7u8)
    } else if c == 'b' {
        Some(8u8)
    } else if c == 'f' {
        Some(12u8)
    } else if c == 'n' {
        Some(10u8)
    } else if c == 'r' {
        Some(13u8)
    } else if c == 't' {
        Some(9u8)
    } else if c == 'v' {
        Some(11u8)
    } else {
        None
    }
}

/// The bytes of a probe payload from position `i` on: characters stand for
/// their UTF-8 encoding, `\xHH` for one byte, one-letter escapes for their
/// control byte, and any other escaped character for itself. The first
/// malformed escape is the error.
pub open spec fn decode_payload_from(s: Seq<char>, i: int) -> Result<Seq<u8>, Seq<char>>
    decreases s.len() - i,
{
    if i < 0 || i >= s.len() {
        Ok(seq![])
    } else if s[i] != '\\' {
        prepend(vstd::utf8::encode_scalar(s[i] as u32), decode_payload_from(s, i + 1))
    } else if i + 1 >= s.len() {
        Err("incomplete escape sequence"@)
    } else if s[i + 1] == 'x' {
        if i + 3 >= s.len() {
            Err("incomplete hex escape"@)
        } else {
            match hex_escape(s[i + 2], s[i + 3]) {
                Some(b) => prepend(seq![b], decode_payload_from(s, i + 4)),
                None => Err("invalid hex escape"@),
            }
        }
    } else {
        match simple_escape(s[i + 1]) {
            Some(b) => prepend(seq![b], decode_payload_from(s, i + 2)),
            None => prepend(vstd::utf8::encode_scalar(s[i + 1] as u32), decode_payload_from(s, i + 2)),
        }
    }
}

/// `h` in front of a successful decoding; errors pass through.
pub open spec fn prepend(h: Seq<u8>, r: Result<Seq<u8>, Seq<char>>) -> Result<Seq<u8>, Seq<char>> {
    match r {
        Ok(rest) => Ok(h + rest),
        Err(e) => Err(e),
    }
}

/// The decoding of a whole probe payload.
pub open spec fn spec_decode_payload(s: Seq<char>) -> Result<Seq<u8>, Seq<char>> {
    decode_payload_from(s, 0)
}

/// The UTF-8 encoding of one character.
fn push_utf8(out: &mut Vec<u8>, c: char)
    ensures
        final(out)@ == old(out)@ + vstd::utf8::encode_scalar(c as u32),
{
    let scalar = c as u32;
    let ghost before = out@;
    if scalar <= 0x7F {
        out.push((scalar & 0x7F) as u8);
    } else if scalar <= 0x7FF {
        out.push(0xC0 | ((scalar >> 6) & 0x1F) as u8);
        out.push(0x80 | (scalar & 0x3F) as u8);
    } else if scalar <= 0xFFFF && !(0xD800 <= scalar && scalar <= 0xDFFF) {
        out.push(0xE0 | ((scalar >> 12) & 0x0F) as u8);
        out.push(0x80 | ((scalar >> 6) & 0x3F) as u8);
        out.push(0x80 | (scalar & 0x3F) as u8);
    } else {
        out.push(0xF0 | ((scalar >> 18) & 0x7) as u8);
        out.push(0x80 | ((scalar >> 12) & 0x3F) as u8);
        out.push(0x80 | ((scalar >> 6) & 0x3F) as u8);
        out.push(0x80 | (scalar & 0x3F) as u8);
    }
    assert(out@ =~= before + vstd::utf8::encode_scalar(c as u32));
}

fn hex_digit(c: char) -> (r: Option<u8>)
    ensures
        match r {
            Some(v) => hex_value(c) == Some(v as nat),
            None => hex_value(c) is None,
        },
{
    if '0' <= c && c <= '9' {
        Some((c as u32 - 48) as u8)
    } else if 'a' <= c && c <= 'f' {
        Some((c as u32 - 87) as u8)
    } else if 'A' <= c && c <= 'F' {
        Some((c as u32 - 55) as u8)
    } else {
        None
    }
}

fn hex_byte(high: char, low: char) -> (r: Option<u8>)
    ensures
        r == hex_escape(high, low),
{
    if high == '+' {
        hex_digit(low)
    } else {
        match (hex_digit(high), hex_digit(low)) {
            (Some(a), Some(b)) => Some(a * 16 + b),
            _ => None,
        }
    }
}

fn escape_byte(c: char) -> (r: Option<u8>)
    ensures
        r == simple_escape(c),
{
    if c == '0' {
        Some(0)
    } else if c == 'a' {
        Some(7)
    } else if c == 'b' {
        Some(8)
    } else if c == 'f' {
        Some(12)
    } else if c == 'n' {
        Some(10)
    } else if c == 'r' {
        Some(13)
    } else if c == 't' {
        Some(9)
    } else if c == 'v' {
        Some(11)
    } else {
        None
    }
}

/// Decodes a probe payload's escapes into its bytes.
fn decode_probe_string(value: &Vec<char>) -> (r: Result<Vec<u8>, Vec<char>>)
    ensures
        match r {
            Ok(b) => spec_decode_payload(value@) == Ok::<Seq<u8>, Seq<char>>(b@),
            Err(e) => spec_decode_payload(value@) == Err::<Seq<u8>, Seq<char>>(e@),
        },
{
    let mut output: Vec<u8> = Vec::new();
    let mut i: usize = 0;
    while i < value.len()
        invariant
            i <= value.len(),
            spec_decode_payload(value@) == prepend(output@, decode_payload_from(value@, i as int)),
        decreases value.len() - i,
    {
        let ghost before = output@;
        let ghost old_i = i as int;
        let ghost mut head: Seq<u8> = seq![];
        let c = value[i];
        if c != '\\' {
            push_utf8(&mut output, c);
            proof {
                head = vstd::utf8::encode_scalar(c as u32);
            }
            i = i + 1;
        } else {
            if value.len() - i <= 1 {
                return Err(crate::text::chars_of("incomplete escape sequence"));
            }
            let escaped = value[i + 1];
            if escaped == 'x' {
                if value.len() - i <= 3 {
                    return Err(crate::text::chars_of("incomplete hex escape"));
                }
                match hex_byte(value[i + 2], value[i + 3]) {
                    Some(b) => {
                        output.push(b);
                        proof {
                            head = seq![b];
                        }
                    },
                    None => return Err(crate::text::chars_of("invalid hex escape")),
                }
                i = i + 4;
            } else {
                match escape_byte(escaped) {
                    Some(b) => {
                        output.push(b);
                        proof {
                            head = seq![b];
                        }
                    },
                    None => {
                        push_utf8(&mut output, escaped);
                        proof {
                            head = vstd::utf8::encode_scalar(escaped as u32);
                        }
                    },
                }
                i = i + 2;
            }
        }
        proof {
            let h = head;
            assert(output@ =~= before + h);
            assert(decode_payload_from(value@, old_i) == prepend(h, decode_payload_from(value@, i as int)));
            match decode_payload_from(value@, i as int) {
                Ok(rest) => {
                    assert(before + (h + rest) =~= output@ + rest);
                },
                Err(e) => {},
            }
        }
    }
    Ok(output)
}

} // verus!

verus! {

/// `str::splitn(3, ' ')`: the first field, then the second and the rest
/// when there are further spaces.
pub open spec fn split3(s: Seq<char>) -> (Seq<char>, Option<Seq<char>>, Option<Seq<char>>) {
    match crate::text::char_index(s, ' ') {
        None => (s, None, None),
        Some(i) => {
            let t = s.skip(i + 1);
            match crate::text::char_index(t, ' ') {
                None => (s.take(i), Some(t), None),
                Some(j) => (s.take(i), Some(t.take(j)), Some(t.skip(j + 1))),
            }
        },
    }
}

/// `parse_probe_line`: `Probe <TCP|UDP> <name> q<d><payload><d>…`; the
/// probe carries its protocol, name and decoded payload, and nothing else.
pub open spec fn spec_parse_probe_line(line: Seq<char>) -> Result<NmapProbeView, Seq<char>> {
    match crate::text::strip_prefix(line, "Probe "@) {
        None => Err("missing Probe prefix"@),
        Some(rest) => {
            let (protocol, name, quoted) = split3(rest);
            if !(protocol == "TCP"@ || protocol == "UDP"@) {
                Err("probe protocol must be TCP or UDP"@)
            } else if !(name matches Some(n) && n.len() > 0) {
                Err("missing probe name"@)
            } else if !(quoted matches Some(q) && q.len() > 0 && q[0] == 'q') {
                Err("missing q-delimited probe payload"@)
            } else {
                let q = quoted->Some_0;
                if q.len() < 2 {
                    Err("missing probe payload delimiter"@)
                } else {
                    let payload = q.skip(2);
                    match spec_find_unescaped(payload, q[1]) {
                        None => Err("unterminated probe payload"@),
                        Some(e) => match spec_decode_payload(payload.take(e)) {
                            Err(x) => Err(x),
                            Ok(bytes) => Ok(
                                NmapProbeView {
                                    protocol,
                                    probename: name->Some_0,
                                    probestring: bytes,
                                    ..crate::probe::empty_probe()
                                },
                            ),
                        },
                    }
                }
            }
        },
    }
}

fn split_at_space(s: &Vec<char>) -> (r: Option<(Vec<char>, Vec<char>)>)
    ensures
        match r {
            None => crate::text::char_index(s@, ' ') is None,
            Some((a, b)) => crate::text::char_index(s@, ' ') matches Some(i) && a@ == s@.take(i)
                && b@ == s@.skip(i + 1),
        },
{
    let space = vec![' '];
    assert(space@ =~= seq![' ']);
    match crate::text::find_from(s, &space, 0) {
        None => None,
        Some(i) => {
            proof {
                lemma_find_at_some(s@, space@, 0);
            }
            let n = s.len();
            let a = slice_of(s, 0, i);
            let b = slice_of(s, i + 1, n);
            assert(a@ =~= s@.take(i as int));
            assert(b@ =~= s@.skip(i + 1));
            Some((a, b))
        },
    }
}

fn probe_line(line: &Vec<char>) -> (r: Result<NmapProbe, Vec<char>>)
    ensures
        match r {
            Ok(p) => spec_parse_probe_line(line@) == Ok::<NmapProbeView, Seq<char>>(p@),
            Err(e) => spec_parse_probe_line(line@) == Err::<NmapProbeView, Seq<char>>(e@),
        },
{
    let prefix = crate::text::chars_of("Probe ");
    if !crate::text::starts_with(line, &prefix) {
        return Err(crate::text::chars_of("missing Probe prefix"));
    }
    let rest = slice_of(line, prefix.len(), line.len());
    assert(rest@ =~= line@.skip(prefix@.len() as int));
    let ghost parts = split3(rest@);
    let (protocol, name, quoted) = match split_at_space(&rest) {
        None => (rest, None, None),
        Some((a, t)) => match split_at_space(&t) {
            None => (a, Some(t), None),
            Some((b, q)) => (a, Some(b), Some(q)),
        },
    };
    assert(protocol@ == parts.0);
    if !(crate::text::chars_eq(&protocol, &crate::text::chars_of("TCP"))
        || crate::text::chars_eq(&protocol, &crate::text::chars_of("UDP"))) {
        return Err(crate::text::chars_of("probe protocol must be TCP or UDP"));
    }
    let name = match name {
        Some(n) => if n.len() > 0 {
            n
        } else {
            return Err(crate::text::chars_of("missing probe name"));
        },
        None => return Err(crate::text::chars_of("missing probe name")),
    };
    let quoted = match quoted {
        Some(q) => if q.len() > 0 && q[0] == 'q' {
            q
        } else {
            return Err(crate::text::chars_of("missing q-delimited probe payload"));
        },
        None => return Err(crate::text::chars_of("missing q-delimited probe payload")),
    };
    if quoted.len() < 2 {
        return Err(crate::text::chars_of("missing probe payload delimiter"));
    }
    let delimiter = quoted[1];
    let payload = slice_of(&quoted, 2, quoted.len());
    assert(payload@ =~= quoted@.skip(2));
    let end = match find_unescaped(&payload, 0, delimiter) {
        Some(e) => e,
        None => return Err(crate::text::chars_of("unterminated probe payload")),
    };
    proof {
        lemma_unescaped_at_bounds(payload@, delimiter, 0, false);
    }
    let body = slice_of(&payload, 0, end);
    assert(body@ =~= payload@.take(end as int));
    let probestring = match decode_probe_string(&body) {
        Ok(b) => b,
        Err(e) => return Err(e),
    };
    let mut probe = NmapProbe::default();
    probe.protocol = string_from_chars(protocol.as_slice());
    probe.probename = string_from_chars(name.as_slice());
    probe.probestring = probestring;
    Ok(probe)
}

/// Parses one `Probe` line into a probe with its protocol, name and
/// decoded payload; the other fields stay empty.
pub fn parse_probe_line(line: &str) -> (r: Result<NmapProbe, String>)
    ensures
        match r {
            Ok(p) => spec_parse_probe_line(line@) == Ok::<NmapProbeView, Seq<char>>(p@),
            Err(e) => spec_parse_probe_line(line@) == Err::<NmapProbeView, Seq<char>>(e@),
        },
{
    let chars = crate::text::chars_of(line);
    match probe_line(&chars) {
        Ok(p) => Ok(p),
        Err(e) => Err(string_from_chars(e.as_slice())),
    }
}

} // verus!

verus! {

/// `parse_match_line`: `match|softmatch <service> m<d><pattern><d><flags> <version info>`.
/// The result says whether the rule is a `softmatch`.
pub open spec fn spec_parse_match_line(line: Seq<char>) -> Result<(MatchRuleView, bool), Seq<char>> {
    let (content, soft, known) = if crate::text::has_prefix(line, "softmatch "@) {
        (line.skip("softmatch "@.len() as int), true, true)
    } else if crate::text::has_prefix(line, "match "@) {
        (line.skip("match "@.len() as int), false, true)
    } else {
        (line, false, false)
    };
    if !known {
        Err("missing match prefix"@)
    } else {
        match crate::text::find(content, " m"@) {
            None => Err("missing m-delimited match expression"@),
            Some(se) => {
                let matcher = content.skip(se + 2);
                if matcher.len() == 0 {
                    Err("missing match delimiter"@)
                } else {
                    let d = matcher[0];
                    let rest = matcher.skip(1);
                    match spec_find_unescaped(rest, d) {
                        None => Err("unterminated match pattern"@),
                        Some(pe) => {
                            let suffix = rest.skip(pe + 1);
                            let fe = match crate::text::find_ws_at(suffix, 0) {
                                Some(k) => k,
                                None => suffix.len() as int,
                            };
                            Ok(
                                (
                                    MatchRuleView {
                                        service: crate::text::trim(content.take(se)),
                                        pattern: rest.take(pe),
                                        pattern_flag: suffix.take(fe),
                                        versioninfo: spec_version_info(
                                            crate::text::trim_start(suffix.skip(fe)),
                                        ),
                                    },
                                    soft,
                                ),
                            )
                        },
                    }
                }
            },
        }
    }
}

fn parse_match_line(line: &Vec<char>) -> (r: Result<(MatchRule, bool), Vec<char>>)
    ensures
        match r {
            Ok((rule, soft)) => spec_parse_match_line(line@) == Ok::<(MatchRuleView, bool), Seq<char>>(
                (rule@, soft),
            ),
            Err(e) => spec_parse_match_line(line@) == Err::<(MatchRuleView, bool), Seq<char>>(e@),
        },
{
    let soft_prefix = crate::text::chars_of("softmatch ");
    let hard_prefix = crate::text::chars_of("match ");
    let (content, soft) = if crate::text::starts_with(line, &soft_prefix) {
        let c = slice_of(line, soft_prefix.len(), line.len());
        assert(c@ =~= line@.skip("softmatch "@.len() as int));
        (c, true)
    } else if crate::text::starts_with(line, &hard_prefix) {
        let c = slice_of(line, hard_prefix.len(), line.len());
        assert(c@ =~= line@.skip("match "@.len() as int));
        (c, false)
    } else {
        return Err(crate::text::chars_of("missing match prefix"));
    };
    let m = crate::text::chars_of(" m");
    let service_end = match crate::text::find_from(&content, &m, 0) {
        Some(k) => k,
        None => return Err(crate::text::chars_of("missing m-delimited match expression")),
    };
    proof {
        reveal_strlit(" m");
        lemma_find_at_some(content@, m@, 0);
    }
    let service = crate::text::trim_chars(&slice_of(&content, 0, service_end));
    assert(content@.take(service_end as int) =~= content@.subrange(0, service_end as int));
    let n = content.len();
    let matcher = slice_of(&content, service_end + 2, n);
    assert(matcher@ =~= content@.skip(service_end + 2));
    if matcher.len() == 0 {
        return Err(crate::text::chars_of("missing match delimiter"));
    }
    let delimiter = matcher[0];
    let rest = slice_of(&matcher, 1, matcher.len());
    assert(rest@ =~= matcher@.skip(1));
    let pattern_end = match find_unescaped(&rest, 0, delimiter) {
        Some(k) => k,
        None => return Err(crate::text::chars_of("unterminated match pattern")),
    };
    proof {
        lemma_unescaped_at_bounds(rest@, delimiter, 0, false);
    }
    let pattern = slice_of(&rest, 0, pattern_end);
    assert(pattern@ =~= rest@.take(pattern_end as int));
    let suffix = slice_of(&rest, pattern_end + 1, rest.len());
    assert(suffix@ =~= rest@.skip(pattern_end + 1));
    let flag_end = match crate::text::find_ws_from(&suffix, 0) {
        Some(k) => k,
        None => suffix.len(),
    };
    proof {
        lemma_find_ws_at_bounds(suffix@, 0);
    }
    let flag = slice_of(&suffix, 0, flag_end);
    assert(flag@ =~= suffix@.take(flag_end as int));
    let tail = slice_of(&suffix, flag_end, suffix.len());
    assert(tail@ =~= suffix@.skip(flag_end as int));
    let version_text = crate::text::trim_start_chars(&tail);
    let rule = MatchRule {
        service: string_from_chars(service.as_slice()),
        pattern: string_from_chars(pattern.as_slice()),
        pattern_flag: string_from_chars(flag.as_slice()),
        versioninfo: parse_version_info(&version_text),
    };
    Ok((rule, soft))
}

} // verus!

verus! {

/// What a database parse yields: the probes, and one warning per line
/// that could not be used.
#[derive(Debug)]
pub struct ParseOutcome {
    pub probes: Vec<NmapProbe>,
    pub warnings: Vec<String>,
}

pub struct ParseOutcomeView {
    pub probes: Seq<NmapProbeView>,
    pub warnings: Seq<Seq<char>>,
}

impl View for ParseOutcome {
    type V = ParseOutcomeView;

    open spec fn view(&self) -> ParseOutcomeView {
        ParseOutcomeView {
            probes: crate::probe::probe_views(self.probes@),
            warnings: crate::text::string_views(self.warnings@),
        }
    }
}

impl Default for ParseOutcome {
    fn default() -> (r: Self)
        ensures
            r@.probes.len() == 0,
            r@.warnings.len() == 0,
    {
        ParseOutcome { probes: Vec::new(), warnings: Vec::new() }
    }
}

/// The parser's state between lines: finished probes, the probe being
/// filled, and the warnings so far.
pub struct DbState {
    pub probes: Seq<NmapProbeView>,
    pub current: Option<NmapProbeView>,
    pub warnings: Seq<Seq<char>>,
}

/// `line <n>: <message>`.
pub open spec fn warning(n: nat, message: Seq<char>) -> Seq<char> {
    "line "@ + crate::text::decimal(n) + ": "@ + message
}

/// A `ports`, `sslports`, `rarity` or `fallback` directive sets that field
/// to its trimmed value; any other directive is ignored.
pub open spec fn apply_setting(p: NmapProbeView, line: Seq<char>) -> NmapProbeView {
    match crate::text::strip_prefix(line, "ports "@) {
        Some(v) => NmapProbeView { ports: crate::text::trim(v), ..p },
        None => match crate::text::strip_prefix(line, "sslports "@) {
            Some(v) => NmapProbeView { sslports: crate::text::trim(v), ..p },
            None => match crate::text::strip_prefix(line, "rarity "@) {
                Some(v) => NmapProbeView { rarity: crate::text::trim(v), ..p },
                None => match crate::text::strip_prefix(line, "fallback "@) {
                    Some(v) => NmapProbeView { fallback: crate::text::trim(v), ..p },
                    None => p,
                },
            },
        },
    }
}

/// The effect of line number `n` (1-based) on the parser state.
pub open spec fn db_step(st: DbState, n: nat, raw: Seq<char>) -> DbState {
    let line = crate::text::trim_end(raw);
    if crate::text::trim(line).len() == 0 || (line.len() > 0 && line[0] == '#') {
        st
    } else if crate::text::has_prefix(line, "Probe "@) {
        let probes = match st.current {
            Some(p) => st.probes.push(p),
            None => st.probes,
        };
        match spec_parse_probe_line(line) {
            Ok(p) => DbState { probes, current: Some(p), warnings: st.warnings },
            Err(e) => DbState { probes, current: None, warnings: st.warnings.push(warning(n, e)) },
        }
    } else {
        match st.current {
            None => DbState {
                warnings: st.warnings.push(
                    warning(n, "directive appeared before the first probe"@),
                ),
                ..st
            },
            Some(p) => if crate::text::has_prefix(line, "match "@) || crate::text::has_prefix(
                line,
                "softmatch "@,
            ) {
                match spec_parse_match_line(line) {
                    Ok((rule, soft)) => if soft {
                        DbState {
                            current: Some(NmapProbeView { softmatches: p.softmatches.push(rule), ..p }),
                            ..st
                        }
                    } else {
                        DbState {
                            current: Some(NmapProbeView { matches: p.matches.push(rule), ..p }),
                            ..st
                        }
                    },
                    Err(e) => DbState { warnings: st.warnings.push(warning(n, e)), ..st },
                }
            } else {
                DbState { current: Some(apply_setting(p, line)), ..st }
            },
        }
    }
}

/// The state after the first `k` lines.
pub open spec fn db_fold(lines: Seq<Seq<char>>, k: int) -> DbState
    decreases k,
{
    if k <= 0 {
        DbState { probes: seq![], current: None, warnings: seq![] }
    } else {
        db_step(db_fold(lines, k - 1), k as nat, lines[k - 1])
    }
}

/// `parse_database`: the state after every line, with the last probe closed.
pub open spec fn spec_parse_database(input: Seq<char>) -> ParseOutcomeView {
    let lines = crate::text::spec_lines(input);
    let st = db_fold(lines, lines.len() as int);
    ParseOutcomeView {
        probes: match st.current {
            Some(p) => st.probes.push(p),
            None => st.probes,
        },
        warnings: st.warnings,
    }
}

pub open spec fn opt_probe_view(o: Option<NmapProbe>) -> Option<NmapProbeView> {
    match o {
        Some(p) => Some(p@),
        None => None,
    }
}

pub open spec fn state_of(probes: Seq<NmapProbe>, current: Option<NmapProbe>, warnings: Seq<String>) -> DbState {
    DbState {
        probes: crate::probe::probe_views(probes),
        current: opt_probe_view(current),
        warnings: crate::text::string_views(warnings),
    }
}

fn push_probe(probes: &mut Vec<NmapProbe>, p: NmapProbe)
    ensures
        crate::probe::probe_views(final(probes)@) == crate::probe::probe_views(old(probes)@).push(p@),
{
    let ghost before = probes@;
    probes.push(p);
    assert(crate::probe::probe_views(probes@) =~= crate::probe::probe_views(before).push(p@));
}

fn push_rule(rules: &mut Vec<MatchRule>, r: MatchRule)
    ensures
        crate::probe::rule_views(final(rules)@) == crate::probe::rule_views(old(rules)@).push(r@),
{
    let ghost before = rules@;
    rules.push(r);
    assert(crate::probe::rule_views(rules@) =~= crate::probe::rule_views(before).push(r@));
}

fn push_warning(warnings: &mut Vec<String>, n: usize, message: &Vec<char>)
    ensures
        crate::text::string_views(final(warnings)@) == crate::text::string_views(old(warnings)@).push(
            warning(n as nat, message@),
        ),
{
    let mut text = crate::text::chars_of("line ");
    crate::text::push_decimal(&mut text, n);
    append(&mut text, &crate::text::chars_of(": "));
    append(&mut text, message);
    assert(text@ =~= warning(n as nat, message@));
    let ghost before = warnings@;
    warnings.push(string_from_chars(text.as_slice()));
    assert(crate::text::string_views(warnings@) =~= crate::text::string_views(before).push(
        warning(n as nat, message@),
    ));
}

/// The trimmed value of a directive line with the given keyword, if it is one.
fn setting_value(line: &Vec<char>, keyword: &str) -> (r: Option<String>)
    ensures
        match r {
            Some(v) => crate::text::strip_prefix(line@, keyword@) matches Some(s) && v@
                == crate::text::trim(s),
            None => crate::text::strip_prefix(line@, keyword@) is None,
        },
{
    let k = crate::text::chars_of(keyword);
    if crate::text::starts_with(line, &k) {
        let v = slice_of(line, k.len(), line.len());
        assert(v@ =~= line@.skip(keyword@.len() as int));
        let t = crate::text::trim_chars(&v);
        Some(string_from_chars(t.as_slice()))
    } else {
        None
    }
}

fn apply_setting_exec(p: &mut NmapProbe, line: &Vec<char>)
    ensures
        final(p)@ == apply_setting(old(p)@, line@),
{
    match setting_value(line, "ports ") {
        Some(v) => {
            p.ports = v;
            return;
        },
        None => {},
    }
    match setting_value(line, "sslports ") {
        Some(v) => {
            p.sslports = v;
            return;
        },
        None => {},
    }
    match setting_value(line, "rarity ") {
        Some(v) => {
            p.rarity = v;
            return;
        },
        None => {},
    }
    match setting_value(line, "fallback ") {
        Some(v) => {
            p.fallback = v;
        },
        None => {},
    }
}

/// Parses an `nmap-service-probes` database.
///
/// Comment and blank lines are skipped. A `Probe` line closes the probe
/// being filled and opens a new one; `match`/`softmatch` lines and the
/// `ports`, `sslports`, `rarity` and `fallback` directives fill the open
/// probe. A line that cannot be used leaves a `line <n>: <reason>` warning
/// instead of stopping the parse (a malformed `Probe` line also leaves no
/// probe open).
pub fn parse_database(input: &str) -> (r: ParseOutcome)
    ensures
        r@ == spec_parse_database(input@),
{
    let chars = crate::text::chars_of(input);
    let lines = crate::text::lines_of(&chars);
    let ghost lv = views(lines@);
    assert(lv.len() == lines@.len());
    let probe_prefix = crate::text::chars_of("Probe ");
    let hard_prefix = crate::text::chars_of("match ");
    let soft_prefix = crate::text::chars_of("softmatch ");
    let mut outcome = ParseOutcome::default();
    assert(outcome.probes@ =~= Seq::<NmapProbe>::empty());
    assert(outcome.warnings@ =~= Seq::<String>::empty());
    let mut current: Option<NmapProbe> = None;
    let mut index: usize = 0;
    proof {
        assert(crate::probe::probe_views(outcome.probes@) =~= Seq::<NmapProbeView>::empty());
        assert(crate::text::string_views(outcome.warnings@) =~= Seq::<Seq<char>>::empty());
        assert(state_of(outcome.probes@, current, outcome.warnings@) =~= db_fold(lv, 0));
    }
    while index < lines.len()
        invariant
            lv == views(lines@),
            lv == crate::text::spec_lines(input@),
            index <= lines.len(),
            probe_prefix@ == "Probe "@,
            hard_prefix@ == "match "@,
            soft_prefix@ == "softmatch "@,
            state_of(outcome.probes@, current, outcome.warnings@) == db_fold(lv, index as int),
        decreases lines.len() - index,
    {
        let ghost st = db_fold(lv, index as int);
        let line_number = index + 1;
        let line = crate::text::trim_end_chars(&lines[index]);
        assert(lv[index as int] == lines@[index as int]@);
        let blank = crate::text::trim_chars(&line).len() == 0;
        if blank || (line.len() > 0 && line[0] == '#') {
            index = index + 1;
            continue;
        }
        if crate::text::starts_with(&line, &probe_prefix) {
            match current {
                Some(p) => push_probe(&mut outcome.probes, p),
                None => {},
            }
            match probe_line(&line) {
                Ok(p) => {
                    current = Some(p);
                },
                Err(e) => {
                    current = None;
                    push_warning(&mut outcome.warnings, line_number, &e);
                },
            }
        } else {
            match current {
                None => {
                    current = None;
                    push_warning(
                        &mut outcome.warnings,
                        line_number,
                        &crate::text::chars_of("directive appeared before the first probe"),
                    );
                },
                Some(mut p) => {
                    if crate::text::starts_with(&line, &hard_prefix) || crate::text::starts_with(
                        &line,
                        &soft_prefix,
                    ) {
                        match parse_match_line(&line) {
                            Ok((rule, soft)) => {
                                if soft {
                                    push_rule(&mut p.softmatches, rule);
                                } else {
                                    push_rule(&mut p.matches, rule);
                                }
                            },
                            Err(e) => {
                                push_warning(&mut outcome.warnings, line_number, &e);
                            },
                        }
                    } else {
                        apply_setting_exec(&mut p, &line);
                    }
                    current = Some(p);
                },
            }
        }
        proof {
            assert(state_of(outcome.probes@, current, outcome.warnings@) =~= db_step(
                st,
                line_number as nat,
                lv[index as int],
            ));
        }
        index = index + 1;
    }
    match current {
        Some(p) => push_probe(&mut outcome.probes, p),
        None => {},
    }
    outcome
}

} // verus!

verus! {

/// A probe as the parser makes it: TCP or UDP, with a non-empty name.
pub open spec fn well_formed_probe(p: NmapProbeView) -> bool {
    (p.protocol == "TCP"@ || p.protocol == "UDP"@) && p.probename.len() > 0
}

pub open spec fn well_formed_state(st: DbState) -> bool {
    &&& forall|i: int| 0 <= i < st.probes.len() ==> well_formed_probe(#[trigger] st.probes[i])
    &&& st.current matches Some(p) ==> well_formed_probe(p)
}

proof fn lemma_parsed_probe_line_well_formed(line: Seq<char>)
    ensures
        spec_parse_probe_line(line) matches Ok(p) ==> well_formed_probe(p),
{
}

proof fn lemma_step_well_formed(st: DbState, n: nat, raw: Seq<char>)
    requires
        well_formed_state(st),
    ensures
        well_formed_state(db_step(st, n, raw)),
{
    let line = crate::text::trim_end(raw);
    lemma_parsed_probe_line_well_formed(line);
    let next = db_step(st, n, raw);
    if let Some(p) = st.current {
        assert(well_formed_probe(apply_setting(p, line)));
    }
    assert forall|i: int| 0 <= i < next.probes.len() implies well_formed_probe(#[trigger] next.probes[i]) by {
        if i < st.probes.len() {
            assert(next.probes[i] == st.probes[i]);
        }
    }
}

proof fn lemma_fold_well_formed(lines: Seq<Seq<char>>, k: int)
    ensures
        well_formed_state(db_fold(lines, k)),
    decreases k,
{
    if k > 0 {
        lemma_fold_well_formed(lines, k - 1);
        lemma_step_well_formed(db_fold(lines, k - 1), k as nat, lines[k - 1]);
    }
}

/// Every probe a database parse yields is a TCP or UDP probe with a name,
/// whatever the input.
pub proof fn law_parsed_probes_are_well_formed(input: Seq<char>)
    ensures
        forall|i: int|
            0 <= i < spec_parse_database(input).probes.len() ==> well_formed_probe(
                #[trigger] spec_parse_database(input).probes[i],
            ),
{
    let lines = crate::text::spec_lines(input);
    lemma_fold_well_formed(lines, lines.len() as int);
    let st = db_fold(lines, lines.len() as int);
    let out = spec_parse_database(input);
    assert forall|i: int| 0 <= i < out.probes.len() implies well_formed_probe(#[trigger] out.probes[i]) by {
        if i < st.probes.len() {
            assert(out.probes[i] == st.probes[i]);
        }
    }
}

proof fn lemma_plain_payload_from(s: Seq<char>, i: int)
    requires
        0 <= i <= s.len(),
        forall|j: int| 0 <= j < s.len() ==> s[j] != '\\',
    ensures
        decode_payload_from(s, i) == Ok::<Seq<u8>, Seq<char>>(vstd::utf8::encode_utf8(s.skip(i))),
    decreases s.len() - i,
{
    if i < s.len() {
        lemma_plain_payload_from(s, i + 1);
        assert(s.skip(i).drop_first() =~= s.skip(i + 1));
        assert(s.skip(i)[0] == s[i]);
    } else {
        assert(s.skip(i) =~= Seq::<char>::empty());
    }
}

/// A payload without backslashes is its own UTF-8 encoding.
pub proof fn law_plain_payload_is_its_utf8(s: Seq<char>)
    requires
        forall|j: int| 0 <= j < s.len() ==> s[j] != '\\',
    ensures
        spec_decode_payload(s) == Ok::<Seq<u8>, Seq<char>>(vstd::utf8::encode_utf8(s)),
{
    lemma_plain_payload_from(s, 0);
    assert(s.skip(0) =~= s);
}

} // verus!

verus! {

/// The lowercase hexadecimal digit for `d < 16`.
pub open spec fn hex_digit_char(d: nat) -> char {
    if d < 10 {
        ((d + 48) as u8) as char
    } else {
        ((d + 87) as u8) as char
    }
}

/// `\xHH` for one byte, with two lowercase hexadecimal digits.
pub open spec fn hex_escape_text(b: u8) -> Seq<char> {
    seq!['\\', 'x', hex_digit_char((b / 16) as nat), hex_digit_char((b % 16) as nat)]
}

/// Every byte written as a `\xHH` escape.
pub open spec fn hex_escaped(bytes: Seq<u8>) -> Seq<char>
    decreases bytes.len(),
{
    if bytes.len() == 0 {
        seq![]
    } else {
        hex_escape_text(bytes[0]) + hex_escaped(bytes.drop_first())
    }
}

/// Decoding does not look at what comes before the position it starts from.
proof fn lemma_decode_shift(p: Seq<char>, rest: Seq<char>, j: int)
    requires
        0 <= j,
    ensures
        decode_payload_from(p + rest, p.len() + j) == decode_payload_from(rest, j),
    decreases rest.len() + 5 - j,
{
    let s = p + rest;
    if j < rest.len() {
        assert(s[p.len() + j] == rest[j]);
        if j + 1 < rest.len() {
            assert(s[p.len() + j + 1] == rest[j + 1]);
        }
        if j + 2 < rest.len() {
            assert(s[p.len() + j + 2] == rest[j + 2]);
        }
        if j + 3 < rest.len() {
            assert(s[p.len() + j + 3] == rest[j + 3]);
        }
        lemma_decode_shift(p, rest, j + 1);
        lemma_decode_shift(p, rest, j + 2);
        lemma_decode_shift(p, rest, j + 4);
    }
}

proof fn lemma_hex_digit(d: nat)
    requires
        d < 16,
    ensures
        hex_value(hex_digit_char(d)) == Some(d),
        hex_digit_char(d) != '+',
{
}

/// Writing bytes as `\xHH` escapes (as `format!("\\x{:02x}", b)` does) and
/// decoding them (`parse_probe_string`) gives the bytes back.
pub proof fn law_hex_escapes_round_trip(bytes: Seq<u8>)
    ensures
        spec_decode_payload(hex_escaped(bytes)) == Ok::<Seq<u8>, Seq<char>>(bytes),
    decreases bytes.len(),
{
    if bytes.len() > 0 {
        let b = bytes[0];
        let e = hex_escape_text(b);
        let rest = hex_escaped(bytes.drop_first());
        let s = e + rest;
        law_hex_escapes_round_trip(bytes.drop_first());
        lemma_hex_digit((b / 16) as nat);
        lemma_hex_digit((b % 16) as nat);
        assert(s[0] == '\\');
        assert(s[1] == 'x');
        assert(s[2] == hex_digit_char((b / 16) as nat));
        assert(s[3] == hex_digit_char((b % 16) as nat));
        assert(((b / 16) * 16 + b % 16) as u8 == b);
        assert(hex_escape(s[2], s[3]) == Some(b));
        lemma_decode_shift(e, rest, 0);
        assert(e.len() == 4);
        assert(decode_payload_from(s, 4) == decode_payload_from(rest, 0));
        assert(decode_payload_from(rest, 0) == Ok::<Seq<u8>, Seq<char>>(bytes.drop_first()));
        assert(decode_payload_from(s, 0) == prepend(seq![b], decode_payload_from(s, 4)));
        assert(hex_escaped(bytes) == s);
        assert(seq![b] + bytes.drop_first() =~= bytes);
        assert(prepend(seq![b], Ok::<Seq<u8>, Seq<char>>(bytes.drop_first())) == Ok::<
            Seq<u8>,
            Seq<char>,
        >(bytes));
        assert(spec_decode_payload(hex_escaped(bytes)) == decode_payload_from(s, 0));
    } else {
        assert(hex_escaped(bytes) =~= Seq::<char>::empty());
        assert(bytes =~= Seq::<u8>::empty());
    }
}

} // verus!

verus! {

/// Decodes a probe payload (the text between its delimiters) into its
/// bytes: characters stand for their UTF-8 encoding, `\xHH` for one byte,
/// `\0 \a \b \f \n \r \t \v` for their control byte, and any other
/// escaped character for itself; a malformed escape is an error.
pub fn parse_probe_string(value: &str) -> (r: Result<Vec<u8>, String>)
    ensures
        match r {
            Ok(b) => spec_decode_payload(value@) == Ok::<Seq<u8>, Seq<char>>(b@),
            Err(e) => spec_decode_payload(value@) == Err::<Seq<u8>, Seq<char>>(e@),
        },
{
    let chars = crate::text::chars_of(value);
    match decode_probe_string(&chars) {
        Ok(b) => Ok(b),
        Err(e) => Err(string_from_chars(e.as_slice())),
    }
}

} // verus!

verus! {

/// What identifies a probe: its protocol, name and payload.
pub open spec fn probe_key(p: NmapProbeView) -> (Seq<char>, Seq<char>, Seq<u8>) {
    (p.protocol, p.probename, p.probestring)
}

pub open spec fn probe_keys(ps: Seq<NmapProbeView>) -> Seq<(Seq<char>, Seq<char>, Seq<u8>)> {
    ps.map_values(|p: NmapProbeView| probe_key(p))
}

/// The probes of the first `k` lines that are `Probe` lines (after
/// trimming their end) and parse, in order.
pub open spec fn parsed_probe_lines(lines: Seq<Seq<char>>, k: int) -> Seq<
    (Seq<char>, Seq<char>, Seq<u8>),
>
    decreases k,
{
    if k <= 0 {
        seq![]
    } else {
        let prev = parsed_probe_lines(lines, k - 1);
        let line = crate::text::trim_end(lines[k - 1]);
        if crate::text::has_prefix(line, "Probe "@) && spec_parse_probe_line(line) is Ok {
            prev.push(probe_key(spec_parse_probe_line(line)->Ok_0))
        } else {
            prev
        }
    }
}

/// The keys of a state's finished probes followed by its open probe.
pub open spec fn state_keys(st: DbState) -> Seq<(Seq<char>, Seq<char>, Seq<u8>)> {
    probe_keys(st.probes) + match st.current {
        Some(p) => seq![probe_key(p)],
        None => seq![],
    }
}

proof fn lemma_trim_end_keeps_first(s: Seq<char>)
    requires
        s.len() > 0,
        !crate::text::is_ws(s[0]),
    ensures
        crate::text::trim_end(s).len() > 0,
    decreases s.len(),
{
    if crate::text::is_ws(s.last()) {
        lemma_trim_end_keeps_first(s.drop_last());
    }
}

proof fn lemma_step_keys(st: DbState, n: nat, raw: Seq<char>)
    ensures
        ({
            let line = crate::text::trim_end(raw);
            state_keys(db_step(st, n, raw)) == if crate::text::has_prefix(line, "Probe "@)
                && spec_parse_probe_line(line) is Ok {
                state_keys(st).push(probe_key(spec_parse_probe_line(line)->Ok_0))
            } else {
                state_keys(st)
            }
        }),
{
    let line = crate::text::trim_end(raw);
    let next = db_step(st, n, raw);
    if crate::text::has_prefix(line, "Probe "@) {
        reveal_strlit("Probe ");
        assert(line[0] == "Probe "@[0]);
        assert(line[0] == 'P');
        assert(crate::text::trim_start(line) == line);
        lemma_trim_end_keeps_first(line);
        let probes = match st.current {
            Some(p) => st.probes.push(p),
            None => st.probes,
        };
        assert(probe_keys(probes) =~= state_keys(st));
        match spec_parse_probe_line(line) {
            Ok(p) => {
                assert(state_keys(next) =~= state_keys(st).push(probe_key(p)));
            },
            Err(e) => {
                assert(state_keys(next) =~= state_keys(st));
            },
        }
    } else {
        if let Some(p) = st.current {
            assert(probe_key(apply_setting(p, line)) == probe_key(p));
        }
        assert(state_keys(next) =~= state_keys(st));
    }
}

proof fn lemma_fold_keys(lines: Seq<Seq<char>>, k: int)
    ensures
        state_keys(db_fold(lines, k)) == parsed_probe_lines(lines, k),
    decreases k,
{
    if k > 0 {
        lemma_fold_keys(lines, k - 1);
        lemma_step_keys(db_fold(lines, k - 1), k as nat, lines[k - 1]);
    } else {
        assert(state_keys(db_fold(lines, k)) =~= Seq::<(Seq<char>, Seq<char>, Seq<u8>)>::empty());
    }
}

/// The probes of a database parse are, in order, exactly the `Probe` lines
/// (after trimming their end) that parse, with their protocol, name and
/// payload; the other lines only add rules and settings to them.
pub proof fn law_probes_are_the_parsed_probe_lines(input: Seq<char>)
    ensures
        probe_keys(spec_parse_database(input).probes) == parsed_probe_lines(
            crate::text::spec_lines(input),
            crate::text::spec_lines(input).len() as int,
        ),
{
    let lines = crate::text::spec_lines(input);
    lemma_fold_keys(lines, lines.len() as int);
    let st = db_fold(lines, lines.len() as int);
    assert(probe_keys(spec_parse_database(input).probes) =~= state_keys(st));
}

} // verus!

verus! {

/// The hexadecimal digit for `d < 16`, in upper or lower case.
pub open spec fn hex_digit_in_case(d: nat, upper: bool) -> char {
    if d < 10 {
        ((d + 48) as u8) as char
    } else if upper {
        ((d + 55) as u8) as char
    } else {
        ((d + 87) as u8) as char
    }
}

/// A `\x` escape decodes to its byte whatever the case of its two digits.
pub proof fn law_hex_escape_ignores_case(b: u8, upper_high: bool, upper_low: bool)
    ensures
        spec_decode_payload(
            seq!['\\', 'x', hex_digit_in_case((b / 16) as nat, upper_high), hex_digit_in_case((b % 16) as nat, upper_low)],
        ) == Ok::<Seq<u8>, Seq<char>>(seq![b]),
{
    let s = seq!['\\', 'x', hex_digit_in_case((b / 16) as nat, upper_high), hex_digit_in_case((b % 16) as nat, upper_low)];
    assert(hex_value(s[2]) == Some((b / 16) as nat));
    assert(hex_value(s[3]) == Some((b % 16) as nat));
    assert(s[2] != '+');
    assert(((b / 16) * 16 + b % 16) as u8 == b);
    assert(hex_escape(s[2], s[3]) == Some(b));
    assert(decode_payload_from(s, 4) == Ok::<Seq<u8>, Seq<char>>(seq![]));
    assert(seq![b] + Seq::<u8>::empty() =~= seq![b]);
}

} // verus!

verus! {

/// The rules of the match lines (`softmatch` ones when `soft`, else `match`
/// ones), in the order of the lines; lines that do not parse give none.
pub open spec fn rules_of_lines(ms: Seq<Seq<char>>, soft: bool) -> Seq<MatchRuleView>
    decreases ms.len(),
{
    if ms.len() == 0 {
        seq![]
    } else {
        let prev = rules_of_lines(ms.drop_last(), soft);
        match spec_parse_match_line(crate::text::trim_end(ms.last())) {
            Ok((r, s)) => if s == soft {
                prev.push(r)
            } else {
                prev
            },
            Err(_) => prev,
        }
    }
}

proof fn lemma_match_line_is_directive(line: Seq<char>)
    requires
        spec_parse_match_line(line) is Ok,
    ensures
        crate::text::has_prefix(line, "match "@) || crate::text::has_prefix(line, "softmatch "@),
        line.len() > 0 && line[0] != '#' && !crate::text::is_ws(line[0]),
        crate::text::trim(line).len() > 0,
        !crate::text::has_prefix(line, "Probe "@),
{
    reveal_strlit("match ");
    reveal_strlit("softmatch ");
    reveal_strlit("Probe ");
    if crate::text::has_prefix(line, "softmatch "@) {
        assert(line[0] == "softmatch "@[0]);
    } else {
        assert(line[0] == "match "@[0]);
    }
    if crate::text::has_prefix(line, "Probe "@) {
        assert(line[0] == "Probe "@[0]);
    }
    assert(crate::text::trim_start(line) == line);
    lemma_trim_end_keeps_first(line);
}

proof fn lemma_rules_fold(lines: Seq<Seq<char>>, p: NmapProbeView, j: int)
    requires
        lines.len() >= 1,
        0 <= j < lines.len(),
        db_fold(lines, 1) == (DbState { probes: seq![], current: Some(p), warnings: seq![] }),
        p.matches.len() == 0,
        p.softmatches.len() == 0,
        forall|i: int|
            1 <= i < lines.len() ==> #[trigger] spec_parse_match_line(crate::text::trim_end(lines[i]))
                is Ok,
    ensures
        db_fold(lines, j + 1) == (DbState {
            probes: seq![],
            current: Some(
                NmapProbeView {
                    matches: rules_of_lines(lines.subrange(1, j + 1), false),
                    softmatches: rules_of_lines(lines.subrange(1, j + 1), true),
                    ..p
                },
            ),
            warnings: seq![],
        }),
    decreases j,
{
    if j == 0 {
        assert(lines.subrange(1, 1) =~= Seq::<Seq<char>>::empty());
        assert(rules_of_lines(lines.subrange(1, 1), false) =~= p.matches);
        assert(rules_of_lines(lines.subrange(1, 1), true) =~= p.softmatches);
    } else {
        lemma_rules_fold(lines, p, j - 1);
        let line = crate::text::trim_end(lines[j]);
        lemma_match_line_is_directive(line);
        let ms = lines.subrange(1, j + 1);
        assert(ms.drop_last() =~= lines.subrange(1, j));
        assert(ms.last() == lines[j]);
    }
}

/// Match rules keep the order of their lines: a probe line followed by
/// `match`/`softmatch` lines that parse gives one probe whose `match` rules
/// are the `match` lines' rules and whose `softmatch` rules are the
/// `softmatch` lines' rules, each in the order of the lines.
pub proof fn law_rules_keep_file_order(input: Seq<char>, probe_line: Seq<char>, rule_lines: Seq<Seq<char>>)
    requires
        crate::text::spec_lines(input) == seq![probe_line] + rule_lines,
        crate::text::has_prefix(crate::text::trim_end(probe_line), "Probe "@),
        spec_parse_probe_line(crate::text::trim_end(probe_line)) is Ok,
        forall|i: int|
            0 <= i < rule_lines.len() ==> #[trigger] spec_parse_match_line(
                crate::text::trim_end(rule_lines[i]),
            ) is Ok,
    ensures
        ({
            let out = spec_parse_database(input);
            let first = spec_parse_probe_line(crate::text::trim_end(probe_line))->Ok_0;
            &&& out.probes.len() == 1
            &&& probe_key(out.probes[0]) == probe_key(first)
            &&& out.probes[0].matches == rules_of_lines(rule_lines, false)
            &&& out.probes[0].softmatches == rules_of_lines(rule_lines, true)
            &&& out.warnings.len() == 0
        }),
{
    let lines = crate::text::spec_lines(input);
    let pl = crate::text::trim_end(probe_line);
    let p = spec_parse_probe_line(pl)->Ok_0;
    reveal_strlit("Probe ");
    assert(pl[0] == "Probe "@[0]);
    assert(crate::text::trim_start(pl) == pl);
    lemma_trim_end_keeps_first(pl);
    assert(lines[0] == probe_line);
    assert(db_fold(lines, 0) == (DbState { probes: seq![], current: None, warnings: seq![] }));
    assert(db_fold(lines, 1) == (DbState { probes: seq![], current: Some(p), warnings: seq![] }));
    assert forall|i: int| 1 <= i < lines.len() implies #[trigger] spec_parse_match_line(
        crate::text::trim_end(lines[i]),
    ) is Ok by {
        assert(lines[i] == rule_lines[i - 1]);
    }
    lemma_rules_fold(lines, p, lines.len() - 1);
    assert(lines.subrange(1, lines.len() as int) =~= rule_lines);
    assert(spec_parse_database(input).probes =~= seq![
        NmapProbeView {
            matches: rules_of_lines(rule_lines, false),
            softmatches: rules_of_lines(rule_lines, true),
            ..p
        },
    ]);
}

} // verus!
