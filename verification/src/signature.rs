//! Matching a service response against a probe's signatures and rendering
//! the recognised service's version details.
use crate::probe::{
    MatchRule, MatchRuleView, NmapProbe, NmapProbeView, ServiceMatch, ServiceMatchView, rule_views,
};
use crate::text::{
    append, chars_of, chars_of_string, has_prefix, contains_char, decimal, join, join_chars, push_decimal,
    replace, replace_chars, slice_of, string_from_chars, views,
};
use vstd::prelude::*;
use vstd::utf8::{decode_utf8, valid_utf8};

verus! {

#[verifier::external_type_specification]
#[verifier::external_body]
pub struct ExRegex(regex::bytes::Regex);

/// Whether the regex crate accepts `pattern` with the given flags.
pub uninterp spec fn regex_compiles(
    pattern: Seq<char>,
    case_insensitive: bool,
    dot_matches_new_line: bool,
) -> bool;

/// The capture groups (group 0 first) of the leftmost-first match of the
/// pattern in `haystack`, or `None` when it does not match.
pub uninterp spec fn regex_captures(
    pattern: Seq<char>,
    case_insensitive: bool,
    dot_matches_new_line: bool,
    haystack: Seq<u8>,
) -> Option<Seq<Option<Seq<u8>>>>;

/// `String::from_utf8_lossy`: the text of `bytes`, with U+FFFD in place of
/// each invalid sequence.
pub uninterp spec fn utf8_lossy(bytes: Seq<u8>) -> Seq<char>;

/// A signature's regex, built with its flags, together with what it was built from.
pub struct CompiledSignature {
    regex: regex::bytes::Regex,
    pattern: String,
    case_insensitive: bool,
    dot_matches_new_line: bool,
}

impl View for CompiledSignature {
    type V = (Seq<char>, bool, bool);

    closed spec fn view(&self) -> (Seq<char>, bool, bool) {
        (self.pattern@, self.case_insensitive, self.dot_matches_new_line)
    }
}

/// Builds the byte regex with `regex::bytes::RegexBuilder::new(pattern)`,
/// `case_insensitive`, `dot_matches_new_line` and `build`. Claimed: the result
/// is present exactly when the build succeeds (named by `regex_compiles`), and
/// it remembers the pattern and flags it was built from.
#[verifier::external_body]
fn compile_signature(pattern: &str, case_insensitive: bool, dot_matches_new_line: bool) -> (r:
    Option<CompiledSignature>)
    ensures
        r is Some <==> regex_compiles(pattern@, case_insensitive, dot_matches_new_line),
        r matches Some(c) ==> c@ == (pattern@, case_insensitive, dot_matches_new_line),
{
    match regex::bytes::RegexBuilder::new(pattern).case_insensitive(case_insensitive)
        .dot_matches_new_line(dot_matches_new_line).build() {
        Ok(regex) => Some(
            CompiledSignature {
                regex,
                pattern: pattern.to_string(),
                case_insensitive,
                dot_matches_new_line,
            },
        ),
        Err(_) => None,
    }
}

pub open spec fn captures_view(r: Option<Vec<Option<Vec<u8>>>>) -> Option<Seq<Option<Seq<u8>>>> {
    match r {
        Some(v) => Some(
            v@.map_values(
                |o: Option<Vec<u8>>|
                    match o {
                        Some(b) => Some(b@),
                        None => None,
                    },
            ),
        ),
        None => None,
    }
}

/// `regex::bytes::Regex::captures`, with each group's bytes copied out
/// (`Captures::iter`, `Match::as_bytes`). Claimed: the result is the one named
/// by `regex_captures` for the pattern and flags the regex was built from.
#[verifier::external_body]
fn signature_captures(sig: &CompiledSignature, haystack: &[u8]) -> (r: Option<
    Vec<Option<Vec<u8>>>,
>)
    ensures
        captures_view(r) == regex_captures(sig@.0, sig@.1, sig@.2, haystack@),
{
    sig.regex.captures(haystack).map(
        |caps| caps.iter().map(|m| m.map(|m| m.as_bytes().to_vec())).collect(),
    )
}

/// `String::from_utf8_lossy(bytes).into_owned()`. Claimed: the result is the
/// one named by `utf8_lossy`, and for valid UTF-8 it is the decoded text.
#[verifier::external_body]
fn text_of_bytes(bytes: &[u8]) -> (s: String)
    ensures
        s@ == utf8_lossy(bytes@),
        valid_utf8(bytes@) ==> s@ == decode_utf8(bytes@),
{
    String::from_utf8_lossy(bytes).into_owned()
}

pub open spec fn opt_views(s: Seq<Option<Vec<char>>>) -> Seq<Option<Seq<char>>> {
    s.map_values(
        |o: Option<Vec<char>>|
            match o {
                Some(v) => Some(v@),
                None => None,
            },
    )
}

pub open spec fn opt_string_views(s: Seq<Option<String>>) -> Seq<Option<Seq<char>>> {
    s.map_values(
        |o: Option<String>|
            match o {
                Some(v) => Some(v@),
                None => None,
            },
    )
}

/// The capture texts decoded from the capture bytes.
pub open spec fn capture_texts(caps: Seq<Option<Seq<u8>>>) -> Seq<Option<Seq<char>>> {
    caps.map_values(
        |o: Option<Seq<u8>>|
            match o {
                Some(b) => Some(utf8_lossy(b)),
                None => None,
            },
    )
}

/// `$n` for capture group `n`.
pub open spec fn group_marker(n: nat) -> Seq<char> {
    seq!['$'] + decimal(n)
}

/// The template after substituting groups `1..k` in turn: group `n`, when it
/// took part in the match, replaces every `$n`.
pub open spec fn render_upto(template: Seq<char>, caps: Seq<Option<Seq<char>>>, k: int) -> Seq<
    char,
>
    decreases k,
{
    if k <= 1 {
        template
    } else {
        let prev = render_upto(template, caps, k - 1);
        match caps[k - 1] {
            Some(v) => replace(prev, group_marker((k - 1) as nat), v),
            None => prev,
        }
    }
}

pub open spec fn render_template(template: Seq<char>, caps: Seq<Option<Seq<char>>>) -> Seq<char> {
    render_upto(template, caps, caps.len() as int)
}

/// `name=value`, only when `value` is not empty.
pub open spec fn named_field(name: Seq<char>, value: Seq<char>) -> Seq<Seq<char>> {
    if value.len() == 0 {
        seq![]
    } else {
        seq![name + seq!['='] + value]
    }
}

pub open spec fn rendered_all(templates: Seq<Seq<char>>, caps: Seq<Option<Seq<char>>>) -> Seq<
    Seq<char>,
> {
    templates.map_values(|t: Seq<char>| render_template(t, caps))
}

/// The `name=value` fields of a match summary.
pub open spec fn summary_fields(rule: MatchRuleView, caps: Seq<Option<Seq<char>>>) -> Seq<Seq<char>> {
    let v = rule.versioninfo;
    seq!["service="@ + rule.service] + named_field(
        "product"@,
        render_template(v.vendorproductname, caps),
    ) + named_field("version"@, render_template(v.version, caps)) + named_field(
        "info"@,
        render_template(v.info, caps),
    ) + named_field("hostname"@, render_template(v.hostname, caps)) + named_field(
        "os"@,
        render_template(v.operatingsystem, caps),
    ) + named_field("device"@, render_template(v.devicetype, caps)) + (if v.cpename.len() == 0 {
        seq![]
    } else {
        seq!["cpe="@ + join(rendered_all(v.cpename, caps), seq![','])]
    })
}

/// The service match a rule yields for the given capture texts.
pub open spec fn rendered_match(rule: MatchRuleView, caps: Seq<Option<Seq<char>>>, soft: bool) -> ServiceMatchView {
    ServiceMatchView {
        service: rule.service,
        summary: join(summary_fields(rule, caps), seq![' ']),
        soft,
    }
}

/// What one rule yields on a response: nothing when its regex does not build
/// or does not match, else the rendered match.
pub open spec fn spec_match_rule(rule: MatchRuleView, response: Seq<u8>, soft: bool) -> Option<
    ServiceMatchView,
> {
    let ci = rule.pattern_flag.contains('i');
    let dot = rule.pattern_flag.contains('s');
    if !regex_compiles(rule.pattern, ci, dot) {
        None
    } else {
        match regex_captures(rule.pattern, ci, dot, response) {
            None => None,
            Some(caps) => Some(rendered_match(rule, capture_texts(caps), soft)),
        }
    }
}

/// The first rule from position `i` on that yields a match.
pub open spec fn first_match(rules: Seq<MatchRuleView>, response: Seq<u8>, soft: bool, i: int) -> Option<
    ServiceMatchView,
>
    decreases rules.len() - i,
{
    if i < 0 || i >= rules.len() {
        None
    } else {
        match spec_match_rule(rules[i], response, soft) {
            Some(m) => Some(m),
            None => first_match(rules, response, soft, i + 1),
        }
    }
}

/// A probe's verdict on a response: its first matching `match` rule, else its
/// first matching `softmatch` rule.
pub open spec fn spec_match_probe(probe: NmapProbeView, response: Seq<u8>) -> Option<ServiceMatchView> {
    match first_match(probe.matches, response, false, 0) {
        Some(m) => Some(m),
        None => first_match(probe.softmatches, response, true, 0),
    }
}

pub open spec fn opt_match_view(r: Option<ServiceMatch>) -> Option<ServiceMatchView> {
    match r {
        Some(m) => Some(m@),
        None => None,
    }
}

fn render_template_chars(template: &Vec<char>, caps: &Vec<Option<Vec<char>>>) -> (r: Vec<char>)
    ensures
        r@ == render_template(template@, opt_views(caps@)),
{
    let ghost cv = opt_views(caps@);
    let mut out = slice_of(template, 0, template.len());
    assert(out@ =~= template@);
    let mut index: usize = 1;
    while index < caps.len()
        invariant
            1 <= index,
            index <= caps.len() || index == 1,
            cv == opt_views(caps@),
            out@ == render_upto(template@, cv, index as int),
        decreases caps.len() - index,
    {
        match &caps[index] {
            Some(v) => {
                let mut marker: Vec<char> = vec!['$'];
                push_decimal(&mut marker, index);
                assert(marker@ =~= group_marker(index as nat));
                out = replace_chars(&out, &marker, v);
            },
            None => {},
        }
        index = index + 1;
    }
    out
}

/// Pushes `name=value` when `value` is not empty.
fn push_field(fields: &mut Vec<Vec<char>>, name: &str, value: &Vec<char>)
    ensures
        views(final(fields)@) == views(old(fields)@) + named_field(name@, value@),
{
    if value.len() > 0 {
        let mut f = chars_of(name);
        f.push('=');
        append(&mut f, value);
        assert(f@ =~= name@ + seq!['='] + value@);
        let ghost before = fields@;
        fields.push(f);
        assert(views(fields@)[before.len() as int] == f@);
        assert(views(fields@) =~= views(before) + named_field(name@, value@));
    } else {
        assert(views(fields@) =~= views(old(fields)@) + named_field(name@, value@));
    }
}

/// The service match that `rule` yields once its regex has matched with the
/// given capture group texts (group 0 first): each version template has
/// `$n` replaced by group `n`, and the summary lists `service=…` and the
/// non-empty fields, separated by spaces.
pub fn render_service_match(rule: &MatchRule, captures: &Vec<Option<String>>, soft: bool) -> (m:
    ServiceMatch)
    ensures
        m@ == rendered_match(rule@, opt_string_views(captures@), soft),
{
    let mut caps: Vec<Option<Vec<char>>> = Vec::new();
    let mut i: usize = 0;
    while i < captures.len()
        invariant
            i <= captures.len(),
            opt_views(caps@) == opt_string_views(captures@.take(i as int)),
        decreases captures.len() - i,
    {
        let c = match &captures[i] {
            Some(s) => Some(chars_of_string(s)),
            None => None,
        };
        let ghost before = caps@;
        caps.push(c);
        proof {
            assert(opt_views(before).len() == before.len());
            let lhs = opt_views(caps@);
            let rhs = opt_string_views(captures@.take(i + 1));
            let prev = opt_string_views(captures@.take(i as int));
            assert forall|j: int| 0 <= j < i + 1 implies lhs[j] == rhs[j] by {
                if j < i {
                    assert(caps@[j] == before[j]);
                    assert(opt_views(before)[j] == prev[j]);
                    assert(captures@.take(i as int)[j] == captures@.take(i + 1)[j]);
                }
            }
            assert(lhs =~= rhs);
        }
        i = i + 1;
    }
    assert(captures@.take(captures.len() as int) =~= captures@);
    let ghost cv = opt_views(caps@);
    let v = &rule.versioninfo;
    let mut fields: Vec<Vec<char>> = Vec::new();
    let mut service_field = chars_of("service=");
    append(&mut service_field, &chars_of_string(&rule.service));
    fields.push(service_field);
    assert(views(fields@) =~= seq!["service="@ + rule@.service]);
    let ghost vi = rule@.versioninfo;
    let ghost f0 = seq!["service="@ + rule@.service];
    push_field(&mut fields, "product", &render_template_chars(&chars_of_string(&v.vendorproductname), &caps));
    let ghost f1 = f0 + named_field("product"@, render_template(vi.vendorproductname, cv));
    assert(views(fields@) == f1);
    push_field(&mut fields, "version", &render_template_chars(&chars_of_string(&v.version), &caps));
    let ghost f2 = f1 + named_field("version"@, render_template(vi.version, cv));
    assert(views(fields@) == f2);
    push_field(&mut fields, "info", &render_template_chars(&chars_of_string(&v.info), &caps));
    let ghost f3 = f2 + named_field("info"@, render_template(vi.info, cv));
    assert(views(fields@) == f3);
    push_field(&mut fields, "hostname", &render_template_chars(&chars_of_string(&v.hostname), &caps));
    let ghost f4 = f3 + named_field("hostname"@, render_template(vi.hostname, cv));
    assert(views(fields@) == f4);
    push_field(&mut fields, "os", &render_template_chars(&chars_of_string(&v.operatingsystem), &caps));
    let ghost f5 = f4 + named_field("os"@, render_template(vi.operatingsystem, cv));
    assert(views(fields@) == f5);
    push_field(&mut fields, "device", &render_template_chars(&chars_of_string(&v.devicetype), &caps));
    let ghost f6 = f5 + named_field("device"@, render_template(vi.devicetype, cv));
    assert(views(fields@) == f6);
    if v.cpename.len() > 0 {
        let mut cpes: Vec<Vec<char>> = Vec::new();
        let mut j: usize = 0;
        while j < v.cpename.len()
            invariant
                j <= v.cpename.len(),
                cv == opt_views(caps@),
                views(fields@) == f6,
                vi == rule@.versioninfo,
                views(cpes@) == rendered_all(rule@.versioninfo.cpename.take(j as int), cv),
                v == &rule.versioninfo,
            decreases v.cpename.len() - j,
        {
            let r = render_template_chars(&chars_of_string(&v.cpename[j]), &caps);
            let ghost before = cpes@;
            cpes.push(r);
            proof {
                assert(views(before).len() == before.len());
                let all = rule@.versioninfo.cpename;
                let lhs = views(cpes@);
                let rhs = rendered_all(all.take(j + 1), cv);
                let prev = rendered_all(all.take(j as int), cv);
                assert(all[j as int] == v.cpename@[j as int]@);
                assert forall|k: int| 0 <= k < j + 1 implies lhs[k] == rhs[k] by {
                    if k < j {
                        assert(cpes@[k] == before[k]);
                        assert(views(before)[k] == prev[k]);
                        assert(all.take(j as int)[k] == all.take(j + 1)[k]);
                    }
                }
                assert(lhs =~= rhs);
            }
            j = j + 1;
        }
        assert(rule@.versioninfo.cpename.take(v.cpename.len() as int) =~= rule@.versioninfo.cpename);
        let mut cpe_field = chars_of("cpe=");
        let comma = vec![','];
        assert(comma@ =~= seq![',']);
        append(&mut cpe_field, &join_chars(&cpes, &comma));
        assert(cpe_field@ =~= "cpe="@ + join(rendered_all(vi.cpename, cv), seq![',']));
        let ghost before = fields@;
        fields.push(cpe_field);
        assert(views(fields@) =~= views(before) + seq![cpe_field@]);
    }
    assert(views(fields@) =~= summary_fields(rule@, cv));
    let space = vec![' '];
    assert(space@ =~= seq![' ']);
    let summary = join_chars(&fields, &space);
    ServiceMatch {
        service: rule.service.clone(),
        summary: string_from_chars(summary.as_slice()),
        soft,
    }
}

/// Tries one rule on a response.
fn match_rule(rule: &MatchRule, response: &[u8], soft: bool) -> (r: Option<ServiceMatch>)
    ensures
        opt_match_view(r) == spec_match_rule(rule@, response@, soft),
{
    let flags = chars_of_string(&rule.pattern_flag);
    let ci = contains_char(&flags, 'i');
    let dot = contains_char(&flags, 's');
    let sig = match compile_signature(rule.pattern.as_str(), ci, dot) {
        Some(sig) => sig,
        None => return None,
    };
    let caps = match signature_captures(&sig, response) {
        Some(caps) => caps,
        None => return None,
    };
    let ghost cb = captures_view(Some(caps))->Some_0;
    let mut texts: Vec<Option<String>> = Vec::new();
    let mut i: usize = 0;
    while i < caps.len()
        invariant
            i <= caps.len(),
            cb == captures_view(Some(caps))->Some_0,
            opt_string_views(texts@) == capture_texts(cb.take(i as int)),
        decreases caps.len() - i,
    {
        let t = match &caps[i] {
            Some(b) => Some(text_of_bytes(b.as_slice())),
            None => None,
        };
        let ghost before = texts@;
        texts.push(t);
        proof {
            assert(opt_string_views(before).len() == before.len());
            let lhs = opt_string_views(texts@);
            let rhs = capture_texts(cb.take(i + 1));
            let prev = capture_texts(cb.take(i as int));
            assert(cb[i as int] == match caps@[i as int] {
                Some(b) => Some(b@),
                None => None::<Seq<u8>>,
            });
            assert forall|j: int| 0 <= j < i + 1 implies lhs[j] == rhs[j] by {
                if j < i {
                    assert(texts@[j] == before[j]);
                    assert(opt_string_views(before)[j] == prev[j]);
                    assert(cb.take(i as int)[j] == cb.take(i + 1)[j]);
                }
            }
            assert(lhs =~= rhs);
        }
        i = i + 1;
    }
    assert(cb.take(caps.len() as int) =~= cb);
    Some(render_service_match(rule, &texts, soft))
}

fn first_match_in(rules: &Vec<MatchRule>, response: &[u8], soft: bool) -> (r: Option<ServiceMatch>)
    ensures
        opt_match_view(r) == first_match(rule_views(rules@), response@, soft, 0),
{
    let ghost rv = rule_views(rules@);
    let mut i: usize = 0;
    while i < rules.len()
        invariant
            i <= rules.len(),
            rv == rule_views(rules@),
            first_match(rv, response@, soft, 0) == first_match(rv, response@, soft, i as int),
        decreases rules.len() - i,
    {
        let r = match_rule(&rules[i], response, soft);
        assert(rv[i as int] == rules@[i as int]@);
        if r.is_some() {
            return r;
        }
        i = i + 1;
    }
    None
}

/// Identifies the service behind a response with a probe's signatures: the
/// first `match` rule whose regex matches wins, else the first such
/// `softmatch` rule; rules whose regex the regex crate rejects are skipped.
pub fn match_probe_response(probe: &NmapProbe, response: &[u8]) -> (r: Option<ServiceMatch>)
    ensures
        opt_match_view(r) == spec_match_probe(probe@, response@),
{
    match first_match_in(&probe.matches, response, false) {
        Some(m) => Some(m),
        None => first_match_in(&probe.softmatches, response, true),
    }
}

} // verus!

verus! {

/// The `softmatch` rules when `soft`, else the `match` rules.
pub open spec fn rule_list(probe: NmapProbeView, soft: bool) -> Seq<MatchRuleView> {
    if soft {
        probe.softmatches
    } else {
        probe.matches
    }
}

proof fn lemma_first_match_removed(rules: Seq<MatchRuleView>, response: Seq<u8>, soft: bool, i: int, j: int)
    requires
        0 <= i <= j < rules.len() - 1 || (0 <= i < rules.len() && j == rules.len() - 1),
    ensures
        first_match(rules.remove(i), response, soft, j) == first_match(rules, response, soft, j + 1),
    decreases rules.len() - j,
{
    let removed = rules.remove(i);
    if j < rules.len() - 1 {
        assert(removed[j] == rules[j + 1]);
        lemma_first_match_removed(rules, response, soft, i, j + 1);
    }
}

proof fn lemma_first_match_prefix(rules: Seq<MatchRuleView>, response: Seq<u8>, soft: bool, i: int, j: int)
    requires
        0 <= j <= i < rules.len(),
        spec_match_rule(rules[i], response, soft) is None,
    ensures
        first_match(rules.remove(i), response, soft, j) == first_match(rules, response, soft, j),
    decreases i - j,
{
    let removed = rules.remove(i);
    if j < i {
        assert(removed[j] == rules[j]);
        lemma_first_match_prefix(rules, response, soft, i, j + 1);
    } else {
        if i < rules.len() - 1 {
            lemma_first_match_removed(rules, response, soft, i, i);
        } else {
            assert(removed.len() == i);
        }
    }
}

/// A signature whose regex the regex crate rejects is skipped without
/// effect: dropping it from either rule list leaves the verdict unchanged.
pub proof fn law_rejected_signature_is_skipped(probe: NmapProbeView, response: Seq<u8>, i: int, soft_list: bool)
    requires
        0 <= i < (if soft_list { probe.softmatches.len() } else { probe.matches.len() }),
        ({
            let rule = if soft_list { probe.softmatches[i] } else { probe.matches[i] };
            !regex_compiles(rule.pattern, rule.pattern_flag.contains('i'), rule.pattern_flag.contains('s'))
        }),
    ensures
        spec_match_probe(
            if soft_list {
                NmapProbeView { softmatches: probe.softmatches.remove(i), ..probe }
            } else {
                NmapProbeView { matches: probe.matches.remove(i), ..probe }
            },
            response,
        ) == spec_match_probe(probe, response),
{
    if soft_list {
        lemma_first_match_prefix(probe.softmatches, response, true, i, 0);
    } else {
        lemma_first_match_prefix(probe.matches, response, false, i, 0);
    }
}

proof fn lemma_first_match_source(rules: Seq<MatchRuleView>, response: Seq<u8>, soft: bool, j: int)
    requires
        0 <= j,
    ensures
        first_match(rules, response, soft, j) matches Some(m) ==> exists|i: int|
            j <= i < rules.len() && #[trigger] spec_match_rule(rules[i], response, soft) == Some(m),
    decreases rules.len() - j,
{
    if j < rules.len() && spec_match_rule(rules[j], response, soft) is None {
        lemma_first_match_source(rules, response, soft, j + 1);
    }
}

proof fn lemma_first_match_none(rules: Seq<MatchRuleView>, response: Seq<u8>, soft: bool, j: int)
    requires
        0 <= j,
        first_match(rules, response, soft, j) is None,
    ensures
        forall|i: int| j <= i < rules.len() ==> #[trigger] spec_match_rule(rules[i], response, soft) is None,
    decreases rules.len() - j,
{
    if j < rules.len() {
        lemma_first_match_none(rules, response, soft, j + 1);
    }
}

proof fn lemma_join_prefix(parts: Seq<Seq<char>>, sep: Seq<char>)
    requires
        parts.len() > 0,
    ensures
        has_prefix(join(parts, sep), parts[0]),
    decreases parts.len(),
{
    if parts.len() > 1 {
        lemma_join_prefix(parts.drop_last(), sep);
        let j = join(parts.drop_last(), sep);
        assert((j + sep + parts.last()).subrange(0, parts[0].len() as int) =~= j.subrange(
            0,
            parts[0].len() as int,
        ));
    } else {
        assert(parts[0].subrange(0, parts[0].len() as int) =~= parts[0]);
    }
}

/// What a probe reports comes from a rule that matched the response: a
/// `match` rule when one did, and a `softmatch` rule only when none did. The
/// summary begins with `service=` and that rule's service.
pub proof fn law_match_comes_from_a_matching_rule(probe: NmapProbeView, response: Seq<u8>)
    ensures
        spec_match_probe(probe, response) matches Some(m) ==> {
            &&& m.soft ==> forall|i: int| 0 <= i < probe.matches.len() ==> #[trigger] spec_match_rule(
                probe.matches[i],
                response,
                false,
            ) is None
            &&& exists|i: int| 0 <= i < rule_list(probe, m.soft).len()
                && #[trigger] spec_match_rule(rule_list(probe, m.soft)[i], response, m.soft) == Some(m)
            &&& has_prefix(m.summary, "service="@ + m.service)
        },
{
    lemma_first_match_source(probe.matches, response, false, 0);
    lemma_first_match_source(probe.softmatches, response, true, 0);
    if let Some(m) = spec_match_probe(probe, response) {
        let hard = first_match(probe.matches, response, false, 0);
        if hard is None {
            lemma_first_match_none(probe.matches, response, false, 0);
            let i = choose|i: int| 0 <= i < probe.softmatches.len() && #[trigger] spec_match_rule(probe.softmatches[i], response, true) == Some(m);
            assert(m.soft);
            assert(spec_match_rule(rule_list(probe, m.soft)[i], response, m.soft) == Some(m));
            let rule = probe.softmatches[i];
            let caps = capture_texts(regex_captures(rule.pattern, rule.pattern_flag.contains('i'), rule.pattern_flag.contains('s'), response)->Some_0);
            lemma_join_prefix(summary_fields(rule, caps), seq![' ']);
        } else {
            let i = choose|i: int| 0 <= i < probe.matches.len() && #[trigger] spec_match_rule(probe.matches[i], response, false) == Some(m);
            assert(!m.soft);
            assert(spec_match_rule(rule_list(probe, m.soft)[i], response, m.soft) == Some(m));
            let rule = probe.matches[i];
            let caps = capture_texts(regex_captures(rule.pattern, rule.pattern_flag.contains('i'), rule.pattern_flag.contains('s'), response)->Some_0);
            lemma_join_prefix(summary_fields(rule, caps), seq![' ']);
        }
    }
}

} // verus!

verus! {

proof fn lemma_first_match_at(rules: Seq<MatchRuleView>, response: Seq<u8>, soft: bool, j: int, i: int)
    requires
        0 <= j <= i < rules.len(),
        spec_match_rule(rules[i], response, soft) is Some,
        forall|k: int| 0 <= k < i ==> #[trigger] spec_match_rule(rules[k], response, soft) is None,
    ensures
        first_match(rules, response, soft, j) == spec_match_rule(rules[i], response, soft),
    decreases i - j,
{
    if j < i {
        assert(spec_match_rule(rules[j], response, soft) is None);
        lemma_first_match_at(rules, response, soft, j + 1, i);
    }
}

proof fn lemma_no_rule_matches(rules: Seq<MatchRuleView>, response: Seq<u8>, soft: bool, j: int)
    requires
        0 <= j,
        forall|k: int| 0 <= k < rules.len() ==> #[trigger] spec_match_rule(rules[k], response, soft) is None,
    ensures
        first_match(rules, response, soft, j) is None,
    decreases rules.len() - j,
{
    if j < rules.len() {
        assert(spec_match_rule(rules[j], response, soft) is None);
        lemma_no_rule_matches(rules, response, soft, j + 1);
    }
}

/// The earliest matching rule decides: when `match` rule `i` matches the
/// response and no earlier `match` rule does, the probe's verdict is rule
/// `i`'s match; when no `match` rule matches, the same holds of the first
/// matching `softmatch` rule; when no rule at all matches there is no verdict.
pub proof fn law_first_matching_rule_wins(probe: NmapProbeView, response: Seq<u8>, i: int, soft: bool)
    requires
        0 <= i < rule_list(probe, soft).len(),
        spec_match_rule(rule_list(probe, soft)[i], response, soft) is Some,
        forall|k: int|
            0 <= k < i ==> #[trigger] spec_match_rule(rule_list(probe, soft)[k], response, soft) is None,
        soft ==> forall|k: int|
            0 <= k < probe.matches.len() ==> #[trigger] spec_match_rule(probe.matches[k], response, false)
                is None,
    ensures
        spec_match_probe(probe, response) == spec_match_rule(rule_list(probe, soft)[i], response, soft),
{
    lemma_first_match_at(rule_list(probe, soft), response, soft, 0, i);
    if soft {
        lemma_no_rule_matches(probe.matches, response, false, 0);
    }
}

/// With no rule matching the response, a probe gives no verdict.
pub proof fn law_no_matching_rule_no_verdict(probe: NmapProbeView, response: Seq<u8>)
    requires
        forall|k: int|
            0 <= k < probe.matches.len() ==> #[trigger] spec_match_rule(probe.matches[k], response, false)
                is None,
        forall|k: int|
            0 <= k < probe.softmatches.len() ==> #[trigger] spec_match_rule(probe.softmatches[k], response, true)
                is None,
    ensures
        spec_match_probe(probe, response) is None,
{
    lemma_no_rule_matches(probe.matches, response, false, 0);
    lemma_no_rule_matches(probe.softmatches, response, true, 0);
}

} // verus!
