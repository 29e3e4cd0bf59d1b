//! The scanner's decisions: ordering open ports, choosing which probes to
//! send to a port, and concluding what a port's service is from the
//! responses to those probes.
use crate::probe::{NmapProbe, NmapProbeView, ServiceMatchView};
use crate::signature::{match_probe_response, spec_match_probe};
use vstd::prelude::*;

verus! {

broadcast use vstd::seq_lib::group_to_multiset_ensures;

pub open spec fn ascending(s: Seq<u16>) -> bool {
    forall|i: int, j: int| 0 <= i <= j < s.len() ==> s[i] <= s[j]
}

/// The ports in ascending order (the same ports, as many times each).
pub fn sort_ports(ports: Vec<u16>) -> (r: Vec<u16>)
    ensures
        ascending(r@),
        r@.to_multiset() == ports@.to_multiset(),
{
    let mut out: Vec<u16> = Vec::new();
    let mut k: usize = 0;
    while k < ports.len()
        invariant
            k <= ports.len(),
            ascending(out@),
            out@.to_multiset() == ports@.take(k as int).to_multiset(),
        decreases ports.len() - k,
    {
        let x = ports[k];
        let mut pos: usize = 0;
        while pos < out.len() && out[pos] <= x
            invariant
                pos <= out.len(),
                forall|j: int| 0 <= j < pos ==> out@[j] <= x,
            decreases out.len() - pos,
        {
            pos = pos + 1;
        }
        let ghost before = out@;
        out.insert(pos, x);
        proof {
            assert(ports@.take(k + 1) =~= ports@.take(k as int).push(x));
            assert forall|i: int, j: int| 0 <= i <= j < out@.len() implies out@[i] <= out@[j] by {
                if pos < before.len() {
                    assert(x < before[pos as int]);
                }
            }
        }
        k = k + 1;
    }
    assert(ports@.take(ports.len() as int) =~= ports@);
    out
}

/// What identifying the service on one port has learnt so far.
pub struct Identification {
    pub last_probe: Option<String>,
    pub received_response: bool,
}

/// The conclusion about a port's service: the service, the probe that
/// settled it (or the last one sent) and a human-readable detail.
pub struct ServiceReport {
    pub service: Option<String>,
    pub probe: Option<String>,
    pub details: Option<String>,
}

/// After a probe's response: either the service is known, or go on with the
/// next probe.
pub enum IdentifyStep {
    Identified(ServiceReport),
    Continue(Identification),
}

pub struct IdentificationView {
    pub last_probe: Option<Seq<char>>,
    pub received_response: bool,
}

pub struct ServiceReportView {
    pub service: Option<Seq<char>>,
    pub probe: Option<Seq<char>>,
    pub details: Option<Seq<char>>,
}

pub open spec fn opt_string_view(o: Option<String>) -> Option<Seq<char>> {
    match o {
        Some(s) => Some(s@),
        None => None,
    }
}

impl View for Identification {
    type V = IdentificationView;

    open spec fn view(&self) -> IdentificationView {
        IdentificationView {
            last_probe: opt_string_view(self.last_probe),
            received_response: self.received_response,
        }
    }
}

impl View for ServiceReport {
    type V = ServiceReportView;

    open spec fn view(&self) -> ServiceReportView {
        ServiceReportView {
            service: opt_string_view(self.service),
            probe: opt_string_view(self.probe),
            details: opt_string_view(self.details),
        }
    }
}

/// The detail reported for a match: its summary, marked when it is soft.
pub open spec fn match_details(m: ServiceMatchView) -> Seq<char> {
    if m.soft {
        "softmatch "@ + m.summary
    } else {
        m.summary
    }
}

/// The decision after sending `probe` and getting `response` (`None` when
/// the probe could not be delivered).
pub open spec fn spec_identify_step(
    state: IdentificationView,
    probe: NmapProbeView,
    response: Option<Seq<u8>>,
) -> Result<ServiceReportView, IdentificationView> {
    let tried = IdentificationView { last_probe: Some(probe.probename), ..state };
    match response {
        None => Err(tried),
        Some(r) => if r.len() == 0 {
            Err(tried)
        } else {
            match spec_match_probe(probe, r) {
                Some(m) => Ok(
                    ServiceReportView {
                        service: Some(m.service),
                        probe: Some(probe.probename),
                        details: Some(match_details(m)),
                    },
                ),
                None => Err(IdentificationView { received_response: true, ..tried }),
            }
        },
    }
}

/// The conclusion once every chosen probe was tried without a match.
pub open spec fn spec_identify_finish(state: IdentificationView) -> ServiceReportView {
    ServiceReportView {
        service: None,
        probe: state.last_probe,
        details: Some(
            if state.received_response {
                "response received, but no supported signature matched"@
            } else {
                "no banner received before timeout"@
            },
        ),
    }
}

/// Nothing learnt yet.
pub fn identify_start() -> (r: Identification)
    ensures
        r@ == (IdentificationView { last_probe: None, received_response: false }),
{
    Identification { last_probe: None, received_response: false }
}

/// Takes in the response to one probe: an empty or missing response moves
/// on, a response that a signature of the probe matches settles the
/// service, any other response is remembered and moves on.
pub fn identify_step(state: Identification, probe: &NmapProbe, response: Option<Vec<u8>>) -> (r:
    IdentifyStep)
    ensures
        match r {
            IdentifyStep::Identified(report) => spec_identify_step(
                state@,
                probe@,
                match response {
                    Some(v) => Some(v@),
                    None => None,
                },
            ) == Ok::<ServiceReportView, IdentificationView>(report@),
            IdentifyStep::Continue(next) => spec_identify_step(
                state@,
                probe@,
                match response {
                    Some(v) => Some(v@),
                    None => None,
                },
            ) == Err::<ServiceReportView, IdentificationView>(next@),
        },
{
    let tried = Identification {
        last_probe: Some(probe.probename.clone()),
        received_response: state.received_response,
    };
    match response {
        None => IdentifyStep::Continue(tried),
        Some(r) => {
            if r.len() == 0 {
                return IdentifyStep::Continue(tried);
            }
            match match_probe_response(probe, r.as_slice()) {
                Some(m) => {
                    let details = if m.soft {
                        let mut d = crate::text::chars_of("softmatch ");
                        crate::text::append(&mut d, &crate::text::chars_of_string(&m.summary));
                        crate::text::string_from_chars(d.as_slice())
                    } else {
                        m.summary
                    };
                    IdentifyStep::Identified(
                        ServiceReport {
                            service: Some(m.service),
                            probe: Some(probe.probename.clone()),
                            details: Some(details),
                        },
                    )
                },
                None => IdentifyStep::Continue(
                    Identification { last_probe: tried.last_probe, received_response: true },
                ),
            }
        },
    }
}

/// The report when no probe identified the service.
pub fn identify_finish(state: Identification) -> (r: ServiceReport)
    ensures
        r@ == spec_identify_finish(state@),
{
    let details = if state.received_response {
        crate::text::string_from_chars(
            crate::text::chars_of("response received, but no supported signature matched").as_slice(),
        )
    } else {
        crate::text::string_from_chars(
            crate::text::chars_of("no banner received before timeout").as_slice(),
        )
    };
    ServiceReport { service: None, probe: state.last_probe, details: Some(details) }
}

} // verus!

verus! {

pub open spec fn is_tcp(p: NmapProbeView) -> bool {
    p.protocol == "TCP"@
}

/// The probe that suits a well-known web port best.
pub open spec fn preferred_name(port: u16) -> Option<Seq<char>> {
    if port == 80 || port == 8000 || port == 8080 {
        Some("GetRequest"@)
    } else if port == 443 || port == 8443 {
        Some("SSLSessionReq"@)
    } else {
        None
    }
}

/// The first TCP probe named `name` at or after `i`.
pub open spec fn first_named_from(probes: Seq<NmapProbeView>, name: Seq<char>, i: int) -> Option<int>
    decreases probes.len() - i,
{
    if i < 0 || i >= probes.len() {
        None
    } else if is_tcp(probes[i]) && probes[i].probename == name {
        Some(i)
    } else {
        first_named_from(probes, name, i + 1)
    }
}

/// A TCP probe whose `ports` or `sslports` name the port.
pub open spec fn serves_port(p: NmapProbeView, port: u16) -> bool {
    is_tcp(p) && (crate::ports::spec_port_spec_contains(p.ports, port)
        || crate::ports::spec_port_spec_contains(p.sslports, port))
}

/// A probe's rarity as a number; an unreadable rarity ranks last.
pub open spec fn rarity_key(p: NmapProbeView) -> nat {
    match crate::ports::parse_u8(p.rarity) {
        Some(v) => v as nat,
        None => 255,
    }
}

/// The probes among the first `i` that serve the port with rarity `key`, in order.
pub open spec fn bucket(probes: Seq<NmapProbeView>, port: u16, key: nat, i: int) -> Seq<int>
    decreases i,
{
    if i <= 0 {
        seq![]
    } else {
        bucket(probes, port, key, i - 1) + (if serves_port(probes[i - 1], port) && rarity_key(
            probes[i - 1],
        ) == key {
            seq![i - 1]
        } else {
            seq![]
        })
    }
}

/// The probes serving the port with rarity below `k`, by ascending rarity,
/// ties in database order.
pub open spec fn by_rarity_upto(probes: Seq<NmapProbeView>, port: u16, k: int) -> Seq<int>
    decreases k,
{
    if k <= 0 {
        seq![]
    } else {
        by_rarity_upto(probes, port, k - 1) + bucket(probes, port, (k - 1) as nat, probes.len() as int)
    }
}

pub open spec fn opt_index(o: Option<int>) -> Seq<int> {
    match o {
        Some(i) => seq![i],
        None => seq![],
    }
}

/// The probes considered for a port, in order: the preferred probe for a
/// web port, the probes serving the port by ascending rarity, and `NULL`.
pub open spec fn candidates(probes: Seq<NmapProbeView>, port: u16) -> Seq<int> {
    (match preferred_name(port) {
        Some(n) => opt_index(first_named_from(probes, n, 0)),
        None => seq![],
    }) + by_rarity_upto(probes, port, 256) + opt_index(first_named_from(probes, "NULL"@, 0))
}

pub open spec fn name_taken(probes: Seq<NmapProbeView>, sel: Seq<int>, name: Seq<char>) -> bool {
    exists|j: int| 0 <= j < sel.len() && #[trigger] probes[sel[j]].probename == name
}

/// The first `k` candidates with later ones of an already chosen name dropped.
pub open spec fn distinct_upto(probes: Seq<NmapProbeView>, cand: Seq<int>, k: int) -> Seq<int>
    decreases k,
{
    if k <= 0 {
        seq![]
    } else {
        let prev = distinct_upto(probes, cand, k - 1);
        if name_taken(probes, prev, probes[cand[k - 1]].probename) {
            prev
        } else {
            prev.push(cand[k - 1])
        }
    }
}

/// `select_probes`: the candidates with distinct names, at most `limit` of them.
pub open spec fn spec_select(probes: Seq<NmapProbeView>, port: u16, limit: nat) -> Seq<int> {
    let cand = candidates(probes, port);
    let d = distinct_upto(probes, cand, cand.len() as int);
    if limit < d.len() {
        d.take(limit as int)
    } else {
        d
    }
}

fn first_named(probes: &[NmapProbe], tcp: &Vec<char>, name: &Vec<char>) -> (r: Option<usize>)
    requires
        tcp@ == "TCP"@,
    ensures
        as_opt_int(r) == first_named_from(crate::probe::probe_views(probes@), name@, 0),
        r matches Some(i) ==> i < probes.len(),
{
    let ghost pv = crate::probe::probe_views(probes@);
    let mut i: usize = 0;
    while i < probes.len()
        invariant
            i <= probes.len(),
            tcp@ == "TCP"@,
            pv == crate::probe::probe_views(probes@),
            first_named_from(pv, name@, 0) == first_named_from(pv, name@, i as int),
        decreases probes.len() - i,
    {
        assert(pv[i as int] == probes@[i as int]@);
        let p = &probes[i];
        if crate::text::chars_eq(&crate::text::chars_of_string(&p.protocol), tcp)
            && crate::text::chars_eq(&crate::text::chars_of_string(&p.probename), name) {
            return Some(i);
        }
        i = i + 1;
    }
    None
}

pub open spec fn as_opt_int(o: Option<usize>) -> Option<int> {
    match o {
        Some(k) => Some(k as int),
        None => None,
    }
}

fn push_opt(cand: &mut Vec<usize>, o: Option<usize>)
    ensures
        usize_ints(final(cand)@) == usize_ints(old(cand)@) + opt_index(as_opt_int(o)),
        final(cand)@ == match o {
            Some(i) => old(cand)@.push(i),
            None => old(cand)@,
        },
{
    let ghost before = cand@;
    match o {
        Some(i) => {
            cand.push(i);
            assert(usize_ints(cand@) =~= usize_ints(before) + seq![i as int]);
        },
        None => {
            assert(usize_ints(cand@) =~= usize_ints(before) + Seq::<int>::empty());
        },
    }
}

pub open spec fn usize_ints(s: Seq<usize>) -> Seq<int> {
    s.map_values(|x: usize| x as int)
}

fn names_contain(names: &Vec<Vec<char>>, name: &Vec<char>) -> (r: bool)
    ensures
        r == exists|j: int| 0 <= j < names.len() && #[trigger] names@[j]@ == name@,
{
    let mut j: usize = 0;
    while j < names.len()
        invariant
            j <= names.len(),
            forall|k: int| 0 <= k < j ==> names@[k]@ != name@,
        decreases names.len() - j,
    {
        if crate::text::chars_eq(&names[j], name) {
            return true;
        }
        j = j + 1;
    }
    false
}

/// The probes to send to an open port, in order: the preferred probe of a
/// web port, then the TCP probes whose `ports` or `sslports` name the port
/// by ascending rarity (ties in database order), then `NULL`; each name at
/// most once, and at most `limit` probes.
pub fn select_probes(probes: &[NmapProbe], port: u16, limit: usize) -> (r: Vec<&NmapProbe>)
    ensures
        r@.len() == spec_select(crate::probe::probe_views(probes@), port, limit as nat).len(),
        forall|j: int|
            0 <= j < r@.len() ==> {
                let k = #[trigger] spec_select(crate::probe::probe_views(probes@), port, limit as nat)[j];
                0 <= k < probes@.len() && *r@[j] == probes@[k]
            },
{
    let ghost pv = crate::probe::probe_views(probes@);
    let tcp = crate::text::chars_of("TCP");
    let mut cand: Vec<usize> = Vec::new();
    let preferred: Option<&str> = if port == 80 || port == 8000 || port == 8080 {
        Some("GetRequest")
    } else if port == 443 || port == 8443 {
        Some("SSLSessionReq")
    } else {
        None
    };
    match preferred {
        Some(name) => {
            let found = first_named(probes, &tcp, &crate::text::chars_of(name));
            push_opt(&mut cand, found);
        },
        None => {},
    }
    assert(usize_ints(cand@) == (match preferred_name(port) {
        Some(n) => opt_index(first_named_from(pv, n, 0)),
        None => Seq::<int>::empty(),
    })) by {
        if preferred_name(port) is None {
            assert(usize_ints(cand@) =~= Seq::<int>::empty());
        }
    }
    // Which probes serve the port, and their rarity.
    let mut serves: Vec<bool> = Vec::new();
    let mut keys: Vec<usize> = Vec::new();
    let mut i: usize = 0;
    while i < probes.len()
        invariant
            i <= probes.len(),
            tcp@ == "TCP"@,
            pv == crate::probe::probe_views(probes@),
            serves.len() == i,
            keys.len() == i,
            forall|j: int| 0 <= j < i ==> #[trigger] serves@[j] == serves_port(pv[j], port),
            forall|j: int| 0 <= j < i ==> #[trigger] keys@[j] == rarity_key(pv[j]),
            forall|j: int| 0 <= j < cand.len() ==> #[trigger] cand@[j] < probes.len(),
            usize_ints(cand@) == (match preferred_name(port) {
                Some(n) => opt_index(first_named_from(pv, n, 0)),
                None => Seq::<int>::empty(),
            }),
        decreases probes.len() - i,
    {
        let p = &probes[i];
        assert(pv[i as int] == p@);
        let ok = crate::text::chars_eq(&crate::text::chars_of_string(&p.protocol), &tcp) && (
        crate::ports::port_spec_contains(p.ports.as_str(), port)
            || crate::ports::port_spec_contains(p.sslports.as_str(), port));
        let key: usize = match crate::ports::parse_u8_chars(&crate::text::chars_of_string(&p.rarity)) {
            Some(v) => v as usize,
            None => 255,
        };
        serves.push(ok);
        keys.push(key);
        i = i + 1;
    }
    // Stable ordering by rarity.
    let ghost start = usize_ints(cand@);
    assert(start + by_rarity_upto(pv, port, 0) =~= start);
    let mut key: usize = 0;
    while key < 256
        invariant
            key <= 256,
            serves.len() == probes.len(),
            keys.len() == probes.len(),
            pv == crate::probe::probe_views(probes@),
            pv.len() == probes.len(),
            forall|j: int| 0 <= j < probes.len() ==> #[trigger] serves@[j] == serves_port(pv[j], port),
            forall|j: int| 0 <= j < probes.len() ==> #[trigger] keys@[j] == rarity_key(pv[j]),
            usize_ints(cand@) == start + by_rarity_upto(pv, port, key as int),
            forall|j: int| 0 <= j < cand.len() ==> #[trigger] cand@[j] < probes.len(),
        decreases 256 - key,
    {
        let ghost level = usize_ints(cand@);
        let mut i: usize = 0;
        while i < probes.len()
            invariant
                i <= probes.len(),
                key < 256,
                serves.len() == probes.len(),
                keys.len() == probes.len(),
                pv.len() == probes.len(),
                forall|j: int| 0 <= j < probes.len() ==> #[trigger] serves@[j] == serves_port(pv[j], port),
                forall|j: int| 0 <= j < probes.len() ==> #[trigger] keys@[j] == rarity_key(pv[j]),
                usize_ints(cand@) == level + bucket(pv, port, key as nat, i as int),
                forall|j: int| 0 <= j < cand.len() ==> #[trigger] cand@[j] < probes.len(),
            decreases probes.len() - i,
        {
            let ghost before = cand@;
            if serves[i] && keys[i] == key {
                cand.push(i);
                assert(usize_ints(cand@) =~= usize_ints(before) + seq![i as int]);
            } else {
                assert(usize_ints(cand@) =~= usize_ints(before) + Seq::<int>::empty());
            }
            i = i + 1;
        }
        key = key + 1;
    }
    let found_null = first_named(probes, &tcp, &crate::text::chars_of("NULL"));
    push_opt(&mut cand, found_null);
    let ghost cv = usize_ints(cand@);
    assert(cv =~= candidates(pv, port));
    // Each name once.
    let mut selected: Vec<usize> = Vec::new();
    let mut names: Vec<Vec<char>> = Vec::new();
    let mut c: usize = 0;
    while c < cand.len()
        invariant
            c <= cand.len(),
            cv == usize_ints(cand@),
            cv == candidates(pv, port),
            pv == crate::probe::probe_views(probes@),
            pv.len() == probes.len(),
            forall|j: int| 0 <= j < cand.len() ==> #[trigger] cand@[j] < probes.len(),
            usize_ints(selected@) == distinct_upto(pv, cv, c as int),
            names.len() == selected.len(),
            forall|j: int| 0 <= j < selected.len() ==> #[trigger] selected@[j] < probes.len(),
            forall|j: int| 0 <= j < names.len() ==> #[trigger] names@[j]@ == pv[selected@[j] as int].probename,
        decreases cand.len() - c,
    {
        let idx = cand[c];
        let name = crate::text::chars_of_string(&probes[idx].probename);
        assert(pv[idx as int] == probes@[idx as int]@);
        let ghost prev = usize_ints(selected@);
        proof {
            let taken = name_taken(pv, prev, name@);
            let listed = exists|j: int| 0 <= j < names.len() && #[trigger] names@[j]@ == name@;
            if taken {
                let j = choose|j: int| 0 <= j < prev.len() && #[trigger] pv[prev[j]].probename == name@;
                assert(names@[j]@ == name@);
            }
            if listed {
                let j = choose|j: int| 0 <= j < names.len() && #[trigger] names@[j]@ == name@;
                assert(pv[prev[j]].probename == name@);
            }
        }
        if !names_contain(&names, &name) {
            let ghost before = selected@;
            selected.push(idx);
            names.push(name);
            assert(usize_ints(selected@) =~= prev.push(idx as int));
        }
        c = c + 1;
    }
    let ghost d = usize_ints(selected@);
    selected.truncate(limit);
    let mut r: Vec<&NmapProbe> = Vec::new();
    let mut j: usize = 0;
    while j < selected.len()
        invariant
            j <= selected.len(),
            forall|k: int| 0 <= k < selected.len() ==> #[trigger] selected@[k] < probes.len(),
            r@.len() == j,
            forall|k: int| 0 <= k < j ==> *#[trigger] r@[k] == probes@[selected@[k] as int],
        decreases selected.len() - j,
    {
        r.push(&probes[selected[j]]);
        j = j + 1;
    }
    proof {
        let sel = spec_select(pv, port, limit as nat);
        assert(usize_ints(selected@) =~= sel);
        assert forall|k: int| 0 <= k < r@.len() implies sel[k] == selected@[k] as int by {
            assert(usize_ints(selected@)[k] == selected@[k] as int);
        }
    }
    r
}

} // verus!

verus! {

proof fn lemma_first_named_tcp(probes: Seq<NmapProbeView>, name: Seq<char>, i: int)
    ensures
        first_named_from(probes, name, i) matches Some(k) ==> 0 <= k < probes.len() && is_tcp(
            probes[k],
        ),
    decreases probes.len() - i,
{
    if !(i < 0 || i >= probes.len()) && !(is_tcp(probes[i]) && probes[i].probename == name) {
        lemma_first_named_tcp(probes, name, i + 1);
    }
}

proof fn lemma_bucket_tcp(probes: Seq<NmapProbeView>, port: u16, key: nat, i: int)
    requires
        i <= probes.len(),
    ensures
        forall|j: int|
            0 <= j < bucket(probes, port, key, i).len() ==> {
                let k = #[trigger] bucket(probes, port, key, i)[j];
                0 <= k < probes.len() && is_tcp(probes[k])
            },
    decreases i,
{
    if i > 0 {
        lemma_bucket_tcp(probes, port, key, i - 1);
        let prev = bucket(probes, port, key, i - 1);
        let cur = bucket(probes, port, key, i);
        assert forall|j: int| 0 <= j < cur.len() implies {
            let k = #[trigger] cur[j];
            0 <= k < probes.len() && is_tcp(probes[k])
        } by {
            if j < prev.len() {
                assert(cur[j] == prev[j]);
            }
        }
    }
}

proof fn lemma_by_rarity_tcp(probes: Seq<NmapProbeView>, port: u16, k: int)
    ensures
        forall|j: int|
            0 <= j < by_rarity_upto(probes, port, k).len() ==> {
                let x = #[trigger] by_rarity_upto(probes, port, k)[j];
                0 <= x < probes.len() && is_tcp(probes[x])
            },
    decreases k,
{
    if k > 0 {
        lemma_by_rarity_tcp(probes, port, k - 1);
        lemma_bucket_tcp(probes, port, (k - 1) as nat, probes.len() as int);
        let prev = by_rarity_upto(probes, port, k - 1);
        let b = bucket(probes, port, (k - 1) as nat, probes.len() as int);
        let cur = by_rarity_upto(probes, port, k);
        assert forall|j: int| 0 <= j < cur.len() implies {
            let x = #[trigger] cur[j];
            0 <= x < probes.len() && is_tcp(probes[x])
        } by {
            if j < prev.len() {
                assert(cur[j] == prev[j]);
            } else {
                assert(cur[j] == b[j - prev.len()]);
            }
        }
    }
}

proof fn lemma_distinct_upto(probes: Seq<NmapProbeView>, cand: Seq<int>, k: int)
    requires
        0 <= k <= cand.len(),
        forall|j: int| 0 <= j < cand.len() ==> {
            let x = #[trigger] cand[j];
            0 <= x < probes.len() && is_tcp(probes[x])
        },
    ensures
        ({
            let d = distinct_upto(probes, cand, k);
            &&& forall|j: int| 0 <= j < d.len() ==> {
                let x = #[trigger] d[j];
                0 <= x < probes.len() && is_tcp(probes[x])
            }
            &&& forall|a: int, b: int|
                0 <= a < b < d.len() ==> probes[d[a]].probename != probes[d[b]].probename
        }),
    decreases k,
{
    if k > 0 {
        lemma_distinct_upto(probes, cand, k - 1);
        let prev = distinct_upto(probes, cand, k - 1);
        let c = cand[k - 1];
        if !name_taken(probes, prev, probes[c].probename) {
            let d = prev.push(c);
            assert forall|j: int| 0 <= j < d.len() implies {
                let x = #[trigger] d[j];
                0 <= x < probes.len() && is_tcp(probes[x])
            } by {
                if j < prev.len() {
                    assert(d[j] == prev[j]);
                }
            }
            assert forall|a: int, b: int|
                0 <= a < b < d.len() implies probes[d[a]].probename != probes[d[b]].probename by {
                assert(d[a] == prev[a]);
                if b == prev.len() {
                    if probes[prev[a]].probename == probes[c].probename {
                        assert(name_taken(probes, prev, probes[c].probename));
                    }
                } else {
                    assert(d[b] == prev[b]);
                }
            }
        }
    }
}

/// The probes chosen for a port are at most `limit` TCP probes of the
/// database, no two with the same name.
pub proof fn law_selection_is_bounded_distinct_tcp(probes: Seq<NmapProbeView>, port: u16, limit: nat)
    ensures
        ({
            let sel = spec_select(probes, port, limit);
            &&& sel.len() <= limit
            &&& forall|j: int| 0 <= j < sel.len() ==> {
                let x = #[trigger] sel[j];
                0 <= x < probes.len() && is_tcp(probes[x])
            }
            &&& forall|a: int, b: int|
                0 <= a < b < sel.len() ==> probes[sel[a]].probename != probes[sel[b]].probename
        }),
{
    let cand = candidates(probes, port);
    let pre = match preferred_name(port) {
        Some(n) => opt_index(first_named_from(probes, n, 0)),
        None => seq![],
    };
    let mid = by_rarity_upto(probes, port, 256);
    let post = opt_index(first_named_from(probes, "NULL"@, 0));
    match preferred_name(port) {
        Some(n) => lemma_first_named_tcp(probes, n, 0),
        None => {},
    }
    lemma_first_named_tcp(probes, "NULL"@, 0);
    lemma_by_rarity_tcp(probes, port, 256);
    assert forall|j: int| 0 <= j < cand.len() implies {
        let x = #[trigger] cand[j];
        0 <= x < probes.len() && is_tcp(probes[x])
    } by {
        if j < pre.len() {
            assert(cand[j] == pre[j]);
        } else if j < pre.len() + mid.len() {
            assert(cand[j] == mid[j - pre.len()]);
        } else {
            assert(cand[j] == post[j - pre.len() - mid.len()]);
        }
    }
    lemma_distinct_upto(probes, cand, cand.len() as int);
    let d = distinct_upto(probes, cand, cand.len() as int);
    let sel = spec_select(probes, port, limit);
    if limit < d.len() {
        assert forall|j: int| 0 <= j < sel.len() implies {
            let x = #[trigger] sel[j];
            0 <= x < probes.len() && is_tcp(probes[x])
        } by {
            assert(sel[j] == d[j]);
        }
        assert forall|a: int, b: int|
            0 <= a < b < sel.len() implies probes[sel[a]].probename != probes[sel[b]].probename by {
            assert(sel[a] == d[a]);
            assert(sel[b] == d[b]);
        }
    }
}

} // verus!

verus! {

proof fn lemma_bucket_facts(probes: Seq<NmapProbeView>, port: u16, key: nat, i: int)
    requires
        0 <= i <= probes.len(),
    ensures
        ({
            let b = bucket(probes, port, key, i);
            &&& forall|j: int|
                0 <= j < b.len() ==> 0 <= #[trigger] b[j] < i && serves_port(probes[b[j]], port)
                    && rarity_key(probes[b[j]]) == key
            &&& forall|a: int, c: int| 0 <= a < c < b.len() ==> b[a] < b[c]
            &&& forall|x: int|
                0 <= x < i && serves_port(probes[x], port) && rarity_key(probes[x]) == key
                    ==> #[trigger] b.contains(x)
        }),
    decreases i,
{
    if i > 0 {
        lemma_bucket_facts(probes, port, key, i - 1);
        let prev = bucket(probes, port, key, i - 1);
        let b = bucket(probes, port, key, i);
        assert forall|j: int| 0 <= j < b.len() implies 0 <= #[trigger] b[j] < i && serves_port(
            probes[b[j]],
            port,
        ) && rarity_key(probes[b[j]]) == key by {
            if j < prev.len() {
                assert(b[j] == prev[j]);
            }
        }
        assert forall|a: int, c: int| 0 <= a < c < b.len() implies b[a] < b[c] by {
            assert(b[a] == prev[a]);
            if c < prev.len() {
                assert(b[c] == prev[c]);
            }
        }
        assert forall|x: int|
            0 <= x < i && serves_port(probes[x], port) && rarity_key(probes[x]) == key implies #[trigger] b.contains(
            x,
        ) by {
            if x < i - 1 {
                assert(prev.contains(x));
                let j = choose|j: int| 0 <= j < prev.len() && prev[j] == x;
                assert(b[j] == x);
            } else {
                assert(b[prev.len() as int] == x);
            }
        }
    } else {
        assert forall|x: int|
            0 <= x < i && serves_port(probes[x], port) && rarity_key(probes[x]) == key implies #[trigger] bucket(
            probes,
            port,
            key,
            i,
        ).contains(x) by {}
    }
}

proof fn lemma_ranked_facts(probes: Seq<NmapProbeView>, port: u16, k: int)
    requires
        0 <= k,
    ensures
        ({
            let r = by_rarity_upto(probes, port, k);
            &&& forall|j: int|
                0 <= j < r.len() ==> 0 <= #[trigger] r[j] < probes.len() && serves_port(
                    probes[r[j]],
                    port,
                ) && rarity_key(probes[r[j]]) < k
            &&& forall|a: int, c: int|
                0 <= a < c < r.len() ==> rarity_key(probes[r[a]]) < rarity_key(probes[r[c]]) || (
                rarity_key(probes[r[a]]) == rarity_key(probes[r[c]]) && r[a] < r[c])
            &&& forall|x: int|
                0 <= x < probes.len() && serves_port(probes[x], port) && rarity_key(probes[x]) < k
                    ==> #[trigger] r.contains(x)
        }),
    decreases k,
{
    if k > 0 {
        lemma_ranked_facts(probes, port, k - 1);
        lemma_bucket_facts(probes, port, (k - 1) as nat, probes.len() as int);
        let prev = by_rarity_upto(probes, port, k - 1);
        let b = bucket(probes, port, (k - 1) as nat, probes.len() as int);
        let r = by_rarity_upto(probes, port, k);
        assert(r == prev + b);
        assert forall|j: int| 0 <= j < r.len() implies 0 <= #[trigger] r[j] < probes.len()
            && serves_port(probes[r[j]], port) && rarity_key(probes[r[j]]) < k by {
            if j < prev.len() {
                assert(r[j] == prev[j]);
            } else {
                assert(r[j] == b[j - prev.len()]);
            }
        }
        assert forall|a: int, c: int| 0 <= a < c < r.len() implies rarity_key(probes[r[a]])
            < rarity_key(probes[r[c]]) || (rarity_key(probes[r[a]]) == rarity_key(probes[r[c]])
            && r[a] < r[c]) by {
            if c < prev.len() {
                assert(r[a] == prev[a]);
                assert(r[c] == prev[c]);
            } else if a < prev.len() {
                assert(r[a] == prev[a]);
                assert(r[c] == b[c - prev.len()]);
            } else {
                assert(r[a] == b[a - prev.len()]);
                assert(r[c] == b[c - prev.len()]);
            }
        }
        assert forall|x: int|
            0 <= x < probes.len() && serves_port(probes[x], port) && rarity_key(probes[x]) < k
                implies #[trigger] r.contains(x) by {
            if rarity_key(probes[x]) < k - 1 {
                assert(prev.contains(x));
                let j = choose|j: int| 0 <= j < prev.len() && prev[j] == x;
                assert(r[j] == x);
            } else {
                assert(b.contains(x));
                let j = choose|j: int| 0 <= j < b.len() && b[j] == x;
                assert(r[prev.len() + j] == x);
            }
        }
    } else {
        assert forall|x: int|
            0 <= x < probes.len() && serves_port(probes[x], port) && rarity_key(probes[x]) < k
                implies #[trigger] by_rarity_upto(probes, port, k).contains(x) by {}
    }
}

/// The probes that serve a port are ranked by a stable sort on rarity:
/// every such probe appears, each once, in ascending rarity, and probes of
/// equal rarity keep their database order.
pub proof fn law_ranking_is_a_stable_sort_by_rarity(probes: Seq<NmapProbeView>, port: u16)
    ensures
        ({
            let r = by_rarity_upto(probes, port, 256);
            &&& forall|j: int|
                0 <= j < r.len() ==> 0 <= #[trigger] r[j] < probes.len() && serves_port(
                    probes[r[j]],
                    port,
                )
            &&& forall|x: int|
                0 <= x < probes.len() && serves_port(probes[x], port) ==> #[trigger] r.contains(x)
            &&& forall|a: int, c: int|
                0 <= a < c < r.len() ==> rarity_key(probes[r[a]]) < rarity_key(probes[r[c]]) || (
                rarity_key(probes[r[a]]) == rarity_key(probes[r[c]]) && r[a] < r[c])
        }),
{
    lemma_ranked_facts(probes, port, 256);
    assert forall|x: int| 0 <= x < probes.len() implies rarity_key(#[trigger] probes[x]) < 256 by {}
}

} // verus!

verus! {

/// How identification on an open port begins: with no probe to send the
/// port is reported open with nothing more known; otherwise the chosen
/// probes are sent in turn, starting from nothing learnt.
pub enum IdentifyPlan<'a> {
    Open(ServiceReport),
    Probe(Vec<&'a NmapProbe>, Identification),
}

/// Chooses the probes for an open port (as `select_probes` does) and says
/// how identification begins.
pub fn plan_identification<'a>(probes: &'a [NmapProbe], port: u16, limit: usize) -> (r: IdentifyPlan<'a>)
    ensures
        match r {
            IdentifyPlan::Open(report) => spec_select(crate::probe::probe_views(probes@), port, limit as nat).len()
                == 0 && report@ == (ServiceReportView { service: None, probe: None, details: None }),
            IdentifyPlan::Probe(chosen, state) => {
                let sel = spec_select(crate::probe::probe_views(probes@), port, limit as nat);
                &&& sel.len() > 0
                &&& chosen@.len() == sel.len()
                &&& forall|j: int|
                    0 <= j < chosen@.len() ==> {
                        let k = #[trigger] sel[j];
                        0 <= k < probes@.len() && *chosen@[j] == probes@[k]
                    }
                &&& state@ == (IdentificationView { last_probe: None, received_response: false })
            },
        },
{
    let chosen = select_probes(probes, port, limit);
    if chosen.len() == 0 {
        IdentifyPlan::Open(ServiceReport { service: None, probe: None, details: None })
    } else {
        IdentifyPlan::Probe(chosen, identify_start())
    }
}

} // verus!

verus! {

/// What one probe's response teaches when it does not settle the service:
/// the probe becomes the last one tried, and a response counts as received
/// once any non-empty response has come back; an earlier one is never
/// forgotten.
pub proof fn law_received_response_sticks(
    state: IdentificationView,
    probe: NmapProbeView,
    response: Option<Seq<u8>>,
)
    ensures
        spec_identify_step(state, probe, response) matches Err(next) ==> {
            &&& next.last_probe == Some(probe.probename)
            &&& next.received_response == (state.received_response || (response matches Some(r)
                && r.len() > 0))
        },
        state.received_response ==> (spec_identify_step(state, probe, response) matches Err(next)
            ==> next.received_response),
{
}

/// A response that no signature of the probe matches never settles the
/// service, and the report after the last probe says whether any response came.
pub proof fn law_unmatched_responses_leave_it_open(
    state: IdentificationView,
    probe: NmapProbeView,
    response: Option<Seq<u8>>,
)
    requires
        response matches Some(r) ==> spec_match_probe(probe, r) is None,
    ensures
        spec_identify_step(state, probe, response) is Err,
        spec_identify_finish(state).service is None,
        spec_identify_finish(state).probe == state.last_probe,
        spec_identify_finish(state).details == Some(
            if state.received_response {
                "response received, but no supported signature matched"@
            } else {
                "no banner received before timeout"@
            },
        ),
{
}

/// The probes considered for a port include every TCP probe whose `ports`
/// or `sslports` name the port, each once, ordered by rarity (a rarity that
/// is not a number counts as 255) with ties in database order.
pub proof fn law_ranking_covers_ports_and_sslports(probes: Seq<NmapProbeView>, port: u16)
    ensures
        ({
            let r = by_rarity_upto(probes, port, 256);
            &&& forall|x: int|
                0 <= x < probes.len() && probes[x].protocol == "TCP"@ && (
                crate::ports::spec_port_spec_contains(probes[x].ports, port)
                    || crate::ports::spec_port_spec_contains(probes[x].sslports, port))
                    ==> #[trigger] r.contains(x)
            &&& forall|j: int|
                0 <= j < r.len() ==> 0 <= #[trigger] r[j] < probes.len() && probes[r[j]].protocol
                    == "TCP"@ && (crate::ports::spec_port_spec_contains(probes[r[j]].ports, port)
                    || crate::ports::spec_port_spec_contains(probes[r[j]].sslports, port))
            &&& forall|a: int, c: int|
                0 <= a < c < r.len() ==> rank_of(probes[r[a]]) < rank_of(probes[r[c]]) || (rank_of(
                    probes[r[a]],
                ) == rank_of(probes[r[c]]) && r[a] < r[c])
            &&& forall|a: int, c: int| 0 <= a < c < r.len() ==> r[a] != r[c]
        }),
{
    law_ranking_is_a_stable_sort_by_rarity(probes, port);
    let r = by_rarity_upto(probes, port, 256);
    assert forall|a: int, c: int| 0 <= a < c < r.len() implies r[a] != r[c] by {
        assert(rank_of(probes[r[a]]) == rarity_key(probes[r[a]]));
        assert(rank_of(probes[r[c]]) == rarity_key(probes[r[c]]));
    }
}

/// A probe's rarity as its decimal number, 255 when it is not one.
pub open spec fn rank_of(p: NmapProbeView) -> int {
    match crate::ports::parse_u8(p.rarity) {
        Some(v) => v as int,
        None => 255,
    }
}

} // verus!
