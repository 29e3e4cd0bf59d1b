//! The probe database's records: probes, their match rules and the
//! version templates those rules carry, and the result of a match.
use crate::text::string_views;
use vstd::prelude::*;

verus! {

/// Version templates of a match rule (`p/…/ v/…/ i/…/ h/…/ o/…/ d/…/ cpe:/…/`).
/// They may refer to regex captures as `$1`, `$2`, ….
#[derive(Debug, Clone, PartialEq, Eq)]
pub struct VersionInfo {
    pub vendorproductname: String,
    pub version: String,
    pub info: String,
    pub hostname: String,
    pub operatingsystem: String,
    pub devicetype: String,
    pub cpename: Vec<String>,
}

/// A `match` or `softmatch` line: a service name, a regex with its flags and
/// the version templates.
#[derive(Debug, Clone, PartialEq, Eq)]
pub struct MatchRule {
    pub service: String,
    pub pattern: String,
    pub pattern_flag: String,
    pub versioninfo: VersionInfo,
}

/// A `Probe` with the directives that follow it.
#[derive(Debug, Clone, PartialEq, Eq)]
pub struct NmapProbe {
    pub protocol: String,
    pub probename: String,
    pub probestring: Vec<u8>,
    pub ports: String,
    pub sslports: String,
    pub rarity: String,
    pub fallback: String,
    pub matches: Vec<MatchRule>,
    pub softmatches: Vec<MatchRule>,
}

/// A service recognised in a response.
#[derive(Debug, Clone, PartialEq, Eq)]
pub struct ServiceMatch {
    pub service: String,
    pub summary: String,
    pub soft: bool,
}

pub struct VersionInfoView {
    pub vendorproductname: Seq<char>,
    pub version: Seq<char>,
    pub info: Seq<char>,
    pub hostname: Seq<char>,
    pub operatingsystem: Seq<char>,
    pub devicetype: Seq<char>,
    pub cpename: Seq<Seq<char>>,
}

pub struct MatchRuleView {
    pub service: Seq<char>,
    pub pattern: Seq<char>,
    pub pattern_flag: Seq<char>,
    pub versioninfo: VersionInfoView,
}

pub struct NmapProbeView {
    pub protocol: Seq<char>,
    pub probename: Seq<char>,
    pub probestring: Seq<u8>,
    pub ports: Seq<char>,
    pub sslports: Seq<char>,
    pub rarity: Seq<char>,
    pub fallback: Seq<char>,
    pub matches: Seq<MatchRuleView>,
    pub softmatches: Seq<MatchRuleView>,
}

pub struct ServiceMatchView {
    pub service: Seq<char>,
    pub summary: Seq<char>,
    pub soft: bool,
}

impl View for VersionInfo {
    type V = VersionInfoView;

    open spec fn view(&self) -> VersionInfoView {
        VersionInfoView {
            vendorproductname: self.vendorproductname@,
            version: self.version@,
            info: self.info@,
            hostname: self.hostname@,
            operatingsystem: self.operatingsystem@,
            devicetype: self.devicetype@,
            cpename: string_views(self.cpename@),
        }
    }
}

impl View for MatchRule {
    type V = MatchRuleView;

    open spec fn view(&self) -> MatchRuleView {
        MatchRuleView {
            service: self.service@,
            pattern: self.pattern@,
            pattern_flag: self.pattern_flag@,
            versioninfo: self.versioninfo@,
        }
    }
}

pub open spec fn rule_views(rules: Seq<MatchRule>) -> Seq<MatchRuleView> {
    rules.map_values(|r: MatchRule| r@)
}

impl View for NmapProbe {
    type V = NmapProbeView;

    open spec fn view(&self) -> NmapProbeView {
        NmapProbeView {
            protocol: self.protocol@,
            probename: self.probename@,
            probestring: self.probestring@,
            ports: self.ports@,
            sslports: self.sslports@,
            rarity: self.rarity@,
            fallback: self.fallback@,
            matches: rule_views(self.matches@),
            softmatches: rule_views(self.softmatches@),
        }
    }
}

pub open spec fn probe_views(probes: Seq<NmapProbe>) -> Seq<NmapProbeView> {
    probes.map_values(|p: NmapProbe| p@)
}

impl View for ServiceMatch {
    type V = ServiceMatchView;

    open spec fn view(&self) -> ServiceMatchView {
        ServiceMatchView { service: self.service@, summary: self.summary@, soft: self.soft }
    }
}

pub open spec fn empty_version_info() -> VersionInfoView {
    VersionInfoView {
        vendorproductname: seq![],
        version: seq![],
        info: seq![],
        hostname: seq![],
        operatingsystem: seq![],
        devicetype: seq![],
        cpename: seq![],
    }
}

pub open spec fn empty_match_rule() -> MatchRuleView {
    MatchRuleView {
        service: seq![],
        pattern: seq![],
        pattern_flag: seq![],
        versioninfo: empty_version_info(),
    }
}

pub open spec fn empty_probe() -> NmapProbeView {
    NmapProbeView {
        protocol: seq![],
        probename: seq![],
        probestring: seq![],
        ports: seq![],
        sslports: seq![],
        rarity: seq![],
        fallback: seq![],
        matches: seq![],
        softmatches: seq![],
    }
}

impl Default for VersionInfo {
    fn default() -> (r: Self)
        ensures
            r@ == empty_version_info(),
    {
        let r = VersionInfo {
            vendorproductname: String::new(),
            version: String::new(),
            info: String::new(),
            hostname: String::new(),
            operatingsystem: String::new(),
            devicetype: String::new(),
            cpename: Vec::new(),
        };
        assert(r@.cpename =~= Seq::<Seq<char>>::empty());
        r
    }
}

impl Default for MatchRule {
    fn default() -> (r: Self)
        ensures
            r@ == empty_match_rule(),
    {
        MatchRule {
            service: String::new(),
            pattern: String::new(),
            pattern_flag: String::new(),
            versioninfo: VersionInfo::default(),
        }
    }
}

impl Default for NmapProbe {
    fn default() -> (r: Self)
        ensures
            r@ == empty_probe(),
    {
        let r = NmapProbe {
            protocol: String::new(),
            probename: String::new(),
            probestring: Vec::new(),
            ports: String::new(),
            sslports: String::new(),
            rarity: String::new(),
            fallback: String::new(),
            matches: Vec::new(),
            softmatches: Vec::new(),
        };
        assert(r@.matches =~= Seq::<MatchRuleView>::empty());
        assert(r@.softmatches =~= Seq::<MatchRuleView>::empty());
        r
    }
}

} // verus!
