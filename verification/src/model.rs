//! The registry data model: unit states, unit statuses, environments, and
//! the scan that rebuilds them from the registry directory's file contents.

use vstd::multiset::Multiset;
use vstd::prelude::*;
use vstd::string::StrSliceExecFns;
use vstd::string::StringExecFns;

use crate::strutil::first_match_idx;
use crate::strutil::lemma_first_match_agrees;
use crate::strutil::lemma_no_match_agrees;
use crate::strutil::lines;
use crate::strutil::lines_spec;
use crate::strutil::lower_of;
use crate::strutil::match_at;
use crate::strutil::parse_uint_spec;
use crate::strutil::to_lowercase;
use crate::strutil::trim_spec;
use crate::strutil::{dec_digits, u64_to_string};
use crate::strutil::{find, find_char, str_eq, str_ends_with, str_leq, str_starts_with, trim};
use crate::strutil::{lemma_lex_leq_refl, lemma_lex_leq_total, lemma_lex_leq_trans, lex_leq};
use crate::strutil::{parse_u16, parse_u32, parse_u64};

verus! {

// ---------------------------------------------------------------------------
// Unit state
// ---------------------------------------------------------------------------

/// State of a unit. `Absent` stands for empty or missing status content;
/// `Other` keeps an unrecognized state token as it was written.
#[derive(Debug, PartialEq, Eq)]
pub enum State {
    Absent,
    Starting,
    Building,
    Running,
    Ready,
    Failed,
    Stopped,
    Other(String),
}

/// The mathematical value of a `State`: the same variants over character
/// sequences.
#[verifier::ext_equal]
pub enum StateView {
    Absent,
    Starting,
    Building,
    Running,
    Ready,
    Failed,
    Stopped,
    Other(Seq<char>),
}

impl View for State {
    type V = StateView;

    open spec fn view(&self) -> StateView {
        match self {
            State::Absent => StateView::Absent,
            State::Starting => StateView::Starting,
            State::Building => StateView::Building,
            State::Running => StateView::Running,
            State::Ready => StateView::Ready,
            State::Failed => StateView::Failed,
            State::Stopped => StateView::Stopped,
            State::Other(s) => StateView::Other(s@),
        }
    }
}

impl Clone for State {
    fn clone(&self) -> (r: Self)
        ensures
            r@ == self@,
    {
        match self {
            State::Absent => State::Absent,
            State::Starting => State::Starting,
            State::Building => State::Building,
            State::Running => State::Running,
            State::Ready => State::Ready,
            State::Failed => State::Failed,
            State::Stopped => State::Stopped,
            State::Other(s) => State::Other(s.clone()),
        }
    }
}

/// What `State::parse` makes of a state token.
pub open spec fn parse_state_of(s: Seq<char>) -> StateView {
    if s == "starting"@ {
        StateView::Starting
    } else if s == "building"@ {
        StateView::Building
    } else if s == "running"@ {
        StateView::Running
    } else if s == "ready"@ {
        StateView::Ready
    } else if s == "failed"@ {
        StateView::Failed
    } else if s == "stopped"@ {
        StateView::Stopped
    } else {
        StateView::Other(s)
    }
}

/// The label a state displays: the token it was parsed from for the six
/// recognized states, the raw token for `Other`, and nothing for `Absent`.
pub open spec fn label_of(s: StateView) -> Seq<char> {
    match s {
        StateView::Absent => Seq::empty(),
        StateView::Starting => "starting"@,
        StateView::Building => "building"@,
        StateView::Running => "running"@,
        StateView::Ready => "ready"@,
        StateView::Failed => "failed"@,
        StateView::Stopped => "stopped"@,
        StateView::Other(s) => s,
    }
}

/// The one-character indicator a state displays.
pub open spec fn indicator_of(s: StateView) -> Seq<char> {
    match s {
        StateView::Absent => "\u{25cb}"@,
        StateView::Starting => "\u{25cc}"@,
        StateView::Building => "\u{25d1}"@,
        StateView::Running => "\u{25cf}"@,
        StateView::Ready => "\u{25cf}"@,
        StateView::Failed => "\u{2717}"@,
        StateView::Stopped => "\u{25cb}"@,
        StateView::Other(_) => "\u{25c6}"@,
    }
}

/// A state that stands for a unit still doing or about to do work.
pub open spec fn is_active_state(s: StateView) -> bool {
    s is Starting || s is Building || s is Running || s is Ready
}

impl State {
    /// Parse a state token, case-sensitively, into one of the six known
    /// states, or keep it as `Other`.
    pub fn parse(s: &str) -> (r: State)
        ensures
            r@ == parse_state_of(s@),
    {
        if str_eq(s, "starting") {
            State::Starting
        } else if str_eq(s, "building") {
            State::Building
        } else if str_eq(s, "running") {
            State::Running
        } else if str_eq(s, "ready") {
            State::Ready
        } else if str_eq(s, "failed") {
            State::Failed
        } else if str_eq(s, "stopped") {
            State::Stopped
        } else {
            State::Other(s.to_owned())
        }
    }

    /// The display label of this state; `Other` shows its raw token and
    /// `Absent` shows nothing.
    pub fn label(&self) -> (r: String)
        ensures
            r@ == label_of(self@),
    {
        match self {
            State::Absent => String::new(),
            State::Starting => "starting".to_owned(),
            State::Building => "building".to_owned(),
            State::Running => "running".to_owned(),
            State::Ready => "ready".to_owned(),
            State::Failed => "failed".to_owned(),
            State::Stopped => "stopped".to_owned(),
            State::Other(s) => s.clone(),
        }
    }

    /// The one-character indicator shown beside a unit.
    pub fn display_indicator(&self) -> (r: &str)
        ensures
            r@ == indicator_of(self@),
    {
        match self {
            State::Absent => "\u{25cb}",
            State::Starting => "\u{25cc}",
            State::Building => "\u{25d1}",
            State::Running => "\u{25cf}",
            State::Ready => "\u{25cf}",
            State::Failed => "\u{2717}",
            State::Stopped => "\u{25cb}",
            State::Other(_) => "\u{25c6}",
        }
    }

    /// Whether the unit is starting, building, running or ready.
    pub fn is_active(&self) -> (r: bool)
        ensures
            r == is_active_state(self@),
    {
        match self {
            State::Starting | State::Building | State::Running | State::Ready => true,
            _ => false,
        }
    }
}

/// Formatting a parsed token gives the token back: the recognized labels
/// reproduce themselves, and `Other` keeps the raw string exactly.
pub proof fn lemma_parse_label_roundtrip(s: Seq<char>)
    ensures
        label_of(parse_state_of(s)) == s,
{
}

// ---------------------------------------------------------------------------
// Unit status
// ---------------------------------------------------------------------------

/// Status of a single named unit (e.g. "server" or "vite").
#[derive(Debug)]
pub struct UnitStatus {
    pub name: String,
    pub state: State,
    pub detail: Option<String>,
}

/// The mathematical value of a `UnitStatus`.
#[verifier::ext_equal]
pub struct UnitStatusView {
    pub name: Seq<char>,
    pub state: StateView,
    pub detail: Option<Seq<char>>,
}

impl View for UnitStatus {
    type V = UnitStatusView;

    open spec fn view(&self) -> UnitStatusView {
        UnitStatusView {
            name: self.name@,
            state: self.state@,
            detail: match self.detail {
                Some(d) => Some(d@),
                None => None,
            },
        }
    }
}

impl Clone for UnitStatus {
    fn clone(&self) -> (r: Self)
        ensures
            r@ == self@,
    {
        UnitStatus {
            name: self.name.clone(),
            state: self.state.clone(),
            detail: match &self.detail {
                Some(d) => Some(d.clone()),
                None => None,
            },
        }
    }
}

/// What `UnitStatus::parse` makes of a status file's content: trim it,
/// treat emptiness as `Absent`, and otherwise split once on `": "` into a
/// state token and an optional detail.
pub open spec fn parse_unit_spec(name: Seq<char>, content: Seq<char>) -> UnitStatusView {
    let t = trim_spec(content);
    if t.len() == 0 {
        UnitStatusView { name, state: StateView::Absent, detail: None }
    } else {
        let i = first_match_idx(t, seq![':', ' ']);
        if 0 <= i && i + 2 <= t.len() {
            UnitStatusView {
                name,
                state: parse_state_of(t.take(i)),
                detail: Some(t.skip(i + 2)),
            }
        } else {
            UnitStatusView { name, state: parse_state_of(t), detail: None }
        }
    }
}

impl UnitStatus {
    /// Parse a status value like `building: compiling bindings`. The `name`
    /// comes from the status filename, not the content. Empty content maps
    /// to the `Absent` state.
    pub fn parse(name: &str, content: &str) -> (r: UnitStatus)
        ensures
            r@ == parse_unit_spec(name@, content@),
    {
        let trimmed = trim(content);
        let tn = trimmed.unicode_len();
        if tn == 0 {
            return UnitStatus { name: name.to_owned(), state: State::Absent, detail: None };
        }
        proof {
            reveal_strlit(": ");
            assert(": "@ =~= seq![':', ' ']);
        }
        match find(trimmed, ": ") {
            Some(i) => {
                proof {
                    lemma_first_match_agrees(trimmed@, seq![':', ' '], i as int);
                }
                let state_str = trimmed.substring_char(0, i);
                let detail_str = trimmed.substring_char(i + 2, tn);
                proof {
                    assert(state_str@ =~= trim_spec(content@).take(i as int));
                    assert(detail_str@ =~= trim_spec(content@).skip(i + 2));
                }
                UnitStatus {
                    name: name.to_owned(),
                    state: State::parse(state_str),
                    detail: Some(detail_str.to_owned()),
                }
            },
            None => {
                proof {
                    lemma_no_match_agrees(trimmed@, seq![':', ' ']);
                }
                UnitStatus {
                    name: name.to_owned(),
                    state: State::parse(trimmed),
                    detail: None,
                }
            },
        }
    }
}

// ---------------------------------------------------------------------------
// Port tables
// ---------------------------------------------------------------------------

/// Update an association list: replace the value at the first entry whose
/// key is `k`, or append a new entry.
pub open spec fn assoc_update(
    ports: Seq<(Seq<char>, u16)>,
    k: Seq<char>,
    v: u16,
) -> Seq<(Seq<char>, u16)>
    decreases ports.len(),
{
    if ports.len() == 0 {
        seq![(k, v)]
    } else if ports[0].0 == k {
        seq![(k, v)] + ports.drop_first()
    } else {
        seq![ports[0]] + assoc_update(ports.drop_first(), k, v)
    }
}

/// Look a key up in an association list: the value of the first entry whose
/// key is `k`.
pub open spec fn assoc_find(ports: Seq<(Seq<char>, u16)>, k: Seq<char>) -> Option<u16>
    decreases ports.len(),
{
    if ports.len() == 0 {
        None
    } else if ports[0].0 == k {
        Some(ports[0].1)
    } else {
        assoc_find(ports.drop_first(), k)
    }
}

/// Updating at the first matching index is a point update.
proof fn lemma_assoc_update_at(ports: Seq<(Seq<char>, u16)>, k: Seq<char>, v: u16, j: int)
    requires
        0 <= j < ports.len(),
        ports[j].0 == k,
        forall|m: int| 0 <= m < j ==> ports[m].0 != k,
    ensures
        assoc_update(ports, k, v) =~= ports.update(j, (k, v)),
    decreases j,
{
    if j == 0 {
    } else {
        lemma_assoc_update_at(ports.drop_first(), k, v, j - 1);
        assert(seq![ports[0]] + ports.drop_first().update(j - 1, (k, v)) =~= ports.update(
            j,
            (k, v),
        ));
    }
}

/// Updating an absent key appends the entry.
proof fn lemma_assoc_update_absent(ports: Seq<(Seq<char>, u16)>, k: Seq<char>, v: u16)
    requires
        forall|m: int| 0 <= m < ports.len() ==> ports[m].0 != k,
    ensures
        assoc_update(ports, k, v) =~= ports.push((k, v)),
    decreases ports.len(),
{
    if ports.len() > 0 {
        lemma_assoc_update_absent(ports.drop_first(), k, v);
        assert(seq![ports[0]] + ports.drop_first().push((k, v)) =~= ports.push((k, v)));
    }
}

/// The view of a port table.
pub open spec fn ports_view(ports: Seq<(String, u16)>) -> Seq<(Seq<char>, u16)> {
    ports.map_values(|p: (String, u16)| (p.0@, p.1))
}

/// Replace the first entry for this key, or append one, as a map insert
/// behaves on an association list.
fn ports_upsert(ports: &mut Vec<(String, u16)>, key: String, val: u16)
    ensures
        ports_view(final(ports)@) == assoc_update(ports_view(old(ports)@), key@, val),
{
    let ghost pv = ports_view(old(ports)@);
    let mut j: usize = 0;
    while j < ports.len()
        invariant
            j <= ports.len(),
            pv == ports_view(old(ports)@),
            pv == ports_view(ports@),
            pv.len() == ports.len(),
            forall|m: int| 0 <= m < ports.len() ==> pv[m] == (#[trigger] ports@[m].0@, ports@[m].1),
            forall|m: int| 0 <= m < j ==> #[trigger] pv[m].0 != key@,
        decreases ports.len() - j,
    {
        if str_eq(ports[j].0.as_str(), key.as_str()) {
            proof {
                lemma_assoc_update_at(pv, key@, val, j as int);
            }
            ports[j] = (key, val);
            proof {
                assert(ports_view(ports@) =~= pv.update(j as int, (key@, val)));
            }
            return ;
        }
        j = j + 1;
    }
    proof {
        lemma_assoc_update_absent(pv, key@, val);
    }
    ports.push((key, val));
    proof {
        assert(ports_view(ports@) =~= pv.push((key@, val)));
    }
}

// ---------------------------------------------------------------------------
// Meta files
// ---------------------------------------------------------------------------

/// The fields a meta file's `KEY=VALUE` lines yield.
pub struct MetaFields {
    pub dir: Option<String>,
    pub pid: Option<u32>,
    pub started: Option<u64>,
    pub ports: Vec<(String, u16)>,
}

/// The mathematical value of `MetaFields`.
#[verifier::ext_equal]
pub struct MetaView {
    pub dir: Option<Seq<char>>,
    pub pid: Option<u32>,
    pub started: Option<u64>,
    pub ports: Seq<(Seq<char>, u16)>,
}

impl View for MetaFields {
    type V = MetaView;

    open spec fn view(&self) -> MetaView {
        MetaView {
            dir: match self.dir {
                Some(d) => Some(d@),
                None => None,
            },
            pid: self.pid,
            started: self.started,
            ports: ports_view(self.ports@),
        }
    }
}

/// How one `KEY=VALUE` line changes the accumulated meta fields. A line
/// without `=` is skipped; `DIR`, `PID` and `STARTED` each keep their last
/// occurrence, a failed number parse clearing the field; a key ending in
/// `_PORT` maps its lowercased stem to the port when the value parses.
pub open spec fn meta_line_step(acc: MetaView, line: Seq<char>) -> MetaView {
    let i = first_match_idx(line, seq!['=']);
    if 0 <= i < line.len() {
        let key = line.take(i);
        let value = line.skip(i + 1);
        if key == "DIR"@ {
            MetaView { dir: Some(value), ..acc }
        } else if key == "PID"@ {
            MetaView {
                pid: match parse_uint_spec(value, u32::MAX as int) {
                    Some(v) => Some(v as u32),
                    None => None,
                },
                ..acc
            }
        } else if key == "STARTED"@ {
            MetaView {
                started: match parse_uint_spec(value, u64::MAX as int) {
                    Some(v) => Some(v as u64),
                    None => None,
                },
                ..acc
            }
        } else if "_PORT"@.is_suffix_of(key) {
            match parse_uint_spec(value, u16::MAX as int) {
                Some(p) => MetaView {
                    ports: assoc_update(
                        acc.ports,
                        lower_of(key.take(key.len() - "_PORT"@.len())),
                        p as u16,
                    ),
                    ..acc
                },
                None => acc,
            }
        } else {
            acc
        }
    } else {
        acc
    }
}

/// `meta_line_step` folded over the lines from `k` on.
pub open spec fn meta_fold(acc: MetaView, ls: Seq<Seq<char>>, k: int) -> MetaView
    decreases ls.len() - k,
{
    if 0 <= k < ls.len() {
        meta_fold(meta_line_step(acc, ls[k]), ls, k + 1)
    } else {
        acc
    }
}

/// The empty accumulator a meta file's parse starts from.
pub open spec fn meta_empty() -> MetaView {
    MetaView { dir: None, pid: None, started: None, ports: Seq::empty() }
}

/// What `parse_meta` makes of a meta file's content.
pub open spec fn parse_meta_spec(content: Seq<char>) -> MetaView {
    meta_fold(meta_empty(), lines_spec(content), 0)
}

/// Parse a meta file's `KEY=VALUE` lines into its fields.
pub fn parse_meta(content: &str) -> (r: MetaFields)
    ensures
        r@ == parse_meta_spec(content@),
{
    let ls = lines(content);
    let ghost lsv = lines_spec(content@);
    let mut acc = MetaFields { dir: None, pid: None, started: None, ports: Vec::new() };
    proof {
        assert(acc@ =~= meta_empty());
        assert(ports_view(acc.ports@) =~= Seq::<(Seq<char>, u16)>::empty());
    }
    let mut k: usize = 0;
    while k < ls.len()
        invariant
            k <= ls.len(),
            lsv == ls.deep_view(),
            lsv.len() == ls.len(),
            forall|m: int| 0 <= m < ls.len() ==> lsv[m] == #[trigger] ls@[m]@,
            meta_fold(acc@, lsv, k as int) == meta_fold(meta_empty(), lsv, 0),
        decreases ls.len() - k,
    {
        let ghost acc0 = acc@;
        let line: &str = ls[k].as_str();
        let n = line.unicode_len();
        match find_char(line, '=') {
            Some(i) => {
                proof {
                    assert(match_at(line@, seq!['='], i as int)) by {
                        assert(line@.subrange(i as int, i + 1) =~= seq!['=']);
                    }
                    assert forall|j: int| 0 <= j < i implies !match_at(line@, seq!['='], j) by {
                        if match_at(line@, seq!['='], j) {
                            assert(line@.subrange(j, j + 1)[0] == line@[j]);
                        }
                    }
                    lemma_first_match_agrees(line@, seq!['='], i as int);
                }
                let key = line.substring_char(0, i);
                let value = line.substring_char(i + 1, n);
                proof {
                    assert(key@ =~= line@.take(i as int));
                    assert(value@ =~= line@.skip(i + 1));
                }
                if str_eq(key, "DIR") {
                    acc.dir = Some(value.to_owned());
                } else if str_eq(key, "PID") {
                    acc.pid = parse_u32(value);
                } else if str_eq(key, "STARTED") {
                    acc.started = parse_u64(value);
                } else if str_ends_with(key, "_PORT") {
                    proof {
                        reveal_strlit("_PORT");
                    }
                    let kn = key.unicode_len();
                    let stem = key.substring_char(0, kn - 5);
                    proof {
                        assert(stem@ =~= key@.take(key@.len() - "_PORT"@.len()));
                    }
                    match parse_u16(value) {
                        Some(p) => {
                            let lowered = to_lowercase(stem);
                            ports_upsert(&mut acc.ports, lowered, p);
                        },
                        None => {},
                    }
                }
            },
            None => {
                proof {
                    assert forall|j: int| !match_at(line@, seq!['='], j) by {
                        if 0 <= j < line@.len() && match_at(line@, seq!['='], j) {
                            assert(line@.subrange(j, j + 1)[0] == line@[j]);
                        }
                    }
                    lemma_no_match_agrees(line@, seq!['=']);
                }
            },
        }
        proof {
            assert(acc@ =~= meta_line_step(acc0, lsv[k as int]));
        }
        k = k + 1;
    }
    acc
}

// ---------------------------------------------------------------------------
// Environments
// ---------------------------------------------------------------------------

/// A registered environment instance, rebuilt from the registry on every
/// scan. `alive` records the outcome of a liveness probe of `pid`.
#[derive(Debug)]
pub struct Environment {
    pub id: String,
    pub dir: String,
    pub pid: u32,
    pub ports: Vec<(String, u16)>,
    pub started: u64,
    pub alive: bool,
    pub units: Vec<UnitStatus>,
}

/// The mathematical value of an `Environment`.
#[verifier::ext_equal]
pub struct EnvironmentView {
    pub id: Seq<char>,
    pub dir: Seq<char>,
    pub pid: u32,
    pub ports: Seq<(Seq<char>, u16)>,
    pub started: u64,
    pub alive: bool,
    pub units: Seq<UnitStatusView>,
}

impl DeepView for UnitStatus {
    type V = UnitStatusView;

    open spec fn deep_view(&self) -> UnitStatusView {
        self.view()
    }
}

impl View for Environment {
    type V = EnvironmentView;

    open spec fn view(&self) -> EnvironmentView {
        EnvironmentView {
            id: self.id@,
            dir: self.dir@,
            pid: self.pid,
            ports: ports_view(self.ports@),
            started: self.started,
            alive: self.alive,
            units: self.units.deep_view(),
        }
    }
}

impl DeepView for Environment {
    type V = EnvironmentView;

    open spec fn deep_view(&self) -> EnvironmentView {
        self.view()
    }
}

/// Relies on nix::sys::signal::kill with no signal: delivers nothing and
/// reports whether a process with this id exists and may be signalled. The
/// outcome depends on the running system, so nothing is promised of it.
#[verifier::external_body]
fn probe_alive(pid: i32) -> bool {
    nix::sys::signal::kill(nix::unistd::Pid::from_raw(pid), None).is_ok()
}

/// Relies on std::time::SystemTime::now: the moment of the call, reduced to
/// whole seconds since the Unix epoch, 0 when the clock reads earlier than
/// the epoch. The outcome depends on the clock, so nothing is promised.
#[verifier::external_body]
fn unix_now() -> u64 {
    match std::time::SystemTime::now().duration_since(std::time::UNIX_EPOCH) {
        Ok(d) => d.as_secs(),
        Err(_) => 0,
    }
}

/// The unit name a status filename carries for environment `id`: the
/// filename must be `<id>.<unit>.status`, or `.<id>.<unit>.status` in the
/// older convention, with a non-empty unit part.
pub open spec fn status_unit_name(id: Seq<char>, fname: Seq<char>) -> Option<Seq<char>> {
    let newp = id + "."@;
    let oldp = "."@ + id + "."@;
    let rest = if newp.is_prefix_of(fname) {
        Some(fname.skip(newp.len() as int))
    } else if oldp.is_prefix_of(fname) {
        Some(fname.skip(oldp.len() as int))
    } else {
        None
    };
    match rest {
        Some(rest) => {
            if ".status"@.is_suffix_of(rest) && rest.len() > ".status"@.len() {
                Some(rest.take(rest.len() - ".status"@.len()))
            } else {
                None
            }
        },
        None => None,
    }
}

/// The unit name a status filename carries for environment `id`.
fn status_unit_for(id: &str, fname: &str) -> (r: Option<String>)
    ensures
        match r {
            Some(u) => status_unit_name(id@, fname@) == Some(u@),
            None => status_unit_name(id@, fname@) is None,
        },
{
    let newp = id.to_owned().concat(".");
    let oldp = ".".to_owned().concat(id).concat(".");
    proof {
        assert(newp@ =~= id@ + "."@);
        assert(oldp@ =~= "."@ + id@ + "."@);
    }
    let fn_len = fname.unicode_len();
    let rest: &str;
    if str_starts_with(fname, newp.as_str()) {
        rest = fname.substring_char(newp.as_str().unicode_len(), fn_len);
        proof {
            assert(rest@ =~= fname@.skip(newp@.len() as int));
        }
    } else if str_starts_with(fname, oldp.as_str()) {
        rest = fname.substring_char(oldp.as_str().unicode_len(), fn_len);
        proof {
            assert(rest@ =~= fname@.skip(oldp@.len() as int));
        }
    } else {
        return None;
    }
    let suffix_len = ".status".unicode_len();
    let rest_len = rest.unicode_len();
    if str_ends_with(rest, ".status") && rest_len > suffix_len {
        let unit = rest.substring_char(0, rest_len - suffix_len);
        proof {
            assert(unit@ =~= rest@.take(rest@.len() - ".status"@.len()));
        }
        Some(unit.to_owned())
    } else {
        None
    }
}

/// A registry file, given to the scanner as its name and its content.
#[derive(Debug)]
pub struct RegistryFile {
    pub name: String,
    pub content: String,
}

/// The mathematical value of a `RegistryFile`.
#[verifier::ext_equal]
pub struct RegistryFileView {
    pub name: Seq<char>,
    pub content: Seq<char>,
}

impl View for RegistryFile {
    type V = RegistryFileView;

    open spec fn view(&self) -> RegistryFileView {
        RegistryFileView { name: self.name@, content: self.content@ }
    }
}

impl DeepView for RegistryFile {
    type V = RegistryFileView;

    open spec fn deep_view(&self) -> RegistryFileView {
        self.view()
    }
}

/// The units the registry holds for environment `id`, in file order, from
/// file `k` on.
pub open spec fn collect_units(id: Seq<char>, files: Seq<RegistryFileView>, k: int) -> Seq<
    UnitStatusView,
>
    decreases files.len() - k,
{
    if 0 <= k < files.len() {
        match status_unit_name(id, files[k].name) {
            Some(u) => seq![parse_unit_spec(u, files[k].content)] + collect_units(id, files, k + 1),
            None => collect_units(id, files, k + 1),
        }
    } else {
        Seq::empty()
    }
}

// ---------------------------------------------------------------------------
// Lookups and display helpers
// ---------------------------------------------------------------------------

/// `assoc_find` at the first matching index reads that entry.
proof fn lemma_assoc_find_at(ports: Seq<(Seq<char>, u16)>, k: Seq<char>, j: int)
    requires
        0 <= j < ports.len(),
        ports[j].0 == k,
        forall|m: int| 0 <= m < j ==> ports[m].0 != k,
    ensures
        assoc_find(ports, k) == Some(ports[j].1),
    decreases j,
{
    if j > 0 {
        lemma_assoc_find_at(ports.drop_first(), k, j - 1);
    }
}

/// `assoc_find` of an absent key is nothing.
proof fn lemma_assoc_find_absent(ports: Seq<(Seq<char>, u16)>, k: Seq<char>)
    requires
        forall|m: int| 0 <= m < ports.len() ==> ports[m].0 != k,
    ensures
        assoc_find(ports, k) is None,
    decreases ports.len(),
{
    if ports.len() > 0 {
        lemma_assoc_find_absent(ports.drop_first(), k);
    }
}

/// The directory path without its trailing slashes.
pub open spec fn drop_trailing_slashes(s: Seq<char>) -> Seq<char>
    decreases s.len(),
{
    if s.len() > 0 && s.last() == '/' {
        drop_trailing_slashes(s.drop_last())
    } else {
        s
    }
}

/// The index of the last `/` in `s`, or `-1` when there is none.
pub open spec fn last_slash(s: Seq<char>) -> int
    decreases s.len(),
{
    if s.len() == 0 {
        -1
    } else if s.last() == '/' {
        s.len() - 1
    } else {
        last_slash(s.drop_last())
    }
}

/// The short display name a directory path yields: the part after the last
/// slash, trailing slashes ignored; `unknown` when that part is empty or a
/// relative component.
pub open spec fn display_name_spec(dir: Seq<char>) -> Seq<char> {
    let t = drop_trailing_slashes(dir);
    let name = t.skip(last_slash(t) + 1);
    if name.len() == 0 || name == "."@ || name == ".."@ {
        "unknown"@
    } else {
        name
    }
}

/// Dropping a run of trailing slashes.
proof fn lemma_drop_trailing_slashes(s: Seq<char>, b: int)
    requires
        0 <= b <= s.len(),
        forall|j: int| b <= j < s.len() ==> s[j] == '/',
        b > 0 ==> s[b - 1] != '/',
    ensures
        drop_trailing_slashes(s) == s.take(b),
    decreases s.len() - b,
{
    if b < s.len() {
        lemma_drop_trailing_slashes(s.drop_last(), b);
        assert(s.drop_last().take(b) =~= s.take(b));
    } else {
        assert(s.take(b) =~= s);
        if s.len() > 0 {
            assert(s.last() != '/');
        }
    }
}

/// `last_slash` finds the last slash.
proof fn lemma_last_slash(s: Seq<char>, p: int)
    requires
        -1 <= p < s.len(),
        p >= 0 ==> s[p] == '/',
        forall|j: int| p < j < s.len() ==> s[j] != '/',
    ensures
        last_slash(s) == p,
    decreases s.len(),
{
    if s.len() > 0 && !(p == s.len() - 1) {
        lemma_last_slash(s.drop_last(), p);
    }
}

/// How long an elapsed time displays: seconds under a minute, whole minutes
/// under an hour, hours with leftover minutes under a day, and whole days
/// from there on.
pub open spec fn format_elapsed_spec(e: int) -> Seq<char> {
    if e < 60 {
        dec_digits(e) + "s"@
    } else if e < 3600 {
        dec_digits(e / 60) + "m"@
    } else if e < 86400 {
        dec_digits(e / 3600) + "h "@ + dec_digits((e % 3600) / 60) + "m"@
    } else {
        dec_digits(e / 86400) + "d"@
    }
}

/// The whole seconds elapsed from `started` to `now`, never negative.
pub open spec fn elapsed_since(started: u64, now: int) -> int {
    if now >= started {
        now - started
    } else {
        0
    }
}

/// Format an elapsed number of seconds for display.
pub fn format_elapsed(e: u64) -> (r: String)
    ensures
        r@ == format_elapsed_spec(e as int),
{
    if e < 60 {
        u64_to_string(e).concat("s")
    } else if e < 3600 {
        u64_to_string(e / 60).concat("m")
    } else if e < 86400 {
        u64_to_string(e / 3600).concat("h ").concat(u64_to_string((e % 3600) / 60).as_str())
            .concat("m")
    } else {
        u64_to_string(e / 86400).concat("d")
    }
}

impl Environment {
    /// Look up the port recorded for a unit, by its lowercased name.
    pub fn port_for(&self, unit_name: &str) -> (r: Option<u16>)
        ensures
            r == assoc_find(self@.ports, unit_name@),
    {
        let ghost pv = self@.ports;
        let mut j: usize = 0;
        while j < self.ports.len()
            invariant
                j <= self.ports.len(),
                pv == self@.ports,
                pv.len() == self.ports.len(),
                forall|m: int|
                    0 <= m < self.ports.len() ==> pv[m] == (
                    #[trigger] self.ports@[m].0@,
                    self.ports@[m].1,
                ),
                forall|m: int| 0 <= m < j ==> #[trigger] pv[m].0 != unit_name@,
            decreases self.ports.len() - j,
        {
            if str_eq(self.ports[j].0.as_str(), unit_name) {
                proof {
                    lemma_assoc_find_at(pv, unit_name@, j as int);
                }
                return Some(self.ports[j].1);
            }
            j = j + 1;
        }
        proof {
            lemma_assoc_find_absent(pv, unit_name@);
        }
        None
    }

    /// Short display name derived from the project directory.
    pub fn display_name(&self) -> (r: String)
        ensures
            r@ == display_name_spec(self.dir@),
    {
        let d = self.dir.as_str();
        let dn = d.unicode_len();
        let mut b: usize = dn;
        while b > 0 && d.get_char(b - 1) == '/'
            invariant
                dn == d@.len(),
                b <= dn,
                forall|j: int| b <= j < dn ==> d@[j] == '/',
            decreases b,
        {
            b = b - 1;
        }
        proof {
            lemma_drop_trailing_slashes(d@, b as int);
        }
        let t = d.substring_char(0, b);
        proof {
            assert(t@ =~= d@.take(b as int));
        }
        let mut p: usize = b;
        while p > 0 && t.get_char(p - 1) != '/'
            invariant
                b == t@.len(),
                p <= b,
                t@ == drop_trailing_slashes(d@),
                forall|j: int| p <= j < b ==> t@[j] != '/',
            decreases p,
        {
            p = p - 1;
        }
        proof {
            lemma_last_slash(t@, p - 1);
        }
        let name = t.substring_char(p, b);
        proof {
            assert(name@ =~= t@.skip(last_slash(t@) + 1));
        }
        if name.unicode_len() == 0 || str_eq(name, ".") || str_eq(name, "..") {
            "unknown".to_owned()
        } else {
            name.to_owned()
        }
    }

    /// Elapsed time since this environment started, as a short display
    /// string, measured against the clock at the moment of the call.
    pub fn elapsed_string(&self) -> (r: String)
        ensures
            exists|now: int|
                0 <= now && r@ == #[trigger] format_elapsed_spec(elapsed_since(self.started, now)),
    {
        let now = unix_now();
        let e: u64 = if now >= self.started {
            now - self.started
        } else {
            0
        };
        let r = format_elapsed(e);
        proof {
            assert(0 <= now as int && r@ == format_elapsed_spec(
                elapsed_since(self.started, now as int),
            ));
        }
        r
    }
}

/// A filename that names a meta file: non-empty and made of hexadecimal
/// digits alone (which also rules out dots and a leading dot).
pub open spec fn is_meta_name(name: Seq<char>) -> bool {
    name.len() > 0 && forall|i: int|
        0 <= i < name.len() ==> crate::strutil::is_hex_digit_char(#[trigger] name[i])
}

/// Returns true if a filename looks like a hex-only meta file.
pub fn is_meta_file(name: &str) -> (r: bool)
    ensures
        r == is_meta_name(name@),
{
    let n = name.unicode_len();
    if n == 0 {
        return false;
    }
    let mut i: usize = 0;
    while i < n
        invariant
            n == name@.len(),
            i <= n,
            forall|j: int|
                0 <= j < i ==> crate::strutil::is_hex_digit_char(#[trigger] name@[j]),
        decreases n - i,
    {
        if !crate::strutil::hex_digit(name.get_char(i)) {
            return false;
        }
        i = i + 1;
    }
    true
}

// ---------------------------------------------------------------------------
// Sorting
// ---------------------------------------------------------------------------

/// Units in non-decreasing order of name.
pub open spec fn units_sorted(us: Seq<UnitStatusView>) -> bool {
    forall|a: int, b: int|
        0 <= a <= b < us.len() ==> lex_leq(#[trigger] us[a].name, #[trigger] us[b].name)
}

/// Environments in non-decreasing order of working directory.
pub open spec fn envs_sorted(es: Seq<EnvironmentView>) -> bool {
    forall|a: int, b: int|
        0 <= a <= b < es.len() ==> lex_leq(#[trigger] es[a].dir, #[trigger] es[b].dir)
}

/// Sort units by name with an insertion sort, keeping the same multiset of
/// units.
fn sort_units(v: &mut Vec<UnitStatus>)
    ensures
        units_sorted(final(v).deep_view()),
        final(v).deep_view().to_multiset() == old(v).deep_view().to_multiset(),
        final(v)@.len() == old(v)@.len(),
{
    proof {
        assert forall|a: int, b: int|
            0 <= a <= b < 1 && b < v@.len() implies lex_leq(
            v.deep_view()[a].name,
            v.deep_view()[b].name,
        ) by {
            lemma_lex_leq_refl(v.deep_view()[a].name);
        }
    }
    let mut i: usize = 1;
    while i < v.len()
        invariant
            1 <= i,
            v@.len() == old(v)@.len(),
            v.deep_view().to_multiset() == old(v).deep_view().to_multiset(),
            forall|a: int, b: int|
                0 <= a <= b < i && b < v@.len() ==> lex_leq(
                    #[trigger] v.deep_view()[a].name,
                    #[trigger] v.deep_view()[b].name,
                ),
        decreases v.len() - i,
    {
        let ghost dv0 = v.deep_view();
        let x = v.remove(i);
        let ghost xv = x@;
        let ghost dvs = v.deep_view();
        proof {
            assert(dvs =~= dv0.remove(i as int));
            assert(dv0[i as int] == xv);
            assert(forall|a: int| 0 <= a < dvs.len() && a < i ==> dvs[a] == dv0[a]);
        }
        let mut p: usize = 0;
        while p < i && str_leq(v[p].name.as_str(), x.name.as_str())
            invariant
                p <= i,
                i < dv0.len(),
                xv == x@,
                dvs == v.deep_view(),
                i <= v@.len(),
                forall|a: int| 0 <= a < p ==> lex_leq(#[trigger] dvs[a].name, xv.name),
            decreases i - p,
        {
            p = p + 1;
        }
        v.insert(p, x);
        proof {
            let ndv = v.deep_view();
            assert(ndv =~= dvs.insert(p as int, xv));
            assert(ndv.to_multiset() =~= dv0.to_multiset()) by {
                vstd::seq_lib::to_multiset_remove(dv0, i as int);
                vstd::seq_lib::to_multiset_insert(dvs, p as int, xv);
                assert(dv0.contains(xv)) by {
                    assert(dv0[i as int] == xv);
                }
                vstd::seq_lib::to_multiset_contains(dv0, xv);
            }
            assert forall|a: int, b: int| 0 <= a <= b <= i implies lex_leq(
                ndv[a].name,
                ndv[b].name,
            ) by {
                if (p as int) < i {
                    lemma_lex_leq_total(dvs[p as int].name, xv.name);
                }
                lemma_lex_leq_total(xv.name, xv.name);
                if a == p && b > p {
                    lemma_lex_leq_trans(xv.name, dvs[p as int].name, dvs[b - 1].name);
                }
            }
        }
        i = i + 1;
    }
    proof {
        if v@.len() == 0 {
            assert(units_sorted(v.deep_view()));
        }
    }
}

/// Sort environments by working directory with an insertion sort, keeping
/// the same multiset of environments.
fn sort_envs(v: &mut Vec<Environment>)
    ensures
        envs_sorted(final(v).deep_view()),
        final(v).deep_view().to_multiset() == old(v).deep_view().to_multiset(),
        final(v)@.len() == old(v)@.len(),
{
    proof {
        assert forall|a: int, b: int|
            0 <= a <= b < 1 && b < v@.len() implies lex_leq(
            v.deep_view()[a].dir,
            v.deep_view()[b].dir,
        ) by {
            lemma_lex_leq_refl(v.deep_view()[a].dir);
        }
    }
    let mut i: usize = 1;
    while i < v.len()
        invariant
            1 <= i,
            v@.len() == old(v)@.len(),
            v.deep_view().to_multiset() == old(v).deep_view().to_multiset(),
            forall|a: int, b: int|
                0 <= a <= b < i && b < v@.len() ==> lex_leq(
                    #[trigger] v.deep_view()[a].dir,
                    #[trigger] v.deep_view()[b].dir,
                ),
        decreases v.len() - i,
    {
        let ghost dv0 = v.deep_view();
        let x = v.remove(i);
        let ghost xv = x@;
        let ghost dvs = v.deep_view();
        proof {
            assert(dvs =~= dv0.remove(i as int));
            assert(dv0[i as int] == xv);
            assert(forall|a: int| 0 <= a < dvs.len() && a < i ==> dvs[a] == dv0[a]);
        }
        let mut p: usize = 0;
        while p < i && str_leq(v[p].dir.as_str(), x.dir.as_str())
            invariant
                p <= i,
                i < dv0.len(),
                xv == x@,
                dvs == v.deep_view(),
                i <= v@.len(),
                forall|a: int| 0 <= a < p ==> lex_leq(#[trigger] dvs[a].dir, xv.dir),
            decreases i - p,
        {
            p = p + 1;
        }
        v.insert(p, x);
        proof {
            let ndv = v.deep_view();
            assert(ndv =~= dvs.insert(p as int, xv));
            assert(ndv.to_multiset() =~= dv0.to_multiset()) by {
                vstd::seq_lib::to_multiset_remove(dv0, i as int);
                vstd::seq_lib::to_multiset_insert(dvs, p as int, xv);
                assert(dv0.contains(xv)) by {
                    assert(dv0[i as int] == xv);
                }
                vstd::seq_lib::to_multiset_contains(dv0, xv);
            }
            assert forall|a: int, b: int| 0 <= a <= b <= i implies lex_leq(
                ndv[a].dir,
                ndv[b].dir,
            ) by {
                if (p as int) < i {
                    lemma_lex_leq_total(dvs[p as int].dir, xv.dir);
                }
                lemma_lex_leq_total(xv.dir, xv.dir);
                if a == p && b > p {
                    lemma_lex_leq_trans(xv.dir, dvs[p as int].dir, dvs[b - 1].dir);
                }
            }
        }
        i = i + 1;
    }
    proof {
        if v@.len() == 0 {
            assert(envs_sorted(v.deep_view()));
        }
    }
}

// ---------------------------------------------------------------------------
// Scanning
// ---------------------------------------------------------------------------

/// Everything an environment is built from, apart from the liveness probe's
/// outcome: the scan pins these down exactly, while `alive` depends on the
/// running system.
#[verifier::ext_equal]
pub struct EnvSummary {
    pub id: Seq<char>,
    pub dir: Seq<char>,
    pub pid: u32,
    pub ports: Seq<(Seq<char>, u16)>,
    pub started: u64,
    pub units: Multiset<UnitStatusView>,
}

/// The summary of an environment value.
pub open spec fn summary_of(e: EnvironmentView) -> EnvSummary {
    EnvSummary {
        id: e.id,
        dir: e.dir,
        pid: e.pid,
        ports: e.ports,
        started: e.started,
        units: e.units.to_multiset(),
    }
}

/// The summaries of a sequence of environments.
pub open spec fn summaries_of(es: Seq<EnvironmentView>) -> Seq<EnvSummary> {
    es.map_values(|e: EnvironmentView| summary_of(e))
}

/// A meta file's content yields an environment only when it holds a `DIR`
/// value and a `PID` that parses.
pub open spec fn meta_parses(content: Seq<char>) -> bool {
    parse_meta_spec(content).dir is Some && parse_meta_spec(content).pid is Some
}

/// The summary of the environment a meta file yields, with its units read
/// from the registry files.
pub open spec fn env_summary_spec(
    id: Seq<char>,
    content: Seq<char>,
    files: Seq<RegistryFileView>,
) -> EnvSummary {
    let m = parse_meta_spec(content);
    EnvSummary {
        id: id,
        dir: m.dir->0,
        pid: m.pid->0,
        ports: m.ports,
        started: match m.started {
            Some(s) => s,
            None => 0,
        },
        units: collect_units(id, files, 0).to_multiset(),
    }
}

/// The summaries of the environments a directory's files yield, in file
/// order from file `k` on: one for each meta file whose content parses.
pub open spec fn expected_summaries(files: Seq<RegistryFileView>, k: int) -> Seq<EnvSummary>
    decreases files.len() - k,
{
    if 0 <= k < files.len() {
        if is_meta_name(files[k].name) && meta_parses(files[k].content) {
            seq![env_summary_spec(files[k].name, files[k].content, files)] + expected_summaries(
                files,
                k + 1,
            )
        } else {
            expected_summaries(files, k + 1)
        }
    } else {
        Seq::empty()
    }
}

/// Mapping a function over two sequences with the same multiset of elements
/// gives the same multiset of results.
proof fn lemma_map_values_multiset<A, B>(s: Seq<A>, t: Seq<A>, f: spec_fn(A) -> B)
    requires
        s.to_multiset() == t.to_multiset(),
    ensures
        s.map_values(f).to_multiset() == t.map_values(f).to_multiset(),
    decreases s.len(),
{
    vstd::seq_lib::to_multiset_len(s);
    vstd::seq_lib::to_multiset_len(t);
    if s.len() == 0 {
        assert(s.map_values(f) =~= t.map_values(f));
    } else {
        let x = s.last();
        assert(s.contains(x));
        vstd::seq_lib::to_multiset_contains(s, x);
        vstd::seq_lib::to_multiset_contains(t, x);
        assert(t.contains(x));
        let j = choose|j: int| 0 <= j < t.len() && t[j] == x;
        let sd = s.drop_last();
        let td = t.remove(j);
        assert(sd.to_multiset() =~= td.to_multiset()) by {
            assert(s =~= sd.push(x));
            vstd::seq_lib::to_multiset_build(sd, x);
            vstd::seq_lib::to_multiset_remove(t, j);
            assert(s.to_multiset() == sd.to_multiset().insert(x));
            assert(td.to_multiset() == t.to_multiset().remove(x));
            assert forall|e: A| sd.to_multiset().count(e) == td.to_multiset().count(e) by {}
        }
        lemma_map_values_multiset(sd, td, f);
        assert(s.map_values(f) =~= sd.map_values(f).push(f(x)));
        assert(td.map_values(f) =~= t.map_values(f).remove(j));
        vstd::seq_lib::to_multiset_build(sd.map_values(f), f(x));
        vstd::seq_lib::to_multiset_remove(t.map_values(f), j);
        assert(t.map_values(f)[j] == f(x));
        assert(t.map_values(f).contains(f(x))) by {
            assert(t.map_values(f)[j] == f(x));
        }
        vstd::seq_lib::to_multiset_contains(t.map_values(f), f(x));
        assert forall|e: B|
            s.map_values(f).to_multiset().count(e) == t.map_values(f).to_multiset().count(e) by {}
        assert(s.map_values(f).to_multiset() =~= t.map_values(f).to_multiset());
    }
}

impl Environment {
    /// Build an environment from its meta file's content and the registry's
    /// files: the meta fields give directory, process id, start time and
    /// ports; the status files for `id` give the units, sorted by name; and
    /// a liveness probe of the process id gives `alive`. Nothing is built
    /// when the meta content lacks a `DIR` value or a `PID` that parses.
    pub fn from_files(id: &str, meta_content: &str, files: &Vec<RegistryFile>) -> (r: Option<
        Environment,
    >)
        ensures
            match r {
                Some(e) => meta_parses(meta_content@) && summary_of(e@) == env_summary_spec(
                    id@,
                    meta_content@,
                    files.deep_view(),
                ) && units_sorted(e@.units),
                None => !meta_parses(meta_content@),
            },
    {
        let m = parse_meta(meta_content);
        let pid: u32 = match m.pid {
            Some(p) => p,
            None => {
                return None;
            },
        };
        let dir: String = match m.dir {
            Some(d) => d,
            None => {
                return None;
            },
        };
        let alive: bool = if pid <= 0x7fff_ffff {
            probe_alive(pid as i32)
        } else {
            false
        };
        let ghost fv = files.deep_view();
        let mut units: Vec<UnitStatus> = Vec::new();
        proof {
            assert(units.deep_view() =~= Seq::<UnitStatusView>::empty());
            assert(units.deep_view() + collect_units(id@, fv, 0) =~= collect_units(id@, fv, 0));
        }
        let mut k: usize = 0;
        while k < files.len()
            invariant
                k <= files.len(),
                fv == files.deep_view(),
                fv.len() == files.len(),
                forall|m2: int| 0 <= m2 < files.len() ==> fv[m2] == #[trigger] files@[m2]@,
                units.deep_view() + collect_units(id@, fv, k as int) == collect_units(id@, fv, 0),
            decreases files.len() - k,
        {
            let ghost before = units.deep_view();
            match status_unit_for(id, files[k].name.as_str()) {
                Some(unit_name) => {
                    let u = UnitStatus::parse(unit_name.as_str(), files[k].content.as_str());
                    units.push(u);
                    proof {
                        assert(units.deep_view() =~= before.push(
                            parse_unit_spec(unit_name@, fv[k as int].content),
                        ));
                        assert(before.push(parse_unit_spec(unit_name@, fv[k as int].content))
                            + collect_units(id@, fv, k + 1) =~= before + collect_units(
                            id@,
                            fv,
                            k as int,
                        ));
                    }
                },
                None => {},
            }
            k = k + 1;
        }
        proof {
            assert(collect_units(id@, fv, files.len() as int) =~= Seq::<UnitStatusView>::empty());
            assert(units.deep_view() =~= collect_units(id@, fv, 0));
        }
        sort_units(&mut units);
        Some(
            Environment {
                id: id.to_owned(),
                dir,
                pid,
                ports: m.ports,
                started: match m.started {
                    Some(s) => s,
                    None => 0,
                },
                alive,
                units,
            },
        )
    }
}

/// Rebuild every environment the registry's files describe: each meta file
/// (a non-empty all-hex filename) that parses yields one environment, with
/// its units sorted by name, and the result is sorted by working directory.
pub fn scan_all(files: &Vec<RegistryFile>) -> (r: Vec<Environment>)
    ensures
        summaries_of(r.deep_view()).to_multiset() == expected_summaries(
            files.deep_view(),
            0,
        ).to_multiset(),
        forall|i: int| 0 <= i < r.deep_view().len() ==> units_sorted(#[trigger] r.deep_view()[i].units),
        envs_sorted(r.deep_view()),
{
    let ghost fv = files.deep_view();
    let mut envs: Vec<Environment> = Vec::new();
    proof {
        assert(summaries_of(envs.deep_view()) =~= Seq::<EnvSummary>::empty());
        assert(summaries_of(envs.deep_view()) + expected_summaries(fv, 0) =~= expected_summaries(
            fv,
            0,
        ));
    }
    let mut k: usize = 0;
    while k < files.len()
        invariant
            k <= files.len(),
            fv == files.deep_view(),
            fv.len() == files.len(),
            forall|m2: int| 0 <= m2 < files.len() ==> fv[m2] == #[trigger] files@[m2]@,
            summaries_of(envs.deep_view()) + expected_summaries(fv, k as int) == expected_summaries(
                fv,
                0,
            ),
            forall|i: int|
                0 <= i < envs.deep_view().len() ==> units_sorted(
                    #[trigger] envs.deep_view()[i].units,
                ),
        decreases files.len() - k,
    {
        let ghost before = summaries_of(envs.deep_view());
        let ghost before_dv = envs.deep_view();
        if is_meta_file(files[k].name.as_str()) {
            match Environment::from_files(
                files[k].name.as_str(),
                files[k].content.as_str(),
                files,
            ) {
                Some(e) => {
                    let ghost ev = e@;
                    envs.push(e);
                    proof {
                        assert(envs.deep_view() =~= before_dv.push(ev));
                        assert(summaries_of(envs.deep_view()) =~= before.push(summary_of(ev)));
                        assert(before.push(summary_of(ev)) + expected_summaries(fv, k + 1)
                            =~= before + expected_summaries(fv, k as int));
                    }
                },
                None => {},
            }
        }
        k = k + 1;
    }
    proof {
        assert(expected_summaries(fv, files.len() as int) =~= Seq::<EnvSummary>::empty());
        assert(summaries_of(envs.deep_view()) =~= expected_summaries(fv, 0));
    }
    let ghost pre_sort = envs.deep_view();
    sort_envs(&mut envs);
    proof {
        lemma_map_values_multiset(
            envs.deep_view(),
            pre_sort,
            |e: EnvironmentView| summary_of(e),
        );
        assert forall|i: int| 0 <= i < envs.deep_view().len() implies units_sorted(
            envs.deep_view()[i].units,
        ) by {
            let dv = envs.deep_view();
            assert(dv.contains(dv[i]));
            vstd::seq_lib::to_multiset_contains(dv, dv[i]);
            vstd::seq_lib::to_multiset_contains(pre_sort, dv[i]);
            assert(pre_sort.contains(dv[i]));
            let j = choose|j: int| 0 <= j < pre_sort.len() && pre_sort[j] == dv[i];
            assert(units_sorted(pre_sort[j].units));
        }
    }
    envs
}

} // verus!
