//! The state-diff notification engine: it compares each registry snapshot
//! against the previous one, detects per-unit state transitions, applies
//! mute and notification suppression rules, and merges the cycle's alerts
//! into at most one batched playback action.

use vstd::map::Map;
use vstd::prelude::*;
use vstd::set::Set;
use vstd::string::StrSliceExecFns;
use vstd::string::StringExecFns;

use crate::model::{label_of, Environment, EnvironmentView, State, StateView, UnitStatusView};
use crate::strutil::{join_comma, join_with_comma, str_eq};

verus! {

// ---------------------------------------------------------------------------
// Actions and notifications
// ---------------------------------------------------------------------------

/// Action sent to the background audio/speech worker.
pub enum Action {
    /// Play the named system sound, then speak the text, blocking until
    /// both finish.
    SoundAndSpeak { sound: &'static str, text: String },
    /// Stop the worker.
    Shutdown,
}

/// The mathematical value of an `Action`.
#[verifier::ext_equal]
pub enum ActionView {
    SoundAndSpeak { sound: Seq<char>, text: Seq<char> },
    Shutdown,
}

impl View for Action {
    type V = ActionView;

    open spec fn view(&self) -> ActionView {
        match self {
            Action::SoundAndSpeak { sound, text } => ActionView::SoundAndSpeak {
                sound: sound@,
                text: text@,
            },
            Action::Shutdown => ActionView::Shutdown,
        }
    }
}

/// A visual notification to hand to the system's notification collaborator.
pub struct NotificationMsg {
    pub title: String,
    pub body: String,
}

/// The mathematical value of a `NotificationMsg`.
#[verifier::ext_equal]
pub struct NotificationView {
    pub title: Seq<char>,
    pub body: Seq<char>,
}

impl View for NotificationMsg {
    type V = NotificationView;

    open spec fn view(&self) -> NotificationView {
        NotificationView { title: self.title@, body: self.body@ }
    }
}

impl DeepView for NotificationMsg {
    type V = NotificationView;

    open spec fn deep_view(&self) -> NotificationView {
        self.view()
    }
}

/// Everything one diff cycle hands back to its caller: the individual
/// notifications to dispatch, and at most one batched playback action.
pub struct ProcessOutput {
    pub notifications: Vec<NotificationMsg>,
    pub action: Option<Action>,
}

/// The mathematical value of a `ProcessOutput`.
#[verifier::ext_equal]
pub struct ProcessOutputView {
    pub notifications: Seq<NotificationView>,
    pub action: Option<ActionView>,
}

impl View for ProcessOutput {
    type V = ProcessOutputView;

    open spec fn view(&self) -> ProcessOutputView {
        ProcessOutputView {
            notifications: self.notifications.deep_view(),
            action: match self.action {
                Some(a) => Some(a@),
                None => None,
            },
        }
    }
}

// ---------------------------------------------------------------------------
// Keys and sounds
// ---------------------------------------------------------------------------

/// The combined key that addresses one unit of one environment.
pub open spec fn unit_key_view(env_id: Seq<char>, unit_name: Seq<char>) -> Seq<char> {
    env_id + "\x00"@ + unit_name
}

/// Build a combined key for unit lookups.
pub fn unit_key(env_id: &str, unit_name: &str) -> (r: String)
    ensures
        r@ == unit_key_view(env_id@, unit_name@),
{
    let r = env_id.to_owned().concat("\x00").concat(unit_name);
    proof {
        assert(r@ =~= unit_key_view(env_id@, unit_name@));
    }
    r
}

/// Two states are the same for transition detection when their variants
/// match; two `Other` states also need the same raw token.
pub open spec fn variant_eq(a: StateView, b: StateView) -> bool {
    match a {
        StateView::Absent => b is Absent,
        StateView::Starting => b is Starting,
        StateView::Building => b is Building,
        StateView::Running => b is Running,
        StateView::Ready => b is Ready,
        StateView::Failed => b is Failed,
        StateView::Stopped => b is Stopped,
        StateView::Other(x) => b matches StateView::Other(y) && x == y,
    }
}

/// Compare two states by variant, also comparing the inner token for
/// `Other`.
pub fn state_variant_eq(a: &State, b: &State) -> (r: bool)
    ensures
        r == variant_eq(a@, b@),
{
    match (a, b) {
        (State::Absent, State::Absent) => true,
        (State::Starting, State::Starting) => true,
        (State::Building, State::Building) => true,
        (State::Running, State::Running) => true,
        (State::Ready, State::Ready) => true,
        (State::Failed, State::Failed) => true,
        (State::Stopped, State::Stopped) => true,
        (State::Other(x), State::Other(y)) => str_eq(x.as_str(), y.as_str()),
        _ => false,
    }
}

/// The priority a system sound carries: the failure sound beats the
/// ready/running sound, which beats the starting/building one.
pub open spec fn sound_priority_of(s: Seq<char>) -> int {
    if s == "Basso"@ {
        2
    } else if s == "Ping"@ {
        1
    } else {
        0
    }
}

/// The higher-priority sound of the two, the first on a tie.
pub open spec fn higher_sound(a: Seq<char>, b: Seq<char>) -> Seq<char> {
    if sound_priority_of(b) > sound_priority_of(a) {
        b
    } else {
        a
    }
}

/// The priority a system sound carries.
fn sound_priority(s: &str) -> (r: u8)
    ensures
        r as int == sound_priority_of(s@),
{
    if str_eq(s, "Basso") {
        2
    } else if str_eq(s, "Ping") {
        1
    } else {
        0
    }
}

/// Return the higher-priority of two system sounds.
pub fn higher_priority_sound(a: &'static str, b: &'static str) -> (r: &'static str)
    ensures
        r@ == higher_sound(a@, b@),
{
    if sound_priority(b) > sound_priority(a) {
        b
    } else {
        a
    }
}

/// A state whose transitions stay silent: unknown, unrecognized, and
/// stopped units never alert.
pub open spec fn silent_state(s: StateView) -> bool {
    s is Absent || s is Stopped || s is Other
}

/// The system sound a non-silent destination state plays.
pub open spec fn sound_for(s: StateView) -> Seq<char> {
    match s {
        StateView::Starting => "Submarine"@,
        StateView::Building => "Submarine"@,
        StateView::Ready => "Ping"@,
        StateView::Running => "Ping"@,
        StateView::Failed => "Basso"@,
        _ => Seq::empty(),
    }
}

/// The spoken phrase for a unit's transition: its name, a space, and the
/// destination state's label.
pub open spec fn phrase_for(unit_name: Seq<char>, s: StateView) -> Seq<char> {
    unit_name + " "@ + label_of(s)
}

/// The visual notification for a unit's transition.
pub open spec fn notification_for(unit_name: Seq<char>, s: StateView) -> NotificationView {
    NotificationView { title: "sutra \u{2014} "@ + unit_name, body: label_of(s) }
}

// ---------------------------------------------------------------------------
// String sets
// ---------------------------------------------------------------------------

/// The set of character sequences a vector of strings holds.
pub open spec fn str_set(s: Seq<String>) -> Set<Seq<char>> {
    s.map_values(|x: String| x@).to_set()
}

/// No two strings of the sequence read the same.
pub open spec fn str_seq_unique(s: Seq<String>) -> bool {
    forall|i: int, j: int| 0 <= i < j < s.len() ==> s[i]@ != s[j]@
}

/// Membership in the set a vector of strings holds.
fn str_set_contains(v: &Vec<String>, key: &str) -> (r: bool)
    ensures
        r == str_set(v@).contains(key@),
{
    let ghost mapped = v@.map_values(|x: String| x@);
    let mut j: usize = 0;
    while j < v.len()
        invariant
            j <= v.len(),
            mapped == v@.map_values(|x: String| x@),
            forall|m: int| 0 <= m < j ==> #[trigger] mapped[m] != key@,
        decreases v.len() - j,
    {
        if str_eq(v[j].as_str(), key) {
            proof {
                assert(mapped[j as int] == key@);
                assert(mapped.contains(key@));
            }
            return true;
        }
        j = j + 1;
    }
    proof {
        assert(!mapped.contains(key@));
    }
    false
}

/// Removing one string removes exactly its reading from the set, when no
/// other string reads the same.
proof fn lemma_str_set_remove(s: Seq<String>, j: int)
    requires
        str_seq_unique(s),
        0 <= j < s.len(),
    ensures
        str_set(s.remove(j)) =~= str_set(s).remove(s[j]@),
{
    let m0 = s.map_values(|x: String| x@);
    let m1 = s.remove(j).map_values(|x: String| x@);
    assert forall|e: Seq<char>| str_set(s.remove(j)).contains(e) implies str_set(s).remove(
        s[j]@,
    ).contains(e) by {
        let i = choose|i: int| 0 <= i < m1.len() && m1[i] == e;
        if i < j {
            assert(m0[i] == e);
        } else {
            assert(m0[i + 1] == e);
        }
        assert(m0.contains(e));
    }
    assert forall|e: Seq<char>| str_set(s).remove(s[j]@).contains(e) implies str_set(
        s.remove(j),
    ).contains(e) by {
        let i = choose|i: int| 0 <= i < m0.len() && m0[i] == e;
        assert(i != j);
        if i < j {
            assert(m1[i] == e);
        } else {
            assert(m1[i - 1] == e);
        }
        assert(m1.contains(e));
    }
}

/// Appending a string adds exactly its reading to the set.
proof fn lemma_str_set_push(s: Seq<String>, x: String)
    ensures
        str_set(s.push(x)) =~= str_set(s).insert(x@),
{
    let m0 = s.map_values(|y: String| y@);
    let m1 = s.push(x).map_values(|y: String| y@);
    assert forall|e: Seq<char>| str_set(s.push(x)).contains(e) implies str_set(s).insert(
        x@,
    ).contains(e) by {
        let i = choose|i: int| 0 <= i < m1.len() && m1[i] == e;
        if i < s.len() {
            assert(m0[i] == e);
            assert(m0.contains(e));
        }
    }
    assert forall|e: Seq<char>| str_set(s).insert(x@).contains(e) implies str_set(
        s.push(x),
    ).contains(e) by {
        if e == x@ {
            assert(m1[s.len() as int] == e);
        } else {
            let i = choose|i: int| 0 <= i < m0.len() && m0[i] == e;
            assert(m1[i] == e);
        }
        assert(m1.contains(e));
    }
}

/// Toggle a string's membership in a vector treated as a set: remove its
/// one occurrence, or append it.
fn str_set_toggle(v: &mut Vec<String>, key: String)
    requires
        str_seq_unique(old(v)@),
    ensures
        str_seq_unique(final(v)@),
        str_set(final(v)@) == (if str_set(old(v)@).contains(key@) {
            str_set(old(v)@).remove(key@)
        } else {
            str_set(old(v)@).insert(key@)
        }),
{
    let ghost s0 = old(v)@;
    let mut j: usize = 0;
    while j < v.len()
        invariant
            j <= v.len(),
            s0 == old(v)@,
            v@ == s0,
            str_seq_unique(s0),
            forall|m: int| 0 <= m < j ==> #[trigger] s0[m]@ != key@,
        decreases v.len() - j,
    {
        if str_eq(v[j].as_str(), key.as_str()) {
            proof {
                lemma_str_set_remove(s0, j as int);
                assert(s0.map_values(|x: String| x@)[j as int] == key@);
                assert(str_set(s0).contains(key@));
                assert(str_set(s0).remove(s0[j as int]@) =~= str_set(s0).remove(key@));
            }
            v.remove(j);
            proof {
                assert(str_set(v@) == str_set(s0).remove(key@));
                assert forall|a: int, b: int|
                    0 <= a < b < v@.len() implies v@[a]@ != v@[b]@ by {
                    if b < j {
                    } else if a < j <= b {
                        assert(v@[b] == s0[b + 1]);
                    } else {
                        assert(v@[a] == s0[a + 1]);
                        assert(v@[b] == s0[b + 1]);
                    }
                }
            }
            return ;
        }
        j = j + 1;
    }
    proof {
        assert(!str_set(s0).contains(key@)) by {
            let m0 = s0.map_values(|x: String| x@);
            if m0.contains(key@) {
                let i = choose|i: int| 0 <= i < m0.len() && m0[i] == key@;
                assert(s0[i]@ == key@);
            }
        }
        lemma_str_set_push(s0, key);
    }
    let ghost kv = key@;
    v.push(key);
    proof {
        assert forall|a: int, b: int| 0 <= a < b < v@.len() implies v@[a]@ != v@[b]@ by {
            if b == v@.len() - 1 {
                assert(s0.map_values(|x: String| x@)[a] == s0[a]@);
                assert(!str_set(s0).contains(kv));
                if s0[a]@ == kv {
                    assert(s0.map_values(|x: String| x@).contains(kv));
                }
            }
        }
    }
}

// ---------------------------------------------------------------------------
// Flattened snapshot entries
// ---------------------------------------------------------------------------

/// One unit's state at one scan, addressed by environment id and unit name.
pub struct PrevEntry {
    pub env_id: String,
    pub unit_name: String,
    pub state: State,
}

/// The mathematical value of a `PrevEntry`.
#[verifier::ext_equal]
pub struct EntryView {
    pub env_id: Seq<char>,
    pub unit_name: Seq<char>,
    pub state: StateView,
}

impl View for PrevEntry {
    type V = EntryView;

    open spec fn view(&self) -> EntryView {
        EntryView { env_id: self.env_id@, unit_name: self.unit_name@, state: self.state@ }
    }
}

impl DeepView for PrevEntry {
    type V = EntryView;

    open spec fn deep_view(&self) -> EntryView {
        self.view()
    }
}

/// The composite key of an entry.
pub open spec fn entry_key(e: EntryView) -> (Seq<char>, Seq<char>) {
    (e.env_id, e.unit_name)
}

/// The map from composite keys to states a list of entries holds; a later
/// entry overrides an earlier one with the same key.
pub open spec fn entries_map(s: Seq<EntryView>) -> Map<(Seq<char>, Seq<char>), StateView>
    decreases s.len(),
{
    if s.len() == 0 {
        Map::empty()
    } else {
        entries_map(s.drop_last()).insert(entry_key(s.last()), s.last().state)
    }
}

/// No two entries share a composite key.
pub open spec fn entries_unique(s: Seq<EntryView>) -> bool {
    forall|i: int, j: int| 0 <= i < j < s.len() ==> entry_key(s[i]) != entry_key(s[j])
}

/// With unique keys, the map reads each entry's state at its key.
proof fn lemma_entries_map_at(s: Seq<EntryView>, j: int)
    requires
        entries_unique(s),
        0 <= j < s.len(),
    ensures
        entries_map(s).dom().contains(entry_key(s[j])),
        entries_map(s)[entry_key(s[j])] == s[j].state,
    decreases s.len(),
{
    if j < s.len() - 1 {
        assert(entries_unique(s.drop_last()));
        lemma_entries_map_at(s.drop_last(), j);
        assert(entry_key(s[j]) != entry_key(s.last()));
    }
}

/// A key no entry carries is not in the map.
proof fn lemma_entries_map_absent(s: Seq<EntryView>, k: (Seq<char>, Seq<char>))
    requires
        forall|i: int| 0 <= i < s.len() ==> entry_key(#[trigger] s[i]) != k,
    ensures
        !entries_map(s).dom().contains(k),
    decreases s.len(),
{
    if s.len() > 0 {
        lemma_entries_map_absent(s.drop_last(), k);
    }
}

/// Every key in the map comes from some entry.
proof fn lemma_entries_map_dom(s: Seq<EntryView>, k: (Seq<char>, Seq<char>))
    requires
        entries_map(s).dom().contains(k),
    ensures
        exists|i: int| 0 <= i < s.len() && entry_key(#[trigger] s[i]) == k,
    decreases s.len(),
{
    if s.len() > 0 {
        if entry_key(s.last()) == k {
            assert(entry_key(s[s.len() - 1]) == k);
        } else {
            lemma_entries_map_dom(s.drop_last(), k);
            let i = choose|i: int|
                0 <= i < s.drop_last().len() && entry_key(#[trigger] s.drop_last()[i]) == k;
            assert(entry_key(s[i]) == k);
        }
    }
}

/// Replace the first entry with this entry's key, or append the entry, as
/// a map insert behaves on an entry list.
pub open spec fn entry_upsert(s: Seq<EntryView>, e: EntryView) -> Seq<EntryView>
    decreases s.len(),
{
    if s.len() == 0 {
        seq![e]
    } else if entry_key(s[0]) == entry_key(e) {
        seq![e] + s.drop_first()
    } else {
        seq![s[0]] + entry_upsert(s.drop_first(), e)
    }
}

/// The entry list a snapshot's flattened entries reduce to: later entries
/// override earlier ones with the same key, which keeps its first position.
pub open spec fn dedup_entries(s: Seq<EntryView>) -> Seq<EntryView>
    decreases s.len(),
{
    if s.len() == 0 {
        Seq::empty()
    } else {
        entry_upsert(dedup_entries(s.drop_last()), s.last())
    }
}

/// Upserting at the first matching index is a point update.
proof fn lemma_entry_upsert_at(s: Seq<EntryView>, e: EntryView, j: int)
    requires
        0 <= j < s.len(),
        entry_key(s[j]) == entry_key(e),
        forall|m: int| 0 <= m < j ==> entry_key(#[trigger] s[m]) != entry_key(e),
    ensures
        entry_upsert(s, e) =~= s.update(j, e),
    decreases j,
{
    if j == 0 {
    } else {
        lemma_entry_upsert_at(s.drop_first(), e, j - 1);
        assert(seq![s[0]] + s.drop_first().update(j - 1, e) =~= s.update(j, e));
    }
}

/// Upserting an absent key appends the entry.
proof fn lemma_entry_upsert_absent(s: Seq<EntryView>, e: EntryView)
    requires
        forall|m: int| 0 <= m < s.len() ==> entry_key(#[trigger] s[m]) != entry_key(e),
    ensures
        entry_upsert(s, e) =~= s.push(e),
    decreases s.len(),
{
    if s.len() > 0 {
        lemma_entry_upsert_absent(s.drop_first(), e);
        assert(seq![s[0]] + s.drop_first().push(e) =~= s.push(e));
    }
}

/// An upsert keeps keys unique.
proof fn lemma_entry_upsert_unique(s: Seq<EntryView>, e: EntryView)
    requires
        entries_unique(s),
    ensures
        entries_unique(entry_upsert(s, e)),
        entries_map(entry_upsert(s, e)) == entries_map(s).insert(entry_key(e), e.state),
{
    if exists|j: int|
        0 <= j < s.len() && entry_key(#[trigger] s[j]) == entry_key(e) && forall|m: int|
            0 <= m < j ==> entry_key(#[trigger] s[m]) != entry_key(e) {
        let j = choose|j: int|
            0 <= j < s.len() && entry_key(#[trigger] s[j]) == entry_key(e) && (forall|m: int|
                0 <= m < j ==> entry_key(#[trigger] s[m]) != entry_key(e));
        lemma_entry_upsert_at(s, e, j);
        let u = s.update(j, e);
        assert(entries_unique(u)) by {
            assert forall|a: int, b: int| 0 <= a < b < u.len() implies entry_key(u[a])
                != entry_key(u[b]) by {
                assert(entry_key(s[a]) != entry_key(s[b]));
            }
        }
        assert(entries_map(u) =~= entries_map(s).insert(entry_key(e), e.state)) by {
            lemma_entries_map_update(s, j, e);
        }
    } else {
        assert(forall|m: int| 0 <= m < s.len() ==> entry_key(#[trigger] s[m]) != entry_key(e))
            by {
            if exists|m: int| 0 <= m < s.len() && entry_key(#[trigger] s[m]) == entry_key(e) {
                let m0 = choose|m: int|
                    0 <= m < s.len() && entry_key(#[trigger] s[m]) == entry_key(e);
                lemma_first_key_index(s, e, m0);
            }
        }
        lemma_entry_upsert_absent(s, e);
        let u = s.push(e);
        assert(entries_unique(u)) by {
            assert forall|a: int, b: int| 0 <= a < b < u.len() implies entry_key(u[a])
                != entry_key(u[b]) by {
                if b == u.len() - 1 {
                    assert(entry_key(s[a]) != entry_key(e));
                } else {
                    assert(entry_key(s[a]) != entry_key(s[b]));
                }
            }
        }
        assert(entries_map(u) =~= entries_map(s).insert(entry_key(e), e.state)) by {
            assert(u.drop_last() =~= s);
        }
    }
}

/// When some entry carries the key, a first such entry exists.
proof fn lemma_first_key_index(s: Seq<EntryView>, e: EntryView, m0: int)
    requires
        0 <= m0 < s.len(),
        entry_key(s[m0]) == entry_key(e),
    ensures
        exists|j: int|
            0 <= j < s.len() && entry_key(#[trigger] s[j]) == entry_key(e) && forall|m: int|
                0 <= m < j ==> entry_key(#[trigger] s[m]) != entry_key(e),
    decreases m0,
{
    if forall|m: int| 0 <= m < m0 ==> entry_key(#[trigger] s[m]) != entry_key(e) {
        assert(0 <= m0 < s.len() && entry_key(#[trigger] s[m0]) == entry_key(e) && forall|m: int|
            0 <= m < m0 ==> entry_key(#[trigger] s[m]) != entry_key(e));
    } else {
        let m1 = choose|m: int| 0 <= m < m0 && entry_key(#[trigger] s[m]) == entry_key(e);
        lemma_first_key_index(s, e, m1);
    }
}

/// A point update at a unique key is a map insert.
proof fn lemma_entries_map_update(s: Seq<EntryView>, j: int, e: EntryView)
    requires
        entries_unique(s),
        0 <= j < s.len(),
        entry_key(s[j]) == entry_key(e),
    ensures
        entries_map(s.update(j, e)) =~= entries_map(s).insert(entry_key(e), e.state),
    decreases s.len(),
{
    let u = s.update(j, e);
    if j == s.len() - 1 {
        assert(u.drop_last() =~= s.drop_last());
        assert(u.last() == e);
    } else {
        assert(u.drop_last() =~= s.drop_last().update(j, e));
        assert(entries_unique(s.drop_last()));
        lemma_entries_map_update(s.drop_last(), j, e);
        assert(u.last() == s.last());
        assert(entry_key(s.last()) != entry_key(e)) by {
            assert(entry_key(s[j]) != entry_key(s[s.len() - 1]));
        }
        assert(entries_map(u) =~= entries_map(s.drop_last()).insert(
            entry_key(e),
            e.state,
        ).insert(entry_key(s.last()), s.last().state));
        assert(entries_map(s.drop_last()).insert(entry_key(e), e.state).insert(
            entry_key(s.last()),
            s.last().state,
        ) =~= entries_map(s).insert(entry_key(e), e.state));
    }
}

/// The per-unit entries one environment contributes, in unit order.
pub open spec fn unit_entries(env: EnvironmentView) -> Seq<EntryView> {
    env.units.map_values(
        |u: UnitStatusView| EntryView { env_id: env.id, unit_name: u.name, state: u.state },
    )
}

/// The entries a whole snapshot contributes, in environment and unit order.
pub open spec fn all_entries(envs: Seq<EnvironmentView>) -> Seq<EntryView>
    decreases envs.len(),
{
    if envs.len() == 0 {
        Seq::empty()
    } else {
        all_entries(envs.drop_last()) + unit_entries(envs.last())
    }
}

/// The flattened, deduplicated entry list of a snapshot: one entry per
/// composite key, at its first position, with its last state.
pub open spec fn snapshot_entries(envs: Seq<EnvironmentView>) -> Seq<EntryView> {
    dedup_entries(all_entries(envs))
}

/// Replace the first entry with this entry's key, or append it.
fn entries_upsert(v: &mut Vec<PrevEntry>, e: PrevEntry)
    requires
        entries_unique(old(v).deep_view()),
    ensures
        final(v).deep_view() == entry_upsert(old(v).deep_view(), e@),
        entries_unique(final(v).deep_view()),
{
    let ghost s0 = old(v).deep_view();
    let ghost ev = e@;
    let mut j: usize = 0;
    while j < v.len()
        invariant
            j <= v.len(),
            s0 == old(v).deep_view(),
            entries_unique(s0),
            v.deep_view() == s0,
            v@.len() == s0.len(),
            ev == e@,
            forall|m: int| 0 <= m < j ==> entry_key(#[trigger] s0[m]) != entry_key(ev),
        decreases v.len() - j,
    {
        if str_eq(v[j].env_id.as_str(), e.env_id.as_str()) && str_eq(
            v[j].unit_name.as_str(),
            e.unit_name.as_str(),
        ) {
            proof {
                assert(entry_key(s0[j as int]) == entry_key(ev));
                lemma_entry_upsert_unique(s0, ev);
                lemma_entry_upsert_at(s0, ev, j as int);
            }
            v[j] = e;
            proof {
                assert(v.deep_view() =~= s0.update(j as int, ev));
            }
            return ;
        }
        j = j + 1;
    }
    proof {
        lemma_entry_upsert_unique(s0, ev);
        lemma_entry_upsert_absent(s0, ev);
    }
    v.push(e);
    proof {
        assert(v.deep_view() =~= s0.push(ev));
    }
}

/// Flatten a snapshot into one entry per composite key: within each
/// environment the units contribute in order, and a later occurrence of a
/// key overrides an earlier one.
fn build_current(envs: &Vec<Environment>) -> (r: Vec<PrevEntry>)
    ensures
        r.deep_view() == snapshot_entries(envs.deep_view()),
        entries_unique(r.deep_view()),
{
    let ghost dv = envs.deep_view();
    let mut cur: Vec<PrevEntry> = Vec::new();
    let ghost done: Seq<EntryView> = Seq::empty();
    proof {
        assert(cur.deep_view() =~= dedup_entries(done));
        assert(all_entries(dv.take(0)) =~= done);
        assert(entries_unique(cur.deep_view()));
    }
    let mut i: usize = 0;
    while i < envs.len()
        invariant
            i <= envs.len(),
            dv == envs.deep_view(),
            dv.len() == envs.len(),
            forall|m: int| 0 <= m < envs.len() ==> dv[m] == #[trigger] envs@[m]@,
            cur.deep_view() == dedup_entries(all_entries(dv.take(i as int))),
            entries_unique(cur.deep_view()),
        decreases envs.len() - i,
    {
        let env = &envs[i];
        let ghost ev = dv[i as int];
        let ghost ue = unit_entries(ev);
        let ghost base = all_entries(dv.take(i as int));
        let mut j: usize = 0;
        proof {
            assert(ev == (*env)@);
            assert(base + ue.take(0) =~= base);
        }
        while j < env.units.len()
            invariant
                j <= env.units.len(),
                ev == (*env)@,
                ue == unit_entries(ev),
                ue.len() == env.units.len(),
                cur.deep_view() == dedup_entries(base + ue.take(j as int)),
                entries_unique(cur.deep_view()),
            decreases env.units.len() - j,
        {
            let u = &env.units[j];
            let e = PrevEntry {
                env_id: env.id.clone(),
                unit_name: u.name.clone(),
                state: u.state.clone(),
            };
            proof {
                assert(ue[j as int] == EntryView {
                    env_id: ev.id,
                    unit_name: ev.units[j as int].name,
                    state: ev.units[j as int].state,
                });
                assert(ev.units[j as int] == env.units@[j as int]@);
                assert(e@ == ue[j as int]);
                assert((base + ue.take(j + 1)).drop_last() =~= base + ue.take(j as int));
                assert((base + ue.take(j + 1)).last() == ue[j as int]);
            }
            entries_upsert(&mut cur, e);
            j = j + 1;
        }
        proof {
            assert(ue.take(ue.len() as int) =~= ue);
            let t = dv.take(i + 1);
            assert(t.drop_last() =~= dv.take(i as int));
            assert(t.last() == dv[i as int]);
            assert(all_entries(t) == base + ue);
        }
        i = i + 1;
    }
    proof {
        assert(dv.take(dv.len() as int) =~= dv);
    }
    cur
}

// ---------------------------------------------------------------------------
// The notifier
// ---------------------------------------------------------------------------

/// The engine's process-wide state: global and per-unit mute switches for
/// sound, the same for visual notifications, and the per-unit states of the
/// previous scan that transitions are detected against.
pub struct Notifier {
    pub global_mute: bool,
    pub global_notifications_off: bool,
    muted_units: Vec<String>,
    notifications_off_units: Vec<String>,
    prev_states: Vec<PrevEntry>,
    first_load: bool,
}

impl Notifier {
    /// Whether all sound alerts are muted.
    pub closed spec fn spec_global_mute(&self) -> bool {
        self.global_mute
    }

    /// Whether all visual notifications are off.
    pub closed spec fn spec_global_notifications_off(&self) -> bool {
        self.global_notifications_off
    }

    /// The set of combined keys whose sound alerts are muted.
    pub closed spec fn muted_set(&self) -> Set<Seq<char>> {
        str_set(self.muted_units@)
    }

    /// The set of combined keys whose visual notifications are off.
    pub closed spec fn notifications_off_set(&self) -> Set<Seq<char>> {
        str_set(self.notifications_off_units@)
    }

    /// The per-unit states remembered from the previous scan.
    pub closed spec fn prev_map(&self) -> Map<(Seq<char>, Seq<char>), StateView> {
        entries_map(self.prev_states.deep_view())
    }

    /// Whether no snapshot has been processed yet.
    pub closed spec fn is_first_load(&self) -> bool {
        self.first_load
    }

    /// The engine's internal lists hold each key at most once.
    pub closed spec fn wf(&self) -> bool {
        &&& str_seq_unique(self.muted_units@)
        &&& str_seq_unique(self.notifications_off_units@)
        &&& entries_unique(self.prev_states.deep_view())
    }

    /// A fresh engine: nothing muted, nothing remembered, and the very
    /// first snapshot still to come.
    pub fn new() -> (r: Notifier)
        ensures
            r.wf(),
            r.is_first_load(),
            !r.spec_global_mute(),
            !r.spec_global_notifications_off(),
            r.muted_set() == Set::<Seq<char>>::empty(),
            r.notifications_off_set() == Set::<Seq<char>>::empty(),
            r.prev_map() == Map::<(Seq<char>, Seq<char>), StateView>::empty(),
    {
        let r = Notifier {
            global_mute: false,
            global_notifications_off: false,
            muted_units: Vec::new(),
            notifications_off_units: Vec::new(),
            prev_states: Vec::new(),
            first_load: true,
        };
        proof {
            assert(r.muted_set() =~= Set::<Seq<char>>::empty());
            assert(r.notifications_off_set() =~= Set::<Seq<char>>::empty());
            assert(r.prev_states.deep_view() =~= Seq::<EntryView>::empty());
        }
        r
    }

    /// Flip the global sound mute; nothing else changes.
    pub fn toggle_global_mute(&mut self)
        ensures
            final(self).spec_global_mute() == !old(self).spec_global_mute(),
            final(self).spec_global_notifications_off() == old(
                self,
            ).spec_global_notifications_off(),
            final(self).muted_set() == old(self).muted_set(),
            final(self).notifications_off_set() == old(self).notifications_off_set(),
            final(self).prev_map() == old(self).prev_map(),
            final(self).is_first_load() == old(self).is_first_load(),
            final(self).wf() == old(self).wf(),
    {
        self.global_mute = !self.global_mute;
    }

    /// Flip one unit's sound mute.
    pub fn toggle_unit_mute(&mut self, env_id: &str, unit_name: &str)
        requires
            old(self).wf(),
        ensures
            final(self).wf(),
            final(self).muted_set() == (if old(self).muted_set().contains(
                unit_key_view(env_id@, unit_name@),
            ) {
                old(self).muted_set().remove(unit_key_view(env_id@, unit_name@))
            } else {
                old(self).muted_set().insert(unit_key_view(env_id@, unit_name@))
            }),
            final(self).spec_global_mute() == old(self).spec_global_mute(),
            final(self).spec_global_notifications_off() == old(
                self,
            ).spec_global_notifications_off(),
            final(self).notifications_off_set() == old(self).notifications_off_set(),
            final(self).prev_map() == old(self).prev_map(),
            final(self).is_first_load() == old(self).is_first_load(),
    {
        let key = unit_key(env_id, unit_name);
        str_set_toggle(&mut self.muted_units, key);
    }

    /// Is this unit's sound alert muted?
    pub fn is_unit_muted(&self, env_id: &str, unit_name: &str) -> (r: bool)
        ensures
            r == self.muted_set().contains(unit_key_view(env_id@, unit_name@)),
    {
        let key = unit_key(env_id, unit_name);
        str_set_contains(&self.muted_units, key.as_str())
    }

    /// Flip the global visual-notification switch; nothing else changes.
    pub fn toggle_global_notifications(&mut self)
        ensures
            final(self).spec_global_notifications_off() == !old(
                self,
            ).spec_global_notifications_off(),
            final(self).spec_global_mute() == old(self).spec_global_mute(),
            final(self).muted_set() == old(self).muted_set(),
            final(self).notifications_off_set() == old(self).notifications_off_set(),
            final(self).prev_map() == old(self).prev_map(),
            final(self).is_first_load() == old(self).is_first_load(),
            final(self).wf() == old(self).wf(),
    {
        self.global_notifications_off = !self.global_notifications_off;
    }

    /// Flip one unit's visual notifications.
    pub fn toggle_unit_notifications(&mut self, env_id: &str, unit_name: &str)
        requires
            old(self).wf(),
        ensures
            final(self).wf(),
            final(self).notifications_off_set() == (if old(self).notifications_off_set().contains(
                unit_key_view(env_id@, unit_name@),
            ) {
                old(self).notifications_off_set().remove(unit_key_view(env_id@, unit_name@))
            } else {
                old(self).notifications_off_set().insert(unit_key_view(env_id@, unit_name@))
            }),
            final(self).spec_global_mute() == old(self).spec_global_mute(),
            final(self).spec_global_notifications_off() == old(
                self,
            ).spec_global_notifications_off(),
            final(self).muted_set() == old(self).muted_set(),
            final(self).prev_map() == old(self).prev_map(),
            final(self).is_first_load() == old(self).is_first_load(),
    {
        let key = unit_key(env_id, unit_name);
        str_set_toggle(&mut self.notifications_off_units, key);
    }

    /// Are this unit's visual notifications off?
    pub fn is_unit_notifications_off(&self, env_id: &str, unit_name: &str) -> (r: bool)
        ensures
            r == self.notifications_off_set().contains(unit_key_view(env_id@, unit_name@)),
    {
        let key = unit_key(env_id, unit_name);
        str_set_contains(&self.notifications_off_units, key.as_str())
    }
}

impl Default for Notifier {
    /// A fresh engine, as `Notifier::new` builds it.
    fn default() -> (r: Notifier)
        ensures
            r.wf(),
            r.is_first_load(),
            !r.spec_global_mute(),
            !r.spec_global_notifications_off(),
            r.muted_set() == Set::<Seq<char>>::empty(),
            r.notifications_off_set() == Set::<Seq<char>>::empty(),
            r.prev_map() == Map::<(Seq<char>, Seq<char>), StateView>::empty(),
    {
        Notifier::new()
    }
}

// ---------------------------------------------------------------------------
// The diff cycle
// ---------------------------------------------------------------------------

/// A snapshot entry is a transition when its key was unseen, or its state's
/// variant differs from the remembered one.
pub open spec fn is_transition(
    prev: Map<(Seq<char>, Seq<char>), StateView>,
    e: EntryView,
) -> bool {
    !prev.dom().contains(entry_key(e)) || !variant_eq(prev[entry_key(e)], e.state)
}

/// What one diff cycle accumulates: the notifications to dispatch, the
/// spoken phrases in entry order, and the winning sound so far.
#[verifier::ext_equal]
pub struct CycleOut {
    pub notifications: Seq<NotificationView>,
    pub speeches: Seq<Seq<char>>,
    pub best: Option<Seq<char>>,
}

/// A cycle that saw nothing.
pub open spec fn cycle_empty() -> CycleOut {
    CycleOut { notifications: Seq::empty(), speeches: Seq::empty(), best: None }
}

/// How one snapshot entry extends the cycle's accumulation. A non-transition
/// or a transition into a silent state contributes nothing. Otherwise the
/// transition is notified unless visual notifications are off for it, and
/// its phrase and sound are batched unless its sound is muted.
pub open spec fn cycle_step(
    prev: Map<(Seq<char>, Seq<char>), StateView>,
    acc: CycleOut,
    e: EntryView,
    gmute: bool,
    muted: Set<Seq<char>>,
    gnotif_off: bool,
    noffs: Set<Seq<char>>,
) -> CycleOut {
    if !is_transition(prev, e) || silent_state(e.state) {
        acc
    } else {
        let k = unit_key_view(e.env_id, e.unit_name);
        let notifications = if !(gnotif_off || noffs.contains(k)) {
            acc.notifications.push(notification_for(e.unit_name, e.state))
        } else {
            acc.notifications
        };
        if gmute || muted.contains(k) {
            CycleOut { notifications, ..acc }
        } else {
            CycleOut {
                notifications,
                speeches: acc.speeches.push(phrase_for(e.unit_name, e.state)),
                best: Some(
                    match acc.best {
                        None => sound_for(e.state),
                        Some(p) => higher_sound(p, sound_for(e.state)),
                    },
                ),
            }
        }
    }
}

/// The whole diff cycle over a deduplicated snapshot entry list, in order.
pub open spec fn cycle_spec(
    prev: Map<(Seq<char>, Seq<char>), StateView>,
    cur: Seq<EntryView>,
    gmute: bool,
    muted: Set<Seq<char>>,
    gnotif_off: bool,
    noffs: Set<Seq<char>>,
) -> CycleOut
    decreases cur.len(),
{
    if cur.len() == 0 {
        cycle_empty()
    } else {
        cycle_step(
            prev,
            cycle_spec(prev, cur.drop_last(), gmute, muted, gnotif_off, noffs),
            cur.last(),
            gmute,
            muted,
            gnotif_off,
            noffs,
        )
    }
}

/// The batched action a cycle ends in: one action carrying the winning
/// sound and all phrases joined into one utterance, when anything was
/// batched at all.
pub open spec fn action_of(c: CycleOut) -> Option<ActionView> {
    match c.best {
        Some(snd) => if c.speeches.len() > 0 {
            Some(ActionView::SoundAndSpeak { sound: snd, text: join_comma(c.speeches) })
        } else {
            None
        },
        None => None,
    }
}

/// A cycle batches a phrase exactly when it tracks a sound.
pub proof fn lemma_cycle_best_iff_speeches(
    prev: Map<(Seq<char>, Seq<char>), StateView>,
    cur: Seq<EntryView>,
    gmute: bool,
    muted: Set<Seq<char>>,
    gnotif_off: bool,
    noffs: Set<Seq<char>>,
)
    ensures
        cycle_spec(prev, cur, gmute, muted, gnotif_off, noffs).best is Some <==> cycle_spec(
            prev,
            cur,
            gmute,
            muted,
            gnotif_off,
            noffs,
        ).speeches.len() > 0,
    decreases cur.len(),
{
    if cur.len() > 0 {
        lemma_cycle_best_iff_speeches(prev, cur.drop_last(), gmute, muted, gnotif_off, noffs);
    }
}

/// Look a composite key up in the remembered states.
fn prev_lookup<'a>(prev: &'a Vec<PrevEntry>, env_id: &str, unit_name: &str) -> (r: Option<
    &'a State,
>)
    requires
        entries_unique(prev.deep_view()),
    ensures
        match r {
            Some(st) => entries_map(prev.deep_view()).dom().contains((env_id@, unit_name@))
                && st@ == entries_map(prev.deep_view())[(env_id@, unit_name@)],
            None => !entries_map(prev.deep_view()).dom().contains((env_id@, unit_name@)),
        },
{
    let ghost s = prev.deep_view();
    let mut j: usize = 0;
    while j < prev.len()
        invariant
            j <= prev.len(),
            s == prev.deep_view(),
            entries_unique(s),
            s.len() == prev.len(),
            forall|m: int| 0 <= m < j ==> entry_key(#[trigger] s[m]) != (env_id@, unit_name@),
        decreases prev.len() - j,
    {
        let e = &prev[j];
        if str_eq(e.env_id.as_str(), env_id) && str_eq(e.unit_name.as_str(), unit_name) {
            proof {
                assert(entry_key(s[j as int]) == (env_id@, unit_name@));
                lemma_entries_map_at(s, j as int);
            }
            return Some(&e.state);
        }
        j = j + 1;
    }
    proof {
        lemma_entries_map_absent(s, (env_id@, unit_name@));
    }
    None
}

impl Notifier {
    /// One diff cycle. The first snapshot only seeds the remembered states
    /// and alerts nothing. Later snapshots are flattened, diffed against
    /// the remembered states, and reduced to the individual notifications
    /// and the single batched action the cycle's transitions call for; the
    /// remembered states are then replaced unconditionally, so a repeated
    /// snapshot never re-fires.
    pub fn process(&mut self, envs: &Vec<Environment>) -> (out: ProcessOutput)
        requires
            old(self).wf(),
        ensures
            final(self).wf(),
            final(self).spec_global_mute() == old(self).spec_global_mute(),
            final(self).spec_global_notifications_off() == old(
                self,
            ).spec_global_notifications_off(),
            final(self).muted_set() == old(self).muted_set(),
            final(self).notifications_off_set() == old(self).notifications_off_set(),
            !final(self).is_first_load(),
            final(self).prev_map() == entries_map(snapshot_entries(envs.deep_view())),
            old(self).is_first_load() ==> out@.notifications.len() == 0 && out@.action is None,
            !old(self).is_first_load() ==> ({
                let c = cycle_spec(
                    old(self).prev_map(),
                    snapshot_entries(envs.deep_view()),
                    old(self).spec_global_mute(),
                    old(self).muted_set(),
                    old(self).spec_global_notifications_off(),
                    old(self).notifications_off_set(),
                );
                out@.notifications == c.notifications && out@.action == action_of(c)
            }),
    {
        let cur = build_current(envs);
        let ghost curv = cur.deep_view();
        if self.first_load {
            self.prev_states = cur;
            self.first_load = false;
            return ProcessOutput { notifications: Vec::new(), action: None };
        }
        let ghost prevm = entries_map(self.prev_states.deep_view());
        let ghost gm = self.global_mute;
        let ghost gn = self.global_notifications_off;
        let ghost muted = str_set(self.muted_units@);
        let ghost noffs = str_set(self.notifications_off_units@);
        let mut notifications: Vec<NotificationMsg> = Vec::new();
        let mut speeches: Vec<String> = Vec::new();
        let mut best: Option<&'static str> = None;
        proof {
            assert(notifications.deep_view() =~= Seq::<NotificationView>::empty());
            assert(speeches.deep_view() =~= Seq::<Seq<char>>::empty());
            assert(cycle_spec(prevm, curv.take(0), gm, muted, gn, noffs) == cycle_empty());
        }
        let mut k: usize = 0;
        while k < cur.len()
            invariant
                k <= cur.len(),
                self == old(self),
                !self.first_load,
                self.wf(),
                prevm == entries_map(self.prev_states.deep_view()),
                gm == self.global_mute,
                gn == self.global_notifications_off,
                muted == str_set(self.muted_units@),
                noffs == str_set(self.notifications_off_units@),
                curv == cur.deep_view(),
                curv.len() == cur.len(),
                cycle_spec(prevm, curv.take(k as int), gm, muted, gn, noffs) == (CycleOut {
                    notifications: notifications.deep_view(),
                    speeches: speeches.deep_view(),
                    best: match best {
                        Some(s) => Some(s@),
                        None => None,
                    },
                }),
            decreases cur.len() - k,
        {
            let ghost acc = CycleOut {
                notifications: notifications.deep_view(),
                speeches: speeches.deep_view(),
                best: match best {
                    Some(s) => Some(s@),
                    None => None,
                },
            };
            let ghost ev = curv[k as int];
            proof {
                assert(curv.take(k + 1).drop_last() =~= curv.take(k as int));
                assert(curv.take(k + 1).last() == ev);
            }
            let e = &cur[k];
            let changed: bool = match prev_lookup(&self.prev_states, e.env_id.as_str(), e.unit_name.as_str()) {
                Some(old_state) => !state_variant_eq(old_state, &e.state),
                None => true,
            };
            proof {
                assert(changed == is_transition(prevm, ev));
            }
            if changed {
                let sound_opt: Option<&'static str> = match &e.state {
                    State::Absent => None,
                    State::Other(_) => None,
                    State::Stopped => None,
                    State::Building => Some("Submarine"),
                    State::Starting => Some("Submarine"),
                    State::Ready => Some("Ping"),
                    State::Running => Some("Ping"),
                    State::Failed => Some("Basso"),
                };
                match sound_opt {
                    Some(snd) => {
                        proof {
                            assert(!silent_state(ev.state));
                            assert(snd@ == sound_for(ev.state));
                        }
                        let uk = unit_key(e.env_id.as_str(), e.unit_name.as_str());
                        let notifications_off = self.global_notifications_off
                            || str_set_contains(&self.notifications_off_units, uk.as_str());
                        if !notifications_off {
                            let ghost before = notifications.deep_view();
                            let title = "sutra \u{2014} ".to_owned().concat(
                                e.unit_name.as_str(),
                            );
                            let body = e.state.label();
                            proof {
                                assert(title@ =~= "sutra \u{2014} "@ + ev.unit_name);
                            }
                            notifications.push(NotificationMsg { title, body });
                            proof {
                                assert(notifications.deep_view() =~= before.push(
                                    notification_for(ev.unit_name, ev.state),
                                ));
                            }
                        }
                        let is_muted = self.global_mute || str_set_contains(
                            &self.muted_units,
                            uk.as_str(),
                        );
                        if !is_muted {
                            let ghost before = speeches.deep_view();
                            let phrase = e.unit_name.clone().concat(" ").concat(
                                e.state.label().as_str(),
                            );
                            proof {
                                assert(phrase@ =~= phrase_for(ev.unit_name, ev.state));
                            }
                            speeches.push(phrase);
                            proof {
                                assert(speeches.deep_view() =~= before.push(
                                    phrase_for(ev.unit_name, ev.state),
                                ));
                            }
                            best = match best {
                                None => Some(snd),
                                Some(p) => Some(higher_priority_sound(p, snd)),
                            };
                        }
                        proof {
                            assert(cycle_spec(prevm, curv.take(k + 1), gm, muted, gn, noffs)
                                == cycle_step(prevm, acc, ev, gm, muted, gn, noffs));
                        }
                    },
                    None => {
                        proof {
                            assert(silent_state(ev.state));
                        }
                    },
                }
            }
            k = k + 1;
        }
        proof {
            assert(curv.take(curv.len() as int) =~= curv);
        }
        let action: Option<Action> = match best {
            Some(snd) => {
                if speeches.len() > 0 {
                    let text = join_with_comma(&speeches);
                    Some(Action::SoundAndSpeak { sound: snd, text })
                } else {
                    None
                }
            },
            None => None,
        };
        self.prev_states = cur;
        self.first_load = false;
        ProcessOutput { notifications, action }
    }
}

// ---------------------------------------------------------------------------
// Laws of the diff cycle
// ---------------------------------------------------------------------------

/// A cycle over entries whose state kinds all match the remembered ones —
/// for instance after a snapshot that only changed detail texts — alerts
/// nothing: no notification, no phrase, no sound.
pub proof fn lemma_no_kind_change_is_silent(
    prev: Map<(Seq<char>, Seq<char>), StateView>,
    cur: Seq<EntryView>,
    gmute: bool,
    muted: Set<Seq<char>>,
    gnotif_off: bool,
    noffs: Set<Seq<char>>,
)
    requires
        forall|i: int|
            0 <= i < cur.len() ==> prev.dom().contains(entry_key(#[trigger] cur[i])) && variant_eq(
                prev[entry_key(cur[i])],
                cur[i].state,
            ),
    ensures
        cycle_spec(prev, cur, gmute, muted, gnotif_off, noffs) == cycle_empty(),
        action_of(cycle_spec(prev, cur, gmute, muted, gnotif_off, noffs)) is None,
    decreases cur.len(),
{
    if cur.len() > 0 {
        assert(prev.dom().contains(entry_key(cur[cur.len() - 1])));
        lemma_no_kind_change_is_silent(prev, cur.drop_last(), gmute, muted, gnotif_off, noffs);
    }
}

/// A cycle over entries whose states are all silent (`Absent`, `Stopped`,
/// or unrecognized) alerts nothing, whatever they transitioned from and
/// however mutes are set.
pub proof fn lemma_silent_states_never_alert(
    prev: Map<(Seq<char>, Seq<char>), StateView>,
    cur: Seq<EntryView>,
    gmute: bool,
    muted: Set<Seq<char>>,
    gnotif_off: bool,
    noffs: Set<Seq<char>>,
)
    requires
        forall|i: int| 0 <= i < cur.len() ==> silent_state(#[trigger] cur[i].state),
    ensures
        cycle_spec(prev, cur, gmute, muted, gnotif_off, noffs) == cycle_empty(),
        action_of(cycle_spec(prev, cur, gmute, muted, gnotif_off, noffs)) is None,
    decreases cur.len(),
{
    if cur.len() > 0 {
        assert(silent_state(cur[cur.len() - 1].state));
        lemma_silent_states_never_alert(prev, cur.drop_last(), gmute, muted, gnotif_off, noffs);
    }
}

/// An unmuted transition into `Failed` anywhere in the cycle decides the
/// cycle's sound: the failure sound wins every priority contest.
pub proof fn lemma_failed_wins(
    prev: Map<(Seq<char>, Seq<char>), StateView>,
    cur: Seq<EntryView>,
    gmute: bool,
    muted: Set<Seq<char>>,
    gnotif_off: bool,
    noffs: Set<Seq<char>>,
    w: int,
)
    requires
        0 <= w < cur.len(),
        is_transition(prev, cur[w]),
        cur[w].state is Failed,
        !gmute,
        !muted.contains(unit_key_view(cur[w].env_id, cur[w].unit_name)),
    ensures
        cycle_spec(prev, cur, gmute, muted, gnotif_off, noffs).best == Some("Basso"@),
        cycle_spec(prev, cur, gmute, muted, gnotif_off, noffs).speeches.len() > 0,
    decreases cur.len(),
{
    let rest = cycle_spec(prev, cur.drop_last(), gmute, muted, gnotif_off, noffs);
    lemma_cycle_best_iff_speeches(prev, cur, gmute, muted, gnotif_off, noffs);
    if w == cur.len() - 1 {
        assert(sound_for(cur[w].state) == "Basso"@);
        match rest.best {
            Some(p) => {
                assert(higher_sound(p, "Basso"@) == "Basso"@) by {
                    if sound_priority_of(p) >= 2 {
                        assert(p == "Basso"@);
                    }
                }
            },
            None => {},
        }
    } else {
        lemma_failed_wins(prev, cur.drop_last(), gmute, muted, gnotif_off, noffs, w);
        let e = cur.last();
        if is_transition(prev, e) && !silent_state(e.state) && !muted.contains(
            unit_key_view(e.env_id, e.unit_name),
        ) {
            assert(higher_sound("Basso"@, sound_for(e.state)) == "Basso"@) by {
                assert(sound_priority_of(sound_for(e.state)) <= 2);
            }
        }
    }
}

/// Every unmuted transition into a non-silent state contributes its phrase
/// to the cycle's batched utterance.
pub proof fn lemma_phrase_batched(
    prev: Map<(Seq<char>, Seq<char>), StateView>,
    cur: Seq<EntryView>,
    gmute: bool,
    muted: Set<Seq<char>>,
    gnotif_off: bool,
    noffs: Set<Seq<char>>,
    w: int,
)
    requires
        0 <= w < cur.len(),
        is_transition(prev, cur[w]),
        !silent_state(cur[w].state),
        !gmute,
        !muted.contains(unit_key_view(cur[w].env_id, cur[w].unit_name)),
    ensures
        cycle_spec(prev, cur, gmute, muted, gnotif_off, noffs).speeches.contains(
            phrase_for(cur[w].unit_name, cur[w].state),
        ),
    decreases cur.len(),
{
    let rest = cycle_spec(prev, cur.drop_last(), gmute, muted, gnotif_off, noffs);
    let c = cycle_spec(prev, cur, gmute, muted, gnotif_off, noffs);
    let ph = phrase_for(cur[w].unit_name, cur[w].state);
    if w == cur.len() - 1 {
        assert(c.speeches == rest.speeches.push(ph));
        assert(c.speeches[c.speeches.len() - 1] == ph);
    } else {
        lemma_phrase_batched(prev, cur.drop_last(), gmute, muted, gnotif_off, noffs, w);
        let j = choose|j: int| 0 <= j < rest.speeches.len() && rest.speeches[j] == ph;
        assert(c.speeches[j] == ph);
    }
}

/// A cycle whose transitions are one unit failing and one unit starting,
/// both unmuted, yields exactly one action: it carries the failure sound —
/// the higher priority wins — and one utterance holding both phrases.
pub proof fn lemma_failed_and_starting_batch(
    prev: Map<(Seq<char>, Seq<char>), StateView>,
    e1: EntryView,
    e2: EntryView,
    muted: Set<Seq<char>>,
    gnotif_off: bool,
    noffs: Set<Seq<char>>,
)
    requires
        is_transition(prev, e1),
        e1.state is Failed,
        is_transition(prev, e2),
        e2.state is Starting,
        !muted.contains(unit_key_view(e1.env_id, e1.unit_name)),
        !muted.contains(unit_key_view(e2.env_id, e2.unit_name)),
    ensures
        action_of(cycle_spec(prev, seq![e1, e2], false, muted, gnotif_off, noffs)) == Some(
            ActionView::SoundAndSpeak {
                sound: "Basso"@,
                text: phrase_for(e1.unit_name, e1.state) + ", "@ + phrase_for(
                    e2.unit_name,
                    e2.state,
                ),
            },
        ),
{
    let cur = seq![e1, e2];
    assert(cur.drop_last() =~= seq![e1]);
    assert(seq![e1].drop_last() =~= Seq::<EntryView>::empty());
    let c0 = cycle_spec(prev, Seq::<EntryView>::empty(), false, muted, gnotif_off, noffs);
    assert(c0 == cycle_empty());
    let c1 = cycle_spec(prev, seq![e1], false, muted, gnotif_off, noffs);
    assert(c1 == cycle_step(prev, c0, e1, false, muted, gnotif_off, noffs));
    assert(c1.speeches =~= seq![phrase_for(e1.unit_name, e1.state)]);
    assert(c1.best == Some("Basso"@));
    let c = cycle_spec(prev, cur, false, muted, gnotif_off, noffs);
    assert(c == cycle_step(prev, c1, e2, false, muted, gnotif_off, noffs));
    assert(c.best == Some(higher_sound("Basso"@, "Submarine"@)));
    assert(higher_sound("Basso"@, "Submarine"@) == "Basso"@) by {
        assert(sound_priority_of("Submarine"@) <= 2);
    }
    let p1 = phrase_for(e1.unit_name, e1.state);
    let p2 = phrase_for(e2.unit_name, e2.state);
    assert(c.speeches =~= seq![p1, p2]);
    assert(join_comma(seq![p1, p2]) == p1 + ", "@ + p2) by {
        assert(seq![p1, p2].drop_last() =~= seq![p1]);
        assert(join_comma(seq![p1]) == p1);
    }
}

/// With the global mute on, a cycle batches no phrase and no sound, while
/// its visual notifications are exactly those of the unmuted cycle: muting
/// sound never suppresses the separate notification dispatch.
pub proof fn lemma_global_mute_suppresses_sound_only(
    prev: Map<(Seq<char>, Seq<char>), StateView>,
    cur: Seq<EntryView>,
    muted: Set<Seq<char>>,
    gnotif_off: bool,
    noffs: Set<Seq<char>>,
)
    ensures
        cycle_spec(prev, cur, true, muted, gnotif_off, noffs).speeches == Seq::<Seq<char>>::empty(),
        cycle_spec(prev, cur, true, muted, gnotif_off, noffs).best is None,
        action_of(cycle_spec(prev, cur, true, muted, gnotif_off, noffs)) is None,
        cycle_spec(prev, cur, true, muted, gnotif_off, noffs).notifications == cycle_spec(
            prev,
            cur,
            false,
            muted,
            gnotif_off,
            noffs,
        ).notifications,
    decreases cur.len(),
{
    if cur.len() > 0 {
        lemma_global_mute_suppresses_sound_only(prev, cur.drop_last(), muted, gnotif_off, noffs);
    }
}

/// Two entry lists that agree on keys and state kinds, position by
/// position; their detail-free views may still differ in `Other` tokens'
/// surroundings, never in what transition detection reads.
pub open spec fn pointwise_kinds(x: Seq<EntryView>, y: Seq<EntryView>) -> bool {
    x.len() == y.len() && forall|i: int|
        0 <= i < x.len() ==> entry_key(#[trigger] x[i]) == entry_key(y[i]) && variant_eq(
            x[i].state,
            y[i].state,
        )
}

/// Parallel upserts keep two entry lists agreeing on keys and kinds.
proof fn lemma_upsert_parallel(x: Seq<EntryView>, y: Seq<EntryView>, e1: EntryView, e2: EntryView)
    requires
        pointwise_kinds(x, y),
        entry_key(e1) == entry_key(e2),
        variant_eq(e1.state, e2.state),
    ensures
        pointwise_kinds(entry_upsert(x, e1), entry_upsert(y, e2)),
    decreases x.len(),
{
    if x.len() == 0 {
    } else if entry_key(x[0]) == entry_key(e1) {
        assert(entry_key(y[0]) == entry_key(e2));
    } else {
        assert(entry_key(y[0]) != entry_key(e2));
        assert(pointwise_kinds(x.drop_first(), y.drop_first()));
        lemma_upsert_parallel(x.drop_first(), y.drop_first(), e1, e2);
    }
}

/// Deduplication keeps two entry lists agreeing on keys and kinds.
proof fn lemma_dedup_parallel(x: Seq<EntryView>, y: Seq<EntryView>)
    requires
        pointwise_kinds(x, y),
    ensures
        pointwise_kinds(dedup_entries(x), dedup_entries(y)),
    decreases x.len(),
{
    if x.len() > 0 {
        assert(pointwise_kinds(x.drop_last(), y.drop_last()));
        lemma_dedup_parallel(x.drop_last(), y.drop_last());
        assert(entry_key(x.last()) == entry_key(y[x.len() - 1]));
        lemma_upsert_parallel(dedup_entries(x.drop_last()), dedup_entries(y.drop_last()), x.last(), y.last());
    }
}

/// A deduplicated entry list has unique keys.
proof fn lemma_dedup_unique(s: Seq<EntryView>)
    ensures
        entries_unique(dedup_entries(s)),
    decreases s.len(),
{
    if s.len() == 0 {
    } else {
        lemma_dedup_unique(s.drop_last());
        lemma_entry_upsert_unique(dedup_entries(s.drop_last()), s.last());
    }
}

/// Two snapshots of the same shape: the same environments with the same
/// ids, the same units with the same names, and state kinds that match —
/// while details, and everything transition detection ignores, may differ.
pub open spec fn same_shape_modulo_detail(
    a: Seq<EnvironmentView>,
    b: Seq<EnvironmentView>,
) -> bool {
    &&& a.len() == b.len()
    &&& forall|i: int|
        0 <= i < a.len() ==> (#[trigger] b[i]).id == a[i].id && b[i].units.len()
            == a[i].units.len()
    &&& forall|i: int, j: int|
        0 <= i < a.len() && 0 <= j < a[i].units.len() ==> (#[trigger] b[i].units[j]).name
            == a[i].units[j].name && variant_eq(a[i].units[j].state, b[i].units[j].state)
}

/// Same-shaped snapshots flatten to entry lists that agree on keys and
/// kinds.
proof fn lemma_same_shape_entries(a: Seq<EnvironmentView>, b: Seq<EnvironmentView>)
    requires
        same_shape_modulo_detail(a, b),
    ensures
        pointwise_kinds(all_entries(a), all_entries(b)),
    decreases a.len(),
{
    if a.len() > 0 {
        assert(same_shape_modulo_detail(a.drop_last(), b.drop_last())) by {
            assert(forall|i: int|
                0 <= i < a.len() - 1 ==> #[trigger] a.drop_last()[i] == a[i] && b.drop_last()[i]
                    == b[i]);
        }
        lemma_same_shape_entries(a.drop_last(), b.drop_last());
        let ua = unit_entries(a.last());
        let ub = unit_entries(b.last());
        assert(pointwise_kinds(ua, ub)) by {
            assert(forall|j: int|
                0 <= j < a[a.len() - 1].units.len() ==> (#[trigger] b[a.len() - 1].units[j]).name
                    == a[a.len() - 1].units[j].name && variant_eq(
                    a[a.len() - 1].units[j].state,
                    b[a.len() - 1].units[j].state,
                ));
        }
        let ea = all_entries(a);
        let eb = all_entries(b);
        assert(ea == all_entries(a.drop_last()) + ua);
        assert(eb == all_entries(b.drop_last()) + ub);
        assert(pointwise_kinds(ea, eb)) by {
            assert forall|i: int|
                0 <= i < ea.len() implies entry_key(#[trigger] ea[i]) == entry_key(eb[i])
                && variant_eq(ea[i].state, eb[i].state) by {
                if i < all_entries(a.drop_last()).len() {
                    assert(ea[i] == all_entries(a.drop_last())[i]);
                    assert(eb[i] == all_entries(b.drop_last())[i]);
                } else {
                    assert(ea[i] == ua[i - all_entries(a.drop_last()).len()]);
                    assert(eb[i] == ub[i - all_entries(b.drop_last()).len()]);
                }
            }
        }
    }
}

/// Processing a snapshot of the same shape as the one the engine last saw —
/// for instance one that differs from it only in one unit's detail text —
/// alerts nothing: the cycle yields no notification and no action.
pub proof fn lemma_detail_only_change_is_silent(
    envs1: Seq<EnvironmentView>,
    envs2: Seq<EnvironmentView>,
    gmute: bool,
    muted: Set<Seq<char>>,
    gnotif_off: bool,
    noffs: Set<Seq<char>>,
)
    requires
        same_shape_modulo_detail(envs1, envs2),
    ensures
        cycle_spec(
            entries_map(snapshot_entries(envs1)),
            snapshot_entries(envs2),
            gmute,
            muted,
            gnotif_off,
            noffs,
        ) == cycle_empty(),
        action_of(
            cycle_spec(
                entries_map(snapshot_entries(envs1)),
                snapshot_entries(envs2),
                gmute,
                muted,
                gnotif_off,
                noffs,
            ),
        ) is None,
{
    let d1 = snapshot_entries(envs1);
    let d2 = snapshot_entries(envs2);
    let prev = entries_map(d1);
    lemma_same_shape_entries(envs1, envs2);
    lemma_dedup_parallel(all_entries(envs1), all_entries(envs2));
    lemma_dedup_unique(all_entries(envs1));
    assert forall|i: int|
        0 <= i < d2.len() implies prev.dom().contains(entry_key(#[trigger] d2[i])) && variant_eq(
        prev[entry_key(d2[i])],
        d2[i].state,
    ) by {
        lemma_entries_map_at(d1, i);
        assert(entry_key(d1[i]) == entry_key(d2[i]));
        assert(variant_eq(d1[i].state, d2[i].state));
    }
    lemma_no_kind_change_is_silent(prev, d2, gmute, muted, gnotif_off, noffs);
}

} // verus!
