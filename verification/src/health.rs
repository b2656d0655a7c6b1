//! Passive health tracking per `(group, provider, model)`.
//!
//! Each key carries a failure counter, a health flag and the time of its last
//! failure, read on a monotonic clock in nanoseconds since the tracker was
//! made.  A key that reaches the failure threshold turns unhealthy; a success
//! clears the counter; an unhealthy key recovers once `recovery_timeout`
//! seconds have passed since its last failure.  Keys never seen behave as
//! fresh, healthy keys.

use crate::text::{copy_str, str_eq};
use std::time::Instant;
use vstd::prelude::*;

verus! {

#[verifier::external_type_specification]
#[verifier::external_body]
pub struct ExInstant(Instant);

/// `Instant::now`.  Nothing is claimed of the instant returned.
#[verifier::external_body]
fn instant_now() -> Instant {
    Instant::now()
}

/// `Instant::elapsed` on `origin`, converted to whole nanoseconds with
/// `Duration::as_nanos`.  The value depends on the clock, so nothing is
/// claimed of it.
#[verifier::external_body]
fn nanos_since(origin: &Instant) -> u128 {
    origin.elapsed().as_nanos()
}

/// The abstract identity of a tracked key: group, provider and model names.
pub type KeyView = (Seq<char>, Seq<char>, Seq<char>);

/// Health record of one key.
#[derive(Debug, Clone, Copy)]
pub struct ProviderHealth {
    pub failure_count: u32,
    pub is_healthy: bool,
    /// Time of the last failure, in nanoseconds on the tracker's clock.
    pub last_failure_time: Option<u128>,
}

/// The record of a key that has never failed.
pub open spec fn fresh_health() -> ProviderHealth {
    ProviderHealth { failure_count: 0, is_healthy: true, last_failure_time: None }
}

impl ProviderHealth {
    pub fn new() -> (h: Self)
        ensures
            h == fresh_health(),
    {
        ProviderHealth { failure_count: 0, is_healthy: true, last_failure_time: None }
    }
}

/// Identifies one `(group, provider, model)` triple; the same provider name
/// may appear in several groups and serve several models.
#[derive(Debug, Clone, Hash, PartialEq, Eq)]
pub struct ProviderKey {
    pub group: String,
    pub provider: String,
    pub model: String,
}

impl View for ProviderKey {
    type V = KeyView;

    open spec fn view(&self) -> KeyView {
        (self.group@, self.provider@, self.model@)
    }
}

impl ProviderKey {
    pub fn new(group: &str, provider: &str, model: &str) -> (k: Self)
        ensures
            k@ == (group@, provider@, model@),
    {
        ProviderKey {
            group: group.to_string(),
            provider: provider.to_string(),
            model: model.to_string(),
        }
    }

    /// Whether both keys name the same triple.
    pub fn same_key(&self, other: &ProviderKey) -> (b: bool)
        ensures
            b == (self@ == other@),
    {
        self.group == other.group && self.provider == other.provider && self.model == other.model
    }

    fn duplicate(&self) -> (k: Self)
        ensures
            k@ == self@,
    {
        ProviderKey {
            group: self.group.clone(),
            provider: self.provider.clone(),
            model: self.model.clone(),
        }
    }
}

/// The record of `k` in `m`, a fresh record where `m` has none.
pub open spec fn lookup(m: Map<KeyView, ProviderHealth>, k: KeyView) -> ProviderHealth {
    if m.contains_key(k) {
        m[k]
    } else {
        fresh_health()
    }
}

/// Nanoseconds from `since` to `now`, zero when `now` is earlier.
pub open spec fn elapsed(since: u128, now: u128) -> int {
    if now >= since {
        now - since
    } else {
        0
    }
}

/// `recovery_timeout` seconds in nanoseconds.
pub open spec fn timeout_nanos(recovery_timeout: u64) -> int {
    recovery_timeout * 1_000_000_000
}

/// An unhealthy record whose last failure lies at least the recovery timeout back.
pub open spec fn recovered(s: ProviderHealth, recovery_timeout: u64, now: u128) -> bool {
    &&& !s.is_healthy
    &&& s.last_failure_time matches Some(t)
    &&& elapsed(t, now) >= timeout_nanos(recovery_timeout)
}

/// The record after a health check at `now`: recovery clears the counter and
/// the unhealthy flag.
pub open spec fn refreshed(s: ProviderHealth, recovery_timeout: u64, now: u128) -> ProviderHealth {
    if recovered(s, recovery_timeout, now) {
        ProviderHealth { failure_count: 0, is_healthy: true, ..s }
    } else {
        s
    }
}

/// What a health check at `now` answers for the record `s`.
pub open spec fn healthy_at(s: ProviderHealth, recovery_timeout: u64, now: u128) -> bool {
    refreshed(s, recovery_timeout, now).is_healthy
}

/// The record after a success.
pub open spec fn after_success(s: ProviderHealth) -> ProviderHealth {
    ProviderHealth { failure_count: 0, is_healthy: true, ..s }
}

/// The failure counter after one more failure; it stops at `u32::MAX`.
pub open spec fn bumped(count: u32) -> u32 {
    if count < u32::MAX {
        (count + 1) as u32
    } else {
        count
    }
}

/// The record after a failure at `now`.
pub open spec fn after_failure(s: ProviderHealth, failure_threshold: u32, now: u128) -> ProviderHealth {
    let c = bumped(s.failure_count);
    ProviderHealth {
        failure_count: c,
        is_healthy: if c >= failure_threshold {
            false
        } else {
            s.is_healthy
        },
        last_failure_time: Some(now),
    }
}

/// The map after health checks of `keys`, in order, at `now`.
pub open spec fn checked_all(
    m: Map<KeyView, ProviderHealth>,
    keys: Seq<KeyView>,
    recovery_timeout: u64,
    now: u128,
) -> Map<KeyView, ProviderHealth>
    decreases keys.len(),
{
    if keys.len() == 0 {
        m
    } else {
        let m1 = checked_all(m, keys.drop_last(), recovery_timeout, now);
        m1.insert(keys.last(), refreshed(lookup(m1, keys.last()), recovery_timeout, now))
    }
}

/// The record of a key after failures at the instants `times`, in order.
pub open spec fn after_failures(s: ProviderHealth, failure_threshold: u32, times: Seq<u128>) -> ProviderHealth
    decreases times.len(),
{
    if times.len() == 0 {
        s
    } else {
        after_failure(after_failures(s, failure_threshold, times.drop_last()), failure_threshold, times.last())
    }
}

/// The texts of a sequence of strings.
pub open spec fn names_of(v: Seq<String>) -> Seq<Seq<char>> {
    v.map_values(|s: String| s@)
}

/// The keys `(group, name, model)` for each name, in order.
pub open spec fn provider_keys(group: Seq<char>, names: Seq<Seq<char>>, model: Seq<char>) -> Seq<KeyView> {
    names.map_values(|n: Seq<char>| (group, n, model))
}

/// The names whose key for `model` in `group` passes a health check at `now` in `m`.
pub open spec fn healthy_names(
    m: Map<KeyView, ProviderHealth>,
    recovery_timeout: u64,
    now: u128,
    group: Seq<char>,
    names: Seq<Seq<char>>,
    model: Seq<char>,
) -> Seq<Seq<char>> {
    names.filter(|n: Seq<char>| healthy_at(lookup(m, (group, n, model)), recovery_timeout, now))
}

/// A second check at the same instant changes nothing and answers the same.
pub proof fn lemma_refresh_stable(s: ProviderHealth, recovery_timeout: u64, now: u128)
    ensures
        refreshed(refreshed(s, recovery_timeout, now), recovery_timeout, now) == refreshed(s, recovery_timeout, now),
        healthy_at(refreshed(s, recovery_timeout, now), recovery_timeout, now) == healthy_at(s, recovery_timeout, now),
{
}

/// After a run of checks, a key holds its refreshed record if it was checked,
/// and its old record otherwise.
pub proof fn lemma_checked_lookup(
    m: Map<KeyView, ProviderHealth>,
    keys: Seq<KeyView>,
    k: KeyView,
    recovery_timeout: u64,
    now: u128,
)
    ensures
        lookup(checked_all(m, keys, recovery_timeout, now), k) == if keys.contains(k) {
            refreshed(lookup(m, k), recovery_timeout, now)
        } else {
            lookup(m, k)
        },
    decreases keys.len(),
{
    if keys.len() > 0 {
        let rest = keys.drop_last();
        lemma_checked_lookup(m, rest, k, recovery_timeout, now);
        lemma_refresh_stable(lookup(m, k), recovery_timeout, now);
        if k == keys.last() {
            assert(keys.contains(k)) by {
                assert(keys[keys.len() - 1] == k);
            }
        } else {
            assert(keys.contains(k) == rest.contains(k)) by {
                if keys.contains(k) {
                    let j = choose|j: int| 0 <= j < keys.len() && keys[j] == k;
                    assert(rest[j] == k);
                }
                if rest.contains(k) {
                    let j = choose|j: int| 0 <= j < rest.len() && rest[j] == k;
                    assert(keys[j] == k);
                }
            }
        }
    }
}

/// Failover settings: per-group `(group, failure threshold, recovery
/// timeout)` entries in the order they were added, then the default
/// threshold and timeout.
pub type SettingsView = (Seq<(Seq<char>, u32, u64)>, u32, u64);

/// The threshold and timeout that apply to group `g`: those of the first
/// entry for `g`, or the defaults.
pub open spec fn setting_for(groups: Seq<(Seq<char>, u32, u64)>, g: Seq<char>, default: (u32, u64)) -> (u32, u64)
    decreases groups.len(),
{
    if groups.len() == 0 {
        default
    } else if groups[0].0 == g {
        (groups[0].1, groups[0].2)
    } else {
        setting_for(groups.subrange(1, groups.len() as int), g, default)
    }
}

/// The threshold of group `g` under settings `st`.
pub open spec fn threshold_in(st: SettingsView, g: Seq<char>) -> u32 {
    setting_for(st.0, g, (st.1, st.2)).0
}

/// The recovery timeout of group `g` under settings `st`.
pub open spec fn timeout_in(st: SettingsView, g: Seq<char>) -> u64 {
    setting_for(st.0, g, (st.1, st.2)).1
}

/// One operation on a tracker: a success, a failure at an instant, or a
/// health check at an instant.
pub enum TrackerCall {
    Success(KeyView),
    Failure(KeyView, u128),
    Check(KeyView, u128),
}

/// The key a call is about.
pub open spec fn call_key(c: TrackerCall) -> KeyView {
    match c {
        TrackerCall::Success(k) => k,
        TrackerCall::Failure(k, _) => k,
        TrackerCall::Check(k, _) => k,
    }
}

/// The map of records after call `c`, under settings `st`.
pub open spec fn apply_call(m: Map<KeyView, ProviderHealth>, st: SettingsView, c: TrackerCall) -> Map<KeyView, ProviderHealth> {
    match c {
        TrackerCall::Success(k) => m.insert(k, after_success(lookup(m, k))),
        TrackerCall::Failure(k, t) => m.insert(k, after_failure(lookup(m, k), threshold_in(st, k.0), t)),
        TrackerCall::Check(k, t) => m.insert(k, refreshed(lookup(m, k), timeout_in(st, k.0), t)),
    }
}

/// What call `c` answers on the map `m`: a check answers whether its key is
/// healthy; the other calls answer nothing (`true`).
pub open spec fn call_answer(m: Map<KeyView, ProviderHealth>, st: SettingsView, c: TrackerCall) -> bool {
    match c {
        TrackerCall::Check(k, t) => healthy_at(lookup(m, k), timeout_in(st, k.0), t),
        _ => true,
    }
}

/// The map of records after the calls, in order.
pub open spec fn run_calls(m: Map<KeyView, ProviderHealth>, st: SettingsView, calls: Seq<TrackerCall>) -> Map<KeyView, ProviderHealth>
    decreases calls.len(),
{
    if calls.len() == 0 {
        m
    } else {
        apply_call(run_calls(m, st, calls.drop_last()), st, calls.last())
    }
}

/// The answer of call `i` of a run that starts from `m`.
pub open spec fn answer_at(m: Map<KeyView, ProviderHealth>, st: SettingsView, calls: Seq<TrackerCall>, i: int) -> bool {
    call_answer(run_calls(m, st, calls.take(i)), st, calls[i])
}

/// The instants of the failures of key `k` among the calls, in order.
pub open spec fn failure_times(calls: Seq<TrackerCall>, k: KeyView) -> Seq<u128>
    decreases calls.len(),
{
    if calls.len() == 0 {
        Seq::empty()
    } else {
        let rest = failure_times(calls.drop_last(), k);
        match calls.last() {
            TrackerCall::Failure(k2, t) => if k2 == k {
                rest.push(t)
            } else {
                rest
            },
            _ => rest,
        }
    }
}

/// `c` records a failure of `k`.
pub open spec fn is_failure_of(c: TrackerCall, k: KeyView) -> bool {
    c matches TrackerCall::Failure(k2, _) && k2 == k
}

/// `c` records a success of `k`.
pub open spec fn is_success_of(c: TrackerCall, k: KeyView) -> bool {
    c matches TrackerCall::Success(k2) && k2 == k
}

/// `c` checks `k`.
pub open spec fn is_check_of(c: TrackerCall, k: KeyView) -> bool {
    c matches TrackerCall::Check(k2, _) && k2 == k
}

/// `c` is no check of `k` at or after the recovery deadline of a failure at `t0`.
pub open spec fn before_deadline(c: TrackerCall, k: KeyView, t0: u128, recovery_timeout: u64) -> bool {
    match c {
        TrackerCall::Check(k2, t) => k2 == k ==> elapsed(t0, t) < timeout_nanos(recovery_timeout),
        _ => true,
    }
}

/// A record is flagged unhealthy exactly when its counter is positive and
/// has reached the threshold.
pub open spec fn consistent(s: ProviderHealth, failure_threshold: u32) -> bool {
    s.is_healthy <==> (s.failure_count == 0 || s.failure_count < failure_threshold)
}

/// The threshold, or 1 where it is 0: the failures that make a healthy key unhealthy.
pub open spec fn failures_to_trip(failure_threshold: u32) -> int {
    if failure_threshold == 0 {
        1
    } else {
        failure_threshold as int
    }
}

/// A record as the tracker keeps it: consistent with its threshold, and
/// holding a last failure time whenever it is unhealthy.
pub open spec fn record_sound(s: ProviderHealth, failure_threshold: u32) -> bool {
    &&& consistent(s, failure_threshold)
    &&& !s.is_healthy ==> s.last_failure_time is Some
}

/// Every record of `m` is sound for its group's threshold under `st`.
pub open spec fn records_sound(m: Map<KeyView, ProviderHealth>, st: SettingsView) -> bool {
    forall|k: KeyView| record_sound(#[trigger] lookup(m, k), threshold_in(st, k.0))
}

/// Some record of `m` belongs to group `g`.
pub open spec fn group_in_use(m: Map<KeyView, ProviderHealth>, g: Seq<char>) -> bool {
    exists|k: KeyView| m.contains_key(k) && #[trigger] k.0 == g
}

/// Settings added for a group leave every other group's settings as they were.
pub proof fn lemma_setting_push(groups: Seq<(Seq<char>, u32, u64)>, x: (Seq<char>, u32, u64), g: Seq<char>, default: (u32, u64))
    requires
        x.0 != g,
    ensures
        setting_for(groups.push(x), g, default) == setting_for(groups, g, default),
    decreases groups.len(),
{
    let pushed = groups.push(x);
    if groups.len() == 0 {
        assert(pushed.subrange(1, pushed.len() as int) =~= Seq::<(Seq<char>, u32, u64)>::empty());
        assert(setting_for(Seq::<(Seq<char>, u32, u64)>::empty(), g, default) == default);
    } else {
        let rest = groups.subrange(1, groups.len() as int);
        assert(pushed[0] == groups[0]);
        assert(pushed.subrange(1, pushed.len() as int) =~= rest.push(x));
        lemma_setting_push(rest, x, g, default);
    }
}

/// Tracks the health of every `(group, provider, model)` key it is told about.
#[derive(Debug)]
pub struct HealthTracker {
    entries: Vec<(ProviderKey, ProviderHealth)>,
    failure_threshold: u32,
    recovery_timeout: u64,
    /// Per-group failover settings, in the order they were added.
    group_settings: Vec<(String, u32, u64)>,
    origin: Instant,
}

impl View for HealthTracker {
    type V = Map<KeyView, ProviderHealth>;

    closed spec fn view(&self) -> Map<KeyView, ProviderHealth> {
        Map::new(
            |k: KeyView| exists|i: int| 0 <= i < self.entries@.len() && #[trigger] self.entries@[i].0@ == k,
            |k: KeyView| self.entries@[choose|i: int| 0 <= i < self.entries@.len() && #[trigger] self.entries@[i].0@ == k].1,
        )
    }
}

impl HealthTracker {
    spec fn keys_distinct(&self) -> bool {
        forall|i: int, j: int|
            0 <= i < j < self.entries@.len() ==> #[trigger] self.entries@[i].0@ != #[trigger] self.entries@[j].0@
    }

    /// Keys occur once each, and every record is sound for its group's threshold.
    #[verifier::type_invariant]
    pub(crate) closed spec fn well_formed(&self) -> bool {
        &&& self.keys_distinct()
        &&& forall|i: int|
            0 <= i < self.entries@.len() ==> record_sound(#[trigger] self.entries@[i].1, threshold_in(self.settings(), self.entries@[i].0@.0))
    }

    /// Every record of the tracker is sound: consistent with its group's
    /// threshold, and holding a last failure time whenever it is unhealthy.
    pub open spec fn is_sound(&self) -> bool {
        records_sound(self@, self.settings())
    }

    /// The failover settings.
    pub closed spec fn settings(&self) -> SettingsView {
        (
            self.group_settings@.map_values(|e: (String, u32, u64)| (e.0@, e.1, e.2)),
            self.failure_threshold,
            self.recovery_timeout,
        )
    }

    /// Failures after which a key of group `g` turns unhealthy.
    pub open spec fn threshold_for(&self, g: Seq<char>) -> u32 {
        setting_for(self.settings().0, g, (self.settings().1, self.settings().2)).0
    }

    /// Seconds after its last failure at which an unhealthy key of group `g` recovers.
    pub open spec fn timeout_for(&self, g: Seq<char>) -> u64 {
        setting_for(self.settings().0, g, (self.settings().1, self.settings().2)).1
    }

    proof fn lemma_entry(&self, i: int)
        requires
            self.keys_distinct(),
            0 <= i < self.entries@.len(),
        ensures
            self@.contains_key(self.entries@[i].0@),
            self@[self.entries@[i].0@] == self.entries@[i].1,
    {
        let k = self.entries@[i].0@;
        assert(self.entries@[i].0@ == k);
        let j = choose|j: int| 0 <= j < self.entries@.len() && #[trigger] self.entries@[j].0@ == k;
        if j != i {
            if i < j {
                assert(self.entries@[i].0@ != self.entries@[j].0@);
            } else {
                assert(self.entries@[j].0@ != self.entries@[i].0@);
            }
        }
    }

    pub(crate) proof fn lemma_sound(&self)
        requires
            self.well_formed(),
        ensures
            self.is_sound(),
    {
        assert forall|k: KeyView| record_sound(#[trigger] lookup(self@, k), threshold_in(self.settings(), k.0)) by {
            if self@.contains_key(k) {
                let i = choose|i: int| 0 <= i < self.entries@.len() && #[trigger] self.entries@[i].0@ == k;
                self.lemma_entry(i);
                assert(record_sound(self.entries@[i].1, threshold_in(self.settings(), self.entries@[i].0@.0)));
            }
        }
    }

    /// A tracker whose groups all use `failure_threshold` and `recovery_timeout`.
    pub fn new(failure_threshold: u32, recovery_timeout: u64) -> (t: Self)
        ensures
            t@ == Map::<KeyView, ProviderHealth>::empty(),
            t.settings() == (Seq::<(Seq<char>, u32, u64)>::empty(), failure_threshold, recovery_timeout),
            t.is_sound(),
    {
        let t = HealthTracker {
            entries: Vec::new(),
            failure_threshold,
            recovery_timeout,
            group_settings: Vec::new(),
            origin: instant_now(),
        };
        assert(t@ =~= Map::<KeyView, ProviderHealth>::empty());
        proof {
            t.lemma_sound();
        }
        assert(t.settings().0 =~= Seq::<(Seq<char>, u32, u64)>::empty());
        t
    }

    /// Gives `group` its own threshold and timeout.  A group that already has
    /// records keeps the settings it has, so that no record changes meaning;
    /// where `group` already has settings of its own, the first stay in force.
    pub fn add_group_failover(&mut self, group: &str, failure_threshold: u32, recovery_timeout: u64)
        ensures
            old(self).is_sound(),
            final(self).is_sound(),
            final(self)@ == old(self)@,
            final(self).settings() == if group_in_use(old(self)@, group@) {
                old(self).settings()
            } else {
                (
                    old(self).settings().0.push((group@, failure_threshold, recovery_timeout)),
                    old(self).settings().1,
                    old(self).settings().2,
                )
            },
    {
        proof {
            use_type_invariant(&*self);
            self.lemma_sound();
        }
        let mut i: usize = 0;
        while i < self.entries.len()
            invariant
                i <= self.entries@.len(),
                self.well_formed(),
                old(self).is_sound(),
                forall|j: int| 0 <= j < i ==> self.entries@[j].0@.0 != group@,
            decreases self.entries@.len() - i,
        {
            if str_eq(self.entries[i].0.group.as_str(), group) {
                proof {
                    self.lemma_entry(i as int);
                    assert(self@.contains_key(self.entries@[i as int].0@));
                }
                return;
            }
            i += 1;
        }
        assert(!group_in_use(self@, group@)) by {
            assert forall|k: KeyView| self@.contains_key(k) implies #[trigger] k.0 != group@ by {
                let j = choose|j: int| 0 <= j < self.entries@.len() && #[trigger] self.entries@[j].0@ == k;
            }
        }
        let ghost before = self.settings();
        let ghost item = (group@, failure_threshold, recovery_timeout);
        let mut groups: Vec<(String, u32, u64)> = Vec::new();
        let mut n: usize = 0;
        while n < self.group_settings.len()
            invariant
                n <= self.group_settings@.len(),
                self.well_formed(),
                old(self).is_sound(),
                forall|j: int| 0 <= j < self.entries@.len() ==> self.entries@[j].0@.0 != group@,
                groups@.len() == n,
                forall|j: int|
                    0 <= j < n ==> (#[trigger] groups@[j]).0@ == self.group_settings@[j].0@ && groups@[j].1
                        == self.group_settings@[j].1 && groups@[j].2 == self.group_settings@[j].2,
            decreases self.group_settings@.len() - n,
        {
            let e = &self.group_settings[n];
            groups.push((copy_str(e.0.as_str()), e.1, e.2));
            n += 1;
        }
        groups.push((group.to_string(), failure_threshold, recovery_timeout));
        let ghost after = groups@.map_values(|e: (String, u32, u64)| (e.0@, e.1, e.2));
        assert(after =~= before.0.push(item));
        assert forall|j: int| 0 <= j < self.entries@.len() implies record_sound(
            #[trigger] self.entries@[j].1,
            setting_for(after, self.entries@[j].0@.0, (before.1, before.2)).0,
        ) by {
            lemma_setting_push(before.0, item, self.entries@[j].0@.0, (before.1, before.2));
        }
        self.group_settings = groups;
        proof {
            use_type_invariant(&*self);
            self.lemma_sound();
        }
    }

    /// The threshold and timeout of `group`.
    fn settings_for(&self, group: &str) -> (r: (u32, u64))
        ensures
            r.0 == self.threshold_for(group@),
            r.1 == self.timeout_for(group@),
    {
        let ghost gs = self.settings().0;
        let mut i: usize = 0;
        assert(gs.subrange(0, gs.len() as int) == gs);
        while i < self.group_settings.len()
            invariant
                i <= self.group_settings@.len(),
                gs == self.settings().0,
                gs.len() == self.group_settings@.len(),
                setting_for(gs, group@, (self.failure_threshold, self.recovery_timeout)) == setting_for(gs.subrange(i as int, gs.len() as int), group@, (self.failure_threshold, self.recovery_timeout)),
            decreases self.group_settings@.len() - i,
        {
            let ghost rest = gs.subrange(i as int, gs.len() as int);
            assert(rest[0] == gs[i as int]);
            assert(rest.subrange(1, rest.len() as int) == gs.subrange(i + 1, gs.len() as int));
            if str_eq(self.group_settings[i].0.as_str(), group) {
                return (self.group_settings[i].1, self.group_settings[i].2);
            }
            i += 1;
        }
        (self.failure_threshold, self.recovery_timeout)
    }

    /// The current reading of the tracker's clock, in nanoseconds.
    pub(crate) fn now(&self) -> u128 {
        nanos_since(&self.origin)
    }

    fn find(&self, key: &ProviderKey) -> (r: Option<usize>)
        ensures
            r matches Some(i) ==> i < self.entries@.len() && self.entries@[i as int].0@ == key@,
            r is None ==> forall|i: int| 0 <= i < self.entries@.len() ==> self.entries@[i].0@ != key@,
    {
        let mut i: usize = 0;
        while i < self.entries.len()
            invariant
                i <= self.entries@.len(),
                forall|j: int| 0 <= j < i ==> self.entries@[j].0@ != key@,
            decreases self.entries@.len() - i,
        {
            if self.entries[i].0.same_key(key) {
                return Some(i);
            }
            i += 1;
        }
        None
    }

    /// The record of `key`.
    fn get(&self, key: &ProviderKey) -> (h: ProviderHealth)
        ensures
            h == lookup(self@, key@),
            record_sound(h, self.threshold_for(key@.0)),
            self.is_sound(),
    {
        proof {
            use_type_invariant(self);
            self.lemma_sound();
            assert(record_sound(lookup(self@, key@), threshold_in(self.settings(), key@.0)));
        }
        match self.find(key) {
            Some(i) => {
                proof {
                    self.lemma_entry(i as int);
                }
                self.entries[i].1
            },
            None => {
                assert(!self@.contains_key(key@));
                ProviderHealth::new()
            },
        }
    }

    /// Stores `h` as the record of `key`.
    fn put(&mut self, key: &ProviderKey, h: ProviderHealth)
        requires
            record_sound(h, old(self).threshold_for(key@.0)),
        ensures
            old(self).is_sound(),
            final(self).is_sound(),
            final(self)@ == old(self)@.insert(key@, h),
            final(self).settings() == old(self).settings(),
    {
        proof {
            use_type_invariant(&*self);
            self.lemma_sound();
        }
        let ghost before = self@;
        let ghost old_entries = self.entries@;
        let found = self.find(key);
        let mut entries: Vec<(ProviderKey, ProviderHealth)> = Vec::new();
        std::mem::swap(&mut entries, &mut self.entries);
        assert(entries@ == old_entries);
        match found {
            Some(i) => {
                let k = entries[i].0.duplicate();
                entries.set(i, (k, h));
            },
            None => {
                let k = key.duplicate();
                entries.push((k, h));
            },
        }
        assert forall|a: int, b: int|
            0 <= a < b < entries@.len() implies #[trigger] entries@[a].0@ != #[trigger] entries@[b].0@ by {
            if b < old_entries.len() {
                assert(old_entries[a].0@ != old_entries[b].0@);
            }
        }
        assert forall|j: int| 0 <= j < entries@.len() implies record_sound(
            #[trigger] entries@[j].1,
            threshold_in(self.settings(), entries@[j].0@.0),
        ) by {
            if j < old_entries.len() && entries@[j] == old_entries[j] {
                assert(record_sound(old_entries[j].1, threshold_in(self.settings(), old_entries[j].0@.0)));
            }
        }
        self.entries = entries;
        proof {
            self.lemma_update(old_entries, before, key@, h, found);
            use_type_invariant(&*self);
            self.lemma_sound();
        }
    }

    proof fn lemma_update(
        &self,
        old_entries: Seq<(ProviderKey, ProviderHealth)>,
        before: Map<KeyView, ProviderHealth>,
        k: KeyView,
        h: ProviderHealth,
        found: Option<usize>,
    )
        requires
            self.keys_distinct(),
            forall|a: int, b: int|
                0 <= a < b < old_entries.len() ==> #[trigger] old_entries[a].0@ != #[trigger] old_entries[b].0@,
            before == Map::new(
                |q: KeyView| exists|i: int| 0 <= i < old_entries.len() && #[trigger] old_entries[i].0@ == q,
                |q: KeyView| old_entries[choose|i: int| 0 <= i < old_entries.len() && #[trigger] old_entries[i].0@ == q].1,
            ),
            match found {
                Some(i) => {
                    &&& i < old_entries.len()
                    &&& old_entries[i as int].0@ == k
                    &&& self.entries@.len() == old_entries.len()
                    &&& self.entries@[i as int].0@ == k
                    &&& self.entries@[i as int].1 == h
                    &&& forall|j: int| 0 <= j < old_entries.len() && j != i ==> self.entries@[j] == old_entries[j]
                },
                None => {
                    &&& forall|j: int| 0 <= j < old_entries.len() ==> old_entries[j].0@ != k
                    &&& self.entries@.len() == old_entries.len() + 1
                    &&& self.entries@[old_entries.len() as int].0@ == k
                    &&& self.entries@[old_entries.len() as int].1 == h
                    &&& forall|j: int| 0 <= j < old_entries.len() ==> self.entries@[j] == old_entries[j]
                },
            },
        ensures
            self@ == before.insert(k, h),
    {
        let n = old_entries.len() as int;
        let idx: int = match found {
            Some(i) => i as int,
            None => n,
        };
        assert forall|q: KeyView| #[trigger] self@.contains_key(q) == before.insert(k, h).contains_key(q) by {
            if before.insert(k, h).contains_key(q) {
                if q == k {
                    assert(self.entries@[idx].0@ == q);
                } else {
                    let j = choose|j: int| 0 <= j < n && #[trigger] old_entries[j].0@ == q;
                    assert(self.entries@[j].0@ == q);
                }
            }
            if self@.contains_key(q) {
                let j = choose|j: int| 0 <= j < self.entries@.len() && #[trigger] self.entries@[j].0@ == q;
                if j != idx {
                    assert(old_entries[j].0@ == q);
                }
            }
        }
        assert forall|q: KeyView| #[trigger] self@.contains_key(q) implies self@[q] == before.insert(k, h)[q] by {
            let j = choose|j: int| 0 <= j < self.entries@.len() && #[trigger] self.entries@[j].0@ == q;
            self.lemma_entry(j);
            if j != idx {
                assert(old_entries[j].0@ == q);
                let j2 = choose|j2: int| 0 <= j2 < n && #[trigger] old_entries[j2].0@ == q;
                if j2 != j {
                    if j2 < j {
                        assert(old_entries[j2].0@ != old_entries[j].0@);
                    } else {
                        assert(old_entries[j].0@ != old_entries[j2].0@);
                    }
                }
            }
        }
        assert(self@ =~= before.insert(k, h));
    }

    pub fn record_success(&mut self, group: &str, provider_name: &str, model: &str)
        ensures
            old(self).is_sound(),
            final(self).is_sound(),
            final(self)@ == apply_call(old(self)@, old(self).settings(), TrackerCall::Success((group@, provider_name@, model@))),
            final(self)@ == old(self)@.insert(
                (group@, provider_name@, model@),
                after_success(lookup(old(self)@, (group@, provider_name@, model@))),
            ),
            final(self).settings() == old(self).settings(),
    {
        let key = ProviderKey::new(group, provider_name, model);
        let h = self.get(&key);
        let updated = ProviderHealth { failure_count: 0, is_healthy: true, last_failure_time: h.last_failure_time };
        self.put(&key, updated);
    }

    /// Records a failure that happened at `now` on the tracker's clock.
    pub fn record_failure_at(&mut self, group: &str, provider_name: &str, model: &str, now: u128)
        ensures
            old(self).is_sound(),
            final(self).is_sound(),
            final(self)@ == apply_call(old(self)@, old(self).settings(), TrackerCall::Failure((group@, provider_name@, model@), now)),
            final(self)@ == old(self)@.insert(
                (group@, provider_name@, model@),
                after_failure(lookup(old(self)@, (group@, provider_name@, model@)), old(self).threshold_for(group@), now),
            ),
            final(self).settings() == old(self).settings(),
    {
        let key = ProviderKey::new(group, provider_name, model);
        let h = self.get(&key);
        let count = if h.failure_count < u32::MAX {
            h.failure_count + 1
        } else {
            h.failure_count
        };
        let (threshold, _) = self.settings_for(group);
        let healthy = if count >= threshold {
            false
        } else {
            h.is_healthy
        };
        let updated = ProviderHealth { failure_count: count, is_healthy: healthy, last_failure_time: Some(now) };
        self.put(&key, updated);
    }

    /// Records a failure now.
    pub fn record_failure(&mut self, group: &str, provider_name: &str, model: &str)
        ensures
            old(self).is_sound(),
            final(self).is_sound(),
            exists|now: u128|
                final(self)@ == old(self)@.insert(
                    (group@, provider_name@, model@),
                    #[trigger] after_failure(lookup(old(self)@, (group@, provider_name@, model@)), old(self).threshold_for(group@), now),
                ),
            final(self).settings() == old(self).settings(),
    {
        let now = self.now();
        self.record_failure_at(group, provider_name, model, now);
    }

    /// Health check at `now`: an unhealthy key whose last failure lies at
    /// least the recovery timeout back recovers first.
    pub fn is_healthy_at(&mut self, group: &str, provider_name: &str, model: &str, now: u128) -> (b: bool)
        ensures
            old(self).is_sound(),
            final(self).is_sound(),
            final(self)@ == apply_call(old(self)@, old(self).settings(), TrackerCall::Check((group@, provider_name@, model@), now)),
            b == call_answer(old(self)@, old(self).settings(), TrackerCall::Check((group@, provider_name@, model@), now)),
            b == healthy_at(lookup(old(self)@, (group@, provider_name@, model@)), old(self).timeout_for(group@), now),
            final(self)@ == old(self)@.insert(
                (group@, provider_name@, model@),
                refreshed(lookup(old(self)@, (group@, provider_name@, model@)), old(self).timeout_for(group@), now),
            ),
            final(self).settings() == old(self).settings(),
    {
        let key = ProviderKey::new(group, provider_name, model);
        let h = self.get(&key);
        let (_, timeout) = self.settings_for(group);
        let mut updated = h;
        if !h.is_healthy {
            if let Some(t) = h.last_failure_time {
                let waited: u128 = if now >= t {
                    now - t
                } else {
                    0
                };
                let limit: u128 = (timeout as u128) * 1_000_000_000;
                if waited >= limit {
                    updated = ProviderHealth { failure_count: 0, is_healthy: true, last_failure_time: h.last_failure_time };
                }
            }
        }
        self.put(&key, updated);
        updated.is_healthy
    }

    /// Health check now.
    pub fn is_healthy(&mut self, group: &str, provider_name: &str, model: &str) -> (b: bool)
        ensures
            old(self).is_sound(),
            final(self).is_sound(),
            exists|now: u128|
                b == healthy_at(lookup(old(self)@, (group@, provider_name@, model@)), old(self).timeout_for(group@), now)
                && final(self)@ == old(self)@.insert(
                    (group@, provider_name@, model@),
                    #[trigger] refreshed(lookup(old(self)@, (group@, provider_name@, model@)), old(self).timeout_for(group@), now),
                ),
            final(self).settings() == old(self).settings(),
    {
        let now = self.now();
        self.is_healthy_at(group, provider_name, model, now)
    }

    /// The names in `all_providers` whose key for `model` in `group` passes a
    /// health check at `now`, in their order.
    pub fn get_healthy_providers_at(
        &mut self,
        group: &str,
        all_providers: &[String],
        model: &str,
        now: u128,
    ) -> (r: Vec<String>)
        ensures
            old(self).is_sound(),
            final(self).is_sound(),
            names_of(r@) == healthy_names(
                old(self)@,
                old(self).timeout_for(group@),
                now,
                group@,
                names_of(all_providers@),
                model@,
            ),
            final(self)@ == checked_all(
                old(self)@,
                provider_keys(group@, names_of(all_providers@), model@),
                old(self).timeout_for(group@),
                now,
            ),
            final(self).settings() == old(self).settings(),
    {
        proof {
            use_type_invariant(&*self);
            self.lemma_sound();
        }
        let ghost m0 = self@;
        let ghost names = names_of(all_providers@);
        let ghost keys = provider_keys(group@, names, model@);
        let ghost pred = |n: Seq<char>| healthy_at(lookup(m0, (group@, n, model@)), self.timeout_for(group@), now);
        let mut r: Vec<String> = Vec::new();
        let mut i: usize = 0;
        while i < all_providers.len()
            invariant
                i <= all_providers@.len(),
                old(self).is_sound(),
                self.is_sound(),
                names == names_of(all_providers@),
                keys == provider_keys(group@, names, model@),
                self.settings() == old(self).settings(),
                pred == (|n: Seq<char>| healthy_at(lookup(m0, (group@, n, model@)), old(self).timeout_for(group@), now)),
                self@ == checked_all(m0, keys.take(i as int), old(self).timeout_for(group@), now),
                names_of(r@) == names.take(i as int).filter(pred),
            decreases all_providers@.len() - i,
        {
            let name = &all_providers[i];
            let ghost k = (group@, name@, model@);
            proof {
                lemma_checked_lookup(m0, keys.take(i as int), k, self.timeout_for(group@), now);
                lemma_refresh_stable(lookup(m0, k), self.timeout_for(group@), now);
            }
            let ok = self.is_healthy_at(group, name.as_str(), model, now);
            assert(keys.take(i + 1).drop_last() == keys.take(i as int));
            assert(keys.take(i + 1).last() == k);
            assert(names.take(i + 1).drop_last() == names.take(i as int));
            reveal_with_fuel(Seq::<_>::filter, 1);
            if ok {
                r.push(name.clone());
                assert(names_of(r@) == names.take(i as int).filter(pred).push(name@));
            } else {
                assert(names_of(r@) == names.take(i as int).filter(pred));
            }
            i += 1;
        }
        assert(names.take(all_providers@.len() as int) == names);
        assert(keys.take(all_providers@.len() as int) == keys);
        r
    }

    /// The names in `all_providers` whose key for `model` in `group` is healthy now.
    pub fn get_healthy_providers(&mut self, group: &str, all_providers: &[String], model: &str) -> (r: Vec<String>)
        ensures
            old(self).is_sound(),
            final(self).is_sound(),
            exists|now: u128|
                names_of(r@) == #[trigger] healthy_names(
                    old(self)@,
                    old(self).timeout_for(group@),
                    now,
                    group@,
                    names_of(all_providers@),
                    model@,
                ) && final(self)@ == checked_all(
                    old(self)@,
                    provider_keys(group@, names_of(all_providers@), model@),
                    old(self).timeout_for(group@),
                    now,
                ),
            final(self).settings() == old(self).settings(),
    {
        let now = self.now();
        self.get_healthy_providers_at(group, all_providers, model, now)
    }
}

/// Starting from a key with no failures counted and healthy (fresh, or just
/// after a success), the key stays healthy while fewer failures than the
/// threshold have been recorded, and turns unhealthy with the failure that
/// reaches it; the counter counts the failures and the last failure time is
/// that of the last failure.
pub proof fn law_failures_reach_threshold(s: ProviderHealth, failure_threshold: u32, times: Seq<u128>)
    requires
        s.failure_count == 0,
        s.is_healthy,
    ensures
        after_failures(s, failure_threshold, times).is_healthy <==> (times.len() == 0 || times.len()
            < failure_threshold),
        after_failures(s, failure_threshold, times).failure_count == if times.len() <= u32::MAX {
            times.len() as int
        } else {
            u32::MAX as int
        },
        times.len() > 0 ==> after_failures(s, failure_threshold, times).last_failure_time == Some(
            times.last(),
        ),
    decreases times.len(),
{
    if times.len() > 0 {
        law_failures_reach_threshold(s, failure_threshold, times.drop_last());
    }
}

/// A success clears the counter and makes the key healthy at any instant.
pub proof fn law_success_resets(s: ProviderHealth, recovery_timeout: u64, now: u128)
    ensures
        after_success(s).failure_count == 0,
        healthy_at(after_success(s), recovery_timeout, now),
{
}

/// An unhealthy key passes a health check exactly when its last failure lies
/// at least `recovery_timeout` seconds back; a healthy key always passes.
pub proof fn law_recovery_after_timeout(s: ProviderHealth, recovery_timeout: u64, now: u128)
    ensures
        s.is_healthy ==> healthy_at(s, recovery_timeout, now),
        !s.is_healthy ==> (healthy_at(s, recovery_timeout, now) <==> (s.last_failure_time matches Some(t)
            && elapsed(t, now) >= recovery_timeout * 1_000_000_000)),
{
}

/// Keys are tracked independently: recording for one key leaves every other
/// key's record as it was.
pub proof fn law_keys_independent(
    m: Map<KeyView, ProviderHealth>,
    k: KeyView,
    h: ProviderHealth,
    other: KeyView,
)
    requires
        other != k,
    ensures
        lookup(m.insert(k, h), other) == lookup(m, other),
{
}

/// One call changes the record of its own key only.
pub proof fn lemma_apply_other(m: Map<KeyView, ProviderHealth>, st: SettingsView, c: TrackerCall, k: KeyView)
    requires
        call_key(c) != k,
    ensures
        lookup(apply_call(m, st, c), k) == lookup(m, k),
{
}

/// Prefixes of a run: the run of `take(n + 1)` is that of `take(n)` followed by call `n`.
pub proof fn lemma_run_step(m: Map<KeyView, ProviderHealth>, st: SettingsView, calls: Seq<TrackerCall>, n: int)
    requires
        0 <= n < calls.len(),
    ensures
        run_calls(m, st, calls.take(n + 1)) == apply_call(run_calls(m, st, calls.take(n)), st, calls[n]),
{
    assert(calls.take(n + 1).drop_last() == calls.take(n));
    assert(calls.take(n + 1).last() == calls[n]);
}

/// Every record stays sound over any run: a key is flagged unhealthy exactly
/// when its failure counter is positive and has reached its group's
/// threshold, and an unhealthy key always holds the time of its last failure.
pub proof fn law_records_stay_sound(m: Map<KeyView, ProviderHealth>, st: SettingsView, calls: Seq<TrackerCall>)
    requires
        records_sound(m, st),
    ensures
        records_sound(run_calls(m, st, calls), st),
    decreases calls.len(),
{
    if calls.len() > 0 {
        let prev = run_calls(m, st, calls.drop_last());
        law_records_stay_sound(m, st, calls.drop_last());
        assert forall|k: KeyView| record_sound(#[trigger] lookup(run_calls(m, st, calls), k), threshold_in(st, k.0)) by {
            assert(record_sound(lookup(prev, k), threshold_in(st, k.0)));
            if call_key(calls.last()) != k {
                lemma_apply_other(prev, st, calls.last(), k);
            }
        }
    }
}

/// In every sound state (every state of a tracker), a key reads healthy
/// exactly while its counter is below `max(1, threshold)`; an unhealthy key
/// holds the time of its last failure, and a check passes exactly when that
/// time lies at least the recovery timeout back.
pub proof fn law_unhealthy_recovers(m: Map<KeyView, ProviderHealth>, st: SettingsView, k: KeyView, now: u128)
    requires
        records_sound(m, st),
    ensures
        lookup(m, k).is_healthy <==> lookup(m, k).failure_count < failures_to_trip(threshold_in(st, k.0)),
        lookup(m, k).is_healthy ==> healthy_at(lookup(m, k), timeout_in(st, k.0), now),
        !lookup(m, k).is_healthy ==> {
            &&& lookup(m, k).last_failure_time is Some
            &&& healthy_at(lookup(m, k), timeout_in(st, k.0), now) <==> elapsed(
                lookup(m, k).last_failure_time->Some_0,
                now,
            ) >= timeout_nanos(timeout_in(st, k.0))
        },
{
    assert(record_sound(lookup(m, k), threshold_in(st, k.0)));
}

/// A healthy key stays healthy, and every check of it answers healthy, as
/// long as no failure of it is recorded: time alone never makes a key
/// unhealthy.  Here the key is healthy after the first `start` calls of the run.
pub proof fn law_healthy_until_failure(
    m: Map<KeyView, ProviderHealth>,
    st: SettingsView,
    calls: Seq<TrackerCall>,
    k: KeyView,
    start: int,
)
    requires
        0 <= start <= calls.len(),
        lookup(run_calls(m, st, calls.take(start)), k).is_healthy,
        forall|i: int| start <= i < calls.len() ==> !is_failure_of(#[trigger] calls[i], k),
    ensures
        lookup(run_calls(m, st, calls), k).is_healthy,
        forall|i: int| start <= i < calls.len() && call_key(#[trigger] calls[i]) == k ==> answer_at(m, st, calls, i),
{
    assert forall|n: int| start <= n <= calls.len() implies #[trigger] lookup(run_calls(m, st, calls.take(n)), k).is_healthy by {
        lemma_healthy_from(m, st, calls, k, start, n);
    }
    assert forall|i: int| start <= i < calls.len() && call_key(#[trigger] calls[i]) == k implies answer_at(m, st, calls, i) by {
        assert(lookup(run_calls(m, st, calls.take(i)), k).is_healthy);
    }
    assert(calls.take(calls.len() as int) == calls);
    assert(lookup(run_calls(m, st, calls.take(calls.len() as int)), k).is_healthy);
}

proof fn lemma_healthy_from(m: Map<KeyView, ProviderHealth>, st: SettingsView, calls: Seq<TrackerCall>, k: KeyView, start: int, n: int)
    requires
        0 <= start <= n <= calls.len(),
        lookup(run_calls(m, st, calls.take(start)), k).is_healthy,
        forall|i: int| start <= i < calls.len() ==> !is_failure_of(#[trigger] calls[i], k),
    ensures
        lookup(run_calls(m, st, calls.take(n)), k).is_healthy,
    decreases n,
{
    if n > start {
        lemma_healthy_from(m, st, calls, k, start, n - 1);
        lemma_run_step(m, st, calls, n - 1);
        let prev = run_calls(m, st, calls.take(n - 1));
        if call_key(calls[n - 1]) != k {
            lemma_apply_other(prev, st, calls[n - 1], k);
        } else {
            assert(!is_failure_of(calls[n - 1], k));
        }
    }
}

/// After a success of a key, or a check of it that answered healthy, every
/// later check of it answers healthy until a failure of it is recorded.
pub proof fn law_healthy_after_pass(m: Map<KeyView, ProviderHealth>, st: SettingsView, calls: Seq<TrackerCall>, k: KeyView, i: int)
    requires
        0 <= i < calls.len(),
        is_success_of(calls[i], k) || (is_check_of(calls[i], k) && answer_at(m, st, calls, i)),
        forall|j: int| i < j < calls.len() ==> !is_failure_of(#[trigger] calls[j], k),
    ensures
        forall|j: int| i < j < calls.len() && call_key(#[trigger] calls[j]) == k ==> answer_at(m, st, calls, j),
        lookup(run_calls(m, st, calls), k).is_healthy,
{
    lemma_run_step(m, st, calls, i);
    law_healthy_until_failure(m, st, calls, k, i + 1);
}

/// Call `i` of the run resets key `k`: a success of `k`, or a check of `k`
/// that found it unhealthy and answered healthy (a recovery).
pub open spec fn resets_at(m: Map<KeyView, ProviderHealth>, st: SettingsView, calls: Seq<TrackerCall>, k: KeyView, i: int) -> bool {
    ||| is_success_of(calls[i], k)
    ||| is_check_of(calls[i], k) && !lookup(run_calls(m, st, calls.take(i)), k).is_healthy && answer_at(m, st, calls, i)
}

/// The index of the last reset of `k` among the first `p` calls, or -1.
pub open spec fn last_reset(m: Map<KeyView, ProviderHealth>, st: SettingsView, calls: Seq<TrackerCall>, k: KeyView, p: int) -> int
    decreases p,
{
    if p <= 0 {
        -1
    } else if resets_at(m, st, calls, k, p - 1) {
        p - 1
    } else {
        last_reset(m, st, calls, k, p - 1)
    }
}

/// The number of failures of `k` among calls `from..to`.
pub open spec fn failures_between(calls: Seq<TrackerCall>, k: KeyView, from: int, to: int) -> nat
    decreases to - from,
{
    if to <= from {
        0
    } else {
        failures_between(calls, k, from, to - 1) + if is_failure_of(calls[to - 1], k) {
            1nat
        } else {
            0nat
        }
    }
}

/// The failures of `k` counted after the first `p` calls: those since its
/// last reset, on top of the counter it started with if it was never reset.
pub open spec fn failures_since_reset(m: Map<KeyView, ProviderHealth>, st: SettingsView, calls: Seq<TrackerCall>, k: KeyView, p: int) -> nat {
    let r = last_reset(m, st, calls, k, p);
    (if r < 0 {
        lookup(m, k).failure_count as nat
    } else {
        0nat
    }) + failures_between(calls, k, r + 1, p)
}

/// The instant of the latest failure of `k` among the first `p` calls, or
/// `init` where there is none.
pub open spec fn last_failure_before(calls: Seq<TrackerCall>, k: KeyView, p: int, init: Option<u128>) -> Option<u128>
    decreases p,
{
    if p <= 0 {
        init
    } else if is_failure_of(calls[p - 1], k) {
        Some(calls[p - 1]->Failure_1)
    } else {
        last_failure_before(calls, k, p - 1, init)
    }
}

/// The record of `k` after the first `p` calls is what its history says: the
/// counter holds the failures since the last reset (stopping at `u32::MAX`),
/// the key is healthy exactly while they are fewer than `max(1, threshold)`,
/// and the last failure time is that of the latest failure.
pub open spec fn tracks_history(m: Map<KeyView, ProviderHealth>, st: SettingsView, calls: Seq<TrackerCall>, k: KeyView, p: int) -> bool {
    let s = lookup(run_calls(m, st, calls.take(p)), k);
    let n = failures_since_reset(m, st, calls, k, p);
    &&& s.failure_count == if n <= u32::MAX {
        n as int
    } else {
        u32::MAX as int
    }
    &&& s.is_healthy <==> n < failures_to_trip(threshold_in(st, k.0))
    &&& s.last_failure_time == last_failure_before(calls, k, p, lookup(m, k).last_failure_time)
}

/// Call `i`, a check of `k`, answers what the history says: healthy exactly
/// when fewer than `max(1, threshold)` failures were counted since the last
/// reset, or the latest failure lies at least the recovery timeout back.
pub open spec fn answers_by_history(m: Map<KeyView, ProviderHealth>, st: SettingsView, calls: Seq<TrackerCall>, k: KeyView, i: int) -> bool {
    answer_at(m, st, calls, i) == (failures_since_reset(m, st, calls, k, i) < failures_to_trip(threshold_in(st, k.0))
        || (last_failure_before(calls, k, i, lookup(m, k).last_failure_time) matches Some(tf) && elapsed(tf, calls[i]->Check_1)
        >= timeout_nanos(timeout_in(st, k.0))))
}

proof fn lemma_last_reset_bounds(m: Map<KeyView, ProviderHealth>, st: SettingsView, calls: Seq<TrackerCall>, k: KeyView, p: int)
    ensures
        -1 <= last_reset(m, st, calls, k, p),
        p > 0 ==> last_reset(m, st, calls, k, p) < p,
    decreases p,
{
    if p > 0 {
        lemma_last_reset_bounds(m, st, calls, k, p - 1);
    }
}

proof fn lemma_history_prefix(m: Map<KeyView, ProviderHealth>, st: SettingsView, calls: Seq<TrackerCall>, k: KeyView, p: int)
    requires
        record_sound(lookup(m, k), threshold_in(st, k.0)),
        0 <= p <= calls.len(),
    ensures
        tracks_history(m, st, calls, k, p),
    decreases p,
{
    if p == 0 {
        assert(calls.take(0) =~= Seq::<TrackerCall>::empty());
    } else {
        lemma_history_prefix(m, st, calls, k, p - 1);
        lemma_run_step(m, st, calls, p - 1);
        lemma_last_reset_bounds(m, st, calls, k, p - 1);
        let prev = run_calls(m, st, calls.take(p - 1));
        let c = calls[p - 1];
        let r0 = last_reset(m, st, calls, k, p - 1);
        assert(failures_between(calls, k, r0 + 1, p) == failures_between(calls, k, r0 + 1, p - 1) + if is_failure_of(c, k) {
            1nat
        } else {
            0nat
        });
        if call_key(c) != k {
            lemma_apply_other(prev, st, c, k);
        }
    }
}

/// The whole history of a key, over any run that mixes successes, failures
/// and checks, from any sound state (such as a new tracker's, where every key
/// is fresh): after each prefix of the run the key's record follows
/// `tracks_history`, and each check of it answers by `answers_by_history`.
pub proof fn law_health_history(m: Map<KeyView, ProviderHealth>, st: SettingsView, calls: Seq<TrackerCall>, k: KeyView)
    requires
        records_sound(m, st),
    ensures
        forall|p: int| 0 <= p <= calls.len() ==> #[trigger] tracks_history(m, st, calls, k, p),
        forall|i: int| 0 <= i < calls.len() && is_check_of(calls[i], k) ==> #[trigger] answers_by_history(m, st, calls, k, i),
{
    assert(record_sound(lookup(m, k), threshold_in(st, k.0)));
    assert forall|p: int| 0 <= p <= calls.len() implies #[trigger] tracks_history(m, st, calls, k, p) by {
        lemma_history_prefix(m, st, calls, k, p);
    }
    assert forall|i: int| 0 <= i < calls.len() && is_check_of(calls[i], k) implies #[trigger] answers_by_history(m, st, calls, k, i) by {
        lemma_history_prefix(m, st, calls, k, i);
    }
}

proof fn lemma_last_failure_source(calls: Seq<TrackerCall>, k: KeyView, p: int, init: Option<u128>)
    requires
        0 <= p <= calls.len(),
    ensures
        last_failure_before(calls, k, p, init) matches Some(tf) ==> init == Some(tf) || exists|q: int|
            0 <= q < p && #[trigger] is_failure_of(calls[q], k) && calls[q]->Failure_1 == tf,
        last_failure_before(calls, k, p, init) is None ==> init is None && forall|q: int|
            0 <= q < p ==> !#[trigger] is_failure_of(calls[q], k),
    decreases p,
{
    if p > 0 {
        lemma_last_failure_source(calls, k, p - 1, init);
    }
}

proof fn lemma_no_failures_between(calls: Seq<TrackerCall>, k: KeyView, from: int, to: int)
    requires
        forall|q: int| from <= q < to ==> !#[trigger] is_failure_of(calls[q], k),
    ensures
        failures_between(calls, k, from, to) == 0,
    decreases to - from,
{
    if to > from {
        lemma_no_failures_between(calls, k, from, to - 1);
    }
}

/// A check of a key passes whenever the key's failures all lie at least the
/// recovery timeout back: an unhealthy key recovers once it has been quiet
/// for the timeout, whatever came before.  If the key was unhealthy, that
/// check is a reset, and the failures are counted afresh from it.
pub proof fn law_recovers_after_quiet(m: Map<KeyView, ProviderHealth>, st: SettingsView, calls: Seq<TrackerCall>, k: KeyView, j: int)
    requires
        records_sound(m, st),
        0 <= j < calls.len(),
        is_check_of(calls[j], k),
        forall|q: int|
            0 <= q < j && is_failure_of(#[trigger] calls[q], k) ==> elapsed(calls[q]->Failure_1, calls[j]->Check_1)
                >= timeout_nanos(timeout_in(st, k.0)),
        lookup(m, k).last_failure_time matches Some(t0) ==> elapsed(t0, calls[j]->Check_1) >= timeout_nanos(timeout_in(st, k.0)),
    ensures
        answer_at(m, st, calls, j),
        !lookup(run_calls(m, st, calls.take(j)), k).is_healthy ==> last_reset(m, st, calls, k, j + 1) == j
            && failures_since_reset(m, st, calls, k, j + 1) == 0,
{
    law_health_history(m, st, calls, k);
    assert(answers_by_history(m, st, calls, k, j));
    assert(record_sound(lookup(m, k), threshold_in(st, k.0)));
    let init = lookup(m, k).last_failure_time;
    lemma_last_failure_source(calls, k, j, init);
    lemma_last_reset_bounds(m, st, calls, k, j);
    if last_failure_before(calls, k, j, init) is None {
        let r = last_reset(m, st, calls, k, j);
        lemma_no_failures_between(calls, k, r + 1, j);
    }
}

/// An unhealthy key whose last failure was at `t0` stays as it is while no
/// success or failure of it is recorded and its checks come before the
/// recovery timeout; each such check answers unhealthy, and the first check
/// at or after the timeout answers healthy.
pub proof fn law_unhealthy_until_timeout(m: Map<KeyView, ProviderHealth>, st: SettingsView, calls: Seq<TrackerCall>, k: KeyView, t0: u128)
    requires
        !lookup(m, k).is_healthy,
        lookup(m, k).last_failure_time == Some(t0),
        forall|i: int| 0 <= i < calls.len() ==> !is_failure_of(#[trigger] calls[i], k),
        forall|i: int| 0 <= i < calls.len() ==> !is_success_of(#[trigger] calls[i], k),
    ensures
        forall|i: int|
            0 <= i < calls.len() && #[trigger] is_check_of(calls[i], k) && (forall|j: int|
                0 <= j < i ==> #[trigger] before_deadline(calls[j], k, t0, timeout_in(st, k.0)))
                ==> answer_at(m, st, calls, i) == (elapsed(t0, calls[i]->Check_1) >= timeout_nanos(timeout_in(st, k.0))),
{
    assert forall|i: int|
        0 <= i < calls.len() && #[trigger] is_check_of(calls[i], k) && (forall|j: int|
            0 <= j < i ==> #[trigger] before_deadline(calls[j], k, t0, timeout_in(st, k.0)))
        implies answer_at(m, st, calls, i) == (elapsed(t0, calls[i]->Check_1) >= timeout_nanos(timeout_in(st, k.0))) by {
        lemma_unhealthy_prefix(m, st, calls, k, t0, i);
    }
}

proof fn lemma_unhealthy_prefix(m: Map<KeyView, ProviderHealth>, st: SettingsView, calls: Seq<TrackerCall>, k: KeyView, t0: u128, n: int)
    requires
        !lookup(m, k).is_healthy,
        lookup(m, k).last_failure_time == Some(t0),
        forall|i: int| 0 <= i < calls.len() ==> !is_failure_of(#[trigger] calls[i], k),
        forall|i: int| 0 <= i < calls.len() ==> !is_success_of(#[trigger] calls[i], k),
        0 <= n <= calls.len(),
        forall|j: int| 0 <= j < n ==> #[trigger] before_deadline(calls[j], k, t0, timeout_in(st, k.0)),
    ensures
        lookup(run_calls(m, st, calls.take(n)), k) == lookup(m, k),
    decreases n,
{
    if n == 0 {
        assert(calls.take(0) =~= Seq::<TrackerCall>::empty());
    } else {
        lemma_unhealthy_prefix(m, st, calls, k, t0, n - 1);
        lemma_run_step(m, st, calls, n - 1);
        let prev = run_calls(m, st, calls.take(n - 1));
        if call_key(calls[n - 1]) != k {
            lemma_apply_other(prev, st, calls[n - 1], k);
        } else {
            assert(!is_failure_of(calls[n - 1], k));
            assert(!is_success_of(calls[n - 1], k));
            assert(before_deadline(calls[n - 1], k, t0, timeout_in(st, k.0)));
            assert(lookup(prev, k) == lookup(m, k));
            assert(!recovered(lookup(m, k), timeout_in(st, k.0), calls[n - 1]->Check_1));
        }
    }
}

/// A failure never makes a key healthy: if the key does not pass a check at
/// the failure's instant, it is unhealthy after the failure, its recovery
/// wait restarts at that instant, and every check before the timeout has
/// passed again answers unhealthy.
pub proof fn law_failure_restarts_wait(s: ProviderHealth, failure_threshold: u32, recovery_timeout: u64, now: u128)
    requires
        !healthy_at(s, recovery_timeout, now),
    ensures
        !after_failure(s, failure_threshold, now).is_healthy,
        after_failure(s, failure_threshold, now).last_failure_time == Some(now),
        forall|t: u128| elapsed(now, t) < timeout_nanos(recovery_timeout) ==> !#[trigger] healthy_at(after_failure(s, failure_threshold, now), recovery_timeout, t),
{
}

/// One failure on a sound record: the counter goes up by one (stopping at
/// `u32::MAX`) and the last failure time becomes the failure's instant; the
/// record stays sound, and it reads healthy exactly while the counter is
/// below `max(1, threshold)`; once unhealthy, every check before the
/// recovery timeout has passed from that instant answers unhealthy.
pub proof fn law_failure_step(s: ProviderHealth, failure_threshold: u32, recovery_timeout: u64, now: u128)
    requires
        record_sound(s, failure_threshold),
    ensures
        after_failure(s, failure_threshold, now).failure_count == bumped(s.failure_count),
        after_failure(s, failure_threshold, now).last_failure_time == Some(now),
        record_sound(after_failure(s, failure_threshold, now), failure_threshold),
        after_failure(s, failure_threshold, now).is_healthy <==> bumped(s.failure_count) < failures_to_trip(failure_threshold),
        !after_failure(s, failure_threshold, now).is_healthy ==> forall|t: u128|
            elapsed(now, t) < timeout_nanos(recovery_timeout) ==> !#[trigger] healthy_at(
                after_failure(s, failure_threshold, now),
                recovery_timeout,
                t,
            ),
{
}

/// While no success and no check of a key is recorded, its record is the
/// record it started with after the failures recorded for it, in order; so
/// (by `law_failures_reach_threshold`) from a fresh or just-succeeded key it
/// reads healthy until the failure that reaches the threshold.
pub proof fn law_failures_counted(m: Map<KeyView, ProviderHealth>, st: SettingsView, calls: Seq<TrackerCall>, k: KeyView)
    requires
        forall|i: int| 0 <= i < calls.len() ==> !is_success_of(#[trigger] calls[i], k),
        forall|i: int| 0 <= i < calls.len() ==> !is_check_of(#[trigger] calls[i], k),
    ensures
        lookup(run_calls(m, st, calls), k) == after_failures(lookup(m, k), threshold_in(st, k.0), failure_times(calls, k)),
        lookup(m, k).failure_count == 0 && lookup(m, k).is_healthy ==> (lookup(run_calls(m, st, calls), k).is_healthy <==> (
        failure_times(calls, k).len() == 0 || failure_times(calls, k).len() < threshold_in(st, k.0))),
    decreases calls.len(),
{
    if calls.len() > 0 {
        let rest = calls.drop_last();
        assert forall|i: int| 0 <= i < rest.len() implies !is_success_of(#[trigger] rest[i], k) by {
            assert(rest[i] == calls[i]);
        }
        assert forall|i: int| 0 <= i < rest.len() implies !is_check_of(#[trigger] rest[i], k) by {
            assert(rest[i] == calls[i]);
        }
        law_failures_counted(m, st, rest, k);
        let prev = run_calls(m, st, rest);
        let c = calls.last();
        assert(c == calls[calls.len() - 1]);
        if call_key(c) != k {
            lemma_apply_other(prev, st, c, k);
        }
        let ts = failure_times(calls, k);
        if ts.len() > 0 && ts == failure_times(rest, k).push(ts.last()) {
            assert(ts.drop_last() == failure_times(rest, k));
        }
    }
    if lookup(m, k).failure_count == 0 && lookup(m, k).is_healthy {
        law_failures_reach_threshold(lookup(m, k), threshold_in(st, k.0), failure_times(calls, k));
    }
}

/// Filtering for health at one instant distributes over concatenation.
pub proof fn law_healthy_names_concat(
    m: Map<KeyView, ProviderHealth>,
    recovery_timeout: u64,
    now: u128,
    group: Seq<char>,
    xs: Seq<Seq<char>>,
    ys: Seq<Seq<char>>,
    model: Seq<char>,
)
    ensures
        healthy_names(m, recovery_timeout, now, group, xs + ys, model) == healthy_names(m, recovery_timeout, now, group, xs, model)
            + healthy_names(m, recovery_timeout, now, group, ys, model),
{
    Seq::filter_distributes_over_add(xs, ys, |n: Seq<char>| healthy_at(lookup(m, (group, n, model)), recovery_timeout, now));
}

/// Filtering the healthy names again keeps them all.
pub proof fn law_healthy_names_idempotent(
    m: Map<KeyView, ProviderHealth>,
    recovery_timeout: u64,
    now: u128,
    group: Seq<char>,
    xs: Seq<Seq<char>>,
    model: Seq<char>,
)
    ensures
        healthy_names(m, recovery_timeout, now, group, healthy_names(m, recovery_timeout, now, group, xs, model), model)
            == healthy_names(m, recovery_timeout, now, group, xs, model),
    decreases xs.len(),
{
    let pred = |n: Seq<char>| healthy_at(lookup(m, (group, n, model)), recovery_timeout, now);
    reveal_with_fuel(Seq::<_>::filter, 1);
    if xs.len() > 0 {
        law_healthy_names_idempotent(m, recovery_timeout, now, group, xs.drop_last(), model);
        let f = xs.drop_last().filter(pred);
        if pred(xs.last()) {
            assert(f.push(xs.last()).drop_last() == f);
        }
    }
}

/// The checks of a health query do not change the answers of a later query
/// at the same instant.
pub proof fn law_healthy_names_stable(
    m: Map<KeyView, ProviderHealth>,
    keys: Seq<KeyView>,
    recovery_timeout: u64,
    now: u128,
    group: Seq<char>,
    xs: Seq<Seq<char>>,
    model: Seq<char>,
)
    ensures
        healthy_names(checked_all(m, keys, recovery_timeout, now), recovery_timeout, now, group, xs, model)
            == healthy_names(m, recovery_timeout, now, group, xs, model),
{
    let m2 = checked_all(m, keys, recovery_timeout, now);
    let p1 = |n: Seq<char>| healthy_at(lookup(m2, (group, n, model)), recovery_timeout, now);
    let p2 = |n: Seq<char>| healthy_at(lookup(m, (group, n, model)), recovery_timeout, now);
    assert forall|n: Seq<char>| #[trigger] p1(n) == p2(n) by {
        lemma_checked_lookup(m, keys, (group, n, model), recovery_timeout, now);
        lemma_refresh_stable(lookup(m, (group, n, model)), recovery_timeout, now);
    }
    assert(p1 =~= p2);
}

/// No recovery deadline of the keys for `names` passes between `t1` and
/// `t2`: each of them counts as recovered at both instants or at neither.
pub open spec fn no_deadline_between(
    m: Map<KeyView, ProviderHealth>,
    recovery_timeout: u64,
    t1: u128,
    t2: u128,
    group: Seq<char>,
    names: Seq<Seq<char>>,
    model: Seq<char>,
) -> bool {
    forall|n: Seq<char>|
        names.contains(n) ==> recovered(#[trigger] lookup(m, (group, n, model)), recovery_timeout, t1) == recovered(
            lookup(m, (group, n, model)),
            recovery_timeout,
            t2,
        )
}

proof fn lemma_filter_agree(xs: Seq<Seq<char>>, p1: spec_fn(Seq<char>) -> bool, p2: spec_fn(Seq<char>) -> bool)
    requires
        forall|n: Seq<char>| xs.contains(n) ==> #[trigger] p1(n) == p2(n),
    ensures
        xs.filter(p1) == xs.filter(p2),
    decreases xs.len(),
{
    reveal_with_fuel(Seq::<_>::filter, 1);
    if xs.len() > 0 {
        let rest = xs.drop_last();
        assert forall|n: Seq<char>| rest.contains(n) implies #[trigger] p1(n) == p2(n) by {
            let j = choose|j: int| 0 <= j < rest.len() && rest[j] == n;
            assert(xs[j] == n);
        }
        lemma_filter_agree(rest, p1, p2);
        assert(xs[xs.len() - 1] == xs.last());
        assert(p1(xs.last()) == p2(xs.last()));
    }
}

proof fn lemma_filter_within(xs: Seq<Seq<char>>, pred: spec_fn(Seq<char>) -> bool)
    ensures
        forall|n: Seq<char>| #[trigger] xs.filter(pred).contains(n) ==> xs.contains(n),
    decreases xs.len(),
{
    reveal_with_fuel(Seq::<_>::filter, 1);
    if xs.len() > 0 {
        let rest = xs.drop_last();
        lemma_filter_within(rest, pred);
        assert forall|n: Seq<char>| #[trigger] xs.filter(pred).contains(n) implies xs.contains(n) by {
            let f = rest.filter(pred);
            let j = choose|j: int| 0 <= j < xs.filter(pred).len() && xs.filter(pred)[j] == n;
            if j < f.len() {
                assert(f.contains(n)) by {
                    assert(f[j] == n);
                }
                let q = choose|q: int| 0 <= q < rest.len() && rest[q] == n;
                assert(xs[q] == n);
            } else {
                assert(xs[xs.len() - 1] == n);
            }
        }
    }
}

/// The checks of a health query do not change the answers of a later query
/// at another instant, as long as no recovery deadline of the names asked
/// about passes between the two: the later query answers what the first
/// would have answered for those names.
pub proof fn law_healthy_names_across(
    m: Map<KeyView, ProviderHealth>,
    keys: Seq<KeyView>,
    recovery_timeout: u64,
    t1: u128,
    t2: u128,
    group: Seq<char>,
    ys: Seq<Seq<char>>,
    model: Seq<char>,
)
    requires
        no_deadline_between(m, recovery_timeout, t1, t2, group, ys, model),
    ensures
        healthy_names(checked_all(m, keys, recovery_timeout, t1), recovery_timeout, t2, group, ys, model)
            == healthy_names(m, recovery_timeout, t1, group, ys, model),
{
    let m2 = checked_all(m, keys, recovery_timeout, t1);
    let p1 = |n: Seq<char>| healthy_at(lookup(m2, (group, n, model)), recovery_timeout, t2);
    let p2 = |n: Seq<char>| healthy_at(lookup(m, (group, n, model)), recovery_timeout, t1);
    assert forall|n: Seq<char>| ys.contains(n) implies #[trigger] p1(n) == p2(n) by {
        lemma_checked_lookup(m, keys, (group, n, model), recovery_timeout, t1);
        assert(recovered(lookup(m, (group, n, model)), recovery_timeout, t1) == recovered(lookup(m, (group, n, model)), recovery_timeout, t2));
    }
    lemma_filter_agree(ys, p1, p2);
}

proof fn lemma_no_deadline_after_checks(
    m: Map<KeyView, ProviderHealth>,
    keys: Seq<KeyView>,
    recovery_timeout: u64,
    t1: u128,
    t2: u128,
    t3: u128,
    group: Seq<char>,
    ys: Seq<Seq<char>>,
    model: Seq<char>,
)
    requires
        no_deadline_between(m, recovery_timeout, t1, t2, group, ys, model),
        no_deadline_between(m, recovery_timeout, t2, t3, group, ys, model),
    ensures
        no_deadline_between(checked_all(m, keys, recovery_timeout, t1), recovery_timeout, t2, t3, group, ys, model),
{
    let m1 = checked_all(m, keys, recovery_timeout, t1);
    assert forall|n: Seq<char>| ys.contains(n) implies recovered(#[trigger] lookup(m1, (group, n, model)), recovery_timeout, t2)
        == recovered(lookup(m1, (group, n, model)), recovery_timeout, t3) by {
        lemma_checked_lookup(m, keys, (group, n, model), recovery_timeout, t1);
        assert(recovered(lookup(m, (group, n, model)), recovery_timeout, t1) == recovered(lookup(m, (group, n, model)), recovery_timeout, t2));
        assert(recovered(lookup(m, (group, n, model)), recovery_timeout, t2) == recovered(lookup(m, (group, n, model)), recovery_timeout, t3));
    }
}

/// Three health queries in a row, with no record in between and no recovery
/// deadline passing among their instants: the first, for `xs + ys`, answers
/// the second's answer for `xs` followed by the third's for `ys`.
pub proof fn law_healthy_queries_concat(
    m: Map<KeyView, ProviderHealth>,
    recovery_timeout: u64,
    t1: u128,
    t2: u128,
    t3: u128,
    group: Seq<char>,
    xs: Seq<Seq<char>>,
    ys: Seq<Seq<char>>,
    model: Seq<char>,
)
    requires
        no_deadline_between(m, recovery_timeout, t1, t2, group, xs + ys, model),
        no_deadline_between(m, recovery_timeout, t2, t3, group, xs + ys, model),
    ensures
        ({
            let m1 = checked_all(m, provider_keys(group, xs + ys, model), recovery_timeout, t1);
            let m2 = checked_all(m1, provider_keys(group, xs, model), recovery_timeout, t2);
            healthy_names(m, recovery_timeout, t1, group, xs + ys, model) == healthy_names(m1, recovery_timeout, t2, group, xs, model)
                + healthy_names(m2, recovery_timeout, t3, group, ys, model)
        }),
{
    let m1 = checked_all(m, provider_keys(group, xs + ys, model), recovery_timeout, t1);
    assert forall|n: Seq<char>| xs.contains(n) implies (xs + ys).contains(n) by {
        let j = choose|j: int| 0 <= j < xs.len() && xs[j] == n;
        assert((xs + ys)[j] == n);
    }
    assert forall|n: Seq<char>| ys.contains(n) implies (xs + ys).contains(n) by {
        let j = choose|j: int| 0 <= j < ys.len() && ys[j] == n;
        assert((xs + ys)[xs.len() + j] == n);
    }
    assert(no_deadline_between(m, recovery_timeout, t1, t2, group, xs, model));
    assert(no_deadline_between(m, recovery_timeout, t1, t2, group, ys, model));
    assert(no_deadline_between(m, recovery_timeout, t2, t3, group, ys, model));
    law_healthy_names_concat(m, recovery_timeout, t1, group, xs, ys, model);
    law_healthy_names_across(m, provider_keys(group, xs + ys, model), recovery_timeout, t1, t2, group, xs, model);
    lemma_no_deadline_after_checks(m, provider_keys(group, xs + ys, model), recovery_timeout, t1, t2, t3, group, ys, model);
    law_healthy_names_across(m1, provider_keys(group, xs, model), recovery_timeout, t2, t3, group, ys, model);
    law_healthy_names_across(m, provider_keys(group, xs + ys, model), recovery_timeout, t1, t2, group, ys, model);
}

/// Asking again, later, about the names a health query found healthy finds
/// them all healthy, as long as no record comes in between and no recovery
/// deadline of the names passes between the two instants.
pub proof fn law_healthy_queries_idempotent(
    m: Map<KeyView, ProviderHealth>,
    recovery_timeout: u64,
    t1: u128,
    t2: u128,
    group: Seq<char>,
    xs: Seq<Seq<char>>,
    model: Seq<char>,
)
    requires
        no_deadline_between(m, recovery_timeout, t1, t2, group, xs, model),
    ensures
        ({
            let q = healthy_names(m, recovery_timeout, t1, group, xs, model);
            let m1 = checked_all(m, provider_keys(group, xs, model), recovery_timeout, t1);
            healthy_names(m1, recovery_timeout, t2, group, q, model) == q
        }),
{
    let pred = |n: Seq<char>| healthy_at(lookup(m, (group, n, model)), recovery_timeout, t1);
    let q = healthy_names(m, recovery_timeout, t1, group, xs, model);
    lemma_filter_within(xs, pred);
    assert forall|n: Seq<char>| q.contains(n) implies recovered(#[trigger] lookup(m, (group, n, model)), recovery_timeout, t1)
        == recovered(lookup(m, (group, n, model)), recovery_timeout, t2) by {
        assert(xs.filter(pred).contains(n));
    }
    law_healthy_names_across(m, provider_keys(group, xs, model), recovery_timeout, t1, t2, group, q, model);
    law_healthy_names_idempotent(m, recovery_timeout, t1, group, xs, model);
}

} // verus!
