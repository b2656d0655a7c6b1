//! Priority failover.
//!
//! A request names a group.  Its providers are tried in ascending priority
//! (configuration order among equal priorities).  A provider with configured
//! models is used with the first of its models that passes a health check; a
//! provider whose models all fail the check is skipped; a provider without
//! models is used with the group name as model and without a check.  The
//! network call itself is made by the caller, which reports the outcome back:
//! a success ends the request, a failure is recorded and routing goes on.

use crate::config::{group_names_distinct, law_group_unique, default_failure_threshold, default_recovery_timeout, Config, GroupConfig, ProviderConfig};
use crate::error::RouterError;
use crate::health::{consistent, elapsed, failures_to_trip, group_in_use, recovered, timeout_nanos, refreshed, setting_for, checked_all, healthy_at, lookup, after_failure, after_success, HealthTracker, KeyView, ProviderHealth};
use crate::text::copy_str;
use vstd::prelude::*;

verus! {

/// Index `j` occurs in `perm`.
pub open spec fn lists_index(perm: Seq<int>, j: int) -> bool {
    exists|k: int| 0 <= k < perm.len() && #[trigger] perm[k] == j
}

/// `perm` lists indices of `orig` sorted by `(priority, index)`, each index once.
pub open spec fn priority_permutation(orig: Seq<ProviderConfig>, perm: Seq<int>) -> bool {
    &&& perm.len() == orig.len()
    &&& forall|i: int| 0 <= i < perm.len() ==> 0 <= #[trigger] perm[i] < orig.len()
    &&& forall|j: int| 0 <= j < orig.len() ==> #[trigger] lists_index(perm, j)
    &&& forall|i: int, j: int|
        0 <= i < j < perm.len() ==> (orig[perm[i]].priority < orig[perm[j]].priority || (
        orig[perm[i]].priority == orig[perm[j]].priority && perm[i] < perm[j]))
}

/// `sorted` holds the providers of `orig` in ascending priority, keeping the
/// order of `orig` among equal priorities (a stable sort by priority).
pub open spec fn in_priority_order(orig: Seq<ProviderConfig>, sorted: Seq<ProviderConfig>) -> bool {
    exists|perm: Seq<int>|
        #[trigger] priority_permutation(orig, perm) && sorted.len() == orig.len() && forall|i: int|
            0 <= i < sorted.len() ==> sorted[i] == orig[perm[i]]
}

/// The route of one request: its group, the group's providers in the order
/// in which they are tried, and whether the response is streamed.
pub struct RoutePlan {
    pub group: String,
    pub providers: Vec<ProviderConfig>,
    pub streaming: bool,
}

impl RoutePlan {
    /// Orders `providers` for the request with model `group`; `stream` is the
    /// request's `stream` flag, absent meaning no streaming.
    pub fn new(group: &str, providers: Vec<ProviderConfig>, stream: Option<bool>) -> (p: Self)
        ensures
            p.group@ == group@,
            p.streaming == (stream == Some(true)),
            in_priority_order(providers@, p.providers@),
    {
        let ghost orig = providers@;
        let n = providers.len();
        let mut rest = providers;
        let mut sorted: Vec<ProviderConfig> = Vec::new();
        let ghost mut perm: Seq<int> = Seq::empty();
        let ghost mut inv: Seq<int> = Seq::empty();
        let mut i: usize = 0;
        while rest.len() > 0
            invariant
                i <= n == orig.len(),
                rest@ == orig.subrange(i as int, n as int),
                sorted@.len() == i,
                perm.len() == i,
                inv.len() == i,
                forall|k: int| 0 <= k < i ==> 0 <= #[trigger] perm[k] < i,
                forall|j: int| 0 <= j < i ==> 0 <= #[trigger] inv[j] < i && perm[inv[j]] == j,
                forall|a: int, b: int|
                    0 <= a < b < i ==> (orig[perm[a]].priority < orig[perm[b]].priority || (
                    orig[perm[a]].priority == orig[perm[b]].priority && perm[a] < perm[b])),
                forall|k: int| 0 <= k < i ==> sorted@[k] == orig[#[trigger] perm[k]],
            decreases rest@.len(),
        {
            let p = rest.remove(0);
            assert(p == orig[i as int]);
            let mut pos: usize = 0;
            while pos < sorted.len() && sorted[pos].priority <= p.priority
                invariant
                    pos <= sorted@.len(),
                    forall|k: int| 0 <= k < pos ==> sorted@[k].priority <= p.priority,
                decreases sorted@.len() - pos,
            {
                pos += 1;
            }
            assert forall|k: int| pos <= k < sorted@.len() implies sorted@[k].priority > p.priority by {
                if k > pos {
                    assert(orig[perm[pos as int]].priority <= orig[perm[k]].priority);
                }
            }
            sorted.insert(pos, p);
            proof {
                let old_perm = perm;
                let old_inv = inv;
                perm = perm.insert(pos as int, i as int);
                inv = Seq::new((i + 1) as nat, |j: int| if j == i { pos as int } else if old_inv[j] < pos { old_inv[j] } else { old_inv[j] + 1 });
                assert forall|j: int| 0 <= j < i + 1 implies 0 <= #[trigger] inv[j] < i + 1 && perm[inv[j]] == j by {
                    if j < i {
                        if old_inv[j] < pos {
                            assert(perm[old_inv[j]] == old_perm[old_inv[j]]);
                        } else {
                            assert(perm[old_inv[j] + 1] == old_perm[old_inv[j]]);
                        }
                    }
                }
                assert forall|k: int| 0 <= k < i + 1 implies 0 <= #[trigger] perm[k] < i + 1 by {
                    if k < pos {
                        assert(perm[k] == old_perm[k]);
                    } else if k > pos {
                        assert(perm[k] == old_perm[k - 1]);
                    }
                }
                assert forall|k: int| 0 <= k < i + 1 implies sorted@[k] == orig[#[trigger] perm[k]] by {
                    if k < pos {
                        assert(perm[k] == old_perm[k]);
                    } else if k > pos {
                        assert(perm[k] == old_perm[k - 1]);
                    }
                }
                assert forall|a: int, b: int| 0 <= a < b < i + 1 implies (orig[perm[a]].priority
                    < orig[perm[b]].priority || (orig[perm[a]].priority == orig[perm[b]].priority
                    && perm[a] < perm[b])) by {
                    if b < pos {
                        assert(perm[a] == old_perm[a] && perm[b] == old_perm[b]);
                    } else if b == pos {
                        assert(perm[a] == old_perm[a]);
                        assert(sorted@[a] == orig[perm[a]]);
                    } else if a < pos {
                        assert(perm[a] == old_perm[a] && perm[b] == old_perm[b - 1]);
                    } else if a == pos {
                        assert(perm[b] == old_perm[b - 1]);
                        assert(sorted@[b] == orig[perm[b]]);
                    } else {
                        assert(perm[a] == old_perm[a - 1] && perm[b] == old_perm[b - 1]);
                    }
                }
            }
            i += 1;
        }
        let streaming = match stream {
            Some(b) => b,
            None => false,
        };
        let plan = RoutePlan { group: copy_str(group), providers: sorted, streaming };
        assert forall|j: int| 0 <= j < orig.len() implies #[trigger] lists_index(perm, j) by {
            assert(perm[inv[j]] == j);
        }
        assert(priority_permutation(orig, perm));
        plan
    }
}

/// One try: the provider at `position` of the plan, reached through the
/// implementation at index `implementation` of the available ones, asked for `model`.
pub struct Attempt {
    pub position: usize,
    pub implementation: usize,
    pub model: String,
}

/// The health key of model `j` of provider `p` in group `g`.
pub open spec fn model_key(g: Seq<char>, p: ProviderConfig, j: int) -> KeyView {
    (g, p.name@, p.models@[j]@)
}

/// Model `j` of `p` passes a health check at `now`.
pub open spec fn model_passes(
    m: Map<KeyView, ProviderHealth>,
    timeout: u64,
    now: u128,
    g: Seq<char>,
    p: ProviderConfig,
    j: int,
) -> bool {
    healthy_at(lookup(m, model_key(g, p, j)), timeout, now)
}

/// Model `j` is the first of `p`'s models to pass.
pub open spec fn first_passing(
    m: Map<KeyView, ProviderHealth>,
    timeout: u64,
    now: u128,
    g: Seq<char>,
    p: ProviderConfig,
    j: int,
) -> bool {
    &&& 0 <= j < p.models@.len()
    &&& model_passes(m, timeout, now, g, p, j)
    &&& forall|k: int| 0 <= k < j ==> !#[trigger] model_passes(m, timeout, now, g, p, k)
}

/// `p` can be tried: it has no models, or one of them passes.
pub open spec fn usable(m: Map<KeyView, ProviderHealth>, timeout: u64, now: u128, g: Seq<char>, p: ProviderConfig) -> bool {
    p.models@.len() == 0 || exists|j: int| 0 <= j < p.models@.len() && #[trigger] model_passes(m, timeout, now, g, p, j)
}

/// The keys of the first `count` models of `p`.
pub open spec fn model_keys(g: Seq<char>, p: ProviderConfig, count: int) -> Seq<KeyView> {
    Seq::new(count as nat, |j: int| model_key(g, p, j))
}

/// The keys of all models of the providers at positions `from..to`, in order.
pub open spec fn scan_keys(g: Seq<char>, ps: Seq<ProviderConfig>, from: int, to: int) -> Seq<KeyView>
    decreases to - from,
{
    if to <= from {
        Seq::empty()
    } else {
        scan_keys(g, ps, from, to - 1) + model_keys(g, ps[to - 1], ps[to - 1].models@.len() as int)
    }
}

/// Position `pos` holds the first provider from `start` on that can be tried.
pub open spec fn first_usable(
    m: Map<KeyView, ProviderHealth>,
    timeout: u64,
    now: u128,
    g: Seq<char>,
    ps: Seq<ProviderConfig>,
    start: int,
    pos: int,
) -> bool {
    &&& start <= pos < ps.len()
    &&& usable(m, timeout, now, g, ps[pos])
    &&& forall|q: int| start <= q < pos ==> !#[trigger] usable(m, timeout, now, g, ps[q])
}

/// Routing from `start` settles on position `pos` and `model`, and the
/// health checks made on the way leave the tracker's map at `after`.
pub open spec fn selects(
    m: Map<KeyView, ProviderHealth>,
    timeout: u64,
    now: u128,
    g: Seq<char>,
    ps: Seq<ProviderConfig>,
    start: int,
    pos: int,
    model: Seq<char>,
    after: Map<KeyView, ProviderHealth>,
) -> bool {
    &&& first_usable(m, timeout, now, g, ps, start, pos)
    &&& if ps[pos].models@.len() == 0 {
        model == g && after == checked_all(m, scan_keys(g, ps, start, pos), timeout, now)
    } else {
        exists|j: int|
            #[trigger] first_passing(m, timeout, now, g, ps[pos], j) && model == ps[pos].models@[j]@
                && after == checked_all(
                m,
                scan_keys(g, ps, start, pos) + model_keys(g, ps[pos], j + 1),
                timeout,
                now,
            )
    }
}

/// Checks one after the other extend the list of checked keys.
pub proof fn lemma_checked_concat(
    m: Map<KeyView, ProviderHealth>,
    a: Seq<KeyView>,
    b: Seq<KeyView>,
    timeout: u64,
    now: u128,
)
    ensures
        checked_all(checked_all(m, a, timeout, now), b, timeout, now) == checked_all(m, a + b, timeout, now),
    decreases b.len(),
{
    if b.len() == 0 {
        assert(a + b == a);
    } else {
        lemma_checked_concat(m, a, b.drop_last(), timeout, now);
        assert((a + b).drop_last() == a + b.drop_last());
        assert((a + b).last() == b.last());
    }
}

/// Checks never change the answer of a later check at the same instant.
pub proof fn lemma_checks_keep_answers(
    m: Map<KeyView, ProviderHealth>,
    keys: Seq<KeyView>,
    timeout: u64,
    now: u128,
    g: Seq<char>,
    p: ProviderConfig,
)
    ensures
        forall|j: int|
            #![trigger model_passes(checked_all(m, keys, timeout, now), timeout, now, g, p, j)]
            #![trigger model_passes(m, timeout, now, g, p, j)]
            model_passes(checked_all(m, keys, timeout, now), timeout, now, g, p, j) == model_passes(m, timeout, now, g, p, j),
{
    assert forall|j: int| #[trigger] model_passes(checked_all(m, keys, timeout, now), timeout, now, g, p, j) == model_passes(m, timeout, now, g, p, j) by {
        crate::health::lemma_checked_lookup(m, keys, model_key(g, p, j), timeout, now);
        crate::health::lemma_refresh_stable(lookup(m, model_key(g, p, j)), timeout, now);
    }
}

/// Index of the first available implementation called `name`.
pub fn find_implementation(available: &Vec<String>, name: &String) -> (r: Option<usize>)
    ensures
        r matches Some(i) ==> i < available@.len() && available@[i as int]@ == name@ && forall|k: int|
            0 <= k < i ==> available@[k]@ != name@,
        r is None ==> forall|k: int| 0 <= k < available@.len() ==> available@[k]@ != name@,
{
    let mut i: usize = 0;
    while i < available.len()
        invariant
            i <= available@.len(),
            forall|k: int| 0 <= k < i ==> available@[k]@ != name@,
        decreases available@.len() - i,
    {
        if available[i] == *name {
            return Some(i);
        }
        i += 1;
    }
    None
}

/// The health key of an attempt: the plan's group, the provider's name, the model.
pub open spec fn attempt_key(plan: &RoutePlan, attempt: &Attempt) -> KeyView {
    (plan.group@, plan.providers@[attempt.position as int].name@, attempt.model@)
}

/// What `next_attempt_at` guarantees of a result `r` for checks at `now`,
/// leaving the tracker's map at `after`.
pub open spec fn attempt_outcome(
    m: Map<KeyView, ProviderHealth>,
    timeout: u64,
    now: u128,
    plan: &RoutePlan,
    available: Seq<String>,
    start: int,
    r: Result<Attempt, RouterError>,
    after: Map<KeyView, ProviderHealth>,
) -> bool {
    match r {
        Ok(a) => {
            &&& selects(m, timeout, now, plan.group@, plan.providers@, start, a.position as int, a.model@, after)
            &&& a.implementation < available.len()
            &&& available[a.implementation as int]@ == plan.providers@[a.position as int].name@
            &&& forall|k: int| 0 <= k < a.implementation ==> available[k]@ != plan.providers@[a.position as int].name@
        },
        Err(RouterError::AllProvidersFailed) => {
            &&& forall|q: int| start <= q < plan.providers@.len() ==> !#[trigger] usable(m, timeout, now, plan.group@, plan.providers@[q])
            &&& after == checked_all(m, scan_keys(plan.group@, plan.providers@, start, plan.providers@.len() as int), timeout, now)
        },
        Err(RouterError::ProviderNotFound(name)) => exists|pos: int, model: Seq<char>|
            #[trigger] selects(m, timeout, now, plan.group@, plan.providers@, start, pos, model, after)
                && name@ == plan.providers@[pos].name@
                && forall|k: int| 0 <= k < available.len() ==> available[k]@ != name@,
        Err(_) => false,
    }
}

/// A provider without models is always tried, with no health check: when
/// routing from `start` reaches such a provider first and an implementation
/// of it is available, the attempt goes to it, asks for the group's name as
/// the model, and leaves the tracker's records as they were, whatever they say.
pub proof fn law_modelless_provider_tried(
    m: Map<KeyView, ProviderHealth>,
    timeout: u64,
    now: u128,
    plan: RoutePlan,
    available: Seq<String>,
    start: int,
    r: Result<Attempt, RouterError>,
    after: Map<KeyView, ProviderHealth>,
)
    requires
        attempt_outcome(m, timeout, now, &plan, available, start, r, after),
        0 <= start < plan.providers@.len(),
        plan.providers@[start].models@.len() == 0,
        exists|k: int| 0 <= k < available.len() && #[trigger] available[k]@ == plan.providers@[start].name@,
    ensures
        r matches Ok(a) && a.position == start && a.model@ == plan.group@
            && available[a.implementation as int]@ == plan.providers@[start].name@,
        after == m,
{
    let g = plan.group@;
    let ps = plan.providers@;
    assert(usable(m, timeout, now, g, ps[start]));
    assert(scan_keys(g, ps, start, start) == Seq::<KeyView>::empty());
    assert(checked_all(m, Seq::<KeyView>::empty(), timeout, now) == m);
    match r {
        Ok(a) => {
            assert(a.position as int == start);
        },
        Err(RouterError::ProviderNotFound(name)) => {
            let (pos, model) = choose|pos: int, model: Seq<char>|
                #[trigger] selects(m, timeout, now, g, ps, start, pos, model, after) && name@ == ps[pos].name@
                    && forall|k: int| 0 <= k < available.len() ==> available[k]@ != name@;
            assert(pos == start);
            let k = choose|k: int| 0 <= k < available.len() && #[trigger] available[k]@ == ps[start].name@;
            assert(available[k]@ != name@);
        },
        Err(RouterError::AllProvidersFailed) => {
            assert(!usable(m, timeout, now, g, ps[start]));
        },
        Err(_) => {},
    }
}

/// The failover settings of `groups`, in order.
pub open spec fn group_settings(groups: Seq<(String, GroupConfig)>) -> Seq<(Seq<char>, u32, u64)> {
    groups.map_values(|e: (String, GroupConfig)| (e.0@, e.1.failover.failure_threshold, e.1.failover.recovery_timeout))
}

/// Routes requests over the providers, with one health tracker for all groups.
pub struct RoutingEngine {
    health_tracker: HealthTracker,
}

impl RoutingEngine {
    /// The engine's health tracker.
    pub closed spec fn tracker(&self) -> HealthTracker {
        self.health_tracker
    }

    pub fn new(health_tracker: HealthTracker) -> (e: Self)
        ensures
            e.tracker() == health_tracker,
    {
        RoutingEngine { health_tracker }
    }

    /// An engine for `config`: each group fails over by its own settings;
    /// other groups use a threshold of 3 failures and a timeout of 60 seconds.
    pub fn from_config(config: &Config) -> (e: Self)
        ensures
            e.tracker()@ == Map::<KeyView, ProviderHealth>::empty(),
            e.tracker().settings() == (group_settings(config.groups@), 3u32, 60u64),
            e.tracker().is_sound(),
    {
        let mut tracker = HealthTracker::new(default_failure_threshold(), default_recovery_timeout());
        let mut i: usize = 0;
        while i < config.groups.len()
            invariant
                i <= config.groups@.len(),
                tracker@ == Map::<KeyView, ProviderHealth>::empty(),
                tracker.is_sound(),
                tracker.settings() == (group_settings(config.groups@.take(i as int)), 3u32, 60u64),
            decreases config.groups@.len() - i,
        {
            let (name, group) = (&config.groups[i].0, &config.groups[i].1);
            assert(!group_in_use(tracker@, name@));
            tracker.add_group_failover(name.as_str(), group.failover.failure_threshold, group.failover.recovery_timeout);
            assert(group_settings(config.groups@.take(i + 1)) =~= group_settings(config.groups@.take(i as int)).push((name@, group.failover.failure_threshold, group.failover.recovery_timeout)));
            i += 1;
        }
        assert(config.groups@.take(config.groups@.len() as int) == config.groups@);
        RoutingEngine { health_tracker: tracker }
    }

    pub fn health_tracker(&self) -> (t: &HealthTracker)
        ensures
            *t == self.tracker(),
    {
        &self.health_tracker
    }

    pub fn health_tracker_mut(&mut self) -> (t: &mut HealthTracker)
        ensures
            *t == old(self).tracker(),
            final(self).tracker() == *final(t),
    {
        &mut self.health_tracker
    }

    /// The first of `p`'s models that passes a health check at `now`.
    fn first_healthy_model(&mut self, g: &str, p: &ProviderConfig, now: u128) -> (r: Option<String>)
        ensures
            old(self).tracker().is_sound(),
            final(self).tracker().is_sound(),
            final(self).tracker().settings() == old(self).tracker().settings(),
            match r {
                Some(model) => exists|j: int|
                    #[trigger] first_passing(old(self).tracker()@, old(self).tracker().timeout_for(g@), now, g@, *p, j)
                        && model@ == p.models@[j]@ && final(self).tracker()@ == checked_all(
                        old(self).tracker()@,
                        model_keys(g@, *p, j + 1),
                        old(self).tracker().timeout_for(g@),
                        now,
                    ),
                None => {
                    &&& forall|j: int| 0 <= j < p.models@.len() ==> !#[trigger] model_passes(old(self).tracker()@, old(self).tracker().timeout_for(g@), now, g@, *p, j)
                    &&& final(self).tracker()@ == checked_all(
                        old(self).tracker()@,
                        model_keys(g@, *p, p.models@.len() as int),
                        old(self).tracker().timeout_for(g@),
                        now,
                    )
                },
            },
    {
        let ghost m0 = self.health_tracker@;
        let ghost timeout = self.health_tracker.timeout_for(g@);
        proof {
            use_type_invariant(&self.health_tracker);
            self.health_tracker.lemma_sound();
        }
        let mut j: usize = 0;
        while j < p.models.len()
            invariant
                j <= p.models@.len(),
                old(self).tracker().is_sound(),
                self.health_tracker.is_sound(),
                self.health_tracker.settings() == old(self).tracker().settings(),
                timeout == old(self).tracker().timeout_for(g@),
                m0 == old(self).tracker()@,
                self.health_tracker@ == checked_all(m0, model_keys(g@, *p, j as int), timeout, now),
                forall|k: int| 0 <= k < j ==> !#[trigger] model_passes(m0, timeout, now, g@, *p, k),
            decreases p.models@.len() - j,
        {
            proof {
                lemma_checks_keep_answers(m0, model_keys(g@, *p, j as int), timeout, now, g@, *p);
                assert(model_passes(self.health_tracker@, timeout, now, g@, *p, j as int) == model_passes(m0, timeout, now, g@, *p, j as int));
            }
            let ok = self.health_tracker.is_healthy_at(g, p.name.as_str(), p.models[j].as_str(), now);
            assert(model_keys(g@, *p, j + 1).drop_last() == model_keys(g@, *p, j as int));
            assert(model_keys(g@, *p, j + 1).last() == model_key(g@, *p, j as int));
            if ok {
                let model = p.models[j].clone();
                assert(first_passing(m0, timeout, now, g@, *p, j as int));
                return Some(model);
            }
            j += 1;
        }
        None
    }

    /// Chooses the next try of `plan`, from position `start` on, with health
    /// checks at `now`.  Fails with `AllProvidersFailed` when no provider from
    /// `start` on can be tried, and with `ProviderNotFound` when the chosen
    /// provider has no implementation among `available`.
    pub fn next_attempt_at(&mut self, plan: &RoutePlan, available: &Vec<String>, start: usize, now: u128) -> (r: Result<Attempt, RouterError>)
        ensures
            old(self).tracker().is_sound(),
            final(self).tracker().is_sound(),
            final(self).tracker().settings() == old(self).tracker().settings(),
            attempt_outcome(old(self).tracker()@, old(self).tracker().timeout_for(plan.group@), now, plan, available@, start as int, r, final(self).tracker()@),
    {
        let ghost m0 = self.health_tracker@;
        let ghost timeout = self.health_tracker.timeout_for(plan.group@);
        proof {
            use_type_invariant(&self.health_tracker);
            self.health_tracker.lemma_sound();
        }
        let ghost g = plan.group@;
        let ghost ps = plan.providers@;
        let mut pos: usize = start;
        if pos > plan.providers.len() {
            pos = plan.providers.len();
        }
        assert(scan_keys(g, ps, start as int, start as int) == Seq::<KeyView>::empty());
        while pos < plan.providers.len()
            invariant
                pos <= plan.providers@.len(),
                old(self).tracker().is_sound(),
                self.health_tracker.is_sound(),
                start <= pos || pos == plan.providers@.len(),
                start <= pos ==> self.health_tracker@ == checked_all(m0, scan_keys(g, ps, start as int, pos as int), timeout, now),
                start > pos ==> self.health_tracker@ == m0,
                g == plan.group@,
                ps == plan.providers@,
                m0 == old(self).tracker()@,
                timeout == old(self).tracker().timeout_for(plan.group@),
                self.health_tracker.settings() == old(self).tracker().settings(),
                forall|q: int| start <= q < pos ==> !#[trigger] usable(m0, timeout, now, g, ps[q]),
            decreases plan.providers@.len() - pos,
        {
            let p = &plan.providers[pos];
            let ghost before = self.health_tracker@;
            let ghost sk = scan_keys(g, ps, start as int, pos as int);
            proof {
                lemma_checks_keep_answers(m0, sk, timeout, now, g, *p);
            }
            let chosen: Option<String> = if p.models.len() == 0 {
                Some(copy_str(plan.group.as_str()))
            } else {
                let c = self.first_healthy_model(plan.group.as_str(), p, now);
                proof {
                    lemma_checked_concat(m0, sk, model_keys(g, *p, p.models@.len() as int), timeout, now);
                    match c {
                        Some(_) => {
                            let j = choose|j: int| #[trigger] first_passing(before, timeout, now, g, *p, j)
                                && self.health_tracker@ == checked_all(before, model_keys(g, *p, j + 1), timeout, now);
                            lemma_checked_concat(m0, sk, model_keys(g, *p, j + 1), timeout, now);
                            assert(first_passing(m0, timeout, now, g, *p, j));
                        },
                        None => {
                            assert forall|j: int| 0 <= j < p.models@.len() implies !#[trigger] model_passes(m0, timeout, now, g, *p, j) by {
                                assert(!model_passes(before, timeout, now, g, *p, j));
                            }
                        },
                    }
                }
                c
            };
            match chosen {
                Some(model) => {
                    let found = find_implementation(available, &p.name);
                    proof {
                        if p.models@.len() != 0 {
                            let j = choose|j: int| #[trigger] first_passing(before, timeout, now, g, *p, j) && model@ == p.models@[j]@;
                            assert(first_passing(m0, timeout, now, g, *p, j));
                            assert(model_passes(m0, timeout, now, g, *p, j));
                        }
                        assert(selects(m0, timeout, now, g, ps, start as int, pos as int, model@, self.health_tracker@));
                    }
                    match found {
                        Some(implementation) => {
                            return Ok(Attempt { position: pos, implementation, model });
                        },
                        None => {
                            return Err(RouterError::ProviderNotFound(p.name.clone()));
                        },
                    }
                },
                None => {
                    assert(scan_keys(g, ps, start as int, pos + 1) == sk + model_keys(g, ps[pos as int], ps[pos as int].models@.len() as int));
                },
            }
            pos += 1;
        }
        Err(RouterError::AllProvidersFailed)
    }

    /// `next_attempt_at` with health checks now.
    pub fn next_attempt(&mut self, plan: &RoutePlan, available: &Vec<String>, start: usize) -> (r: Result<Attempt, RouterError>)
        ensures
            old(self).tracker().is_sound(),
            final(self).tracker().is_sound(),
            final(self).tracker().settings() == old(self).tracker().settings(),
            exists|now: u128| #[trigger] attempt_outcome(old(self).tracker()@, old(self).tracker().timeout_for(plan.group@), now, plan, available@, start as int, r, final(self).tracker()@),
    {
        let now = self.health_tracker.now();
        self.next_attempt_at(plan, available, start, now)
    }

    /// Reports that `attempt` succeeded.
    pub fn attempt_succeeded(&mut self, plan: &RoutePlan, attempt: &Attempt)
        requires
            attempt.position < plan.providers@.len(),
        ensures
            old(self).tracker().is_sound(),
            final(self).tracker().is_sound(),
            final(self).tracker().settings() == old(self).tracker().settings(),
            final(self).tracker()@ == old(self).tracker()@.insert(
                attempt_key(plan, attempt),
                after_success(lookup(old(self).tracker()@, attempt_key(plan, attempt))),
            ),
    {
        let p = &plan.providers[attempt.position];
        self.health_tracker.record_success(plan.group.as_str(), p.name.as_str(), attempt.model.as_str());
    }

    /// Reports that `attempt` failed at `now`, and gives the position from
    /// which routing goes on: a streamed request, or a provider without models,
    /// moves on to the next provider; otherwise the same provider is tried
    /// again, with the first of its models that still passes.
    pub fn attempt_failed_at(&mut self, plan: &RoutePlan, attempt: &Attempt, now: u128) -> (next: usize)
        requires
            attempt.position < plan.providers@.len(),
        ensures
            old(self).tracker().is_sound(),
            final(self).tracker().is_sound(),
            final(self).tracker().settings() == old(self).tracker().settings(),
            final(self).tracker()@ == old(self).tracker()@.insert(
                attempt_key(plan, attempt),
                after_failure(lookup(old(self).tracker()@, attempt_key(plan, attempt)), old(self).tracker().threshold_for(plan.group@), now),
            ),
            next == if plan.streaming || plan.providers@[attempt.position as int].models@.len() == 0 {
                attempt.position + 1
            } else {
                attempt.position as int
            },
    {
        let p = &plan.providers[attempt.position];
        self.health_tracker.record_failure_at(plan.group.as_str(), p.name.as_str(), attempt.model.as_str(), now);
        let n = plan.providers.len();
        assert(attempt.position < n);
        if plan.streaming || p.models.len() == 0 {
            attempt.position + 1
        } else {
            attempt.position
        }
    }

    /// `attempt_failed_at` with the failure time read now.
    pub fn attempt_failed(&mut self, plan: &RoutePlan, attempt: &Attempt) -> (next: usize)
        requires
            attempt.position < plan.providers@.len(),
        ensures
            old(self).tracker().is_sound(),
            final(self).tracker().is_sound(),
            final(self).tracker().settings() == old(self).tracker().settings(),
            exists|now: u128|
                final(self).tracker()@ == old(self).tracker()@.insert(
                    attempt_key(plan, attempt),
                    #[trigger] after_failure(lookup(old(self).tracker()@, attempt_key(plan, attempt)), old(self).tracker().threshold_for(plan.group@), now),
                ),
            next == if plan.streaming || plan.providers@[attempt.position as int].models@.len() == 0 {
                attempt.position + 1
            } else {
                attempt.position as int
            },
    {
        let now = self.health_tracker.now();
        self.attempt_failed_at(plan, attempt, now)
    }
}

/// `x` occurs in `s`.
pub open spec fn occurs_in(s: Seq<ProviderConfig>, x: ProviderConfig) -> bool {
    exists|k: int| 0 <= k < s.len() && s[k] == x
}

/// Providers are tried in ascending priority: along a plan, priorities never
/// decrease, and every configured provider is in the plan.
pub proof fn law_priority_ascending(orig: Seq<ProviderConfig>, sorted: Seq<ProviderConfig>)
    requires
        in_priority_order(orig, sorted),
    ensures
        sorted.len() == orig.len(),
        forall|a: int, b: int| 0 <= a < b < sorted.len() ==> #[trigger] sorted[a].priority <= #[trigger] sorted[b].priority,
        forall|j: int| 0 <= j < orig.len() ==> #[trigger] occurs_in(sorted, orig[j]),
{
    let perm = choose|perm: Seq<int>|
        #[trigger] priority_permutation(orig, perm) && sorted.len() == orig.len() && forall|i: int|
            0 <= i < sorted.len() ==> sorted[i] == orig[perm[i]];
    assert(priority_permutation(orig, perm));
    assert forall|a: int, b: int| 0 <= a < b < sorted.len() implies #[trigger] sorted[a].priority <= #[trigger] sorted[b].priority by {
        assert(sorted[a] == orig[perm[a]] && sorted[b] == orig[perm[b]]);
    }
    assert forall|j: int| 0 <= j < orig.len() implies #[trigger] occurs_in(sorted, orig[j]) by {
        assert(lists_index(perm, j));
        let k = choose|k: int| 0 <= k < perm.len() && #[trigger] perm[k] == j;
        assert(sorted[k] == orig[perm[k]]);
    }
}

/// The first try of a request goes to a provider of the best priority that
/// can be tried: every configured provider of strictly better priority was
/// found unusable.  (`selects` from position 0 implies `first_usable`.)
pub proof fn law_first_try_best_priority(
    orig: Seq<ProviderConfig>,
    sorted: Seq<ProviderConfig>,
    m: Map<KeyView, ProviderHealth>,
    timeout: u64,
    now: u128,
    g: Seq<char>,
    pos: int,
)
    requires
        in_priority_order(orig, sorted),
        first_usable(m, timeout, now, g, sorted, 0, pos),
    ensures
        forall|j: int| 0 <= j < orig.len() && #[trigger] orig[j].priority < sorted[pos].priority ==> !usable(m, timeout, now, g, orig[j]),
{
    law_priority_ascending(orig, sorted);
    assert forall|j: int| 0 <= j < orig.len() && #[trigger] orig[j].priority < sorted[pos].priority implies !usable(m, timeout, now, g, orig[j]) by {
        assert(occurs_in(sorted, orig[j]));
        let k = choose|k: int| 0 <= k < sorted.len() && sorted[k] == orig[j];
        if k > pos {
            assert(sorted[pos].priority <= sorted[k].priority);
        } else if k < pos {
            assert(!usable(m, timeout, now, g, sorted[k]));
        }
    }
}

/// Each group fails over by its own settings: for the first group of a
/// configuration with a given name, the engine made from that configuration
/// uses that group's threshold and timeout.
pub proof fn law_group_failover(groups: Seq<(String, GroupConfig)>, i: int, default: (u32, u64))
    requires
        0 <= i < groups.len(),
        forall|j: int| 0 <= j < i ==> #[trigger] groups[j].0@ != groups[i].0@,
    ensures
        setting_for(group_settings(groups), groups[i].0@, default) == (
            groups[i].1.failover.failure_threshold,
            groups[i].1.failover.recovery_timeout,
        ),
    decreases i,
{
    let gs = group_settings(groups);
    if i > 0 {
        let rest = groups.subrange(1, groups.len() as int);
        assert forall|j: int| 0 <= j < i - 1 implies #[trigger] rest[j].0@ != rest[i - 1].0@ by {
            assert(rest[j] == groups[j + 1]);
            assert(groups[j + 1].0@ != groups[i].0@);
        }
        law_group_failover(rest, i - 1, default);
        assert(gs.subrange(1, gs.len() as int) =~= group_settings(rest));
        assert(groups[0].0@ != groups[i].0@);
    }
}

/// With distinct group names, every group of a configuration fails over by
/// its own threshold and timeout in the engine made from it.
pub proof fn law_distinct_groups_failover(groups: Seq<(String, GroupConfig)>, i: int, default: (u32, u64))
    requires
        group_names_distinct(groups),
        0 <= i < groups.len(),
    ensures
        setting_for(group_settings(groups), groups[i].0@, default) == (
            groups[i].1.failover.failure_threshold,
            groups[i].1.failover.recovery_timeout,
        ),
{
    law_group_unique(groups, i);
    assert forall|j: int| 0 <= j < i implies #[trigger] groups[j].0@ != groups[i].0@ by {
        if groups[j].0@ == groups[i].0@ {
            assert(j == i);
        }
    }
    law_group_failover(groups, i, default);
}

/// Failures that model `j` of `p` can still take at `now` before it stops
/// passing health checks: none once it does not pass.
pub open spec fn model_budget(
    m: Map<KeyView, ProviderHealth>,
    failure_threshold: u32,
    timeout: u64,
    now: u128,
    g: Seq<char>,
    p: ProviderConfig,
    j: int,
) -> int {
    let r = refreshed(lookup(m, model_key(g, p, j)), timeout, now);
    if r.is_healthy {
        failures_to_trip(failure_threshold) - r.failure_count
    } else {
        0
    }
}

/// The budgets of the first `n` models of `p`, summed.
pub open spec fn provider_budget(
    m: Map<KeyView, ProviderHealth>,
    failure_threshold: u32,
    timeout: u64,
    now: u128,
    g: Seq<char>,
    p: ProviderConfig,
    n: int,
) -> int
    decreases n,
{
    if n <= 0 {
        0
    } else {
        provider_budget(m, failure_threshold, timeout, now, g, p, n - 1) + model_budget(m, failure_threshold, timeout, now, g, p, n - 1)
    }
}

proof fn lemma_budget_bounds(
    m: Map<KeyView, ProviderHealth>,
    failure_threshold: u32,
    timeout: u64,
    now: u128,
    g: Seq<char>,
    p: ProviderConfig,
    n: int,
)
    requires
        forall|i: int| 0 <= i < n ==> #[trigger] consistent(lookup(m, model_key(g, p, i)), failure_threshold),
    ensures
        0 <= provider_budget(m, failure_threshold, timeout, now, g, p, n) <= (if n < 0 { 0 } else { n }) * failures_to_trip(failure_threshold),
    decreases n,
{
    if n > 0 {
        lemma_budget_bounds(m, failure_threshold, timeout, now, g, p, n - 1);
        assert(consistent(lookup(m, model_key(g, p, n - 1)), failure_threshold));
        assert(n * failures_to_trip(failure_threshold) == (n - 1) * failures_to_trip(failure_threshold) + failures_to_trip(failure_threshold)) by (nonlinear_arith);
    }
}

/// No recovery deadline of `p`'s model keys passes between `t1` and `t2`:
/// each counts as recovered at both instants or at neither.
pub open spec fn no_model_deadline_between(
    m: Map<KeyView, ProviderHealth>,
    timeout: u64,
    t1: u128,
    t2: u128,
    g: Seq<char>,
    p: ProviderConfig,
) -> bool {
    forall|i: int|
        0 <= i < p.models@.len() ==> recovered(#[trigger] lookup(m, model_key(g, p, i)), timeout, t1) == recovered(
            lookup(m, model_key(g, p, i)),
            timeout,
            t2,
        )
}

proof fn lemma_budget_drops(
    m: Map<KeyView, ProviderHealth>,
    failure_threshold: u32,
    timeout: u64,
    t1: u128,
    tf: u128,
    t2: u128,
    g: Seq<char>,
    p: ProviderConfig,
    j: int,
    n: int,
)
    requires
        0 <= j < p.models@.len(),
        n <= p.models@.len(),
        model_passes(m, timeout, t1, g, p, j),
        refreshed(lookup(m, model_key(g, p, j)), timeout, t1) == lookup(m, model_key(g, p, j)),
        forall|i: int| 0 <= i < n ==> #[trigger] consistent(lookup(m, model_key(g, p, i)), failure_threshold),
        no_model_deadline_between(m, timeout, t1, t2, g, p),
        elapsed(tf, t2) < timeout_nanos(timeout),
    ensures
        provider_budget(
            m.insert(model_key(g, p, j), after_failure(lookup(m, model_key(g, p, j)), failure_threshold, tf)),
            failure_threshold, timeout, t2, g, p, n,
        ) <= provider_budget(m, failure_threshold, timeout, t1, g, p, n) - (if n > j { 1int } else { 0int }),
    decreases n,
{
    let k = model_key(g, p, j);
    let m2 = m.insert(k, after_failure(lookup(m, k), failure_threshold, tf));
    if n > 0 {
        lemma_budget_drops(m, failure_threshold, timeout, t1, tf, t2, g, p, j, n - 1);
        let ki = model_key(g, p, n - 1);
        if ki == k {
            assert(consistent(lookup(m, ki), failure_threshold));
            assert(model_budget(m2, failure_threshold, timeout, t2, g, p, n - 1) < model_budget(m, failure_threshold, timeout, t1, g, p, n - 1));
        } else {
            assert(lookup(m2, ki) == lookup(m, ki));
            assert(recovered(lookup(m, ki), timeout, t1) == recovered(lookup(m, ki), timeout, t2));
        }
    }
}

/// Progress of a retried provider within one request: a non-streamed
/// attempt at model `j` of `p` (the first of its models to pass the checks
/// at `t1`) fails at `tf`; at a later reading `t2`, with no recovery deadline
/// of `p`'s models passing between `t1` and `t2` and the failure less than
/// the timeout back, the provider's budget is lower than it was at `t1`.  The
/// budget never goes below zero and starts at most at
/// `models * max(1, threshold)`, so without a passing recovery deadline a
/// provider is retried at most that many times before routing moves on.
pub proof fn law_failover_progress(
    m: Map<KeyView, ProviderHealth>,
    failure_threshold: u32,
    timeout: u64,
    t1: u128,
    tf: u128,
    t2: u128,
    g: Seq<char>,
    p: ProviderConfig,
    j: int,
)
    requires
        first_passing(m, timeout, t1, g, p, j),
        refreshed(lookup(m, model_key(g, p, j)), timeout, t1) == lookup(m, model_key(g, p, j)),
        forall|i: int| 0 <= i < p.models@.len() ==> #[trigger] consistent(lookup(m, model_key(g, p, i)), failure_threshold),
        no_model_deadline_between(m, timeout, t1, t2, g, p),
        elapsed(tf, t2) < timeout_nanos(timeout),
    ensures
        ({
            let m2 = m.insert(model_key(g, p, j), after_failure(lookup(m, model_key(g, p, j)), failure_threshold, tf));
            let n = p.models@.len() as int;
            &&& 0 <= provider_budget(m2, failure_threshold, timeout, t2, g, p, n)
            &&& provider_budget(m2, failure_threshold, timeout, t2, g, p, n) < provider_budget(m, failure_threshold, timeout, t1, g, p, n)
            &&& provider_budget(m, failure_threshold, timeout, t1, g, p, n) <= n * failures_to_trip(failure_threshold)
        }),
{
    let k = model_key(g, p, j);
    let m2 = m.insert(k, after_failure(lookup(m, k), failure_threshold, tf));
    let n = p.models@.len() as int;
    lemma_budget_drops(m, failure_threshold, timeout, t1, tf, t2, g, p, j, n);
    lemma_budget_bounds(m, failure_threshold, timeout, t1, g, p, n);
    assert forall|i: int| 0 <= i < n implies #[trigger] consistent(lookup(m2, model_key(g, p, i)), failure_threshold) by {
        assert(consistent(lookup(m, model_key(g, p, i)), failure_threshold));
        assert(consistent(lookup(m, k), failure_threshold));
    }
    lemma_budget_bounds(m2, failure_threshold, timeout, t2, g, p, n);
}

/// The health checks routing makes at `t1` leave a provider's budget as it
/// was at `t1`, read at any later `t2` before which no recovery deadline of
/// its models passes.
pub proof fn law_checks_keep_budget(
    m: Map<KeyView, ProviderHealth>,
    keys: Seq<KeyView>,
    failure_threshold: u32,
    timeout: u64,
    t1: u128,
    t2: u128,
    g: Seq<char>,
    p: ProviderConfig,
    n: int,
)
    requires
        n <= p.models@.len(),
        no_model_deadline_between(m, timeout, t1, t2, g, p),
    ensures
        provider_budget(checked_all(m, keys, timeout, t1), failure_threshold, timeout, t2, g, p, n)
            == provider_budget(m, failure_threshold, timeout, t1, g, p, n),
    decreases n,
{
    if n > 0 {
        law_checks_keep_budget(m, keys, failure_threshold, timeout, t1, t2, g, p, n - 1);
        let ki = model_key(g, p, n - 1);
        crate::health::lemma_checked_lookup(m, keys, ki, timeout, t1);
        assert(recovered(lookup(m, ki), timeout, t1) == recovered(lookup(m, ki), timeout, t2));
    }
}

} // verus!
