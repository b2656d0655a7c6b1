//! The model catalogue: every model that the configured groups can serve.

use crate::config::{Config, GroupConfig, ProviderConfig};
use crate::error::RouterError;
use crate::provider::{ModelInfo, ModelsListResponse};
use crate::text::{copy_str, lemma_text_lt_irreflexive, lemma_text_lt_transitive, lemma_text_lt_trichotomy, push_str, str_eq, text_less, text_lt};
use vstd::prelude::*;

verus! {

/// A catalogue entry: model id, owning provider, root model.
pub type Entry = (Seq<char>, Seq<char>, Seq<char>);

/// The entries of provider `p` of group `g`: one per configured model, or,
/// without models, one for the group name.
pub open spec fn provider_entries(g: Seq<char>, p: ProviderConfig) -> Seq<Entry> {
    if p.models@.len() == 0 {
        seq![(g, p.name@, g)]
    } else {
        Seq::new(p.models@.len(), |j: int| (p.models@[j]@, p.name@, p.models@[j]@))
    }
}

/// The entries of the providers `ps` of group `g`, in order.
pub open spec fn group_entries(g: Seq<char>, ps: Seq<ProviderConfig>) -> Seq<Entry>
    decreases ps.len(),
{
    if ps.len() == 0 {
        Seq::empty()
    } else {
        group_entries(g, ps.drop_last()) + provider_entries(g, ps.last())
    }
}

/// The entries of all groups, in configuration order.
pub open spec fn catalogue(groups: Seq<(String, GroupConfig)>) -> Seq<Entry>
    decreases groups.len(),
{
    if groups.len() == 0 {
        Seq::empty()
    } else {
        catalogue(groups.drop_last()) + group_entries(groups.last().0@, groups.last().1.providers@)
    }
}

/// `info` describes the chat model of entry `e`, listed at time `now`.
pub open spec fn describes(info: ModelInfo, e: Entry, now: u64) -> bool {
    &&& info.id@ == e.0
    &&& info.object@ == "model"@
    &&& info.created == now
    &&& info.owned_by@ == e.1
    &&& info.model_type matches Some(t) && t@ == "chat"@
    &&& info.root matches Some(r) && r@ == e.2
    &&& info.parent is None
    &&& info.permission is None
    &&& info.context_window is None
    &&& info.training_type is None
    &&& info.capabilities is None
}

/// Entry `i` is the first with its id.
pub open spec fn first_with_id(es: Seq<Entry>, i: int) -> bool {
    &&& 0 <= i < es.len()
    &&& forall|j: int| 0 <= j < i ==> #[trigger] es[j].0 != es[i].0
}

/// The ids of `data` ascend strictly.
#[verifier::opaque]
pub open spec fn ids_ascending(data: Seq<ModelInfo>) -> bool {
    forall|a: int, b: int| 0 <= a < b < data.len() ==> text_lt(#[trigger] data[a].id@, #[trigger] data[b].id@)
}

/// `info` describes the first entry of `es` with its id.
pub open spec fn describes_first(info: ModelInfo, es: Seq<Entry>, now: u64) -> bool {
    exists|i: int| #[trigger] first_with_id(es, i) && describes(info, es[i], now)
}

/// Each element of `data` describes the first entry of `es` with its id.
#[verifier::opaque]
pub open spec fn each_described(data: Seq<ModelInfo>, es: Seq<Entry>, now: u64) -> bool {
    forall|k: int| 0 <= k < data.len() ==> #[trigger] describes_first(data[k], es, now)
}

/// Every id of `es` appears in `data`.
#[verifier::opaque]
pub open spec fn ids_covered(data: Seq<ModelInfo>, es: Seq<Entry>) -> bool {
    forall|i: int| 0 <= i < es.len() ==> exists|k: int| 0 <= k < data.len() && #[trigger] data[k].id@ == #[trigger] es[i].0
}

/// `data` lists the entries `es` by id in ascending order, once per id, each
/// id described by its first entry.
pub open spec fn lists_catalogue(data: Seq<ModelInfo>, es: Seq<Entry>, now: u64) -> bool {
    &&& ids_ascending(data)
    &&& each_described(data, es, now)
    &&& ids_covered(data, es)
}

/// The description of a chat model.
pub fn model_info(id: &str, owner: &str, root: &str, now: u64) -> (info: ModelInfo)
    ensures
        describes(info, (id@, owner@, root@), now),
{
    ModelInfo {
        id: copy_str(id),
        object: copy_str("model"),
        created: now,
        owned_by: copy_str(owner),
        model_type: Some(copy_str("chat")),
        root: Some(copy_str(root)),
        parent: None,
        permission: None,
        context_window: None,
        training_type: None,
        capabilities: None,
    }
}

/// Entries that come first with their id stay so when more entries follow.
proof fn lemma_first_kept(es: Seq<Entry>, e: Entry)
    ensures
        forall|i: int| first_with_id(es, i) ==> #[trigger] first_with_id(es.push(e), i) && es.push(e)[i] == es[i],
{
    assert forall|i: int| first_with_id(es, i) implies #[trigger] first_with_id(es.push(e), i) && es.push(e)[i] == es[i] by {
        assert forall|j: int| 0 <= j < i implies #[trigger] es.push(e)[j].0 != es.push(e)[i].0 by {
            assert(es[j].0 != es[i].0);
        }
    }
}

/// Descriptions stay valid when more entries follow.
proof fn lemma_described_push(data: Seq<ModelInfo>, es: Seq<Entry>, e: Entry, now: u64)
    requires
        each_described(data, es, now),
    ensures
        each_described(data, es.push(e), now),
{
    reveal(each_described);
    lemma_first_kept(es, e);
    assert forall|q: int| 0 <= q < data.len() implies #[trigger] describes_first(data[q], es.push(e), now) by {
        assert(describes_first(data[q], es, now));
        let i = choose|i: int| #[trigger] first_with_id(es, i) && describes(data[q], es[i], now);
        assert(first_with_id(es.push(e), i));
    }
}

/// A listing already holding the id of `e` lists the entries with `e` added.
proof fn lemma_add_known(data: Seq<ModelInfo>, es: Seq<Entry>, e: Entry, k: int, now: u64)
    requires
        lists_catalogue(data, es, now),
        0 <= k < data.len(),
        data[k].id@ == e.0,
    ensures
        lists_catalogue(data, es.push(e), now),
{
    lemma_described_push(data, es, e, now);
    reveal(ids_covered);
    let es2 = es.push(e);
    assert forall|i: int| 0 <= i < es2.len() implies exists|q: int| 0 <= q < data.len() && #[trigger] data[q].id@ == #[trigger] es2[i].0 by {
        if i < es.len() {
            assert(es2[i] == es[i]);
            let q = choose|q: int| 0 <= q < data.len() && #[trigger] data[q].id@ == #[trigger] es[i].0;
            assert(data[q].id@ == es2[i].0);
        } else {
            assert(data[k].id@ == es2[i].0);
        }
    }
}

/// Inserting at `pos` the description of an entry with a new id keeps a
/// listing in order.
#[verifier::spinoff_prover]
proof fn lemma_insert_sorted(d0: Seq<ModelInfo>, id: Seq<char>, pos: int, info: ModelInfo)
    requires
        0 <= pos <= d0.len(),
        info.id@ == id,
        ids_ascending(d0),
        forall|q: int| 0 <= q < d0.len() ==> #[trigger] d0[q].id@ != id,
        forall|q: int| 0 <= q < pos ==> !text_lt(id, #[trigger] d0[q].id@),
        pos < d0.len() ==> text_lt(id, d0[pos].id@),
    ensures
        ids_ascending(d0.insert(pos, info)),
{
    reveal(ids_ascending);
    let d1 = d0.insert(pos, info);
    assert forall|q: int| 0 <= q < pos implies text_lt(#[trigger] d0[q].id@, id) by {
        lemma_text_lt_trichotomy(d0[q].id@, id);
    }
    assert forall|q: int| pos <= q < d0.len() implies text_lt(id, #[trigger] d0[q].id@) by {
        if q > pos {
            lemma_text_lt_transitive(id, d0[pos].id@, d0[q].id@);
        }
    }
    assert forall|a: int, b: int| 0 <= a < b < d1.len() implies text_lt(#[trigger] d1[a].id@, #[trigger] d1[b].id@) by {
        if b < pos {
            assert(d1[a] == d0[a] && d1[b] == d0[b]);
        } else if b == pos {
            assert(d1[a] == d0[a]);
        } else if a < pos {
            assert(d1[a] == d0[a] && d1[b] == d0[b - 1]);
            lemma_text_lt_transitive(d0[a].id@, id, d0[b - 1].id@);
        } else if a == pos {
            assert(d1[b] == d0[b - 1]);
        } else {
            assert(d1[a] == d0[a - 1] && d1[b] == d0[b - 1]);
        }
    }
}

/// An id absent from a listing is absent from the entries it lists.
proof fn lemma_absent(d0: Seq<ModelInfo>, es: Seq<Entry>, id: Seq<char>)
    requires
        ids_covered(d0, es),
        forall|q: int| 0 <= q < d0.len() ==> #[trigger] d0[q].id@ != id,
    ensures
        forall|j: int| 0 <= j < es.len() ==> #[trigger] es[j].0 != id,
{
    reveal(ids_covered);
    assert forall|j: int| 0 <= j < es.len() implies #[trigger] es[j].0 != id by {
        let q = choose|q: int| 0 <= q < d0.len() && #[trigger] d0[q].id@ == #[trigger] es[j].0;
    }
}

/// Inserting the description of a new entry keeps every element described.
proof fn lemma_described_insert(d0: Seq<ModelInfo>, es: Seq<Entry>, e: Entry, pos: int, info: ModelInfo, now: u64)
    requires
        each_described(d0, es, now),
        0 <= pos <= d0.len(),
        describes(info, e, now),
        forall|j: int| 0 <= j < es.len() ==> #[trigger] es[j].0 != e.0,
    ensures
        each_described(d0.insert(pos, info), es.push(e), now),
{
    reveal(each_described);
    let es2 = es.push(e);
    let d1 = d0.insert(pos, info);
    lemma_first_kept(es, e);
    assert forall|j: int| 0 <= j < es.len() implies #[trigger] es2[j].0 != es2[es.len() as int].0 by {
        assert(es2[j] == es[j]);
    }
    assert(first_with_id(es2, es.len() as int));
    assert forall|q: int| 0 <= q < d1.len() implies #[trigger] describes_first(d1[q], es2, now) by {
        if q == pos {
            assert(first_with_id(es2, es.len() as int) && describes(d1[q], es2[es.len() as int], now));
        } else {
            let q0 = if q < pos { q } else { q - 1 };
            assert(d1[q] == d0[q0]);
            assert(describes_first(d0[q0], es, now));
            let i = choose|i: int| #[trigger] first_with_id(es, i) && describes(d0[q0], es[i], now);
            assert(first_with_id(es2, i));
        }
    }
}

/// Inserting the description of a new entry keeps every id covered.
proof fn lemma_covered_insert(d0: Seq<ModelInfo>, es: Seq<Entry>, e: Entry, pos: int, info: ModelInfo)
    requires
        ids_covered(d0, es),
        0 <= pos <= d0.len(),
        info.id@ == e.0,
    ensures
        ids_covered(d0.insert(pos, info), es.push(e)),
{
    reveal(ids_covered);
    let es2 = es.push(e);
    let d1 = d0.insert(pos, info);
    assert forall|i: int| 0 <= i < es2.len() implies exists|q: int| 0 <= q < d1.len() && #[trigger] d1[q].id@ == #[trigger] es2[i].0 by {
        if i == es.len() {
            assert(d1[pos].id@ == es2[i].0);
        } else {
            assert(es2[i] == es[i]);
            let q0 = choose|q: int| 0 <= q < d0.len() && #[trigger] d0[q].id@ == #[trigger] es[i].0;
            if q0 < pos {
                assert(d1[q0].id@ == es2[i].0);
            } else {
                assert(d1[q0 + 1].id@ == es2[i].0);
            }
        }
    }
}

/// Inserting in order the description of an entry with a new id lists the
/// entries with it added.
proof fn lemma_add_new(d0: Seq<ModelInfo>, es: Seq<Entry>, e: Entry, pos: int, info: ModelInfo, now: u64)
    requires
        lists_catalogue(d0, es, now),
        0 <= pos <= d0.len(),
        describes(info, e, now),
        forall|q: int| 0 <= q < d0.len() ==> #[trigger] d0[q].id@ != e.0,
        forall|q: int| 0 <= q < pos ==> !text_lt(e.0, #[trigger] d0[q].id@),
        pos < d0.len() ==> text_lt(e.0, d0[pos].id@),
    ensures
        lists_catalogue(d0.insert(pos, info), es.push(e), now),
{
    lemma_insert_sorted(d0, e.0, pos, info);
    lemma_absent(d0, es, e.0);
    lemma_described_insert(d0, es, e, pos, info, now);
    lemma_covered_insert(d0, es, e, pos, info);
}

/// Adds the entry `(id, owner, root)` to a listing of `es`: a new id is
/// inserted in order, a known one is left as it is.
fn add_entry(data: &mut Vec<ModelInfo>, id: &str, owner: &str, root: &str, now: u64, Ghost(es): Ghost<Seq<Entry>>)
    requires
        lists_catalogue(old(data)@, es, now),
    ensures
        lists_catalogue(final(data)@, es.push((id@, owner@, root@)), now),
{
    let ghost e: Entry = (id@, owner@, root@);
    let mut k: usize = 0;
    while k < data.len()
        invariant
            k <= data@.len(),
            lists_catalogue(data@, es, now),
            e == (id@, owner@, root@),
            forall|q: int| 0 <= q < k ==> #[trigger] data@[q].id@ != id@,
        decreases data@.len() - k,
    {
        if str_eq(data[k].id.as_str(), id) {
            proof {
                lemma_add_known(data@, es, e, k as int, now);
            }
            return;
        }
        k += 1;
    }
    let mut pos: usize = 0;
    while pos < data.len() && !text_less(id, data[pos].id.as_str())
        invariant
            pos <= data@.len(),
            lists_catalogue(data@, es, now),
            forall|q: int| 0 <= q < data@.len() ==> #[trigger] data@[q].id@ != id@,
            forall|q: int| 0 <= q < pos ==> !text_lt(id@, #[trigger] data@[q].id@),
        decreases data@.len() - pos,
    {
        pos += 1;
    }
    let info = model_info(id, owner, root, now);
    proof {
        lemma_add_new(data@, es, e, pos as int, info, now);
    }
    data.insert(pos, info);
}

/// Lists the models of every group: the configured models of each provider,
/// or the group name for a provider without models; ordered by id, one entry
/// per id, owned by the first provider that offers it.  `now` is the time
/// reported as the models' creation time.
pub fn list_models(config: &Config, now: u64) -> (r: ModelsListResponse)
    ensures
        r.object@ == "list"@,
        lists_catalogue(r.data@, catalogue(config.groups@), now),
{
    let mut data: Vec<ModelInfo> = Vec::new();
    let ghost groups = config.groups@;
    let mut gi: usize = 0;
    assert(groups.take(0) =~= Seq::<(String, GroupConfig)>::empty());
    proof {
        reveal(ids_ascending);
        reveal(each_described);
        reveal(ids_covered);
    }
    while gi < config.groups.len()
        invariant
            gi <= groups.len(),
            groups == config.groups@,
            lists_catalogue(data@, catalogue(groups.take(gi as int)), now),
        decreases groups.len() - gi,
    {
        let gname = &config.groups[gi].0;
        let ps = &config.groups[gi].1.providers;
        let ghost base = catalogue(groups.take(gi as int));
        assert(groups.take(gi + 1).drop_last() == groups.take(gi as int));
        assert(catalogue(groups.take(gi + 1)) == base + group_entries(gname@, ps@));
        let mut pi: usize = 0;
        assert(ps@.take(0) =~= Seq::<ProviderConfig>::empty());
        assert(base + group_entries(gname@, ps@.take(0)) =~= base);
        while pi < ps.len()
            invariant
                pi <= ps@.len(),
                lists_catalogue(data@, base + group_entries(gname@, ps@.take(pi as int)), now),
            decreases ps@.len() - pi,
        {
            let p = &ps[pi];
            let ghost before = base + group_entries(gname@, ps@.take(pi as int));
            assert(ps@.take(pi + 1).drop_last() == ps@.take(pi as int));
            assert(before + provider_entries(gname@, *p) =~= base + group_entries(gname@, ps@.take(pi + 1)));
            if p.models.len() == 0 {
                add_entry(&mut data, gname.as_str(), p.name.as_str(), gname.as_str(), now, Ghost(before));
                assert(before.push((gname@, p.name@, gname@)) =~= before + provider_entries(gname@, *p));
            } else {
                let mut j: usize = 0;
                let ghost entries = provider_entries(gname@, *p);
                assert(before + entries.take(0) =~= before);
                while j < p.models.len()
                    invariant
                        j <= p.models@.len(),
                        entries == provider_entries(gname@, *p),
                        p.models@.len() > 0,
                        entries.len() == p.models@.len(),
                        lists_catalogue(data@, before + entries.take(j as int), now),
                    decreases p.models@.len() - j,
                {
                    let m = &p.models[j];
                    add_entry(&mut data, m.as_str(), p.name.as_str(), m.as_str(), now, Ghost(before + entries.take(j as int)));
                    assert((before + entries.take(j as int)).push((m@, p.name@, m@)) =~= before + entries.take(j + 1));
                    j += 1;
                }
                assert(entries.take(p.models@.len() as int) =~= entries);
            }
            pi += 1;
        }
        assert(ps@.take(ps@.len() as int) == ps@);
        gi += 1;
    }
    assert(groups.take(groups.len() as int) == groups);
    ModelsListResponse { object: copy_str("list"), data }
}

/// Entry `e` comes from provider `pi` of group `gi`: that provider owns it,
/// its root is its id, and its id is one of the provider's configured models
/// or, for a provider without models, the group's name.
pub open spec fn entry_from(groups: Seq<(String, GroupConfig)>, e: Entry, gi: int, pi: int) -> bool {
    &&& 0 <= gi < groups.len()
    &&& 0 <= pi < groups[gi].1.providers@.len()
    &&& groups[gi].1.providers@[pi].name@ == e.1
    &&& e.2 == e.0
    &&& if groups[gi].1.providers@[pi].models@.len() == 0 {
        groups[gi].0@ == e.0
    } else {
        exists|j: int|
            0 <= j < groups[gi].1.providers@[pi].models@.len() && #[trigger] groups[gi].1.providers@[pi].models@[j]@ == e.0
    }
}

/// Some entry of `es` has id `id`.
pub open spec fn has_id(es: Seq<Entry>, id: Seq<char>) -> bool {
    exists|i: int| 0 <= i < es.len() && #[trigger] es[i].0 == id
}

/// Provider `pi` of group `gi` serves the id `id` in the catalogue: one of
/// its configured models, or, without models, its group's name.
pub open spec fn serves_id(groups: Seq<(String, GroupConfig)>, gi: int, pi: int, id: Seq<char>) -> bool {
    &&& 0 <= gi < groups.len()
    &&& 0 <= pi < groups[gi].1.providers@.len()
    &&& if groups[gi].1.providers@[pi].models@.len() == 0 {
        id == groups[gi].0@
    } else {
        provider_lists(groups, gi, pi, id)
    }
}

proof fn lemma_has_id_concat(a: Seq<Entry>, b: Seq<Entry>, id: Seq<char>)
    ensures
        has_id(a, id) ==> has_id(a + b, id),
        has_id(b, id) ==> has_id(a + b, id),
{
    if has_id(a, id) {
        let i = choose|i: int| 0 <= i < a.len() && #[trigger] a[i].0 == id;
        assert((a + b)[i] == a[i]);
    }
    if has_id(b, id) {
        let i = choose|i: int| 0 <= i < b.len() && #[trigger] b[i].0 == id;
        assert((a + b)[a.len() + i] == b[i]);
    }
}

proof fn lemma_group_has_id(groups: Seq<(String, GroupConfig)>, gi: int, pi: int, qs: Seq<ProviderConfig>, id: Seq<char>)
    requires
        serves_id(groups, gi, pi, id),
        pi < qs.len() <= groups[gi].1.providers@.len(),
        forall|t: int| 0 <= t < qs.len() ==> qs[t] == #[trigger] groups[gi].1.providers@[t],
    ensures
        has_id(group_entries(groups[gi].0@, qs), id),
    decreases qs.len(),
{
    let g = groups[gi].0@;
    let rest = qs.drop_last();
    let b = provider_entries(g, qs.last());
    lemma_has_id_concat(group_entries(g, rest), b, id);
    if pi < qs.len() - 1 {
        lemma_group_has_id(groups, gi, pi, rest, id);
    } else {
        assert(qs.last() == groups[gi].1.providers@[pi]);
        if qs.last().models@.len() == 0 {
            assert(b[0].0 == id);
        } else {
            let j = choose|j: int| 0 <= j < groups[gi].1.providers@[pi].models@.len() && #[trigger] groups[gi].1.providers@[pi].models@[j]@ == id;
            assert(b[j].0 == id);
        }
    }
}

proof fn lemma_catalogue_has_id(groups: Seq<(String, GroupConfig)>, n: int, gi: int, pi: int, id: Seq<char>)
    requires
        serves_id(groups, gi, pi, id),
        gi < n <= groups.len(),
    ensures
        has_id(catalogue(groups.take(n)), id),
    decreases n,
{
    let gs = groups.take(n);
    assert(gs.drop_last() == groups.take(n - 1));
    assert(gs.last() == groups[n - 1]);
    let ps = groups[n - 1].1.providers@;
    lemma_has_id_concat(catalogue(groups.take(n - 1)), group_entries(groups[n - 1].0@, ps), id);
    if gi < n - 1 {
        lemma_catalogue_has_id(groups, n - 1, gi, pi, id);
    } else {
        lemma_group_has_id(groups, gi, pi, ps, id);
    }
}

/// Entry `i` of the group entries `es` comes from provider `pi` of group
/// `gi`, and every provider of that group before `pi` that serves its id
/// has an entry with that id before `i`.
pub open spec fn group_source(groups: Seq<(String, GroupConfig)>, es: Seq<Entry>, i: int, gi: int, pi: int) -> bool {
    &&& entry_from(groups, es[i], gi, pi)
    &&& forall|p2: int| 0 <= p2 < pi && #[trigger] serves_id(groups, gi, p2, es[i].0) ==> has_id(es.take(i), es[i].0)
}

/// Entry `i` of the catalogue `es` comes from provider `pi` of group `gi`,
/// and every provider before it, over the groups and their providers in
/// order, that serves its id has an entry with that id before `i`.
pub open spec fn catalogue_source(groups: Seq<(String, GroupConfig)>, es: Seq<Entry>, i: int, gi: int, pi: int) -> bool {
    &&& entry_from(groups, es[i], gi, pi)
    &&& forall|g2: int, p2: int|
        (g2 < gi || (g2 == gi && p2 < pi)) && #[trigger] serves_id(groups, g2, p2, es[i].0) ==> has_id(es.take(i), es[i].0)
}

/// Some provider of group `gi` is a `group_source` of entry `i`.
pub open spec fn group_sourced(groups: Seq<(String, GroupConfig)>, es: Seq<Entry>, i: int, gi: int) -> bool {
    exists|pi: int| #[trigger] group_source(groups, es, i, gi, pi)
}

/// Some provider is a `catalogue_source` of entry `i`.
pub open spec fn catalogue_sourced(groups: Seq<(String, GroupConfig)>, es: Seq<Entry>, i: int) -> bool {
    exists|gi: int, pi: int| #[trigger] catalogue_source(groups, es, i, gi, pi)
}

/// Entry `e` comes from provider `pi` of group `gi`, and no provider before
/// it, over the groups and their providers in order, serves its id.
pub open spec fn first_source(groups: Seq<(String, GroupConfig)>, e: Entry, gi: int, pi: int) -> bool {
    &&& entry_from(groups, e, gi, pi)
    &&& forall|g2: int, p2: int| (g2 < gi || (g2 == gi && p2 < pi)) ==> !#[trigger] serves_id(groups, g2, p2, e.0)
}

proof fn lemma_has_id_prefix(a: Seq<Entry>, b: Seq<Entry>, i: int, id: Seq<char>)
    requires
        a.len() <= i <= a.len() + b.len(),
    ensures
        has_id(a, id) ==> has_id((a + b).take(i), id),
        has_id(b.take(i - a.len()), id) ==> has_id((a + b).take(i), id),
{
    let es = (a + b).take(i);
    if has_id(a, id) {
        let t = choose|t: int| 0 <= t < a.len() && #[trigger] a[t].0 == id;
        assert(es[t] == a[t]);
    }
    if has_id(b.take(i - a.len()), id) {
        let t = choose|t: int| 0 <= t < b.take(i - a.len()).len() && #[trigger] b.take(i - a.len())[t].0 == id;
        assert(es[a.len() + t] == b[t]);
    }
}

proof fn lemma_group_sources(groups: Seq<(String, GroupConfig)>, gi: int, qs: Seq<ProviderConfig>)
    requires
        0 <= gi < groups.len(),
        qs.len() <= groups[gi].1.providers@.len(),
        forall|t: int| 0 <= t < qs.len() ==> qs[t] == #[trigger] groups[gi].1.providers@[t],
    ensures
        forall|i: int|
            0 <= i < group_entries(groups[gi].0@, qs).len() ==> #[trigger] group_sourced(groups, group_entries(groups[gi].0@, qs), i, gi),
    decreases qs.len(),
{
    let g = groups[gi].0@;
    if qs.len() > 0 {
        let rest = qs.drop_last();
        let last = qs.last();
        let pl = qs.len() - 1;
        assert(last == groups[gi].1.providers@[pl]);
        lemma_group_sources(groups, gi, rest);
        let es = group_entries(g, qs);
        let a = group_entries(g, rest);
        let b = provider_entries(g, last);
        assert(es == a + b);
        assert forall|i: int| 0 <= i < es.len() implies #[trigger] group_sourced(groups, es, i, gi) by {
            if i < a.len() {
                assert(group_sourced(groups, a, i, gi));
                let pi = choose|pi: int| #[trigger] group_source(groups, a, i, gi, pi);
                assert(es[i] == a[i]);
                assert(es.take(i) == a.take(i));
                assert(group_source(groups, es, i, gi, pi));
            } else {
                assert(es[i] == b[i - a.len()]);
                if last.models@.len() != 0 {
                    let j = i - a.len();
                    assert(groups[gi].1.providers@[pl].models@[j]@ == es[i].0);
                }
                assert(entry_from(groups, es[i], gi, pl));
                assert forall|p2: int| 0 <= p2 < pl && #[trigger] serves_id(groups, gi, p2, es[i].0) implies has_id(es.take(i), es[i].0) by {
                    assert(rest[p2] == groups[gi].1.providers@[p2]);
                    lemma_group_has_id(groups, gi, p2, rest, es[i].0);
                    lemma_has_id_prefix(a, b, i, es[i].0);
                }
                assert(group_source(groups, es, i, gi, pl));
            }
        }
    }
}

proof fn lemma_catalogue_sources(groups: Seq<(String, GroupConfig)>, n: int)
    requires
        0 <= n <= groups.len(),
    ensures
        forall|i: int|
            0 <= i < catalogue(groups.take(n)).len() ==> #[trigger] catalogue_sourced(groups, catalogue(groups.take(n)), i),
    decreases n,
{
    if n > 0 {
        lemma_catalogue_sources(groups, n - 1);
        let gs = groups.take(n);
        assert(gs.drop_last() == groups.take(n - 1));
        assert(gs.last() == groups[n - 1]);
        let a = catalogue(groups.take(n - 1));
        let ps = groups[n - 1].1.providers@;
        lemma_group_sources(groups, n - 1, ps);
        let b = group_entries(groups[n - 1].0@, ps);
        let es = catalogue(gs);
        assert(es == a + b);
        assert forall|i: int| 0 <= i < es.len() implies #[trigger] catalogue_sourced(groups, es, i) by {
            if i < a.len() {
                assert(catalogue_sourced(groups, a, i));
                let (gi, pi) = choose|gi: int, pi: int| #[trigger] catalogue_source(groups, a, i, gi, pi);
                assert(es[i] == a[i]);
                assert(es.take(i) == a.take(i));
                assert(catalogue_source(groups, es, i, gi, pi));
            } else {
                let ib = i - a.len();
                assert(es[i] == b[ib]);
                assert(group_sourced(groups, b, ib, n - 1));
                let pi = choose|pi: int| #[trigger] group_source(groups, b, ib, n - 1, pi);
                let id = es[i].0;
                assert forall|g2: int, p2: int|
                    (g2 < n - 1 || (g2 == n - 1 && p2 < pi)) && #[trigger] serves_id(groups, g2, p2, id) implies has_id(es.take(i), id) by {
                    lemma_has_id_prefix(a, b, i, id);
                    if g2 < n - 1 {
                        lemma_catalogue_has_id(groups, n - 1, g2, p2, id);
                    }
                }
                assert(catalogue_source(groups, es, i, n - 1, pi));
            }
        }
    }
}

/// What the model list holds, for every configuration: each listed model's
/// root is the model itself, and it is owned by a configured provider that
/// serves it: one that lists it among its models, or, for a provider without
/// models, one of the group that the id names; the owner is the first
/// provider, over the groups and their providers in order, that serves the
/// id.  No id is listed twice, and every id that a provider serves is listed.
pub proof fn law_listed_models(groups: Seq<(String, GroupConfig)>, data: Seq<ModelInfo>, now: u64)
    requires
        lists_catalogue(data, catalogue(groups), now),
    ensures
        forall|k: int|
            0 <= k < data.len() ==> (#[trigger] data[k].root matches Some(r) && r@ == data[k].id@) && exists|gi: int, pi: int|
                #[trigger] first_source(groups, (data[k].id@, data[k].owned_by@, data[k].id@), gi, pi),
        forall|a: int, b: int| 0 <= a < b < data.len() ==> #[trigger] data[a].id@ != #[trigger] data[b].id@,
        forall|gi: int, pi: int, id: Seq<char>|
            #[trigger] serves_id(groups, gi, pi, id) ==> exists|k: int| 0 <= k < data.len() && #[trigger] data[k].id@ == id,
{
    lemma_catalogue_sources(groups, groups.len() as int);
    assert(groups.take(groups.len() as int) == groups);
    let es = catalogue(groups);
    reveal(each_described);
    assert forall|k: int| 0 <= k < data.len() implies (#[trigger] data[k].root matches Some(r) && r@ == data[k].id@) && exists|gi: int, pi: int|
        #[trigger] first_source(groups, (data[k].id@, data[k].owned_by@, data[k].id@), gi, pi) by {
        assert(describes_first(data[k], es, now));
        let i = choose|i: int| #[trigger] first_with_id(es, i) && describes(data[k], es[i], now);
        assert(catalogue_sourced(groups, es, i));
        let (gi, pi) = choose|gi: int, pi: int| #[trigger] catalogue_source(groups, es, i, gi, pi);
        let e = es[i];
        assert(e == (data[k].id@, data[k].owned_by@, data[k].id@));
        assert(!has_id(es.take(i), e.0)) by {
            if has_id(es.take(i), e.0) {
                let t = choose|t: int| 0 <= t < es.take(i).len() && #[trigger] es.take(i)[t].0 == e.0;
                assert(es[t].0 != es[i].0);
            }
        }
        assert(first_source(groups, e, gi, pi));
    }
    reveal(ids_ascending);
    assert forall|a: int, b: int| 0 <= a < b < data.len() implies #[trigger] data[a].id@ != #[trigger] data[b].id@ by {
        assert(text_lt(data[a].id@, data[b].id@));
        lemma_text_lt_irreflexive(data[a].id@);
    }
    reveal(ids_covered);
    assert forall|gi: int, pi: int, id: Seq<char>|
        #[trigger] serves_id(groups, gi, pi, id) implies exists|k: int| 0 <= k < data.len() && #[trigger] data[k].id@ == id by {
        lemma_catalogue_has_id(groups, groups.len() as int, gi, pi, id);
        let i = choose|i: int| 0 <= i < es.len() && #[trigger] es[i].0 == id;
        let k = choose|k: int| 0 <= k < data.len() && #[trigger] data[k].id@ == #[trigger] es[i].0;
    }
}

/// Group `gi`, provider `pi` offers `id`: the group is named `id`, or the
/// provider lists `id` among its models.
pub open spec fn offers(groups: Seq<(String, GroupConfig)>, gi: int, pi: int, id: Seq<char>) -> bool {
    &&& 0 <= gi < groups.len()
    &&& 0 <= pi < groups[gi].1.providers@.len()
    &&& (groups[gi].0@ == id || exists|j: int|
        0 <= j < groups[gi].1.providers@[pi].models@.len() && #[trigger] groups[gi].1.providers@[pi].models@[j]@ == id)
}

/// The message of an unknown model.
pub open spec fn model_missing_message(id: Seq<char>) -> Seq<char> {
    "Model '"@ + id + "' not found"@
}

/// `info` describes `id` as owned by the first provider, over the groups and
/// their providers in order, that offers it.
pub open spec fn model_found(groups: Seq<(String, GroupConfig)>, id: Seq<char>, info: ModelInfo, now: u64) -> bool {
    exists|gi: int, pi: int|
        #[trigger] offers(groups, gi, pi, id)
            && (forall|g2: int, p2: int| (g2 < gi || (g2 == gi && p2 < pi)) ==> !#[trigger] offers(groups, g2, p2, id))
            && describes(info, (id, groups[gi].1.providers@[pi].name@, id), now)
}

/// Provider `pi` of group `gi` lists `id` among its configured models.
pub open spec fn provider_lists(groups: Seq<(String, GroupConfig)>, gi: int, pi: int, id: Seq<char>) -> bool {
    exists|j: int| 0 <= j < groups[gi].1.providers@[pi].models@.len() && #[trigger] groups[gi].1.providers@[pi].models@[j]@ == id
}

/// `info` is owned by provider `pi` of group `gi`, which serves `id`: it
/// lists `id` among its models, or its group is named `id`.  No provider
/// before it, over the groups and their providers in order, lists `id`, and
/// no group before its own that has providers is named `id`.
pub open spec fn owned_at(groups: Seq<(String, GroupConfig)>, id: Seq<char>, info: ModelInfo, gi: int, pi: int) -> bool {
    &&& 0 <= gi < groups.len()
    &&& 0 <= pi < groups[gi].1.providers@.len()
    &&& info.owned_by@ == groups[gi].1.providers@[pi].name@
    &&& (groups[gi].0@ == id || provider_lists(groups, gi, pi, id))
    &&& forall|g2: int| 0 <= g2 < gi && groups[g2].1.providers@.len() > 0 ==> #[trigger] groups[g2].0@ != id
    &&& forall|g2: int, p2: int|
        0 <= g2 < groups.len() && 0 <= p2 < groups[g2].1.providers@.len() && (g2 < gi || (g2 == gi && p2 < pi))
            ==> !#[trigger] provider_lists(groups, g2, p2, id)
}

/// What a model found by id is, for every configuration and id: its id and
/// root are the id asked for, and it is owned by a configured provider that
/// lists the id among its own models, or, where the id is a group's name, by
/// a provider of that group.  No provider before the owner, over the groups
/// and their providers in order, lists the id, and no group before the
/// owner's that has providers is named by it.
pub proof fn law_found_model(groups: Seq<(String, GroupConfig)>, id: Seq<char>, info: ModelInfo, now: u64)
    requires
        model_found(groups, id, info, now),
    ensures
        info.id@ == id,
        info.root matches Some(r) && r@ == id,
        exists|gi: int, pi: int| #[trigger] owned_at(groups, id, info, gi, pi),
{
    let (gi, pi) = choose|gi: int, pi: int|
        #[trigger] offers(groups, gi, pi, id)
            && (forall|g2: int, p2: int| (g2 < gi || (g2 == gi && p2 < pi)) ==> !#[trigger] offers(groups, g2, p2, id))
            && describes(info, (id, groups[gi].1.providers@[pi].name@, id), now);
    assert(groups[gi].0@ == id || provider_lists(groups, gi, pi, id));
    assert forall|g2: int| 0 <= g2 < gi && groups[g2].1.providers@.len() > 0 implies #[trigger] groups[g2].0@ != id by {
        if groups[g2].0@ == id {
            assert(offers(groups, g2, 0, id));
        }
    }
    assert forall|g2: int, p2: int|
        0 <= g2 < groups.len() && 0 <= p2 < groups[g2].1.providers@.len() && (g2 < gi || (g2 == gi && p2 < pi))
            implies !#[trigger] provider_lists(groups, g2, p2, id) by {
        if provider_lists(groups, g2, p2, id) {
            assert(offers(groups, g2, p2, id));
        }
    }
    assert(owned_at(groups, id, info, gi, pi));
}

/// Describes the model `model_id`: owned by the first provider, over the
/// groups and their providers in order, that offers it.  `now` is the time
/// reported as the model's creation time.
#[verifier::loop_isolation(false)]
pub fn find_model(config: &Config, model_id: &str, now: u64) -> (r: Result<ModelInfo, RouterError>)
    ensures
        match r {
            Ok(info) => model_found(config.groups@, model_id@, info, now),
            Err(e) => {
                &&& forall|gi: int, pi: int| !#[trigger] offers(config.groups@, gi, pi, model_id@)
                &&& e matches RouterError::NotFound(msg) && msg@ == model_missing_message(model_id@)
            },
        },
{
    let ghost groups = config.groups@;
    let mut gi: usize = 0;
    while gi < config.groups.len()
        invariant
            gi <= groups.len(),
            groups == config.groups@,
            forall|g2: int, p2: int| g2 < gi ==> !#[trigger] offers(groups, g2, p2, model_id@),
        decreases groups.len() - gi,
    {
        let gname = &config.groups[gi].0;
        let ps = &config.groups[gi].1.providers;
        let group_named = str_eq(gname.as_str(), model_id);
        let mut pi: usize = 0;
        while pi < ps.len()
            invariant
                gi < groups.len(),
                groups == config.groups@,
                *ps == groups[gi as int].1.providers,
                gname@ == groups[gi as int].0@,
                group_named == (gname@ == model_id@),
                pi <= ps@.len(),
                forall|g2: int, p2: int| (g2 < gi || (g2 == gi && p2 < pi)) ==> !#[trigger] offers(groups, g2, p2, model_id@),
            decreases ps@.len() - pi,
        {
            let p = &ps[pi];
            if group_named {
                assert(offers(groups, gi as int, pi as int, model_id@));
                return Ok(model_info(model_id, p.name.as_str(), model_id, now));
            }
            let mut j: usize = 0;
            while j < p.models.len()
                invariant
                    j <= p.models@.len(),
                    forall|t: int| 0 <= t < j ==> p.models@[t]@ != model_id@,
                decreases p.models@.len() - j,
            {
                if str_eq(p.models[j].as_str(), model_id) {
                    assert(groups[gi as int].1.providers@[pi as int].models@[j as int]@ == model_id@);
                    assert(offers(groups, gi as int, pi as int, model_id@));
                    return Ok(model_info(model_id, p.name.as_str(), model_id, now));
                }
                j += 1;
            }
            pi += 1;
        }
        assert forall|g2: int, p2: int| g2 < gi + 1 implies !#[trigger] offers(groups, g2, p2, model_id@) by {
            if g2 == gi {
                assert(!offers(groups, g2, p2, model_id@));
            }
        }
        gi += 1;
    }
    let mut msg = copy_str("Model '");
    push_str(&mut msg, model_id);
    push_str(&mut msg, "' not found");
    Err(RouterError::NotFound(msg))
}

} // verus!
