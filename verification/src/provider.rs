//! The search provider session: one cached result universe shared by the
//! five protocol operations.
//!
//! A full search runs in two halves. `begin_search` assigns a generation
//! newer than any assigned before; the host then fetches the collection and
//! hands the outcome to `complete_search` under that generation. A fetch is
//! applied only if its generation is still the newest requested when it
//! completes, so a slow, stale fetch can never clobber a faster, newer one.
//! Refinement, metadata and activation work synchronously on whatever result
//! set is currently installed.

use vstd::prelude::*;
use indexmap::IndexMap;
use crate::items::{App, LaunchItem, LaunchRequest, ResultMeta, SessionError};
use crate::matching::{
    cand_score, cands_of_pairs, entry_valid, find_matching_items, rank_entries, rank_ids, Cand,
    lemma_rank_entries_props,
};
use crate::result_set::{
    distinct_ids, entries, result_set_get, result_set_index, result_set_len, result_set_new,
};

verus! {

/// The abstract state of a session: the cached triples, the newest requested
/// and the applied generation, and the app's identity.
pub struct ProviderView {
    /// The `(id, name, uri)` triples of the installed result set, in order.
    pub items: Seq<Cand>,
    /// The newest generation handed out by `begin_search`; 0 before any.
    pub latest: nat,
    /// The generation whose fetch is installed; 0 before any.
    pub applied: nat,
    /// Desktop identifier of the app served.
    pub app_id: Seq<char>,
    /// Icon identifier shared by all results.
    pub icon: Seq<char>,
}

/// The first entry of `items` whose id is `id`.
pub open spec fn find_item(items: Seq<Cand>, id: Seq<char>) -> Option<Cand>
    decreases items.len(),
{
    if items.len() == 0 {
        None
    } else if items[0].0 == id {
        Some(items[0])
    } else {
        find_item(items.drop_first(), id)
    }
}

/// The refinement candidates: for each previous id, in order, the cache
/// entry that still carries it; ids no longer present contribute nothing.
pub open spec fn selected(items: Seq<Cand>, prev: Seq<Seq<char>>) -> Seq<Cand>
    decreases prev.len(),
{
    if prev.len() == 0 {
        Seq::empty()
    } else {
        let rest = selected(items, prev.drop_last());
        match find_item(items, prev.last()) {
            Some(c) => rest.push(c),
            None => rest,
        }
    }
}

/// The metadata records for the requested ids, in request order: id, name,
/// the per-session icon, and the locator as description. Unknown ids are
/// omitted.
pub open spec fn metas_spec(items: Seq<Cand>, ids: Seq<Seq<char>>, icon: Seq<char>) -> Seq<
    (Seq<char>, Seq<char>, Seq<char>, Seq<char>),
>
    decreases ids.len(),
{
    if ids.len() == 0 {
        Seq::empty()
    } else {
        let rest = metas_spec(items, ids.drop_last(), icon);
        match find_item(items, ids.last()) {
            Some(c) => rest.push((c.0, c.1, icon, c.2)),
            None => rest,
        }
    }
}

/// Starting a full search: the newest requested generation advances.
pub open spec fn begin_step(v: ProviderView) -> ProviderView {
    ProviderView { latest: v.latest + 1, ..v }
}

/// Completing a fetch for generation `g`: it is installed only if `g` is
/// still the newest requested generation; otherwise it is discarded.
pub open spec fn apply_completion(v: ProviderView, g: nat, fetched: Seq<Cand>) -> ProviderView {
    if g == v.latest {
        ProviderView { items: fetched, applied: g, ..v }
    } else {
        v
    }
}

/// What a completed fetch for generation `g` is ranked against: the newly
/// applied set when it is installed; the already applied, newer state when
/// one exists; else its own, discarded fetch.
pub open spec fn completion_basis(v: ProviderView, g: nat, fetched: Seq<Cand>) -> Seq<Cand> {
    if g != v.latest && v.applied > g {
        v.items
    } else {
        fetched
    }
}

/// A search provider for recent items of one app.
pub struct AppItemSearchProvider {
    app: App,
    items: IndexMap<String, LaunchItem>,
    latest: u64,
    applied: u64,
}

impl View for AppItemSearchProvider {
    type V = ProviderView;

    closed spec fn view(&self) -> ProviderView {
        ProviderView {
            items: entries(self.items),
            latest: self.latest as nat,
            applied: self.applied as nat,
            app_id: self.app.id@,
            icon: self.app.icon@,
        }
    }
}

impl AppItemSearchProvider {
    /// The session is well formed: ids are unique within the installed set,
    /// and no generation newer than the newest requested was ever applied.
    pub open spec fn wf(&self) -> bool {
        distinct_ids(self@.items) && self@.applied <= self@.latest
    }

    /// Create a new search provider for recent items of `app`, with an empty
    /// cache and no search requested yet.
    pub fn new(app: App) -> (r: AppItemSearchProvider)
        ensures
            r.wf(),
            r@.items == Seq::<Cand>::empty(),
            r@.latest == 0,
            r@.applied == 0,
            r@.app_id == app.id@,
            r@.icon == app.icon@,
    {
        let items = result_set_new();
        AppItemSearchProvider { app, items, latest: 0, applied: 0 }
    }

    /// The app managed by this search provider.
    pub fn app(&self) -> (r: &App)
        ensures
            r.id@ == self@.app_id,
            r.icon@ == self@.icon,
    {
        &self.app
    }

    /// Whether another search can still be begun: the generation counter
    /// has not been exhausted.
    pub fn can_begin_search(&self) -> (b: bool)
        ensures
            b == (self@.latest < u64::MAX),
    {
        self.latest < u64::MAX
    }

    /// Start a full search: assign a generation newer than any assigned
    /// before. The cache is untouched; the host fetches the collection and
    /// reports it to `complete_search` under the returned generation.
    pub fn begin_search(&mut self) -> (g: u64)
        requires
            old(self).wf(),
            old(self)@.latest < u64::MAX,
        ensures
            final(self).wf(),
            final(self)@ == begin_step(old(self)@),
            g == final(self)@.latest,
    {
        self.latest = self.latest + 1;
        self.latest
    }

    /// Complete the full search begun at generation `g` with the outcome of
    /// the host's fetch.
    ///
    /// A failed fetch fails the search with `SourceUnavailable` and leaves
    /// the previous result set authoritative. A successful fetch is applied
    /// only if `g` is still the newest generation requested; a superseded
    /// fetch is discarded silently. The returned ids are ranked against the
    /// applied state — or against the superseded fetch itself if nothing
    /// newer has been applied yet.
    pub fn complete_search(
        &mut self,
        g: u64,
        fetched: Result<IndexMap<String, LaunchItem>, String>,
        terms: &Vec<String>,
    ) -> (r: Result<Vec<String>, SessionError>)
        requires
            old(self).wf(),
            g <= old(self)@.latest,
            fetched matches Ok(m) ==> distinct_ids(entries(m)),
        ensures
            final(self).wf(),
            fetched matches Err(cause) ==> ({
                &&& final(self)@ == old(self)@
                &&& r matches Err(e)
                &&& e matches SessionError::SourceUnavailable(msg)
                &&& msg@ == cause@
            }),
            fetched matches Ok(m) ==> ({
                &&& final(self)@ == apply_completion(old(self)@, g as nat, entries(m))
                &&& r matches Ok(ids)
                &&& ids.deep_view() == rank_ids(
                    completion_basis(old(self)@, g as nat, entries(m)),
                    terms.deep_view(),
                )
            }),
    {
        match fetched {
            Err(cause) => Err(SessionError::SourceUnavailable(cause)),
            Ok(m) => {
                if g == self.latest {
                    self.items = m;
                    self.applied = g;
                    let c = collect_candidates(&self.items);
                    Ok(find_matching_items(&c, terms))
                } else if self.applied > g {
                    let c = collect_candidates(&self.items);
                    Ok(find_matching_items(&c, terms))
                } else {
                    let c = collect_candidates(&m);
                    Ok(find_matching_items(&c, terms))
                }
            },
        }
    }

    /// Refine an ongoing search without consulting the source again: keep of
    /// `previous_results` the ids still present in the installed set, in
    /// their given order, and rank that subset against `terms`. Ids absent
    /// from the cache are dropped silently, never an error.
    pub fn get_subsearch_result_set(
        &self,
        previous_results: &Vec<String>,
        terms: &Vec<String>,
    ) -> (r: Vec<String>)
        requires
            self.wf(),
        ensures
            r.deep_view() == rank_ids(
                selected(self@.items, previous_results.deep_view()),
                terms.deep_view(),
            ),
    {
        let ghost pv = previous_results.deep_view();
        let mut cands: Vec<(String, LaunchItem)> = Vec::new();
        let mut i: usize = 0;
        while i < previous_results.len()
            invariant
                self.wf(),
                i <= previous_results@.len(),
                pv == previous_results.deep_view(),
                cands_of_pairs(cands@) == selected(self@.items, pv.take(i as int)),
            decreases previous_results@.len() - i,
        {
            proof {
                assert(pv[i as int] == previous_results@[i as int]@);
                assert(pv.take(i + 1).drop_last() =~= pv.take(i as int));
                assert(pv.take(i + 1).last() == pv[i as int]);
                lemma_find_item_props(self@.items, pv[i as int]);
            }
            match result_set_get(&self.items, previous_results[i].as_str()) {
                Some(item) => {
                    cands.push((previous_results[i].clone(), item.duplicate()));
                    proof {
                        assert(cands_of_pairs(cands@) =~= selected(self@.items, pv.take(i + 1)));
                    }
                },
                None => {
                    proof {
                        assert(cands_of_pairs(cands@) =~= selected(self@.items, pv.take(i + 1)));
                    }
                },
            }
            i = i + 1;
        }
        proof {
            assert(pv.take(previous_results@.len() as int) =~= pv);
        }
        find_matching_items(&cands, terms)
    }

    /// Detailed information for the given result ids, in request order. Ids
    /// not found in the installed set are omitted, so the output may be
    /// shorter than the input; this is not an error.
    pub fn get_result_metas(&self, results: &Vec<String>) -> (metas: Vec<ResultMeta>)
        requires
            self.wf(),
        ensures
            metas@.map_values(|rm: ResultMeta| rm@) == metas_spec(
                self@.items,
                results.deep_view(),
                self@.icon,
            ),
    {
        let ghost rv = results.deep_view();
        let mut metas: Vec<ResultMeta> = Vec::new();
        let mut i: usize = 0;
        while i < results.len()
            invariant
                self.wf(),
                i <= results@.len(),
                rv == results.deep_view(),
                metas@.map_values(|rm: ResultMeta| rm@) == metas_spec(
                    self@.items,
                    rv.take(i as int),
                    self@.icon,
                ),
            decreases results@.len() - i,
        {
            proof {
                assert(rv[i as int] == results@[i as int]@);
                assert(rv.take(i + 1).drop_last() =~= rv.take(i as int));
                assert(rv.take(i + 1).last() == rv[i as int]);
                lemma_find_item_props(self@.items, rv[i as int]);
            }
            match result_set_get(&self.items, results[i].as_str()) {
                Some(item) => {
                    metas.push(
                        ResultMeta {
                            id: results[i].clone(),
                            name: item.name.clone(),
                            gicon: self.app.icon.clone(),
                            description: item.uri.clone(),
                        },
                    );
                    proof {
                        assert(metas@.map_values(|rm: ResultMeta| rm@) =~= metas_spec(
                            self@.items,
                            rv.take(i + 1),
                            self@.icon,
                        ));
                    }
                },
                None => {
                    proof {
                        assert(metas@.map_values(|rm: ResultMeta| rm@) =~= metas_spec(
                            self@.items,
                            rv.take(i + 1),
                            self@.icon,
                        ));
                    }
                },
            }
            i = i + 1;
        }
        proof {
            assert(rv.take(results@.len() as int) =~= rv);
        }
        metas
    }

    /// Activate the result `id`: when it is present in the installed set,
    /// return the launch request that opens its locator; when it is absent,
    /// fail with `ResultNotFound` carrying the id, and request no launch.
    /// `terms` and `timestamp` are accepted for protocol compatibility and
    /// not used.
    pub fn activate_result(&self, id: &str, _terms: &Vec<String>, _timestamp: u32) -> (r: Result<
        LaunchRequest,
        SessionError,
    >)
        requires
            self.wf(),
        ensures
            find_item(self@.items, id@) matches Some(c) ==> ({
                &&& r matches Ok(req)
                &&& req.app_id@ == self@.app_id
                &&& req.uri matches Some(u)
                &&& u@ == c.2
            }),
            find_item(self@.items, id@) is None ==> ({
                &&& r matches Err(e)
                &&& e matches SessionError::ResultNotFound(missing)
                &&& missing@ == id@
            }),
    {
        proof {
            lemma_find_item_props(self@.items, id@);
        }
        match result_set_get(&self.items, id) {
            Some(item) => Ok(
                LaunchRequest { app_id: self.app.id.clone(), uri: Some(item.uri.clone()) },
            ),
            None => Err(SessionError::ResultNotFound(id.to_owned())),
        }
    }

    /// Launch the app itself, with no argument: the request carries no
    /// locator. Both arguments are accepted for protocol compatibility and
    /// ignored.
    pub fn launch_search(&self, _terms: &Vec<String>, _timestamp: u32) -> (r: LaunchRequest)
        ensures
            r.app_id@ == self@.app_id,
            r.uri is None,
    {
        LaunchRequest { app_id: self.app.id.clone(), uri: None }
    }
}

/// Interpret the launcher's report after a launch request was performed:
/// success passes through; failure is surfaced as `LaunchFailed` carrying
/// the launcher's detail.
pub fn launch_outcome(outcome: Result<(), String>) -> (r: Result<(), SessionError>)
    ensures
        outcome is Ok ==> r is Ok,
        outcome matches Err(detail) ==> ({
            &&& r matches Err(e)
            &&& e matches SessionError::LaunchFailed(msg)
            &&& msg@ == detail@
        }),
{
    match outcome {
        Ok(()) => Ok(()),
        Err(detail) => Err(SessionError::LaunchFailed(detail)),
    }
}

/// Build the `(id, item)` candidate list of a result set, in its insertion
/// order.
fn collect_candidates(m: &IndexMap<String, LaunchItem>) -> (c: Vec<(String, LaunchItem)>)
    ensures
        cands_of_pairs(c@) == entries(*m),
{
    let n = result_set_len(m);
    let mut c: Vec<(String, LaunchItem)> = Vec::new();
    let mut i: usize = 0;
    while i < n
        invariant
            i <= n,
            n == entries(*m).len(),
            cands_of_pairs(c@) == entries(*m).take(i as int),
        decreases n - i,
    {
        match result_set_index(m, i) {
            Some(pair) => {
                let ghost cb = c@;
                proof {
                    assert(cb.len() == cands_of_pairs(cb).len());
                }
                c.push((pair.0.clone(), pair.1.duplicate()));
                proof {
                    assert forall|k: int|
                        0 <= k < cands_of_pairs(c@).len() implies cands_of_pairs(c@)[k] == entries(
                        *m,
                    ).take(i + 1)[k] by {
                        if k < i {
                            assert(c@[k] == cb[k]);
                            assert(cands_of_pairs(cb)[k] == entries(*m).take(i as int)[k]);
                        } else {
                            assert((c@[k].1.name@, c@[k].1.uri@) == pair.1@);
                        }
                    }
                    assert(cands_of_pairs(c@) =~= entries(*m).take(i + 1));
                }
            },
            None => {
                proof {
                    assert(false);
                }
            },
        }
        i = i + 1;
    }
    proof {
        assert(entries(*m).take(n as int) =~= entries(*m));
    }
    c
}

/// A found entry is an entry of the set and carries the sought id.
proof fn lemma_find_item_member(items: Seq<Cand>, id: Seq<char>)
    ensures
        find_item(items, id) matches Some(c) ==> items.contains(c) && c.0 == id,
    decreases items.len(),
{
    if items.len() == 0 {
    } else if items[0].0 == id {
        assert(items.contains(items[0]));
    } else {
        let rest = items.drop_first();
        lemma_find_item_member(rest, id);
        match find_item(items, id) {
            Some(c) => {
                assert(rest.contains(c));
                let j = choose|j: int| 0 <= j < rest.len() && rest[j] == c;
                assert(items[j + 1] == c);
            },
            None => {},
        }
    }
}

/// Every refinement candidate is an entry of the installed set whose id
/// occurs among the previous ids.
proof fn lemma_selected_elems(items: Seq<Cand>, prev: Seq<Seq<char>>)
    ensures
        forall|j: int|
            0 <= j < selected(items, prev).len() ==> items.contains(
                #[trigger] selected(items, prev)[j],
            ) && prev.contains(selected(items, prev)[j].0),
    decreases prev.len(),
{
    if prev.len() == 0 {
    } else {
        let pre = prev.drop_last();
        lemma_selected_elems(items, pre);
        lemma_find_item_member(items, prev.last());
        let rest = selected(items, pre);
        let s = selected(items, prev);
        assert forall|j: int|
            0 <= j < s.len() implies items.contains(#[trigger] s[j]) && prev.contains(
            s[j].0,
        ) by {
            if j < rest.len() {
                assert(s[j] == rest[j]);
                assert(pre.contains(rest[j].0));
                let p = choose|p: int| 0 <= p < pre.len() && pre[p] == rest[j].0;
                assert(prev[p] == rest[j].0);
            } else {
                match find_item(items, prev.last()) {
                    Some(c) => {
                        assert(s[j] == c);
                        assert(prev[prev.len() - 1] == c.0);
                    },
                    None => {},
                }
            }
        }
    }
}

/// Law: refinement output is contained in both its inputs. Every id the
/// refinement ranking returns occurs among the previous ids and names an
/// entry of the installed set; an id absent from the set never appears.
pub proof fn lemma_refine_subset(items: Seq<Cand>, prev: Seq<Seq<char>>, terms: Seq<Seq<char>>)
    ensures
        forall|k: int|
            0 <= k < rank_ids(selected(items, prev), terms).len() ==> prev.contains(
                #[trigger] rank_ids(selected(items, prev), terms)[k],
            ) && exists|j: int|
                0 <= j < items.len() && (#[trigger] items[j]).0 == rank_ids(
                    selected(items, prev),
                    terms,
                )[k],
{
    let sel = selected(items, prev);
    lemma_rank_entries_props(sel, terms);
    lemma_selected_elems(items, prev);
    assert forall|k: int|
        0 <= k < rank_ids(sel, terms).len() implies prev.contains(
        #[trigger] rank_ids(sel, terms)[k],
    ) && exists|j: int|
        0 <= j < items.len() && (#[trigger] items[j]).0 == rank_ids(sel, terms)[k] by {
        let e = rank_entries(sel, terms)[k];
        assert(entry_valid(sel, terms, e));
        assert(rank_ids(sel, terms)[k] == e.2);
        assert(items.contains(sel[e.1]));
        let j = choose|j: int| 0 <= j < items.len() && items[j] == sel[e.1];
        assert(items[j].0 == e.2);
        assert(prev.contains(sel[e.1].0));
    }
}

/// Law: metadata output is at most as long as its input, each emitted
/// record's id is drawn from the requested ids and names an entry of the
/// installed set, and unknown ids contribute nothing.
pub proof fn lemma_metas_shape(items: Seq<Cand>, ids: Seq<Seq<char>>, icon: Seq<char>)
    ensures
        metas_spec(items, ids, icon).len() <= ids.len(),
        forall|k: int|
            0 <= k < metas_spec(items, ids, icon).len() ==> ids.contains(
                (#[trigger] metas_spec(items, ids, icon)[k]).0,
            ) && exists|j: int|
                0 <= j < items.len() && (#[trigger] items[j]).0 == metas_spec(
                    items,
                    ids,
                    icon,
                )[k].0,
    decreases ids.len(),
{
    if ids.len() == 0 {
    } else {
        let pre = ids.drop_last();
        lemma_metas_shape(items, pre, icon);
        lemma_find_item_member(items, ids.last());
        let rest = metas_spec(items, pre, icon);
        let s = metas_spec(items, ids, icon);
        assert forall|k: int|
            0 <= k < s.len() implies ids.contains((#[trigger] s[k]).0) && exists|j: int|
            0 <= j < items.len() && (#[trigger] items[j]).0 == s[k].0 by {
            if k < rest.len() {
                assert(s[k] == rest[k]);
                assert(pre.contains(rest[k].0));
                let p = choose|p: int| 0 <= p < pre.len() && pre[p] == rest[k].0;
                assert(ids[p] == rest[k].0);
            } else {
                match find_item(items, ids.last()) {
                    Some(c) => {
                        assert(s[k] == (c.0, c.1, icon, c.2));
                        assert(ids[ids.len() - 1] == c.0);
                        assert(items.contains(c));
                        let j = choose|j: int| 0 <= j < items.len() && items[j] == c;
                        assert(items[j].0 == c.0);
                    },
                    None => {},
                }
            }
        }
    }
}

/// Law: a completed fetch is installed only when its generation is still
/// the newest requested; any other completion changes nothing, and the
/// applied generation never moves backwards.
pub proof fn lemma_apply_gated(v: ProviderView, g: nat, d: Seq<Cand>)
    requires
        v.applied <= v.latest,
    ensures
        g != v.latest ==> apply_completion(v, g, d) == v,
        apply_completion(v, g, d).applied >= v.applied,
        apply_completion(v, g, d).latest == v.latest,
{
}

/// Law: the applied state follows the most recently requested generation,
/// whatever the completion order. After two searches are begun in turn and
/// both their fetches complete — in either order — the installed set is the
/// one fetched for the later request: a slow, stale fetch never clobbers a
/// newer one.
pub proof fn lemma_latest_request_wins(v: ProviderView, d1: Seq<Cand>, d2: Seq<Cand>)
    ensures
        ({
            let w = begin_step(begin_step(v));
            let g1 = begin_step(v).latest;
            let g2 = w.latest;
            &&& apply_completion(apply_completion(w, g2, d2), g1, d1).items == d2
            &&& apply_completion(apply_completion(w, g2, d2), g1, d1).applied == g2
            &&& apply_completion(apply_completion(w, g1, d1), g2, d2).items == d2
            &&& apply_completion(apply_completion(w, g1, d1), g2, d2).applied == g2
        }),
{
}

/// `find_item` agrees with any one-entry evidence: a found entry is an entry
/// of the set with that id, an entry with the sought id means it is found,
/// and nothing is found exactly when no entry carries the id.
pub proof fn lemma_find_item_props(items: Seq<Cand>, id: Seq<char>)
    requires
        distinct_ids(items),
    ensures
        find_item(items, id) matches Some(c) ==> items.contains(c) && c.0 == id,
        forall|i: int|
            0 <= i < items.len() && (#[trigger] items[i]).0 == id ==> find_item(items, id)
                == Some(items[i]),
        find_item(items, id) is None <==> (forall|i: int|
            0 <= i < items.len() ==> (#[trigger] items[i]).0 != id),
    decreases items.len(),
{
    if items.len() == 0 {
    } else if items[0].0 == id {
    } else {
        let rest = items.drop_first();
        assert forall|i: int, j: int| 0 <= i < j < rest.len() implies (#[trigger] rest[i]).0 != (
        #[trigger] rest[j]).0 by {
            assert(items[i + 1].0 != items[j + 1].0);
        }
        lemma_find_item_props(rest, id);
        assert forall|i: int|
            0 <= i < items.len() && (#[trigger] items[i]).0 == id implies find_item(items, id)
            == Some(items[i]) by {
            assert(i > 0);
            assert(rest[i - 1] == items[i]);
        }
        match find_item(items, id) {
            Some(c) => {
                assert(rest.contains(c));
                let j = choose|j: int| 0 <= j < rest.len() && rest[j] == c;
                assert(items[j + 1] == c);
            },
            None => {},
        }
        if find_item(items, id) is None {
            assert forall|i: int| 0 <= i < items.len() implies (#[trigger] items[i]).0 != id by {
                if i > 0 {
                    assert(rest[i - 1] == items[i]);
                }
            }
        }
    }
}

} // verus!
