use vstd::prelude::*;

use crate::feed::{feed_of, parse_feed};
use crate::fetch::{distinct_urls, FetchOutcome, Fetcher, Orchestrator, TimeoutPolicy};
use crate::identity::{assign, feed_id_of};
use crate::records::{
    parse_podcasts, podcast_csv, podcast_views, spec_parse_podcasts, write_podcasts, Podcast,
    PodcastV,
};
use crate::text::{string_views, trim, trim_spec};

verus! {

/// The per-request timeout for feed documents: a small bound suitable for
/// text, not for media downloads.
pub const FEED_TIMEOUT_SECS: u64 = 10;

/// Whether the catalog already tracks `url` as a feed URL.
pub open spec fn is_known(subs: Seq<PodcastV>, url: Seq<char>) -> bool {
    exists|i: int| 0 <= i < subs.len() && (#[trigger] subs[i]).rss_url == url
}

/// The URLs an add request fetches: each requested value trimmed, already
/// tracked URLs silently skipped, repeats kept once, in request order.
pub open spec fn spec_plan(subs: Seq<PodcastV>, reqs: Seq<Seq<char>>) -> Seq<Seq<char>>
    decreases reqs.len(),
{
    if reqs.len() == 0 {
        Seq::empty()
    } else {
        let rest = spec_plan(subs, reqs.drop_last());
        let t = trim_spec(reqs.last());
        if is_known(subs, t) || rest.contains(t) {
            rest
        } else {
            rest.push(t)
        }
    }
}

/// The subscriptions built from a fetch batch: one per planned URL whose
/// fetch succeeded and whose payload parsed as a feed, carrying the feed's
/// title and site link, keyed by the identifier of the requested URL
/// itself.
pub open spec fn spec_new_podcasts(planned: Seq<Seq<char>>, outs: Seq<FetchOutcome>) -> Seq<
    PodcastV,
>
    decreases planned.len(),
{
    if planned.len() == 0 || planned.len() != outs.len() {
        Seq::empty()
    } else {
        let rest = spec_new_podcasts(planned.drop_last(), outs.drop_last());
        match outs.last() {
            FetchOutcome::Success(body) => match feed_of(body@) {
                Some(f) => rest.push(
                    PodcastV {
                        id: feed_id_of(planned.last()),
                        url: f.link@,
                        rss_url: planned.last(),
                        title: f.title@,
                    },
                ),
                None => rest,
            },
            _ => rest,
        }
    }
}

/// What remove keeps: the records whose feed URL matches none of the
/// requested values, in storage order. Values that match nothing are
/// silently ignored.
pub open spec fn spec_filter_remove(subs: Seq<PodcastV>, values: Seq<Seq<char>>) -> Seq<PodcastV>
    decreases subs.len(),
{
    if subs.len() == 0 {
        Seq::empty()
    } else {
        let rest = spec_filter_remove(subs.drop_last(), values);
        if values.contains(subs.last().rss_url) {
            rest
        } else {
            rest.push(subs.last())
        }
    }
}

/// A planned batch never holds the same URL twice.
pub proof fn lemma_spec_plan_distinct(subs: Seq<PodcastV>, reqs: Seq<Seq<char>>)
    ensures
        distinct_urls(spec_plan(subs, reqs)),
    decreases reqs.len(),
{
    if reqs.len() == 0 {
    } else {
        lemma_spec_plan_distinct(subs, reqs.drop_last());
        let rest = spec_plan(subs, reqs.drop_last());
        let t = trim_spec(reqs.last());
        if !(is_known(subs, t) || rest.contains(t)) {
            let whole = rest.push(t);
            assert forall|i: int, j: int| 0 <= i < j < whole.len() implies whole[i] != whole[j] by {
                if j < rest.len() {
                    assert(whole[i] == rest[i] && whole[j] == rest[j]);
                } else {
                    assert(whole[j] == t && whole[i] == rest[i]);
                    if rest[i] == t {
                        assert(rest.contains(t));
                    }
                }
            }
        }
    }
}

/// Idempotent subscribe: when every requested URL is already tracked,
/// add plans no fetch at all and appends no rows, whatever the fetch
/// stage would have answered.
pub proof fn lemma_add_idempotent(subs: Seq<PodcastV>, reqs: Seq<Seq<char>>)
    requires
        forall|i: int| 0 <= i < reqs.len() ==> is_known(subs, trim_spec(#[trigger] reqs[i])),
    ensures
        spec_plan(subs, reqs) == Seq::<Seq<char>>::empty(),
        forall|outs: Seq<FetchOutcome>, h: bool|
            #![trigger podcast_csv(spec_new_podcasts(spec_plan(subs, reqs), outs), h)]
            podcast_csv(spec_new_podcasts(spec_plan(subs, reqs), outs), h) == Seq::<u8>::empty(),
    decreases reqs.len(),
{
    if reqs.len() == 0 {
        assert(spec_plan(subs, reqs) =~= Seq::<Seq<char>>::empty());
    } else {
        assert(forall|i: int|
            0 <= i < reqs.drop_last().len() ==> #[trigger] reqs.drop_last()[i] == reqs[i]);
        lemma_add_idempotent(subs, reqs.drop_last());
        assert(is_known(subs, trim_spec(reqs.last())));
        assert(spec_plan(subs, reqs) == spec_plan(subs, reqs.drop_last()));
    }
}

/// Pushing a record extends the tracked URLs by exactly its feed URL.
pub proof fn lemma_known_push(subs: Seq<PodcastV>, p: PodcastV, u: Seq<char>)
    ensures
        is_known(subs.push(p), u) <==> (is_known(subs, u) || p.rss_url == u),
{
    if is_known(subs.push(p), u) {
        let k = choose|k: int|
            0 <= k < subs.push(p).len() && (#[trigger] subs.push(p)[k]).rss_url == u;
        if k < subs.len() {
            assert(subs[k].rss_url == u);
            assert(is_known(subs, u));
        } else {
            assert(subs.push(p)[k] == p);
        }
    }
    if is_known(subs, u) {
        let k = choose|k: int| 0 <= k < subs.len() && (#[trigger] subs[k]).rss_url == u;
        assert(subs.push(p)[k].rss_url == u);
        assert(is_known(subs.push(p), u));
    }
    if p.rss_url == u {
        assert(subs.push(p)[subs.len() as int].rss_url == u);
        assert(is_known(subs.push(p), u));
    }
}

/// A planned URL whose fetch succeeded and whose payload parsed ends up
/// tracked by the records the add run builds; with the no-op law below,
/// adding such a URL a second time therefore plans nothing.
pub proof fn lemma_add_tracks_fetched(planned: Seq<Seq<char>>, outs: Seq<FetchOutcome>, k: int)
    requires
        planned.len() == outs.len(),
        0 <= k < planned.len(),
        outs[k] matches FetchOutcome::Success(b) && feed_of(b@) is Some,
    ensures
        is_known(spec_new_podcasts(planned, outs), planned[k]),
    decreases planned.len(),
{
    let rows = spec_new_podcasts(planned, outs);
    if k == planned.len() - 1 {
        assert(outs.last() == outs[k]);
        assert(planned.last() == planned[k]);
        let rest = spec_new_podcasts(planned.drop_last(), outs.drop_last());
        match outs.last() {
            FetchOutcome::Success(body) => {
                match feed_of(body@) {
                    Some(f) => {
                        assert(rows.last().rss_url == planned[k]);
                        assert(is_known(rows, planned[k]));
                    },
                    None => {},
                }
            },
            _ => {},
        }
    } else {
        assert(planned.drop_last()[k] == planned[k]);
        assert(outs.drop_last()[k] == outs[k]);
        lemma_add_tracks_fetched(planned.drop_last(), outs.drop_last(), k);
        let rest = spec_new_podcasts(planned.drop_last(), outs.drop_last());
        match outs.last() {
            FetchOutcome::Success(body) => {
                match feed_of(body@) {
                    Some(f) => {
                        lemma_known_push(
                            rest,
                            PodcastV {
                                id: feed_id_of(planned.last()),
                                url: f.link@,
                                rss_url: planned.last(),
                                title: f.title@,
                            },
                            planned[k],
                        );
                    },
                    None => {},
                }
            },
            _ => {},
        }
    }
}

/// The second add of the same URL is a no-op: once a catalog tracks the
/// trimmed URL, planning it again plans nothing.
pub proof fn lemma_second_add_no_op(subs: Seq<PodcastV>, u: Seq<char>)
    requires
        is_known(subs, trim_spec(u)),
    ensures
        spec_plan(subs, seq![u]) == Seq::<Seq<char>>::empty(),
{
    let reqs = seq![u];
    assert(reqs.drop_last() =~= Seq::<Seq<char>>::empty());
    assert(spec_plan(subs, reqs.drop_last()) =~= Seq::<Seq<char>>::empty());
    assert(reqs.last() == u);
}

/// Remove completeness: removing a value set that covers every stored
/// feed URL leaves a catalog with zero data rows, and writing it back
/// yields no bytes at all.
pub proof fn lemma_remove_all(subs: Seq<PodcastV>, values: Seq<Seq<char>>)
    requires
        forall|i: int| 0 <= i < subs.len() ==> values.contains((#[trigger] subs[i]).rss_url),
    ensures
        spec_filter_remove(subs, values) == Seq::<PodcastV>::empty(),
        podcast_csv(spec_filter_remove(subs, values), true) == Seq::<u8>::empty(),
    decreases subs.len(),
{
    if subs.len() == 0 {
        assert(spec_filter_remove(subs, values) =~= Seq::<PodcastV>::empty());
    } else {
        assert(forall|i: int|
            0 <= i < subs.drop_last().len() ==> #[trigger] subs.drop_last()[i] == subs[i]);
        lemma_remove_all(subs.drop_last(), values);
        assert(values.contains(subs.last().rss_url));
    }
}

/// Listing an empty subscription catalog yields nothing.
pub proof fn lemma_list_podcasts_empty()
    ensures
        spec_parse_podcasts(Seq::empty()) == Seq::<PodcastV>::empty(),
{
    assert(spec_parse_podcasts(Seq::empty()) =~= Seq::<PodcastV>::empty());
}

/// Whether the catalog already tracks `url`.
pub(crate) fn known_url(saved: &Vec<Podcast>, url: &String) -> (r: bool)
    ensures
        r == is_known(podcast_views(saved@), url@),
{
    let ghost subs = podcast_views(saved@);
    let mut i: usize = 0;
    while i < saved.len()
        invariant
            0 <= i <= saved@.len(),
            subs == podcast_views(saved@),
            forall|j: int| 0 <= j < i ==> (#[trigger] subs[j]).rss_url != url@,
        decreases saved@.len() - i,
    {
        assert(subs[i as int] == saved@[i as int]@);
        if saved[i].rss_url == *url {
            assert(is_known(subs, url@));
            return true;
        }
        i += 1;
    }
    false
}

/// Whether one of `values` reads as `s`.
fn contains_string(values: &Vec<String>, s: &String) -> (r: bool)
    ensures
        r == string_views(values@).contains(s@),
{
    let ghost vs = string_views(values@);
    let mut i: usize = 0;
    while i < values.len()
        invariant
            0 <= i <= values@.len(),
            vs == string_views(values@),
            forall|j: int| 0 <= j < i ==> (#[trigger] vs[j]) != s@,
        decreases values@.len() - i,
    {
        assert(vs[i as int] == values@[i as int]@);
        if values[i] == *s {
            assert(vs.contains(s@));
            return true;
        }
        i += 1;
    }
    assert(!vs.contains(s@));
    false
}

/// The subscription flows: add, remove and list, over catalog bytes and
/// plain values, with the fetch stage injected at construction.
pub struct Podcasts<'a, F: Fetcher> {
    pub orchestrator: Orchestrator<'a, F>,
}

impl<'a, F: Fetcher> Podcasts<'a, F> {
    pub fn new(fetcher: &'a F, workers: usize) -> (r: Self)
        ensures
            r.orchestrator.workers == workers,
    {
        Self { orchestrator: Orchestrator::new(fetcher, workers) }
    }

    /// The URLs an add request will fetch: requested values trimmed,
    /// already-tracked and repeated ones skipped.
    pub fn plan_add(&self, saved: &Vec<Podcast>, requested: &Vec<String>) -> (r: Vec<String>)
        ensures
            string_views(r@) == spec_plan(podcast_views(saved@), string_views(requested@)),
    {
        let ghost subs = podcast_views(saved@);
        let ghost reqs = string_views(requested@);
        let mut out: Vec<String> = Vec::new();
        let mut i: usize = 0;
        assert(string_views(out@) =~= Seq::<Seq<char>>::empty());
        assert(reqs.take(0) =~= Seq::<Seq<char>>::empty());
        while i < requested.len()
            invariant
                0 <= i <= requested@.len(),
                subs == podcast_views(saved@),
                reqs == string_views(requested@),
                string_views(out@) == spec_plan(subs, reqs.take(i as int)),
            decreases requested@.len() - i,
        {
            assert(reqs[i as int] == requested@[i as int]@);
            let t = trim(requested[i].as_str());
            let skip = known_url(saved, &t) || contains_string(&out, &t);
            proof {
                assert(reqs.take(i + 1).drop_last() =~= reqs.take(i as int));
                assert(reqs.take(i + 1).last() == reqs[i as int]);
            }
            if !skip {
                let ghost prev = string_views(out@);
                let ghost tv = t@;
                out.push(t);
                assert(string_views(out@) =~= prev.push(tv));
            }
            i += 1;
        }
        assert(reqs.take(requested@.len() as int) =~= reqs);
        out
    }

    /// Add: loads the catalog, plans the fetch, fetches the planned URLs
    /// concurrently under the document timeout, builds one record per
    /// successfully fetched and parsed feed, and returns the bytes to
    /// append — with a header exactly when the catalog held no records.
    pub fn add(&self, catalog: &Vec<u8>, requested: &Vec<String>) -> (r: Vec<u8>)
        ensures
            ({
                let subs = spec_parse_podcasts(catalog@);
                let planned = spec_plan(subs, string_views(requested@));
                exists|outs: Seq<FetchOutcome>|
                    outs.len() == planned.len() && r@ == podcast_csv(
                        #[trigger] spec_new_podcasts(planned, outs),
                        subs.len() == 0,
                    )
            }),
    {
        let ghost subs = spec_parse_podcasts(catalog@);
        let saved = parse_podcasts(catalog);
        let planned = self.plan_add(&saved, requested);
        let ghost pv = string_views(planned@);
        proof {
            lemma_spec_plan_distinct(podcast_views(saved@), string_views(requested@));
        }
        let outcomes = self.orchestrator.fetch_batch(&planned, &TimeoutPolicy::Bounded(FEED_TIMEOUT_SECS));
        let ghost ov = outcomes@.map_values(|p: (String, FetchOutcome)| p.1);
        let mut rows: Vec<Podcast> = Vec::new();
        let mut i: usize = 0;
        assert(podcast_views(rows@) =~= Seq::<PodcastV>::empty());
        assert(pv.take(0) =~= Seq::<Seq<char>>::empty());
        assert(ov.take(0) =~= Seq::<FetchOutcome>::empty());
        while i < outcomes.len()
            invariant
                0 <= i <= outcomes@.len(),
                outcomes@.len() == planned@.len(),
                pv == string_views(planned@),
                ov == outcomes@.map_values(|p: (String, FetchOutcome)| p.1),
                forall|j: int|
                    0 <= j < outcomes@.len() ==> (#[trigger] outcomes@[j].0)@ == planned@[j]@,
                podcast_views(rows@) == spec_new_podcasts(pv.take(i as int), ov.take(i as int)),
            decreases outcomes@.len() - i,
        {
            proof {
                assert(pv.take(i + 1).drop_last() =~= pv.take(i as int));
                assert(ov.take(i + 1).drop_last() =~= ov.take(i as int));
                assert(pv.take(i + 1).last() == pv[i as int]);
                assert(ov.take(i + 1).last() == ov[i as int]);
                assert(ov[i as int] == outcomes@[i as int].1);
                assert(pv[i as int] == planned@[i as int]@);
            }
            let url = &outcomes[i].0;
            match &outcomes[i].1 {
                FetchOutcome::Success(body) => {
                    match parse_feed(body) {
                        Some(feed) => {
                            let id = assign(url.as_str());
                            let ghost prev = podcast_views(rows@);
                            let row = Podcast {
                                id,
                                url: feed.link,
                                rss_url: url.clone(),
                                title: feed.title,
                            };
                            let ghost rv = row@;
                            rows.push(row);
                            assert(podcast_views(rows@) =~= prev.push(rv));
                        },
                        None => {},
                    }
                },
                _ => {},
            }
            i += 1;
        }
        proof {
            assert(pv.take(outcomes@.len() as int) =~= pv);
            assert(ov.take(outcomes@.len() as int) =~= ov);
        }
        let r = write_podcasts(&rows, saved.len() == 0);
        proof {
            assert(podcast_views(saved@).len() == saved@.len());
            assert(subs.len() == 0 <==> saved@.len() == 0);
            assert(ov.len() == spec_plan(subs, string_views(requested@)).len() && r@
                == podcast_csv(
                spec_new_podcasts(spec_plan(subs, string_views(requested@)), ov),
                subs.len() == 0,
            ));
        }
        r
    }

    /// Remove: keeps exactly the records whose feed URL matches none of
    /// the requested values and returns the catalog content to write
    /// back whole, headed when any record remains.
    pub fn remove(&self, catalog: &Vec<u8>, values: &Vec<String>) -> (r: Vec<u8>)
        ensures
            r@ == podcast_csv(
                spec_filter_remove(spec_parse_podcasts(catalog@), string_views(values@)),
                true,
            ),
    {
        let saved = parse_podcasts(catalog);
        let ghost subs = podcast_views(saved@);
        let ghost vs = string_views(values@);
        let mut kept: Vec<Podcast> = Vec::new();
        let mut i: usize = 0;
        assert(podcast_views(kept@) =~= Seq::<PodcastV>::empty());
        assert(subs.take(0) =~= Seq::<PodcastV>::empty());
        while i < saved.len()
            invariant
                0 <= i <= saved@.len(),
                subs == podcast_views(saved@),
                vs == string_views(values@),
                podcast_views(kept@) == spec_filter_remove(subs.take(i as int), vs),
            decreases saved@.len() - i,
        {
            proof {
                assert(subs.take(i + 1).drop_last() =~= subs.take(i as int));
                assert(subs.take(i + 1).last() == subs[i as int]);
                assert(subs[i as int] == saved@[i as int]@);
            }
            if !contains_string(values, &saved[i].rss_url) {
                let ghost prev = podcast_views(kept@);
                let row = saved[i].duplicate();
                let ghost rv = row@;
                kept.push(row);
                assert(podcast_views(kept@) =~= prev.push(rv));
            }
            i += 1;
        }
        assert(subs.take(saved@.len() as int) =~= subs);
        write_podcasts(&kept, true)
    }

    /// List: every record of the catalog, in storage order.
    pub fn list(&self, catalog: &Vec<u8>) -> (r: Vec<Podcast>)
        ensures
            podcast_views(r@) == spec_parse_podcasts(catalog@),
    {
        parse_podcasts(catalog)
    }
}

} // verus!
