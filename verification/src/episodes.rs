use vstd::prelude::*;
use vstd::string::StringExecFns;

use crate::feed::{feed_of, parse_feed, Feed, FeedItem};
use crate::fetch::{FetchOutcome, Fetcher, Orchestrator, TimeoutPolicy};
use crate::podcasts::{is_known, known_url, lemma_known_push, FEED_TIMEOUT_SECS};
use crate::records::{
    episode_csv, episode_views, parse_episodes, podcast_views, spec_parse_episodes,
    write_episodes, Episode, EpisodeV, Podcast, PodcastV,
};
use crate::text::string_views;

verus! {

// --- From feed document to episode rows ---

/// The episode a feed entry yields for a subscription: only entries with
/// a non-empty guid, publish date and title are included; a missing link
/// is tolerated and replaced by a placeholder.
pub open spec fn spec_episode_of_item(it: FeedItem, podcast_title: Seq<char>, podcast_id: u64) -> Option<EpisodeV> {
    match it.guid {
        Some(g) => match it.title {
            Some(t) => match it.pub_date {
                Some(d) => if g@.len() > 0 && t@.len() > 0 && d@.len() > 0 {
                    Some(
                        EpisodeV {
                            guid: g@,
                            title: t@,
                            pub_date: d@,
                            link: match it.link {
                                Some(l) => l@,
                                None => "-"@,
                            },
                            podcast: podcast_title,
                            podcast_id,
                        },
                    )
                } else {
                    None
                },
                None => None,
            },
            None => None,
        },
        None => None,
    }
}

/// The episode rows a parsed feed yields, in document order.
pub open spec fn spec_feed_episodes(
    items: Seq<FeedItem>,
    podcast_title: Seq<char>,
    podcast_id: u64,
) -> Seq<EpisodeV>
    decreases items.len(),
{
    if items.len() == 0 {
        Seq::empty()
    } else {
        let rest = spec_feed_episodes(items.drop_last(), podcast_title, podcast_id);
        match spec_episode_of_item(items.last(), podcast_title, podcast_id) {
            Some(e) => rest.push(e),
            None => rest,
        }
    }
}

/// Extracts the episode rows of a parsed feed for one subscription,
/// keeping document order; the subscription's identifier and the feed's
/// own title label every row.
pub fn episodes_from_feed(feed: &Feed, podcast_id: u64) -> (r: Vec<Episode>)
    ensures
        episode_views(r@) == spec_feed_episodes(feed.items@, feed.title@, podcast_id),
{
    let mut out: Vec<Episode> = Vec::new();
    let mut i: usize = 0;
    let ghost items = feed.items@;
    assert(episode_views(out@) =~= Seq::<EpisodeV>::empty());
    assert(items.take(0) =~= Seq::<FeedItem>::empty());
    while i < feed.items.len()
        invariant
            0 <= i <= items.len(),
            items == feed.items@,
            episode_views(out@) == spec_feed_episodes(
                items.take(i as int),
                feed.title@,
                podcast_id,
            ),
        decreases items.len() - i,
    {
        proof {
            assert(items.take(i + 1).drop_last() =~= items.take(i as int));
            assert(items.take(i + 1).last() == items[i as int]);
        }
        let it = &feed.items[i];
        match (&it.guid, &it.title, &it.pub_date) {
            (Some(g), Some(t), Some(d)) => {
                if !g.as_str().is_empty() && !t.as_str().is_empty() && !d.as_str().is_empty() {
                    let link = match &it.link {
                        Some(l) => l.clone(),
                        None => String::from_str("-"),
                    };
                    let row = Episode {
                        guid: g.clone(),
                        title: t.clone(),
                        pub_date: d.clone(),
                        link,
                        podcast: feed.title.clone(),
                        podcast_id,
                    };
                    let ghost prev = episode_views(out@);
                    let ghost rv = row@;
                    out.push(row);
                    assert(episode_views(out@) =~= prev.push(rv));
                }
            },
            _ => {},
        }
        i += 1;
    }
    assert(items.take(items.len() as int) =~= items);
    out
}

// --- File names for downloaded episodes ---

/// The name a downloaded episode file gets: the subscription title and
/// the episode title, joined by an underscore, with the media suffix.
pub open spec fn spec_filename(e: EpisodeV) -> Seq<char> {
    e.podcast + "_"@ + e.title + ".mp3"@
}

/// Builds the download file name of an episode.
pub fn episode_filename(e: &Episode) -> (r: String)
    ensures
        r@ == spec_filename(e@),
{
    let r = e.podcast.clone().concat("_").concat(e.title.as_str()).concat(".mp3");
    assert(r@ =~= spec_filename(e@));
    r
}

// --- Selecting episodes for download ---

/// Whether some episode of `eps` points at link `l`.
pub open spec fn has_link(eps: Seq<EpisodeV>, l: Seq<char>) -> bool {
    exists|i: int| 0 <= i < eps.len() && (#[trigger] eps[i]).link == l
}

/// The guid list of a download request, as character sequences.
pub open spec fn guid_views(guids: Option<&Vec<String>>) -> Option<Seq<Seq<char>>> {
    match guids {
        Some(g) => Some(string_views(g@)),
        None => None,
    }
}

/// The episodes matching an explicit guid list, in catalog order; with no
/// list, every episode.
pub open spec fn spec_filter_guids(eps: Seq<EpisodeV>, guids: Option<Seq<Seq<char>>>) -> Seq<
    EpisodeV,
>
    decreases eps.len(),
{
    match guids {
        None => eps,
        Some(gs) => {
            if eps.len() == 0 {
                Seq::empty()
            } else {
                let rest = spec_filter_guids(eps.drop_last(), guids);
                if gs.contains(eps.last().guid) {
                    rest.push(eps.last())
                } else {
                    rest
                }
            }
        },
    }
}

/// At most the first `count` episodes, when a count is given.
pub open spec fn spec_take_count(eps: Seq<EpisodeV>, count: Option<usize>) -> Seq<EpisodeV> {
    match count {
        None => eps,
        Some(n) => if (n as int) < eps.len() {
            eps.take(n as int)
        } else {
            eps
        },
    }
}

/// Episodes sharing a link are kept once, first occurrence winning.
pub open spec fn spec_dedup_links(eps: Seq<EpisodeV>) -> Seq<EpisodeV>
    decreases eps.len(),
{
    if eps.len() == 0 {
        Seq::empty()
    } else {
        let rest = spec_dedup_links(eps.drop_last());
        if has_link(rest, eps.last().link) {
            rest
        } else {
            rest.push(eps.last())
        }
    }
}

/// What a download request selects: the guid-matching episodes (or all,
/// when no guids are given), limited to the first `count` of them when a
/// count is given, then de-duplicated by link.
pub open spec fn spec_select(
    eps: Seq<EpisodeV>,
    guids: Option<Seq<Seq<char>>>,
    count: Option<usize>,
) -> Seq<EpisodeV> {
    spec_dedup_links(spec_take_count(spec_filter_guids(eps, guids), count))
}

/// No two selected episodes share a link.
pub proof fn lemma_dedup_links_distinct(eps: Seq<EpisodeV>)
    ensures
        forall|i: int, j: int|
            0 <= i < j < spec_dedup_links(eps).len() ==> (#[trigger] spec_dedup_links(eps)[i]).link
                != (#[trigger] spec_dedup_links(eps)[j]).link,
    decreases eps.len(),
{
    if eps.len() == 0 {
    } else {
        lemma_dedup_links_distinct(eps.drop_last());
        let rest = spec_dedup_links(eps.drop_last());
        if !has_link(rest, eps.last().link) {
            let whole = rest.push(eps.last());
            assert forall|i: int, j: int| 0 <= i < j < whole.len() implies (#[trigger] whole[i]).link
                != (#[trigger] whole[j]).link by {
                if j < rest.len() {
                    assert(whole[i] == rest[i] && whole[j] == rest[j]);
                } else {
                    assert(whole[j] == eps.last() && whole[i] == rest[i]);
                    if rest[i].link == eps.last().link {
                        assert(has_link(rest, eps.last().link));
                    }
                }
            }
        }
    }
}

/// Whether one of `values` reads as `s` (guid matching).
fn contains_value(values: &Vec<String>, s: &String) -> (r: bool)
    ensures
        r == string_views(values@).contains(s@),
{
    let ghost vs = string_views(values@);
    let mut i: usize = 0;
    while i < values.len()
        invariant
            0 <= i <= values@.len(),
            vs == string_views(values@),
            forall|j: int| 0 <= j < i ==> (#[trigger] vs[j]) != s@,
        decreases values@.len() - i,
    {
        assert(vs[i as int] == values@[i as int]@);
        if values[i] == *s {
            assert(vs.contains(s@));
            return true;
        }
        i += 1;
    }
    assert(!vs.contains(s@));
    false
}

/// Whether one of `sel` already points at link `l`.
fn contains_link(sel: &Vec<Episode>, l: &String) -> (r: bool)
    ensures
        r == has_link(episode_views(sel@), l@),
{
    let ghost ev = episode_views(sel@);
    let mut i: usize = 0;
    while i < sel.len()
        invariant
            0 <= i <= sel@.len(),
            ev == episode_views(sel@),
            forall|j: int| 0 <= j < i ==> (#[trigger] ev[j]).link != l@,
        decreases sel@.len() - i,
    {
        assert(ev[i as int] == sel@[i as int]@);
        if sel[i].link == *l {
            assert(has_link(ev, l@));
            return true;
        }
        i += 1;
    }
    false
}

/// Selects the episodes a download request asks for: explicit guids, a
/// count of the first stored ones, or everything; episodes sharing a
/// link are selected once.
pub fn select_episodes(eps: &Vec<Episode>, guids: Option<&Vec<String>>, count: Option<usize>) -> (r:
    Vec<Episode>)
    ensures
        episode_views(r@) == spec_select(episode_views(eps@), guid_views(guids), count),
{
    let ghost ev = episode_views(eps@);
    let ghost gv = guid_views(guids);
    // guid filter
    let mut matched: Vec<Episode> = Vec::new();
    let mut i: usize = 0;
    assert(episode_views(matched@) =~= Seq::<EpisodeV>::empty());
    assert(ev.take(0) =~= Seq::<EpisodeV>::empty());
    while i < eps.len()
        invariant
            0 <= i <= eps@.len(),
            ev == episode_views(eps@),
            gv == guid_views(guids),
            episode_views(matched@) == spec_filter_guids(ev.take(i as int), gv),
        decreases eps@.len() - i,
    {
        proof {
            assert(ev.take(i + 1).drop_last() =~= ev.take(i as int));
            assert(ev.take(i + 1).last() == ev[i as int]);
            assert(ev[i as int] == eps@[i as int]@);
        }
        let keep = match guids {
            Some(gs) => contains_value(gs, &eps[i].guid),
            None => true,
        };
        if keep {
            let ghost prev = episode_views(matched@);
            let row = eps[i].duplicate();
            let ghost rv = row@;
            matched.push(row);
            assert(episode_views(matched@) =~= prev.push(rv));
        }
        proof {
            if gv is None {
                assert(ev.take(i + 1) =~= ev.take(i as int).push(ev[i as int]));
                assert(episode_views(matched@) =~= spec_filter_guids(ev.take(i + 1), gv));
            }
        }
        i += 1;
    }
    assert(ev.take(eps@.len() as int) =~= ev);
    // count limit
    if let Some(n) = count {
        if n < matched.len() {
            matched.truncate(n);
            assert(episode_views(matched@) =~= spec_take_count(
                spec_filter_guids(ev, gv),
                count,
            )) by {
                assert(matched@.map_values(|e: Episode| e@) =~= spec_filter_guids(
                    ev,
                    gv,
                ).take(n as int));
            }
        }
    }
    assert(episode_views(matched@) == spec_take_count(spec_filter_guids(ev, gv), count));
    // de-duplicate by link
    let ghost mv = episode_views(matched@);
    let mut sel: Vec<Episode> = Vec::new();
    let mut i: usize = 0;
    assert(episode_views(sel@) =~= Seq::<EpisodeV>::empty());
    assert(mv.take(0) =~= Seq::<EpisodeV>::empty());
    while i < matched.len()
        invariant
            0 <= i <= matched@.len(),
            mv == episode_views(matched@),
            episode_views(sel@) == spec_dedup_links(mv.take(i as int)),
        decreases matched@.len() - i,
    {
        proof {
            assert(mv.take(i + 1).drop_last() =~= mv.take(i as int));
            assert(mv.take(i + 1).last() == mv[i as int]);
            assert(mv[i as int] == matched@[i as int]@);
        }
        if !contains_link(&sel, &matched[i].link) {
            let ghost prev = episode_views(sel@);
            let row = matched[i].duplicate();
            let ghost rv = row@;
            sel.push(row);
            assert(episode_views(sel@) =~= prev.push(rv));
        }
        i += 1;
    }
    assert(mv.take(matched@.len() as int) =~= mv);
    sel
}

// --- Laws of selection and materialization ---

/// The pairs of file name and payload that a download batch materializes:
/// one per selected episode whose link fetched successfully, named from
/// the episode, holding the fetched bytes; failed links are dropped
/// silently.
pub open spec fn spec_materialize(sel: Seq<EpisodeV>, outs: Seq<FetchOutcome>) -> Seq<
    (Seq<char>, Seq<u8>),
>
    decreases sel.len(),
{
    if sel.len() == 0 || sel.len() != outs.len() {
        Seq::empty()
    } else {
        let rest = spec_materialize(sel.drop_last(), outs.drop_last());
        match outs.last() {
            FetchOutcome::Success(body) => rest.push((spec_filename(sel.last()), body@)),
            _ => rest,
        }
    }
}

proof fn lemma_filter_guids_no_match(eps: Seq<EpisodeV>, g: Seq<char>)
    requires
        forall|i: int| 0 <= i < eps.len() ==> (#[trigger] eps[i]).guid != g,
    ensures
        spec_filter_guids(eps, Some(seq![g])) == Seq::<EpisodeV>::empty(),
    decreases eps.len(),
{
    if eps.len() == 0 {
        assert(spec_filter_guids(eps, Some(seq![g])) =~= Seq::<EpisodeV>::empty());
    } else {
        assert(forall|i: int|
            0 <= i < eps.drop_last().len() ==> #[trigger] eps.drop_last()[i] == eps[i]);
        lemma_filter_guids_no_match(eps.drop_last(), g);
        assert(!seq![g].contains(eps.last().guid)) by {
            if seq![g].contains(eps.last().guid) {
                let k = choose|k: int| 0 <= k < 1 && seq![g][k] == eps.last().guid;
                assert(seq![g][0] == g);
            }
        }
    }
}

proof fn lemma_filter_guids_single(eps: Seq<EpisodeV>, g: Seq<char>, k: int)
    requires
        0 <= k < eps.len(),
        eps[k].guid == g,
        forall|i: int| 0 <= i < eps.len() && i != k ==> (#[trigger] eps[i]).guid != g,
    ensures
        spec_filter_guids(eps, Some(seq![g])) == seq![eps[k]],
    decreases eps.len(),
{
    assert(seq![g][0] == g);
    assert(forall|i: int|
        0 <= i < eps.drop_last().len() ==> (#[trigger] eps.drop_last()[i]) == eps[i]);
    if k == eps.len() - 1 {
        lemma_filter_guids_no_match(eps.drop_last(), g);
        assert(seq![g].contains(eps.last().guid));
        assert(spec_filter_guids(eps, Some(seq![g])) =~= seq![eps[k]]);
    } else {
        lemma_filter_guids_single(eps.drop_last(), g, k);
        assert(!seq![g].contains(eps.last().guid)) by {
            if seq![g].contains(eps.last().guid) {
                let j = choose|j: int| 0 <= j < 1 && (#[trigger] seq![g][j]) == eps.last().guid;
            }
        }
    }
}

/// Download correctness: when exactly one stored episode carries the
/// requested guid, the selection is that one episode, and a successful
/// fetch of its link materializes exactly one file, named from the
/// episode's subscription and title, holding the fetched bytes.
pub proof fn lemma_download_one_guid(eps: Seq<EpisodeV>, g: Seq<char>, k: int, body: Vec<u8>)
    requires
        0 <= k < eps.len(),
        eps[k].guid == g,
        forall|i: int| 0 <= i < eps.len() && i != k ==> (#[trigger] eps[i]).guid != g,
    ensures
        spec_select(eps, Some(seq![g]), None) == seq![eps[k]],
        spec_materialize(
            spec_select(eps, Some(seq![g]), None),
            seq![FetchOutcome::Success(body)],
        ) == seq![(spec_filename(eps[k]), body@)],
{
    lemma_filter_guids_single(eps, g, k);
    let sel0 = spec_filter_guids(eps, Some(seq![g]));
    assert(spec_take_count(sel0, None) == sel0);
    assert(sel0.drop_last() =~= Seq::<EpisodeV>::empty());
    assert(spec_dedup_links(sel0.drop_last()) =~= Seq::<EpisodeV>::empty());
    assert(!has_link(Seq::<EpisodeV>::empty(), sel0.last().link));
    assert(spec_dedup_links(sel0) =~= seq![eps[k]]);
    let sel = spec_select(eps, Some(seq![g]), None);
    let outs = seq![FetchOutcome::Success(body)];
    assert(sel.drop_last() =~= Seq::<EpisodeV>::empty());
    assert(outs.drop_last() =~= Seq::<FetchOutcome>::empty());
    assert(spec_materialize(sel.drop_last(), outs.drop_last()) =~= Seq::<
        (Seq<char>, Seq<u8>),
    >::empty());
    assert(outs.last() == FetchOutcome::Success(body));
    assert(sel.last() == eps[k]);
    assert(spec_materialize(sel, outs) =~= seq![(spec_filename(eps[k]), body@)]);
}

/// Listing an empty episode catalog yields nothing.
pub proof fn lemma_list_episodes_empty()
    ensures
        spec_parse_episodes(Seq::empty()) == Seq::<EpisodeV>::empty(),
        spec_parse_episodes(Seq::empty()).reverse() == Seq::<EpisodeV>::empty(),
{
    assert(spec_parse_episodes(Seq::empty()) =~= Seq::<EpisodeV>::empty());
    assert(spec_parse_episodes(Seq::empty()).reverse() =~= Seq::<EpisodeV>::empty());
}

// --- The subscriptions whose feeds one update run fetches ---

/// The identifier list of an update request.
pub open spec fn id_views(ids: Option<&Vec<u64>>) -> Option<Seq<u64>> {
    match ids {
        Some(v) => Some(v@),
        None => None,
    }
}

/// The subscriptions an explicit identifier list picks, in catalog order;
/// with no list, every subscription. Identifiers that match nothing pick
/// nothing.
pub open spec fn spec_filter_ids(subs: Seq<PodcastV>, ids: Option<Seq<u64>>) -> Seq<PodcastV>
    decreases subs.len(),
{
    match ids {
        None => subs,
        Some(sel) => {
            if subs.len() == 0 {
                Seq::empty()
            } else {
                let rest = spec_filter_ids(subs.drop_last(), ids);
                if sel.contains(subs.last().id) {
                    rest.push(subs.last())
                } else {
                    rest
                }
            }
        },
    }
}

/// Picks the subscriptions an update request names, or all of them when
/// it names none.
pub fn filter_by_ids(podcasts: &Vec<Podcast>, ids: Option<&Vec<u64>>) -> (r: Vec<Podcast>)
    ensures
        podcast_views(r@) == spec_filter_ids(podcast_views(podcasts@), id_views(ids)),
{
    let ghost sv = podcast_views(podcasts@);
    let ghost iv = id_views(ids);
    let mut out: Vec<Podcast> = Vec::new();
    let mut i: usize = 0;
    assert(podcast_views(out@) =~= Seq::<PodcastV>::empty());
    assert(sv.take(0) =~= Seq::<PodcastV>::empty());
    while i < podcasts.len()
        invariant
            0 <= i <= podcasts@.len(),
            sv == podcast_views(podcasts@),
            iv == id_views(ids),
            podcast_views(out@) == spec_filter_ids(sv.take(i as int), iv),
        decreases podcasts@.len() - i,
    {
        proof {
            assert(sv.take(i + 1).drop_last() =~= sv.take(i as int));
            assert(sv.take(i + 1).last() == sv[i as int]);
            assert(sv[i as int] == podcasts@[i as int]@);
        }
        let keep = match ids {
            Some(sel) => {
                let mut found = false;
                let mut j: usize = 0;
                while j < sel.len()
                    invariant
                        0 <= j <= sel@.len(),
                        i < podcasts@.len(),
                        found == exists|k: int|
                            0 <= k < j && (#[trigger] sel@[k]) == podcasts@[i as int].id,
                    decreases sel@.len() - j,
                {
                    if sel[j] == podcasts[i].id {
                        found = true;
                    }
                    j += 1;
                }
                proof {
                    if found {
                        assert(sel@.contains(podcasts@[i as int]@.id));
                    } else {
                        assert(!sel@.contains(podcasts@[i as int]@.id));
                    }
                }
                found
            },
            None => true,
        };
        if keep {
            let ghost prev = podcast_views(out@);
            let row = podcasts[i].duplicate();
            let ghost rv = row@;
            out.push(row);
            assert(podcast_views(out@) =~= prev.push(rv));
        }
        proof {
            if iv is None {
                assert(sv.take(i + 1) =~= sv.take(i as int).push(sv[i as int]));
                assert(podcast_views(out@) =~= spec_filter_ids(sv.take(i + 1), iv));
            }
        }
        i += 1;
    }
    assert(sv.take(podcasts@.len() as int) =~= sv);
    out
}

/// The subscriptions an update run works on: catalog order, keeping only
/// the first of any records that share a feed URL, so that the fetch
/// batch stays free of repeats.
pub open spec fn spec_active(subs: Seq<PodcastV>) -> Seq<PodcastV>
    decreases subs.len(),
{
    if subs.len() == 0 {
        Seq::empty()
    } else {
        let rest = spec_active(subs.drop_last());
        if is_known(subs.drop_last(), subs.last().rss_url) {
            rest
        } else {
            rest.push(subs.last())
        }
    }
}

/// The active list tracks exactly the URLs of the catalog, and no two of
/// its records share one.
pub proof fn lemma_active_urls(subs: Seq<PodcastV>)
    ensures
        forall|u: Seq<char>| #[trigger] is_known(spec_active(subs), u) <==> is_known(subs, u),
        forall|i: int, j: int|
            0 <= i < j < spec_active(subs).len() ==> (#[trigger] spec_active(subs)[i]).rss_url != (
            #[trigger] spec_active(subs)[j]).rss_url,
    decreases subs.len(),
{
    if subs.len() == 0 {
        assert forall|u: Seq<char>| #[trigger]
            is_known(spec_active(subs), u) <==> is_known(subs, u) by {
            assert(spec_active(subs) == Seq::<PodcastV>::empty());
        }
    } else {
        let prefix = subs.drop_last();
        let last = subs.last();
        let rest = spec_active(prefix);
        lemma_active_urls(prefix);
        assert(prefix.push(last) =~= subs);
        assert forall|u: Seq<char>| #[trigger]
            is_known(spec_active(subs), u) <==> is_known(subs, u) by {
            lemma_known_push(prefix, last, u);
            if !is_known(prefix, last.rss_url) {
                lemma_known_push(rest, last, u);
            }
        }
        if !is_known(prefix, last.rss_url) {
            let whole = rest.push(last);
            assert forall|i: int, j: int| 0 <= i < j < whole.len() implies (
            #[trigger] whole[i]).rss_url != (#[trigger] whole[j]).rss_url by {
                if j < rest.len() {
                    assert(whole[i] == rest[i] && whole[j] == rest[j]);
                } else {
                    assert(whole[j] == last && whole[i] == rest[i]);
                    if rest[i].rss_url == last.rss_url {
                        assert(is_known(rest, last.rss_url));
                    }
                }
            }
        }
    }
}

/// The per-subscription catalog replacements an update run produces: one
/// per active subscription whose feed fetched and parsed, holding the
/// whole fresh content of its episode catalog; the rest are skipped, and
/// their stored catalogs stay untouched.
pub open spec fn spec_update(active: Seq<PodcastV>, outs: Seq<FetchOutcome>) -> Seq<
    (u64, Seq<u8>),
>
    decreases active.len(),
{
    if active.len() == 0 || active.len() != outs.len() {
        Seq::empty()
    } else {
        let rest = spec_update(active.drop_last(), outs.drop_last());
        match outs.last() {
            FetchOutcome::Success(body) => match feed_of(body@) {
                Some(f) => rest.push(
                    (
                        active.last().id,
                        episode_csv(spec_feed_episodes(f.items@, f.title@, active.last().id)),
                    ),
                ),
                None => rest,
            },
            _ => rest,
        }
    }
}

pub open spec fn update_views(rs: Seq<(u64, Vec<u8>)>) -> Seq<(u64, Seq<u8>)> {
    rs.map_values(|p: (u64, Vec<u8>)| (p.0, p.1@))
}

pub open spec fn file_views(rs: Seq<(String, Vec<u8>)>) -> Seq<(Seq<char>, Seq<u8>)> {
    rs.map_values(|p: (String, Vec<u8>)| (p.0@, p.1@))
}

fn clone_bytes(v: &Vec<u8>) -> (r: Vec<u8>)
    ensures
        r@ == v@,
{
    let r = v.clone();
    assert(r@ =~= v@);
    r
}

// --- The episode flows ---

/// The episode flows: update, list, download and list-downloaded, over
/// catalog bytes and plain values, with the fetch stage injected at
/// construction.
pub struct Episodes<'a, F: Fetcher> {
    pub orchestrator: Orchestrator<'a, F>,
}

impl<'a, F: Fetcher> Episodes<'a, F> {
    pub fn new(fetcher: &'a F, workers: usize) -> (r: Self)
        ensures
            r.orchestrator.workers == workers,
    {
        Self { orchestrator: Orchestrator::new(fetcher, workers) }
    }

    /// Update: fetches the feeds of the given subscriptions concurrently
    /// under the document timeout and returns, per subscription whose
    /// fetch succeeded and parsed, the fresh full content of its episode
    /// catalog. A failed or unparsable feed contributes nothing, so its
    /// stored catalog is left as it was.
    pub fn update(&self, podcasts: &Vec<Podcast>) -> (r: Vec<(u64, Vec<u8>)>)
        ensures
            ({
                let active = spec_active(podcast_views(podcasts@));
                exists|outs: Seq<FetchOutcome>|
                    outs.len() == active.len() && update_views(r@) == #[trigger] spec_update(
                        active,
                        outs,
                    )
            }),
    {
        let ghost sv = podcast_views(podcasts@);
        // keep the first record of each feed URL
        let mut active: Vec<Podcast> = Vec::new();
        let mut i: usize = 0;
        assert(podcast_views(active@) =~= Seq::<PodcastV>::empty());
        assert(sv.take(0) =~= Seq::<PodcastV>::empty());
        while i < podcasts.len()
            invariant
                0 <= i <= podcasts@.len(),
                sv == podcast_views(podcasts@),
                podcast_views(active@) == spec_active(sv.take(i as int)),
            decreases podcasts@.len() - i,
        {
            proof {
                assert(sv.take(i + 1).drop_last() =~= sv.take(i as int));
                assert(sv.take(i + 1).last() == sv[i as int]);
                assert(sv[i as int] == podcasts@[i as int]@);
                lemma_active_urls(sv.take(i as int));
            }
            if !known_url(&active, &podcasts[i].rss_url) {
                let ghost prev = podcast_views(active@);
                let row = podcasts[i].duplicate();
                let ghost rv = row@;
                active.push(row);
                assert(podcast_views(active@) =~= prev.push(rv));
            }
            i += 1;
        }
        assert(sv.take(podcasts@.len() as int) =~= sv);
        let ghost av = podcast_views(active@);
        // their feed URLs, in the same order
        let mut urls: Vec<String> = Vec::new();
        let mut i: usize = 0;
        while i < active.len()
            invariant
                0 <= i <= active@.len(),
                av == podcast_views(active@),
                urls@.len() == i,
                forall|j: int| 0 <= j < i ==> (#[trigger] urls@[j])@ == av[j].rss_url,
            decreases active@.len() - i,
        {
            assert(av[i as int] == active@[i as int]@);
            urls.push(active[i].rss_url.clone());
            i += 1;
        }
        proof {
            lemma_active_urls(sv);
            assert forall|i: int, j: int|
                0 <= i < j < string_views(urls@).len() implies string_views(urls@)[i]
                != string_views(urls@)[j] by {
                assert(string_views(urls@)[i] == urls@[i]@ && string_views(urls@)[j] == urls@[j]@);
                assert(urls@[i]@ == av[i].rss_url && urls@[j]@ == av[j].rss_url);
            }
        }
        let outcomes = self.orchestrator.fetch_batch(
            &urls,
            &TimeoutPolicy::Bounded(FEED_TIMEOUT_SECS),
        );
        let ghost ov = outcomes@.map_values(|p: (String, FetchOutcome)| p.1);
        let mut result: Vec<(u64, Vec<u8>)> = Vec::new();
        let mut i: usize = 0;
        assert(update_views(result@) =~= Seq::<(u64, Seq<u8>)>::empty());
        assert(av.take(0) =~= Seq::<PodcastV>::empty());
        assert(ov.take(0) =~= Seq::<FetchOutcome>::empty());
        while i < outcomes.len()
            invariant
                0 <= i <= outcomes@.len(),
                outcomes@.len() == active@.len(),
                av == podcast_views(active@),
                ov == outcomes@.map_values(|p: (String, FetchOutcome)| p.1),
                update_views(result@) == spec_update(av.take(i as int), ov.take(i as int)),
            decreases outcomes@.len() - i,
        {
            proof {
                assert(av.take(i + 1).drop_last() =~= av.take(i as int));
                assert(ov.take(i + 1).drop_last() =~= ov.take(i as int));
                assert(av.take(i + 1).last() == av[i as int]);
                assert(ov.take(i + 1).last() == ov[i as int]);
                assert(ov[i as int] == outcomes@[i as int].1);
                assert(av[i as int] == active@[i as int]@);
            }
            match &outcomes[i].1 {
                FetchOutcome::Success(body) => {
                    match parse_feed(body) {
                        Some(feed) => {
                            let id = active[i].id;
                            let rows = episodes_from_feed(&feed, id);
                            let bytes = write_episodes(&rows);
                            let ghost prev = update_views(result@);
                            let ghost bv = bytes@;
                            result.push((id, bytes));
                            assert(update_views(result@) =~= prev.push((id, bv)));
                        },
                        None => {},
                    }
                },
                _ => {},
            }
            i += 1;
        }
        proof {
            assert(av.take(outcomes@.len() as int) =~= av);
            assert(ov.take(outcomes@.len() as int) =~= ov);
            assert(ov.len() == spec_active(sv).len() && update_views(result@) == spec_update(
                spec_active(sv),
                ov,
            ));
        }
        result
    }

    /// List: every stored episode of one catalog, most recent surfacing
    /// first — the reverse of storage order.
    pub fn list(&self, catalog: &Vec<u8>) -> (r: Vec<Episode>)
        ensures
            episode_views(r@) == spec_parse_episodes(catalog@).reverse(),
    {
        let eps = parse_episodes(catalog);
        let ghost ev = episode_views(eps@);
        let mut out: Vec<Episode> = Vec::new();
        let mut i: usize = eps.len();
        assert(episode_views(out@) =~= ev.skip(ev.len() as int).reverse());
        while i > 0
            invariant
                0 <= i <= eps@.len(),
                ev == episode_views(eps@),
                episode_views(out@) == ev.skip(i as int).reverse(),
            decreases i,
        {
            i -= 1;
            let ghost prev = episode_views(out@);
            let row = eps[i].duplicate();
            let ghost rv = row@;
            out.push(row);
            proof {
                assert(rv == ev[i as int]);
                assert(episode_views(out@) =~= prev.push(rv));
                assert(prev.push(rv) =~= ev.skip(i as int).reverse());
            }
        }
        assert(ev.skip(0) =~= ev);
        out
    }

    /// Download: selects the requested episodes, fetches their links
    /// concurrently with no timeout bound, and returns one named payload
    /// per selected episode whose fetch succeeded; a failed link drops
    /// out of the result silently.
    pub fn download(&self, catalog: &Vec<u8>, guids: Option<&Vec<String>>, count: Option<usize>) -> (r: Vec<(String, Vec<u8>)>)
        ensures
            ({
                let sel = spec_select(spec_parse_episodes(catalog@), guid_views(guids), count);
                exists|outs: Seq<FetchOutcome>|
                    outs.len() == sel.len() && file_views(r@) == #[trigger] spec_materialize(
                        sel,
                        outs,
                    )
            }),
    {
        let eps = parse_episodes(catalog);
        let sel = select_episodes(&eps, guids, count);
        let ghost selv = episode_views(sel@);
        // their links, in the same order
        let mut links: Vec<String> = Vec::new();
        let mut i: usize = 0;
        while i < sel.len()
            invariant
                0 <= i <= sel@.len(),
                selv == episode_views(sel@),
                links@.len() == i,
                forall|j: int| 0 <= j < i ==> (#[trigger] links@[j])@ == selv[j].link,
            decreases sel@.len() - i,
        {
            assert(selv[i as int] == sel@[i as int]@);
            links.push(sel[i].link.clone());
            i += 1;
        }
        proof {
            let gv = guid_views(guids);
            lemma_dedup_links_distinct(
                spec_take_count(spec_filter_guids(episode_views(eps@), gv), count),
            );
            assert forall|i: int, j: int|
                0 <= i < j < string_views(links@).len() implies string_views(links@)[i]
                != string_views(links@)[j] by {
                assert(string_views(links@)[i] == links@[i]@ && string_views(links@)[j]
                    == links@[j]@);
                assert(links@[i]@ == selv[i].link && links@[j]@ == selv[j].link);
            }
        }
        let outcomes = self.orchestrator.fetch_batch(&links, &TimeoutPolicy::Unbounded);
        let ghost ov = outcomes@.map_values(|p: (String, FetchOutcome)| p.1);
        let mut files: Vec<(String, Vec<u8>)> = Vec::new();
        let mut i: usize = 0;
        assert(file_views(files@) =~= Seq::<(Seq<char>, Seq<u8>)>::empty());
        assert(selv.take(0) =~= Seq::<EpisodeV>::empty());
        assert(ov.take(0) =~= Seq::<FetchOutcome>::empty());
        while i < outcomes.len()
            invariant
                0 <= i <= outcomes@.len(),
                outcomes@.len() == sel@.len(),
                selv == episode_views(sel@),
                ov == outcomes@.map_values(|p: (String, FetchOutcome)| p.1),
                file_views(files@) == spec_materialize(selv.take(i as int), ov.take(i as int)),
            decreases outcomes@.len() - i,
        {
            proof {
                assert(selv.take(i + 1).drop_last() =~= selv.take(i as int));
                assert(ov.take(i + 1).drop_last() =~= ov.take(i as int));
                assert(selv.take(i + 1).last() == selv[i as int]);
                assert(ov.take(i + 1).last() == ov[i as int]);
                assert(ov[i as int] == outcomes@[i as int].1);
                assert(selv[i as int] == sel@[i as int]@);
            }
            match &outcomes[i].1 {
                FetchOutcome::Success(body) => {
                    let name = episode_filename(&sel[i]);
                    let payload = clone_bytes(body);
                    let ghost prev = file_views(files@);
                    let ghost nv = name@;
                    let ghost pv = payload@;
                    files.push((name, payload));
                    assert(file_views(files@) =~= prev.push((nv, pv)));
                },
                _ => {},
            }
            i += 1;
        }
        proof {
            assert(selv.take(outcomes@.len() as int) =~= selv);
            assert(ov.take(outcomes@.len() as int) =~= ov);
            let gv = guid_views(guids);
            let sel_spec = spec_select(spec_parse_episodes(catalog@), gv, count);
            assert(ov.len() == sel_spec.len() && file_views(files@) == spec_materialize(
                sel_spec,
                ov,
            ));
            assert(exists|outs: Seq<FetchOutcome>|
                outs.len() == sel_spec.len() && file_views(files@) == #[trigger] spec_materialize(
                    sel_spec,
                    outs,
                ));
        }
        files
    }

    /// List-downloaded: which stored episodes are already on disk — the
    /// ones whose synthesized file name appears in the given directory
    /// listing — most recent first, at most `count` of them when a count
    /// is given. Existence on disk is the only source of truth.
    pub fn list_downloaded(
        &self,
        catalog: &Vec<u8>,
        downloaded: &Vec<String>,
        count: Option<usize>,
    ) -> (r: Vec<Episode>)
        ensures
            episode_views(r@) == spec_list_downloaded(
                spec_parse_episodes(catalog@),
                string_views(downloaded@),
                count,
            ),
    {
        let eps = parse_episodes(catalog);
        let ghost ev = episode_views(eps@);
        let ghost fv = string_views(downloaded@);
        let mut matched: Vec<Episode> = Vec::new();
        let mut i: usize = 0;
        assert(episode_views(matched@) =~= Seq::<EpisodeV>::empty());
        assert(ev.take(0) =~= Seq::<EpisodeV>::empty());
        while i < eps.len()
            invariant
                0 <= i <= eps@.len(),
                ev == episode_views(eps@),
                fv == string_views(downloaded@),
                episode_views(matched@) == spec_downloaded(ev.take(i as int), fv),
            decreases eps@.len() - i,
        {
            proof {
                assert(ev.take(i + 1).drop_last() =~= ev.take(i as int));
                assert(ev.take(i + 1).last() == ev[i as int]);
                assert(ev[i as int] == eps@[i as int]@);
            }
            let name = episode_filename(&eps[i]);
            if contains_value(downloaded, &name) {
                let ghost prev = episode_views(matched@);
                let row = eps[i].duplicate();
                let ghost rv = row@;
                matched.push(row);
                assert(episode_views(matched@) =~= prev.push(rv));
            }
            i += 1;
        }
        assert(ev.take(eps@.len() as int) =~= ev);
        let ghost mv = episode_views(matched@);
        let mut out: Vec<Episode> = Vec::new();
        let mut i: usize = matched.len();
        assert(episode_views(out@) =~= mv.skip(mv.len() as int).reverse());
        while i > 0
            invariant
                0 <= i <= matched@.len(),
                mv == episode_views(matched@),
                episode_views(out@) == mv.skip(i as int).reverse(),
            decreases i,
        {
            i -= 1;
            let ghost prev = episode_views(out@);
            let row = matched[i].duplicate();
            let ghost rv = row@;
            out.push(row);
            proof {
                assert(rv == mv[i as int]);
                assert(episode_views(out@) =~= prev.push(rv));
                assert(prev.push(rv) =~= mv.skip(i as int).reverse());
            }
        }
        assert(mv.skip(0) =~= mv);
        if let Some(n) = count {
            if n < out.len() {
                out.truncate(n);
                assert(episode_views(out@) =~= mv.reverse().take(n as int)) by {
                    assert(out@.map_values(|e: Episode| e@) =~= mv.reverse().take(n as int));
                }
            }
        }
        out
    }
}

/// The stored episodes whose synthesized file name appears among the
/// files already on disk, in storage order.
pub open spec fn spec_downloaded(eps: Seq<EpisodeV>, files: Seq<Seq<char>>) -> Seq<EpisodeV>
    decreases eps.len(),
{
    if eps.len() == 0 {
        Seq::empty()
    } else {
        let rest = spec_downloaded(eps.drop_last(), files);
        if files.contains(spec_filename(eps.last())) {
            rest.push(eps.last())
        } else {
            rest
        }
    }
}

/// What list-downloaded reports: the already-downloaded episodes, most
/// recent first, at most `count` of them when a count is given.
pub open spec fn spec_list_downloaded(
    eps: Seq<EpisodeV>,
    files: Seq<Seq<char>>,
    count: Option<usize>,
) -> Seq<EpisodeV> {
    let rev = spec_downloaded(eps, files).reverse();
    match count {
        None => rev,
        Some(n) => if (n as int) < rev.len() {
            rev.take(n as int)
        } else {
            rev
        },
    }
}

} // verus!
