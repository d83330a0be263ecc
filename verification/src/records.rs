use vstd::prelude::*;
use vstd::utf8::{decode_utf8, encode_utf8, valid_utf8};

use crate::codec::{
    byte_views, enc_field, field_needs_quotes, fields_of, lemma_fields_one_field, lines_of,
    parse_fields, push_field, split_lines, COMMA, CR, LF, QUOTE,
};
use crate::digits::{dec_digits, push_u64_dec, parse_u64_dec, spec_parse_u64};
use crate::text::bytes_to_string;

verus! {

// --- The two record types ---

/// A tracked feed source. `id` is derived from `rss_url`; `rss_url` is
/// unique within the subscription catalog.
pub struct Podcast {
    pub id: u64,
    pub url: String,
    pub rss_url: String,
    pub title: String,
}

pub struct PodcastV {
    pub id: u64,
    pub url: Seq<char>,
    pub rss_url: Seq<char>,
    pub title: Seq<char>,
}

impl View for Podcast {
    type V = PodcastV;

    open spec fn view(&self) -> PodcastV {
        PodcastV { id: self.id, url: self.url@, rss_url: self.rss_url@, title: self.title@ }
    }
}

/// One entry of a subscription's episode catalog. The guid comes verbatim
/// from the feed document.
pub struct Episode {
    pub guid: String,
    pub title: String,
    pub pub_date: String,
    pub link: String,
    pub podcast: String,
    pub podcast_id: u64,
}

pub struct EpisodeV {
    pub guid: Seq<char>,
    pub title: Seq<char>,
    pub pub_date: Seq<char>,
    pub link: Seq<char>,
    pub podcast: Seq<char>,
    pub podcast_id: u64,
}

impl View for Episode {
    type V = EpisodeV;

    open spec fn view(&self) -> EpisodeV {
        EpisodeV {
            guid: self.guid@,
            title: self.title@,
            pub_date: self.pub_date@,
            link: self.link@,
            podcast: self.podcast@,
            podcast_id: self.podcast_id,
        }
    }
}

impl Podcast {
    pub fn duplicate(&self) -> (r: Podcast)
        ensures
            r@ == self@,
    {
        Podcast {
            id: self.id,
            url: self.url.clone(),
            rss_url: self.rss_url.clone(),
            title: self.title.clone(),
        }
    }
}

impl Episode {
    pub fn duplicate(&self) -> (r: Episode)
        ensures
            r@ == self@,
    {
        Episode {
            guid: self.guid.clone(),
            title: self.title.clone(),
            pub_date: self.pub_date.clone(),
            link: self.link.clone(),
            podcast: self.podcast.clone(),
            podcast_id: self.podcast_id,
        }
    }
}

pub open spec fn podcast_views(ps: Seq<Podcast>) -> Seq<PodcastV> {
    ps.map_values(|p: Podcast| p@)
}

pub open spec fn episode_views(es: Seq<Episode>) -> Seq<EpisodeV> {
    es.map_values(|e: Episode| e@)
}

// --- Reading the subscription catalog ---

/// The subscription a record line holds: four fields, the first a decimal
/// identifier, the rest UTF-8 text. Anything else is no record.
pub open spec fn podcast_of_line(l: Seq<u8>) -> Option<PodcastV> {
    match parse_fields(l) {
        Some(fs) => {
            if fs.len() == 4 && valid_utf8(fs[1]) && valid_utf8(fs[2]) && valid_utf8(fs[3]) {
                match spec_parse_u64(fs[0]) {
                    Some(id) => Some(
                        PodcastV {
                            id,
                            url: decode_utf8(fs[1]),
                            rss_url: decode_utf8(fs[2]),
                            title: decode_utf8(fs[3]),
                        },
                    ),
                    None => None,
                }
            } else {
                None
            }
        },
        None => None,
    }
}

pub open spec fn podcast_rows_rec(
    lines: Seq<Seq<u8>>,
    i: int,
    seen_header: bool,
    acc: Seq<PodcastV>,
) -> Seq<PodcastV>
    decreases lines.len() - i,
{
    if i < 0 || i >= lines.len() {
        acc
    } else if lines[i].len() == 0 {
        podcast_rows_rec(lines, i + 1, seen_header, acc)
    } else if !seen_header {
        podcast_rows_rec(lines, i + 1, true, acc)
    } else {
        match podcast_of_line(lines[i]) {
            Some(p) => podcast_rows_rec(lines, i + 1, true, acc.push(p)),
            None => podcast_rows_rec(lines, i + 1, true, acc),
        }
    }
}

/// The subscriptions a catalog byte stream holds, in storage order: the
/// first non-empty line is the header, and every later non-empty line that
/// is a well-formed record contributes one subscription; the rest are
/// dropped.
pub open spec fn spec_parse_podcasts(b: Seq<u8>) -> Seq<PodcastV> {
    podcast_rows_rec(split_lines(b), 0, false, Seq::empty())
}

fn parse_podcast_line(l: &Vec<u8>) -> (r: Option<Podcast>)
    ensures
        match r {
            Some(p) => podcast_of_line(l@) == Some(p@),
            None => podcast_of_line(l@) is None,
        },
{
    let mut fields = match fields_of(l) {
        Some(fs) => fs,
        None => { return None },
    };
    if fields.len() != 4 {
        return None;
    }
    let title_b = fields.pop().unwrap();
    let rss_b = fields.pop().unwrap();
    let url_b = fields.pop().unwrap();
    let id_b = fields.pop().unwrap();
    let id = match parse_u64_dec(&id_b) {
        Some(v) => v,
        None => { return None },
    };
    let url = match bytes_to_string(url_b) {
        Some(s) => s,
        None => { return None },
    };
    let rss_url = match bytes_to_string(rss_b) {
        Some(s) => s,
        None => { return None },
    };
    let title = match bytes_to_string(title_b) {
        Some(s) => s,
        None => { return None },
    };
    Some(Podcast { id, url, rss_url, title })
}

/// Reads the subscription catalog; malformed rows are dropped.
pub fn parse_podcasts(catalog: &Vec<u8>) -> (r: Vec<Podcast>)
    ensures
        podcast_views(r@) == spec_parse_podcasts(catalog@),
{
    let lines = lines_of(catalog);
    let mut acc: Vec<Podcast> = Vec::new();
    let mut seen_header = false;
    let mut i: usize = 0;
    assert(podcast_views(acc@) =~= Seq::<PodcastV>::empty());
    while i < lines.len()
        invariant
            0 <= i <= lines@.len(),
            byte_views(lines@) == split_lines(catalog@),
            spec_parse_podcasts(catalog@) == podcast_rows_rec(
                byte_views(lines@),
                i as int,
                seen_header,
                podcast_views(acc@),
            ),
        decreases lines@.len() - i,
    {
        assert(byte_views(lines@)[i as int] == lines@[i as int]@);
        let line = &lines[i];
        if line.len() == 0 {
        } else if !seen_header {
            seen_header = true;
        } else {
            match parse_podcast_line(line) {
                Some(p) => {
                    let ghost prev = podcast_views(acc@);
                    let ghost pv = p@;
                    acc.push(p);
                    assert(podcast_views(acc@) =~= prev.push(pv));
                },
                None => {},
            }
        }
        i += 1;
    }
    acc
}

// --- Writing the subscription catalog ---

pub open spec fn podcast_header() -> Seq<u8> {
    encode_utf8("id,url,rss_url,title\n"@)
}

/// How one subscription is written: its four fields, comma-separated,
/// each quoted only when it needs it, then a line feed.
pub open spec fn podcast_row_bytes(p: PodcastV) -> Seq<u8> {
    dec_digits(p.id as nat) + seq![COMMA] + enc_field(encode_utf8(p.url)) + seq![COMMA]
        + enc_field(encode_utf8(p.rss_url)) + seq![COMMA] + enc_field(encode_utf8(p.title))
        + seq![LF]
}

pub open spec fn podcast_rows_bytes(rows: Seq<PodcastV>) -> Seq<u8>
    decreases rows.len(),
{
    if rows.len() == 0 {
        Seq::empty()
    } else {
        podcast_rows_bytes(rows.drop_last()) + podcast_row_bytes(rows.last())
    }
}

/// The bytes written for a set of new subscription rows: nothing when
/// there are none, and a header only when asked for.
pub open spec fn podcast_csv(rows: Seq<PodcastV>, include_header: bool) -> Seq<u8> {
    if rows.len() == 0 {
        Seq::empty()
    } else if include_header {
        podcast_header() + podcast_rows_bytes(rows)
    } else {
        podcast_rows_bytes(rows)
    }
}

fn push_podcast_row(out: &mut Vec<u8>, p: &Podcast)
    ensures
        final(out)@ == old(out)@ + podcast_row_bytes(p@),
{
    push_u64_dec(out, p.id);
    out.push(COMMA);
    push_field(out, p.url.as_str().as_bytes());
    out.push(COMMA);
    push_field(out, p.rss_url.as_str().as_bytes());
    out.push(COMMA);
    push_field(out, p.title.as_str().as_bytes());
    out.push(LF);
    assert(out@ =~= old(out)@ + podcast_row_bytes(p@));
}

/// Serializes subscription rows, with a header row exactly when
/// `include_header` is set and there is at least one row.
pub fn write_podcasts(rows: &Vec<Podcast>, include_header: bool) -> (r: Vec<u8>)
    ensures
        r@ == podcast_csv(podcast_views(rows@), include_header),
{
    let mut out: Vec<u8> = Vec::new();
    if rows.len() == 0 {
        assert(out@ =~= podcast_csv(podcast_views(rows@), include_header));
        return out;
    }
    if include_header {
        out.extend_from_slice("id,url,rss_url,title\n".as_bytes());
        assert(out@ =~= podcast_header());
    }
    let ghost head = out@;
    let mut i: usize = 0;
    while i < rows.len()
        invariant
            0 <= i <= rows@.len(),
            out@ == head + podcast_rows_bytes(podcast_views(rows@).take(i as int)),
        decreases rows@.len() - i,
    {
        push_podcast_row(&mut out, &rows[i]);
        proof {
            let vs = podcast_views(rows@);
            assert(vs.take(i + 1).drop_last() =~= vs.take(i as int));
            assert(vs.take(i + 1).last() == vs[i as int]);
            assert(vs[i as int] == rows@[i as int]@);
            assert(out@ =~= head + podcast_rows_bytes(vs.take(i + 1)));
        }
        i += 1;
    }
    assert(podcast_views(rows@).take(rows@.len() as int) =~= podcast_views(rows@));
    out
}

// --- Reading back a written subscription catalog ---

proof fn lemma_digits_field_plain(n: nat)
    ensures
        enc_field(dec_digits(n)) == dec_digits(n),
{
    crate::digits::lemma_dec_digits_are_digits(n);
    if field_needs_quotes(dec_digits(n)) {
        let j = choose|j: int|
            0 <= j < dec_digits(n).len() && ((#[trigger] dec_digits(n)[j]) == QUOTE || dec_digits(
                n,
            )[j] == COMMA || dec_digits(n)[j] == LF || dec_digits(n)[j] == CR);
        assert(crate::digits::is_dec_digit(dec_digits(n)[j]));
    }
}

/// One record's line: its row bytes without the terminating line feed.
pub open spec fn podcast_row_line(p: PodcastV) -> Seq<u8> {
    dec_digits(p.id as nat) + seq![COMMA] + enc_field(encode_utf8(p.url)) + seq![COMMA]
        + enc_field(encode_utf8(p.rss_url)) + seq![COMMA] + enc_field(encode_utf8(p.title))
}

proof fn lemma_row_bytes_is_line_lf(p: PodcastV)
    ensures
        podcast_row_bytes(p) == podcast_row_line(p) + seq![LF],
{
    assert(podcast_row_bytes(p) =~= podcast_row_line(p) + seq![LF]);
}

proof fn lemma_podcast_row_parses(p: PodcastV)
    ensures
        parse_fields(podcast_row_line(p)) == Some(
            seq![
                dec_digits(p.id as nat),
                encode_utf8(p.url),
                encode_utf8(p.rss_url),
                encode_utf8(p.title),
            ],
        ),
{
    let f0 = dec_digits(p.id as nat);
    let f1 = encode_utf8(p.url);
    let f2 = encode_utf8(p.rss_url);
    let f3 = encode_utf8(p.title);
    lemma_digits_field_plain(p.id as nat);
    let e1 = enc_field(f1);
    let e2 = enc_field(f2);
    let e3 = enc_field(f3);
    let l = podcast_row_line(p);
    let n0 = f0.len() as int;
    let n1 = e1.len() as int;
    let n2 = e2.len() as int;
    let n3 = e3.len() as int;
    let o1 = n0 + 1;
    let o2 = o1 + n1 + 1;
    let o3 = o2 + n2 + 1;
    assert(l.len() == n0 + n1 + n2 + n3 + 3);
    assert(l.subrange(0, n0) =~= f0);
    assert(l[n0] == COMMA);
    assert(l.subrange(o1, o1 + n1) =~= e1);
    assert(l[o1 + n1] == COMMA);
    assert(l.subrange(o2, o2 + n2) =~= e2);
    assert(l[o2 + n2] == COMMA);
    assert(l.subrange(o3, o3 + n3) =~= e3);
    lemma_fields_one_field(l, 0, f0, Seq::empty());
    lemma_fields_one_field(l, o1, f1, Seq::<Seq<u8>>::empty().push(f0));
    lemma_fields_one_field(l, o2, f2, Seq::<Seq<u8>>::empty().push(f0).push(f1));
    lemma_fields_one_field(l, o3, f3, Seq::<Seq<u8>>::empty().push(f0).push(f1).push(f2));
    assert(Seq::<Seq<u8>>::empty().push(f0).push(f1).push(f2).push(f3) =~= seq![f0, f1, f2, f3]);
}

/// A written record line reads back as exactly the record it was
/// written from.
pub proof fn lemma_podcast_line_round_trip(p: PodcastV)
    ensures
        podcast_of_line(podcast_row_line(p)) == Some(p),
{
    lemma_podcast_row_parses(p);
    crate::digits::lemma_dec_digits_round_trip(p.id);
    vstd::utf8::encode_utf8_valid_utf8(p.url);
    vstd::utf8::encode_utf8_valid_utf8(p.rss_url);
    vstd::utf8::encode_utf8_valid_utf8(p.title);
    vstd::utf8::encode_utf8_decode_utf8(p.url);
    vstd::utf8::encode_utf8_decode_utf8(p.rss_url);
    vstd::utf8::encode_utf8_decode_utf8(p.title);
    let fs = seq![
        dec_digits(p.id as nat),
        encode_utf8(p.url),
        encode_utf8(p.rss_url),
        encode_utf8(p.title),
    ];
    assert(fs.len() == 4);
    assert(fs[0] == dec_digits(p.id as nat) && fs[1] == encode_utf8(p.url) && fs[2]
        == encode_utf8(p.rss_url) && fs[3] == encode_utf8(p.title));
}

/// A record whose text fields stay on one line: no line break in its
/// site URL, feed URL or title.
pub open spec fn podcast_single_line(p: PodcastV) -> bool {
    (forall|i: int| 0 <= i < p.url.len() ==> p.url[i] != '\n') && (forall|i: int|
        0 <= i < p.rss_url.len() ==> p.rss_url[i] != '\n') && (forall|i: int|
        0 <= i < p.title.len() ==> p.title[i] != '\n')
}

proof fn lemma_podcast_row_line_shape(p: PodcastV)
    requires
        podcast_single_line(p),
    ensures
        podcast_row_line(p).len() > 0,
        forall|j: int| 0 <= j < podcast_row_line(p).len() ==> #[trigger] podcast_row_line(p)[j]
            != LF,
{
    crate::digits::lemma_dec_digits_are_digits(p.id as nat);
    crate::text::lemma_encode_no_lf(p.url);
    crate::text::lemma_encode_no_lf(p.rss_url);
    crate::text::lemma_encode_no_lf(p.title);
    crate::codec::lemma_enc_field_no_lf(encode_utf8(p.url));
    crate::codec::lemma_enc_field_no_lf(encode_utf8(p.rss_url));
    crate::codec::lemma_enc_field_no_lf(encode_utf8(p.title));
    let f0 = dec_digits(p.id as nat);
    let e1 = enc_field(encode_utf8(p.url));
    let e2 = enc_field(encode_utf8(p.rss_url));
    let e3 = enc_field(encode_utf8(p.title));
    let l = podcast_row_line(p);
    let n0 = f0.len() as int;
    let n1 = e1.len() as int;
    let n2 = e2.len() as int;
    assert forall|j: int| 0 <= j < l.len() implies #[trigger] l[j] != LF by {
        if j < n0 {
            assert(l[j] == f0[j]);
            assert(crate::digits::is_dec_digit(f0[j]));
        } else if j == n0 {
            assert(l[j] == COMMA);
        } else if j < n0 + 1 + n1 {
            assert(l[j] == e1[j - (n0 + 1)]);
        } else if j == n0 + 1 + n1 {
            assert(l[j] == COMMA);
        } else if j < n0 + 1 + n1 + 1 + n2 {
            assert(l[j] == e2[j - (n0 + 1 + n1 + 1)]);
        } else if j == n0 + 1 + n1 + 1 + n2 {
            assert(l[j] == COMMA);
        } else {
            assert(l[j] == e3[j - (n0 + 1 + n1 + 1 + n2 + 1)]);
        }
    }
}

/// The record lines of a set of rows, in order.
pub open spec fn podcast_row_lines(rows: Seq<PodcastV>) -> Seq<Seq<u8>> {
    Seq::new(rows.len(), |i: int| podcast_row_line(rows[i]))
}

proof fn lemma_rows_bytes_front(rows: Seq<PodcastV>)
    requires
        rows.len() > 0,
    ensures
        podcast_rows_bytes(rows) == podcast_row_bytes(rows.first()) + podcast_rows_bytes(
            rows.drop_first(),
        ),
    decreases rows.len(),
{
    if rows.len() == 1 {
        assert(rows.drop_last() =~= Seq::<PodcastV>::empty());
        assert(rows.drop_first() =~= Seq::<PodcastV>::empty());
        assert(rows.last() == rows.first());
        assert(podcast_rows_bytes(rows) =~= podcast_row_bytes(rows.first())
            + podcast_rows_bytes(rows.drop_first()));
    } else {
        lemma_rows_bytes_front(rows.drop_last());
        assert(rows.drop_last().first() == rows.first());
        assert(rows.drop_first().drop_last() =~= rows.drop_last().drop_first());
        assert(rows.drop_first().last() == rows.last());
        assert(podcast_rows_bytes(rows) =~= podcast_row_bytes(rows.first())
            + podcast_rows_bytes(rows.drop_first()));
    }
}

proof fn lemma_rows_lines(b: Seq<u8>, i: int, rows: Seq<PodcastV>, acc: Seq<Seq<u8>>)
    requires
        0 <= i <= b.len(),
        b.subrange(i, b.len() as int) == podcast_rows_bytes(rows),
        forall|k: int| 0 <= k < rows.len() ==> podcast_single_line(#[trigger] rows[k]),
    ensures
        crate::codec::lines_rec(b, i, Seq::empty(), acc) == acc + podcast_row_lines(rows),
    decreases rows.len(),
{
    if rows.len() == 0 {
        assert(podcast_rows_bytes(rows) =~= Seq::<u8>::empty());
        assert(i == b.len());
        assert(acc + podcast_row_lines(rows) =~= acc);
    } else {
        lemma_rows_bytes_front(rows);
        let p = rows.first();
        lemma_row_bytes_is_line_lf(p);
        lemma_podcast_row_line_shape(p);
        let rl = podcast_row_line(p);
        let m = rl.len() as int;
        let suffix = b.subrange(i, b.len() as int);
        assert(suffix =~= rl + seq![LF] + podcast_rows_bytes(rows.drop_first()));
        assert forall|j: int| i <= j < i + m implies b[j] != LF by {
            assert(b[j] == suffix[j - i]);
            assert(suffix[j - i] == rl[j - i]);
        }
        crate::codec::lemma_lines_run(b, i, m, Seq::empty(), acc);
        assert(Seq::<u8>::empty() + b.subrange(i, i + m) =~= rl) by {
            assert(forall|j: int| 0 <= j < m ==> #[trigger] b.subrange(i, i + m)[j] == suffix[j]);
        }
        assert(b[i + m] == suffix[m] && suffix[m] == LF);
        assert(crate::codec::lines_rec(b, i + m, rl, acc) == crate::codec::lines_rec(
            b,
            i + m + 1,
            Seq::empty(),
            acc.push(rl),
        ));
        assert(b.subrange(i + m + 1, b.len() as int) =~= podcast_rows_bytes(rows.drop_first()))
            by {
            assert(forall|j: int|
                0 <= j < b.len() - (i + m + 1) ==> #[trigger] b.subrange(
                    i + m + 1,
                    b.len() as int,
                )[j] == suffix[j + m + 1]);
        }
        assert forall|k: int|
            0 <= k < rows.drop_first().len() implies podcast_single_line(
            #[trigger] rows.drop_first()[k]) by {
            assert(rows.drop_first()[k] == rows[k + 1]);
        }
        lemma_rows_lines(b, i + m + 1, rows.drop_first(), acc.push(rl));
        assert(acc.push(rl) + podcast_row_lines(rows.drop_first()) =~= acc + podcast_row_lines(
            rows,
        ));
    }
}

proof fn lemma_rows_rec_tail(lines: Seq<Seq<u8>>, i: int, rows: Seq<PodcastV>, acc: Seq<PodcastV>)
    requires
        0 <= i,
        lines.len() - i == rows.len(),
        forall|k: int|
            0 <= k < rows.len() ==> (#[trigger] lines[i + k]).len() > 0 && podcast_of_line(
                lines[i + k],
            ) == Some(rows[k]),
    ensures
        podcast_rows_rec(lines, i, true, acc) == acc + rows,
    decreases rows.len(),
{
    if rows.len() == 0 {
        assert(acc + rows =~= acc);
    } else {
        assert(lines[i + 0].len() > 0 && podcast_of_line(lines[i + 0]) == Some(rows[0]));
        assert(lines[i + 0] == lines[i]);
        assert forall|k: int|
            0 <= k < rows.drop_first().len() implies (#[trigger] lines[(i + 1) + k]).len() > 0
            && podcast_of_line(lines[(i + 1) + k]) == Some(rows.drop_first()[k]) by {
            assert(lines[i + (k + 1)].len() > 0 && podcast_of_line(lines[i + (k + 1)]) == Some(
                rows[k + 1],
            ));
            assert(lines[(i + 1) + k] == lines[i + (k + 1)]);
            assert(rows.drop_first()[k] == rows[k + 1]);
        }
        lemma_rows_rec_tail(lines, i + 1, rows.drop_first(), acc.push(rows[0]));
        assert(acc.push(rows[0]) + rows.drop_first() =~= acc + rows);
    }
}

proof fn lemma_podcast_header_shape()
    ensures
        podcast_header().len() == 21,
        podcast_header()[20] == LF,
        forall|j: int| 0 <= j < 20 ==> #[trigger] podcast_header()[j] != LF,
{
    reveal_strlit("id,url,rss_url,title\n");
    let hc = "id,url,rss_url,title\n"@;
    assert(hc.len() == 21);
    assert(vstd::utf8::is_ascii_chars(hc)) by {
        assert(forall|i: int| 0 <= i < hc.len() ==> '\0' <= #[trigger] hc[i] <= '\u{7f}');
    }
    vstd::utf8::is_ascii_chars_encode_utf8(hc);
    assert(hc[20] == '\n');
    assert(podcast_header()[20] == hc[20] as u8);
    assert forall|j: int| 0 <= j < 20 implies #[trigger] podcast_header()[j] != LF by {
        assert(podcast_header()[j] == hc[j] as u8);
        assert(hc[j] != '\n');
    }
}

/// Reading back a written subscription catalog yields exactly the rows
/// that were written: the catalog codec loses nothing and invents
/// nothing, for records whose text fields stay on one line.
pub proof fn lemma_podcast_catalog_round_trip(rows: Seq<PodcastV>)
    requires
        forall|k: int| 0 <= k < rows.len() ==> podcast_single_line(#[trigger] rows[k]),
    ensures
        spec_parse_podcasts(podcast_csv(rows, true)) == rows,
{
    if rows.len() == 0 {
        assert(spec_parse_podcasts(podcast_csv(rows, true)) =~= rows);
    } else {
        let b = podcast_csv(rows, true);
        lemma_podcast_header_shape();
        let h = podcast_header();
        assert(b == h + podcast_rows_bytes(rows));
        assert forall|j: int| 0 <= j < 20 implies b[j] != LF by {
            assert(b[j] == h[j]);
        }
        crate::codec::lemma_lines_run(b, 0, 20, Seq::empty(), Seq::empty());
        let hl = b.subrange(0, 20);
        assert(Seq::<u8>::empty() + b.subrange(0, 20) =~= hl);
        assert(b[20] == h[20] && h[20] == LF);
        assert(crate::codec::lines_rec(b, 20, hl, Seq::empty()) == crate::codec::lines_rec(
            b,
            21,
            Seq::empty(),
            Seq::<Seq<u8>>::empty().push(hl),
        ));
        assert(b.subrange(21, b.len() as int) =~= podcast_rows_bytes(rows)) by {
            assert(forall|j: int|
                0 <= j < b.len() - 21 ==> #[trigger] b.subrange(21, b.len() as int)[j] == b[j
                    + 21]);
        }
        lemma_rows_lines(b, 21, rows, Seq::<Seq<u8>>::empty().push(hl));
        let lines = split_lines(b);
        assert(lines == Seq::<Seq<u8>>::empty().push(hl) + podcast_row_lines(rows));
        assert(hl.len() == 20);
        assert(lines[0] == hl);
        assert(podcast_rows_rec(lines, 0, false, Seq::empty()) == podcast_rows_rec(
            lines,
            1,
            true,
            Seq::empty(),
        ));
        assert forall|k: int|
            0 <= k < rows.len() implies (#[trigger] lines[1 + k]).len() > 0 && podcast_of_line(
            lines[1 + k]) == Some(rows[k]) by {
            assert(lines[1 + k] == podcast_row_lines(rows)[k]);
            assert(podcast_row_lines(rows)[k] == podcast_row_line(rows[k]));
            lemma_podcast_row_line_shape(rows[k]);
            lemma_podcast_line_round_trip(rows[k]);
        }
        lemma_rows_rec_tail(lines, 1, rows, Seq::empty());
        assert(Seq::<PodcastV>::empty() + rows =~= rows);
    }
}

// --- Reading an episode catalog ---

/// The episode a record line holds: the six fields of an episode record,
/// or five for the older form without the trailing identifier, which is
/// then read as zero.
pub open spec fn episode_of_line(l: Seq<u8>) -> Option<EpisodeV> {
    match parse_fields(l) {
        Some(fs) => {
            if (fs.len() == 5 || fs.len() == 6) && valid_utf8(fs[0]) && valid_utf8(fs[1])
                && valid_utf8(fs[2]) && valid_utf8(fs[3]) && valid_utf8(fs[4]) {
                let base = EpisodeV {
                    guid: decode_utf8(fs[0]),
                    title: decode_utf8(fs[1]),
                    pub_date: decode_utf8(fs[2]),
                    link: decode_utf8(fs[3]),
                    podcast: decode_utf8(fs[4]),
                    podcast_id: 0,
                };
                if fs.len() == 5 {
                    Some(base)
                } else {
                    match spec_parse_u64(fs[5]) {
                        Some(id) => Some(EpisodeV { podcast_id: id, ..base }),
                        None => None,
                    }
                }
            } else {
                None
            }
        },
        None => None,
    }
}

pub open spec fn episode_rows_rec(
    lines: Seq<Seq<u8>>,
    i: int,
    seen_header: bool,
    acc: Seq<EpisodeV>,
) -> Seq<EpisodeV>
    decreases lines.len() - i,
{
    if i < 0 || i >= lines.len() {
        acc
    } else if lines[i].len() == 0 {
        episode_rows_rec(lines, i + 1, seen_header, acc)
    } else if !seen_header {
        episode_rows_rec(lines, i + 1, true, acc)
    } else {
        match episode_of_line(lines[i]) {
            Some(e) => episode_rows_rec(lines, i + 1, true, acc.push(e)),
            None => episode_rows_rec(lines, i + 1, true, acc),
        }
    }
}

/// The episodes an episode catalog holds, in storage order, header line
/// skipped and malformed rows dropped.
pub open spec fn spec_parse_episodes(b: Seq<u8>) -> Seq<EpisodeV> {
    episode_rows_rec(split_lines(b), 0, false, Seq::empty())
}

fn parse_episode_line(l: &Vec<u8>) -> (r: Option<Episode>)
    ensures
        match r {
            Some(e) => episode_of_line(l@) == Some(e@),
            None => episode_of_line(l@) is None,
        },
{
    let mut fields = match fields_of(l) {
        Some(fs) => fs,
        None => { return None },
    };
    if fields.len() != 5 && fields.len() != 6 {
        return None;
    }
    let podcast_id: u64 = if fields.len() == 6 {
        let id_b = fields.pop().unwrap();
        match parse_u64_dec(&id_b) {
            Some(v) => v,
            None => { return None },
        }
    } else {
        0
    };
    let podcast_b = fields.pop().unwrap();
    let link_b = fields.pop().unwrap();
    let date_b = fields.pop().unwrap();
    let title_b = fields.pop().unwrap();
    let guid_b = fields.pop().unwrap();
    let guid = match bytes_to_string(guid_b) {
        Some(s) => s,
        None => { return None },
    };
    let title = match bytes_to_string(title_b) {
        Some(s) => s,
        None => { return None },
    };
    let pub_date = match bytes_to_string(date_b) {
        Some(s) => s,
        None => { return None },
    };
    let link = match bytes_to_string(link_b) {
        Some(s) => s,
        None => { return None },
    };
    let podcast = match bytes_to_string(podcast_b) {
        Some(s) => s,
        None => { return None },
    };
    Some(Episode { guid, title, pub_date, link, podcast, podcast_id })
}

/// Reads one subscription's episode catalog; malformed rows are dropped.
pub fn parse_episodes(catalog: &Vec<u8>) -> (r: Vec<Episode>)
    ensures
        episode_views(r@) == spec_parse_episodes(catalog@),
{
    let lines = lines_of(catalog);
    let mut acc: Vec<Episode> = Vec::new();
    let mut seen_header = false;
    let mut i: usize = 0;
    assert(episode_views(acc@) =~= Seq::<EpisodeV>::empty());
    while i < lines.len()
        invariant
            0 <= i <= lines@.len(),
            byte_views(lines@) == split_lines(catalog@),
            spec_parse_episodes(catalog@) == episode_rows_rec(
                byte_views(lines@),
                i as int,
                seen_header,
                episode_views(acc@),
            ),
        decreases lines@.len() - i,
    {
        assert(byte_views(lines@)[i as int] == lines@[i as int]@);
        let line = &lines[i];
        if line.len() == 0 {
        } else if !seen_header {
            seen_header = true;
        } else {
            match parse_episode_line(line) {
                Some(e) => {
                    let ghost prev = episode_views(acc@);
                    let ghost ev = e@;
                    acc.push(e);
                    assert(episode_views(acc@) =~= prev.push(ev));
                },
                None => {},
            }
        }
        i += 1;
    }
    acc
}

// --- Writing an episode catalog ---

pub open spec fn episode_header() -> Seq<u8> {
    encode_utf8("guid,title,pub_date,link,podcast,podcast_id\n"@)
}

pub open spec fn episode_row_bytes(e: EpisodeV) -> Seq<u8> {
    enc_field(encode_utf8(e.guid)) + seq![COMMA] + enc_field(encode_utf8(e.title)) + seq![COMMA]
        + enc_field(encode_utf8(e.pub_date)) + seq![COMMA] + enc_field(encode_utf8(e.link))
        + seq![COMMA] + enc_field(encode_utf8(e.podcast)) + seq![COMMA] + dec_digits(
        e.podcast_id as nat,
    ) + seq![LF]
}

pub open spec fn episode_rows_bytes(rows: Seq<EpisodeV>) -> Seq<u8>
    decreases rows.len(),
{
    if rows.len() == 0 {
        Seq::empty()
    } else {
        episode_rows_bytes(rows.drop_last()) + episode_row_bytes(rows.last())
    }
}

/// The full content an episode catalog is replaced with: empty when there
/// are no rows, else a header row and the rows in order.
pub open spec fn episode_csv(rows: Seq<EpisodeV>) -> Seq<u8> {
    if rows.len() == 0 {
        Seq::empty()
    } else {
        episode_header() + episode_rows_bytes(rows)
    }
}

fn push_episode_row(out: &mut Vec<u8>, e: &Episode)
    ensures
        final(out)@ == old(out)@ + episode_row_bytes(e@),
{
    push_field(out, e.guid.as_str().as_bytes());
    out.push(COMMA);
    push_field(out, e.title.as_str().as_bytes());
    out.push(COMMA);
    push_field(out, e.pub_date.as_str().as_bytes());
    out.push(COMMA);
    push_field(out, e.link.as_str().as_bytes());
    out.push(COMMA);
    push_field(out, e.podcast.as_str().as_bytes());
    out.push(COMMA);
    push_u64_dec(out, e.podcast_id);
    out.push(LF);
    assert(out@ =~= old(out)@ + episode_row_bytes(e@));
}

/// Serializes one subscription's fresh episode rows; the result replaces
/// the catalog's previous content whole.
pub fn write_episodes(rows: &Vec<Episode>) -> (r: Vec<u8>)
    ensures
        r@ == episode_csv(episode_views(rows@)),
{
    let mut out: Vec<u8> = Vec::new();
    if rows.len() == 0 {
        assert(out@ =~= episode_csv(episode_views(rows@)));
        return out;
    }
    out.extend_from_slice("guid,title,pub_date,link,podcast,podcast_id\n".as_bytes());
    assert(out@ =~= episode_header());
    let ghost head = out@;
    let mut i: usize = 0;
    while i < rows.len()
        invariant
            0 <= i <= rows@.len(),
            out@ == head + episode_rows_bytes(episode_views(rows@).take(i as int)),
        decreases rows@.len() - i,
    {
        push_episode_row(&mut out, &rows[i]);
        proof {
            let vs = episode_views(rows@);
            assert(vs.take(i + 1).drop_last() =~= vs.take(i as int));
            assert(vs.take(i + 1).last() == vs[i as int]);
            assert(vs[i as int] == rows@[i as int]@);
            assert(out@ =~= head + episode_rows_bytes(vs.take(i + 1)));
        }
        i += 1;
    }
    assert(episode_views(rows@).take(rows@.len() as int) =~= episode_views(rows@));
    out
}


// --- Reading back a written episode catalog ---

/// One episode record's line: its row bytes without the terminating
/// line feed.
pub open spec fn episode_row_line(e: EpisodeV) -> Seq<u8> {
    enc_field(encode_utf8(e.guid)) + seq![COMMA] + enc_field(encode_utf8(e.title)) + seq![COMMA]
        + enc_field(encode_utf8(e.pub_date)) + seq![COMMA] + enc_field(encode_utf8(e.link))
        + seq![COMMA] + enc_field(encode_utf8(e.podcast)) + seq![COMMA] + dec_digits(
        e.podcast_id as nat,
    )
}

proof fn lemma_episode_row_bytes_is_line_lf(e: EpisodeV)
    ensures
        episode_row_bytes(e) == episode_row_line(e) + seq![LF],
{
    assert(episode_row_bytes(e) =~= episode_row_line(e) + seq![LF]);
}

proof fn lemma_episode_row_parses(e: EpisodeV)
    ensures
        parse_fields(episode_row_line(e)) == Some(
            seq![
                encode_utf8(e.guid),
                encode_utf8(e.title),
                encode_utf8(e.pub_date),
                encode_utf8(e.link),
                encode_utf8(e.podcast),
                dec_digits(e.podcast_id as nat),
            ],
        ),
{
    let f0 = encode_utf8(e.guid);
    let f1 = encode_utf8(e.title);
    let f2 = encode_utf8(e.pub_date);
    let f3 = encode_utf8(e.link);
    let f4 = encode_utf8(e.podcast);
    let f5 = dec_digits(e.podcast_id as nat);
    lemma_digits_field_plain(e.podcast_id as nat);
    let e0 = enc_field(f0);
    let e1 = enc_field(f1);
    let e2 = enc_field(f2);
    let e3 = enc_field(f3);
    let e4 = enc_field(f4);
    let l = episode_row_line(e);
    let n0 = e0.len() as int;
    let n1 = e1.len() as int;
    let n2 = e2.len() as int;
    let n3 = e3.len() as int;
    let n4 = e4.len() as int;
    let n5 = f5.len() as int;
    let o1 = n0 + 1;
    let o2 = o1 + n1 + 1;
    let o3 = o2 + n2 + 1;
    let o4 = o3 + n3 + 1;
    let o5 = o4 + n4 + 1;
    assert(l.len() == n0 + n1 + n2 + n3 + n4 + n5 + 5);
    assert(l.subrange(0, n0) =~= e0);
    assert(l[n0] == COMMA);
    assert(l.subrange(o1, o1 + n1) =~= e1);
    assert(l[o1 + n1] == COMMA);
    assert(l.subrange(o2, o2 + n2) =~= e2);
    assert(l[o2 + n2] == COMMA);
    assert(l.subrange(o3, o3 + n3) =~= e3);
    assert(l[o3 + n3] == COMMA);
    assert(l.subrange(o4, o4 + n4) =~= e4);
    assert(l[o4 + n4] == COMMA);
    assert(l.subrange(o5, o5 + n5) =~= f5);
    lemma_fields_one_field(l, 0, f0, Seq::empty());
    lemma_fields_one_field(l, o1, f1, Seq::<Seq<u8>>::empty().push(f0));
    lemma_fields_one_field(l, o2, f2, Seq::<Seq<u8>>::empty().push(f0).push(f1));
    lemma_fields_one_field(l, o3, f3, Seq::<Seq<u8>>::empty().push(f0).push(f1).push(f2));
    lemma_fields_one_field(l, o4, f4, Seq::<Seq<u8>>::empty().push(f0).push(f1).push(f2).push(f3));
    lemma_fields_one_field(
        l,
        o5,
        f5,
        Seq::<Seq<u8>>::empty().push(f0).push(f1).push(f2).push(f3).push(f4),
    );
    assert(Seq::<Seq<u8>>::empty().push(f0).push(f1).push(f2).push(f3).push(f4).push(f5) =~= seq![
        f0,
        f1,
        f2,
        f3,
        f4,
        f5,
    ]);
}

/// A written episode line reads back as exactly the episode it was
/// written from.
pub proof fn lemma_episode_line_round_trip(e: EpisodeV)
    ensures
        episode_of_line(episode_row_line(e)) == Some(e),
{
    lemma_episode_row_parses(e);
    crate::digits::lemma_dec_digits_round_trip(e.podcast_id);
    vstd::utf8::encode_utf8_valid_utf8(e.guid);
    vstd::utf8::encode_utf8_valid_utf8(e.title);
    vstd::utf8::encode_utf8_valid_utf8(e.pub_date);
    vstd::utf8::encode_utf8_valid_utf8(e.link);
    vstd::utf8::encode_utf8_valid_utf8(e.podcast);
    vstd::utf8::encode_utf8_decode_utf8(e.guid);
    vstd::utf8::encode_utf8_decode_utf8(e.title);
    vstd::utf8::encode_utf8_decode_utf8(e.pub_date);
    vstd::utf8::encode_utf8_decode_utf8(e.link);
    vstd::utf8::encode_utf8_decode_utf8(e.podcast);
    let fs = seq![
        encode_utf8(e.guid),
        encode_utf8(e.title),
        encode_utf8(e.pub_date),
        encode_utf8(e.link),
        encode_utf8(e.podcast),
        dec_digits(e.podcast_id as nat),
    ];
    assert(fs.len() == 6);
    assert(fs[0] == encode_utf8(e.guid) && fs[1] == encode_utf8(e.title) && fs[2] == encode_utf8(
        e.pub_date,
    ) && fs[3] == encode_utf8(e.link) && fs[4] == encode_utf8(e.podcast) && fs[5] == dec_digits(
        e.podcast_id as nat,
    ));
}

/// An episode whose text fields stay on one line.
pub open spec fn episode_single_line(e: EpisodeV) -> bool {
    (forall|i: int| 0 <= i < e.guid.len() ==> e.guid[i] != '\n') && (forall|i: int|
        0 <= i < e.title.len() ==> e.title[i] != '\n') && (forall|i: int|
        0 <= i < e.pub_date.len() ==> e.pub_date[i] != '\n') && (forall|i: int|
        0 <= i < e.link.len() ==> e.link[i] != '\n') && (forall|i: int|
        0 <= i < e.podcast.len() ==> e.podcast[i] != '\n')
}

proof fn lemma_episode_row_line_shape(e: EpisodeV)
    requires
        episode_single_line(e),
    ensures
        episode_row_line(e).len() > 0,
        forall|j: int| 0 <= j < episode_row_line(e).len() ==> #[trigger] episode_row_line(e)[j]
            != LF,
{
    crate::digits::lemma_dec_digits_are_digits(e.podcast_id as nat);
    crate::text::lemma_encode_no_lf(e.guid);
    crate::text::lemma_encode_no_lf(e.title);
    crate::text::lemma_encode_no_lf(e.pub_date);
    crate::text::lemma_encode_no_lf(e.link);
    crate::text::lemma_encode_no_lf(e.podcast);
    crate::codec::lemma_enc_field_no_lf(encode_utf8(e.guid));
    crate::codec::lemma_enc_field_no_lf(encode_utf8(e.title));
    crate::codec::lemma_enc_field_no_lf(encode_utf8(e.pub_date));
    crate::codec::lemma_enc_field_no_lf(encode_utf8(e.link));
    crate::codec::lemma_enc_field_no_lf(encode_utf8(e.podcast));
    let e0 = enc_field(encode_utf8(e.guid));
    let e1 = enc_field(encode_utf8(e.title));
    let e2 = enc_field(encode_utf8(e.pub_date));
    let e3 = enc_field(encode_utf8(e.link));
    let e4 = enc_field(encode_utf8(e.podcast));
    let f5 = dec_digits(e.podcast_id as nat);
    let l = episode_row_line(e);
    let n0 = e0.len() as int;
    let n1 = e1.len() as int;
    let n2 = e2.len() as int;
    let n3 = e3.len() as int;
    let n4 = e4.len() as int;
    let o1 = n0 + 1;
    let o2 = o1 + n1 + 1;
    let o3 = o2 + n2 + 1;
    let o4 = o3 + n3 + 1;
    let o5 = o4 + n4 + 1;
    assert forall|j: int| 0 <= j < l.len() implies #[trigger] l[j] != LF by {
        if j < n0 {
            assert(l[j] == e0[j]);
        } else if j == n0 {
            assert(l[j] == COMMA);
        } else if j < o1 + n1 {
            assert(l[j] == e1[j - o1]);
        } else if j == o1 + n1 {
            assert(l[j] == COMMA);
        } else if j < o2 + n2 {
            assert(l[j] == e2[j - o2]);
        } else if j == o2 + n2 {
            assert(l[j] == COMMA);
        } else if j < o3 + n3 {
            assert(l[j] == e3[j - o3]);
        } else if j == o3 + n3 {
            assert(l[j] == COMMA);
        } else if j < o4 + n4 {
            assert(l[j] == e4[j - o4]);
        } else if j == o4 + n4 {
            assert(l[j] == COMMA);
        } else {
            assert(l[j] == f5[j - o5]);
            assert(crate::digits::is_dec_digit(f5[j - o5]));
        }
    }
}

/// The record lines of a set of episode rows, in order.
pub open spec fn episode_row_lines(rows: Seq<EpisodeV>) -> Seq<Seq<u8>> {
    Seq::new(rows.len(), |i: int| episode_row_line(rows[i]))
}

proof fn lemma_episode_rows_bytes_front(rows: Seq<EpisodeV>)
    requires
        rows.len() > 0,
    ensures
        episode_rows_bytes(rows) == episode_row_bytes(rows.first()) + episode_rows_bytes(
            rows.drop_first(),
        ),
    decreases rows.len(),
{
    if rows.len() == 1 {
        assert(rows.drop_last() =~= Seq::<EpisodeV>::empty());
        assert(rows.drop_first() =~= Seq::<EpisodeV>::empty());
        assert(rows.last() == rows.first());
        assert(episode_rows_bytes(rows) =~= episode_row_bytes(rows.first())
            + episode_rows_bytes(rows.drop_first()));
    } else {
        lemma_episode_rows_bytes_front(rows.drop_last());
        assert(rows.drop_last().first() == rows.first());
        assert(rows.drop_first().drop_last() =~= rows.drop_last().drop_first());
        assert(rows.drop_first().last() == rows.last());
        assert(episode_rows_bytes(rows) =~= episode_row_bytes(rows.first())
            + episode_rows_bytes(rows.drop_first()));
    }
}

proof fn lemma_episode_rows_lines(b: Seq<u8>, i: int, rows: Seq<EpisodeV>, acc: Seq<Seq<u8>>)
    requires
        0 <= i <= b.len(),
        b.subrange(i, b.len() as int) == episode_rows_bytes(rows),
        forall|k: int| 0 <= k < rows.len() ==> episode_single_line(#[trigger] rows[k]),
    ensures
        crate::codec::lines_rec(b, i, Seq::empty(), acc) == acc + episode_row_lines(rows),
    decreases rows.len(),
{
    if rows.len() == 0 {
        assert(episode_rows_bytes(rows) =~= Seq::<u8>::empty());
        assert(i == b.len());
        assert(acc + episode_row_lines(rows) =~= acc);
    } else {
        lemma_episode_rows_bytes_front(rows);
        let p = rows.first();
        lemma_episode_row_bytes_is_line_lf(p);
        lemma_episode_row_line_shape(p);
        let rl = episode_row_line(p);
        let m = rl.len() as int;
        let suffix = b.subrange(i, b.len() as int);
        assert(suffix =~= rl + seq![LF] + episode_rows_bytes(rows.drop_first()));
        assert forall|j: int| i <= j < i + m implies b[j] != LF by {
            assert(b[j] == suffix[j - i]);
            assert(suffix[j - i] == rl[j - i]);
        }
        crate::codec::lemma_lines_run(b, i, m, Seq::empty(), acc);
        assert(Seq::<u8>::empty() + b.subrange(i, i + m) =~= rl) by {
            assert(forall|j: int| 0 <= j < m ==> #[trigger] b.subrange(i, i + m)[j] == suffix[j]);
        }
        assert(b[i + m] == suffix[m] && suffix[m] == LF);
        assert(crate::codec::lines_rec(b, i + m, rl, acc) == crate::codec::lines_rec(
            b,
            i + m + 1,
            Seq::empty(),
            acc.push(rl),
        ));
        assert(b.subrange(i + m + 1, b.len() as int) =~= episode_rows_bytes(rows.drop_first()))
            by {
            assert(forall|j: int|
                0 <= j < b.len() - (i + m + 1) ==> #[trigger] b.subrange(
                    i + m + 1,
                    b.len() as int,
                )[j] == suffix[j + m + 1]);
        }
        assert forall|k: int|
            0 <= k < rows.drop_first().len() implies episode_single_line(
            #[trigger] rows.drop_first()[k]) by {
            assert(rows.drop_first()[k] == rows[k + 1]);
        }
        lemma_episode_rows_lines(b, i + m + 1, rows.drop_first(), acc.push(rl));
        assert(acc.push(rl) + episode_row_lines(rows.drop_first()) =~= acc + episode_row_lines(
            rows,
        ));
    }
}

proof fn lemma_episode_rows_rec_tail(
    lines: Seq<Seq<u8>>,
    i: int,
    rows: Seq<EpisodeV>,
    acc: Seq<EpisodeV>,
)
    requires
        0 <= i,
        lines.len() - i == rows.len(),
        forall|k: int|
            0 <= k < rows.len() ==> (#[trigger] lines[i + k]).len() > 0 && episode_of_line(
                lines[i + k],
            ) == Some(rows[k]),
    ensures
        episode_rows_rec(lines, i, true, acc) == acc + rows,
    decreases rows.len(),
{
    if rows.len() == 0 {
        assert(acc + rows =~= acc);
    } else {
        assert(lines[i + 0].len() > 0 && episode_of_line(lines[i + 0]) == Some(rows[0]));
        assert(lines[i + 0] == lines[i]);
        assert forall|k: int|
            0 <= k < rows.drop_first().len() implies (#[trigger] lines[(i + 1) + k]).len() > 0
            && episode_of_line(lines[(i + 1) + k]) == Some(rows.drop_first()[k]) by {
            assert(lines[i + (k + 1)].len() > 0 && episode_of_line(lines[i + (k + 1)]) == Some(
                rows[k + 1],
            ));
            assert(lines[(i + 1) + k] == lines[i + (k + 1)]);
            assert(rows.drop_first()[k] == rows[k + 1]);
        }
        lemma_episode_rows_rec_tail(lines, i + 1, rows.drop_first(), acc.push(rows[0]));
        assert(acc.push(rows[0]) + rows.drop_first() =~= acc + rows);
    }
}

proof fn lemma_episode_header_shape()
    ensures
        episode_header().len() == 44,
        episode_header()[43] == LF,
        forall|j: int| 0 <= j < 43 ==> #[trigger] episode_header()[j] != LF,
{
    reveal_strlit("guid,title,pub_date,link,podcast,podcast_id\n");
    let hc = "guid,title,pub_date,link,podcast,podcast_id\n"@;
    assert(hc.len() == 44);
    assert(vstd::utf8::is_ascii_chars(hc)) by {
        assert(forall|i: int| 0 <= i < hc.len() ==> '\0' <= #[trigger] hc[i] <= '\u{7f}');
    }
    vstd::utf8::is_ascii_chars_encode_utf8(hc);
    assert(hc[43] == '\n');
    assert(episode_header()[43] == hc[43] as u8);
    assert forall|j: int| 0 <= j < 43 implies #[trigger] episode_header()[j] != LF by {
        assert(episode_header()[j] == hc[j] as u8);
        assert(hc[j] != '\n');
    }
}

/// Reading back a written episode catalog yields exactly the rows that
/// were written: what an update run stores, listing and downloading see
/// again unchanged, for episodes whose text fields stay on one line.
pub proof fn lemma_episode_catalog_round_trip(rows: Seq<EpisodeV>)
    requires
        forall|k: int| 0 <= k < rows.len() ==> episode_single_line(#[trigger] rows[k]),
    ensures
        spec_parse_episodes(episode_csv(rows)) == rows,
{
    if rows.len() == 0 {
        assert(spec_parse_episodes(episode_csv(rows)) =~= rows);
    } else {
        let b = episode_csv(rows);
        lemma_episode_header_shape();
        let h = episode_header();
        assert(b == h + episode_rows_bytes(rows));
        assert forall|j: int| 0 <= j < 43 implies b[j] != LF by {
            assert(b[j] == h[j]);
        }
        crate::codec::lemma_lines_run(b, 0, 43, Seq::empty(), Seq::empty());
        let hl = b.subrange(0, 43);
        assert(Seq::<u8>::empty() + b.subrange(0, 43) =~= hl);
        assert(b[43] == h[43] && h[43] == LF);
        assert(crate::codec::lines_rec(b, 43, hl, Seq::empty()) == crate::codec::lines_rec(
            b,
            44,
            Seq::empty(),
            Seq::<Seq<u8>>::empty().push(hl),
        ));
        assert(b.subrange(44, b.len() as int) =~= episode_rows_bytes(rows)) by {
            assert(forall|j: int|
                0 <= j < b.len() - 44 ==> #[trigger] b.subrange(44, b.len() as int)[j] == b[j
                    + 44]);
        }
        lemma_episode_rows_lines(b, 44, rows, Seq::<Seq<u8>>::empty().push(hl));
        let lines = split_lines(b);
        assert(lines == Seq::<Seq<u8>>::empty().push(hl) + episode_row_lines(rows));
        assert(hl.len() == 43);
        assert(lines[0] == hl);
        assert(episode_rows_rec(lines, 0, false, Seq::empty()) == episode_rows_rec(
            lines,
            1,
            true,
            Seq::empty(),
        ));
        assert forall|k: int|
            0 <= k < rows.len() implies (#[trigger] lines[1 + k]).len() > 0 && episode_of_line(
            lines[1 + k]) == Some(rows[k]) by {
            assert(lines[1 + k] == episode_row_lines(rows)[k]);
            assert(episode_row_lines(rows)[k] == episode_row_line(rows[k]));
            lemma_episode_row_line_shape(rows[k]);
            lemma_episode_line_round_trip(rows[k]);
        }
        lemma_episode_rows_rec_tail(lines, 1, rows, Seq::empty());
        assert(Seq::<EpisodeV>::empty() + rows =~= rows);
    }
}

} // verus!
