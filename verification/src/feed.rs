use vstd::prelude::*;

verus! {

/// One entry of a feed document, as the document gives it: each part may
/// be absent.
pub struct FeedItem {
    pub guid: Option<String>,
    pub title: Option<String>,
    pub pub_date: Option<String>,
    pub link: Option<String>,
}

/// A parsed feed document: its title, its canonical site link, and its
/// entries in document order.
pub struct Feed {
    pub title: String,
    pub link: String,
    pub items: Vec<FeedItem>,
}

/// The feed document a byte payload holds, or nothing when the payload is
/// no well-formed feed. A function of the bytes alone.
pub uninterp spec fn feed_of(bytes: Seq<u8>) -> Option<Feed>;

/// Parses a fetched payload as a feed document; a malformed document is
/// simply reported absent.
///
/// Relies on rss::Channel::read_from and the accessors Channel::title,
/// Channel::link, Channel::items, Item::guid, Item::title, Item::pub_date,
/// Item::link and Guid::value: parsing depends on the payload bytes alone,
/// and the items come back in document order.
#[verifier::external_body]
pub fn parse_feed(bytes: &Vec<u8>) -> (r: Option<Feed>)
    ensures
        r == feed_of(bytes@),
{
    let channel = match rss::Channel::read_from(&bytes[..]) {
        Ok(c) => c,
        Err(_) => return None,
    };
    let items = channel.items().iter().map(|item| FeedItem {
        guid: item.guid().map(|g| g.value().to_string()),
        title: item.title().map(|t| t.to_string()),
        pub_date: item.pub_date().map(|d| d.to_string()),
        link: item.link().map(|l| l.to_string()),
    }).collect();
    Some(Feed { title: channel.title().to_string(), link: channel.link().to_string(), items })
}

} // verus!
