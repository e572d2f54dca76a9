//! Feed definitions and the registry that maps an endpoint path to its feed.

use vstd::prelude::*;

verus! {

/// The whole configuration: where to listen, and the feeds to serve.
#[derive(Clone, Debug)]
pub struct Config {
    /// The address to listen on, as "host:port".
    pub listen_address: String,
    /// The feeds to fetch and mux.
    pub feeds: Vec<FeedConfig>,
}

/// One feed: the path it is served under, how it is presented, and the
/// calendars it is made of.
#[derive(Clone, Debug)]
pub struct FeedConfig {
    /// The path to serve this feed under, such as `/team`.
    pub endpoint: String,
    /// The calendar name to present (`X-WR-CALNAME`), if any.
    pub visual_name: Option<String>,
    /// The color for Apple clients (`X-APPLE-CALENDAR-COLOR`), such as
    /// `#ff69b4`; an empty string sets none.
    pub color: String,
    /// The calendars to fetch and mux, in the order their components appear.
    pub urls: Vec<String>,
}

pub ghost struct FeedModel {
    pub endpoint: Seq<char>,
    pub visual_name: Option<Seq<char>>,
    pub color: Seq<char>,
    pub urls: Seq<Seq<char>>,
}

pub open spec fn opt_text(o: Option<String>) -> Option<Seq<char>> {
    match o {
        Some(s) => Some(s@),
        None => None,
    }
}

impl View for FeedConfig {
    type V = FeedModel;

    open spec fn view(&self) -> FeedModel {
        FeedModel {
            endpoint: self.endpoint@,
            visual_name: opt_text(self.visual_name),
            color: self.color@,
            urls: self.urls@.map_values(|u: String| u@),
        }
    }
}

pub open spec fn feed_models(v: Seq<FeedConfig>) -> Seq<FeedModel> {
    v.map_values(|f: FeedConfig| f@)
}

/// Why a configuration was refused.
#[derive(Clone, Copy, Debug, PartialEq, Eq, Structural)]
pub enum ConfigError {
    /// The feed at this position lists no URL.
    NoUrls(usize),
    /// The feed at this position has the endpoint of a feed before it.
    DuplicateEndpoint(usize),
}

impl ConfigError {
    /// A human-readable description of the error.
    pub fn message(&self) -> (r: String)
        ensures
            r@ == self.message_spec(),
    {
        match self {
            ConfigError::NoUrls(_) => String::from_str("a feed lists no URL"),
            ConfigError::DuplicateEndpoint(_) => String::from_str(
                "a feed has the endpoint of another feed",
            ),
        }
    }

    pub open spec fn message_spec(&self) -> Seq<char> {
        match self {
            ConfigError::NoUrls(_) => "a feed lists no URL"@,
            ConfigError::DuplicateEndpoint(_) => "a feed has the endpoint of another feed"@,
        }
    }
}

/// What is wrong with feed `i`, given the feeds before it.
pub open spec fn feed_problem(fs: Seq<FeedModel>, i: int) -> Result<(), ConfigError> {
    if fs[i].urls.len() == 0 {
        Err(ConfigError::NoUrls(i as usize))
    } else if exists|j: int| 0 <= j < i && #[trigger] fs[j].endpoint == fs[i].endpoint {
        Err(ConfigError::DuplicateEndpoint(i as usize))
    } else {
        Ok(())
    }
}

/// The problem of the first feed that has one, if any.
pub open spec fn check_feeds(fs: Seq<FeedModel>) -> Result<(), ConfigError>
    decreases fs.len(),
{
    if fs.len() == 0 {
        Ok(())
    } else {
        match check_feeds(fs.drop_last()) {
            Ok(()) => feed_problem(fs, fs.len() - 1),
            Err(e) => Err(e),
        }
    }
}

/// Every feed lists a URL, and no two feeds share an endpoint.
pub open spec fn feeds_valid(fs: Seq<FeedModel>) -> bool {
    &&& forall|i: int| 0 <= i < fs.len() ==> #[trigger] fs[i].urls.len() > 0
    &&& forall|i: int, j: int|
        0 <= i < j < fs.len() ==> #[trigger] fs[i].endpoint != #[trigger] fs[j].endpoint
}

proof fn lemma_check_feeds_valid(fs: Seq<FeedModel>)
    ensures
        check_feeds(fs) is Ok <==> feeds_valid(fs),
    decreases fs.len(),
{
    if fs.len() > 0 {
        let p = fs.drop_last();
        lemma_check_feeds_valid(p);
        let n = fs.len() - 1;
        if feeds_valid(fs) {
            assert forall|i: int| 0 <= i < p.len() implies #[trigger] p[i].urls.len() > 0 by {
                assert(p[i] == fs[i]);
            }
            assert forall|i: int, j: int|
                0 <= i < j < p.len() implies #[trigger] p[i].endpoint != #[trigger] p[j].endpoint by {
                assert(p[i] == fs[i] && p[j] == fs[j]);
            }
            assert(!(exists|j: int| 0 <= j < n && #[trigger] fs[j].endpoint == fs[n].endpoint));
        }
        if check_feeds(fs) is Ok {
            assert forall|i: int| 0 <= i < fs.len() implies #[trigger] fs[i].urls.len() > 0 by {
                if i < n {
                    assert(p[i] == fs[i]);
                }
            }
            assert forall|i: int, j: int|
                0 <= i < j < fs.len() implies #[trigger] fs[i].endpoint != #[trigger] fs[j].endpoint by {
                if j < n {
                    assert(p[i] == fs[i] && p[j] == fs[j]);
                } else {
                    if fs[i].endpoint == fs[j].endpoint {
                        assert(0 <= i < n && fs[i].endpoint == fs[n].endpoint);
                    }
                }
            }
        }
    }
}

/// Two feeds with the same endpoint make a configuration that is refused.
pub proof fn duplicate_endpoint_refused(fs: Seq<FeedModel>, i: int, j: int)
    requires
        0 <= i < j < fs.len(),
        fs[i].endpoint == fs[j].endpoint,
    ensures
        check_feeds(fs) is Err,
{
    lemma_check_feeds_valid(fs);
}

/// The feeds served, looked up by endpoint path. No two share an endpoint,
/// and each lists at least one URL.
pub struct FeedRegistry {
    feeds: Vec<FeedConfig>,
}

impl View for FeedRegistry {
    type V = Seq<FeedModel>;

    closed spec fn view(&self) -> Seq<FeedModel> {
        feed_models(self.feeds@)
    }
}

impl FeedRegistry {
    #[verifier::type_invariant]
    spec fn registry_valid(&self) -> bool {
        feeds_valid(feed_models(self.feeds@))
    }

    /// Builds the registry, refusing a feed without URLs or one whose
    /// endpoint an earlier feed already has; the first such feed is named.
    pub fn new(feeds: Vec<FeedConfig>) -> (r: Result<FeedRegistry, ConfigError>)
        ensures
            match r {
                Ok(reg) => check_feeds(feed_models(feeds@)) is Ok && reg@ == feed_models(feeds@)
                    && feeds_valid(reg@),
                Err(e) => check_feeds(feed_models(feeds@)) == Err::<(), ConfigError>(e),
            },
    {
        let ghost fs = feed_models(feeds@);
        assert(fs.take(0) =~= Seq::<FeedModel>::empty());
        for i in 0..feeds.len()
            invariant
                fs == feed_models(feeds@),
                check_feeds(fs.take(i as int)) is Ok,
        {
            let ghost p = fs.take(i + 1);
            assert(p.drop_last() =~= fs.take(i as int));
            assert(p[i as int] == fs[i as int]);
            if feeds[i].urls.len() == 0 {
                proof {
                    lemma_check_error_stays(fs, i + 1);
                }
                return Err(ConfigError::NoUrls(i));
            }
            for j in 0..i
                invariant
                    fs == feed_models(feeds@),
                    p == fs.take(i + 1),
                    i < feeds.len(),
                    feeds@[i as int].urls.len() > 0,
                    check_feeds(fs.take(i as int)) is Ok,
                    p.drop_last() == fs.take(i as int),
                    forall|k: int| 0 <= k < j ==> #[trigger] p[k].endpoint != p[i as int].endpoint,
            {
                if feeds[j].endpoint.eq(&feeds[i].endpoint) {
                    proof {
                        assert(p[j as int] == fs[j as int]);
                        assert(0 <= j < i && p[j as int].endpoint == p[i as int].endpoint);
                        lemma_check_error_stays(fs, i + 1);
                    }
                    return Err(ConfigError::DuplicateEndpoint(i));
                }
                assert(p[j as int] == fs[j as int]);
            }
            assert(check_feeds(p) is Ok);
        }
        assert(fs.take(feeds.len() as int) =~= fs);
        proof {
            lemma_check_feeds_valid(fs);
        }
        Ok(FeedRegistry { feeds })
    }

    /// The feed served at `path`, if there is one.
    pub fn lookup(&self, path: &str) -> (r: Option<&FeedConfig>)
        ensures
            match r {
                Some(f) => f@.endpoint == path@ && self@.contains(f@),
                None => forall|i: int| 0 <= i < self@.len() ==> #[trigger] self@[i].endpoint != path@,
            },
    {
        let wanted = String::from_str(path);
        for i in 0..self.feeds.len()
            invariant
                wanted@ == path@,
                forall|k: int| 0 <= k < i ==> #[trigger] self@[k].endpoint != path@,
        {
            if self.feeds[i].endpoint.eq(&wanted) {
                assert(self@[i as int] == self.feeds[i as int]@);
                return Some(&self.feeds[i]);
            }
        }
        None
    }

    /// The feeds, in configured order.
    pub fn feeds(&self) -> (r: &Vec<FeedConfig>)
        ensures
            feed_models(r@) == self@,
    {
        &self.feeds
    }
}

proof fn lemma_check_error_stays(fs: Seq<FeedModel>, k: int)
    requires
        0 <= k <= fs.len(),
        check_feeds(fs.take(k)) is Err,
    ensures
        check_feeds(fs) == check_feeds(fs.take(k)),
    decreases fs.len() - k,
{
    if k < fs.len() {
        assert(fs.take(k + 1).drop_last() =~= fs.take(k));
        lemma_check_error_stays(fs, k + 1);
    } else {
        assert(fs.take(k) =~= fs);
    }
}

} // verus!
