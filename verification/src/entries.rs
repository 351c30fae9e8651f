//! The values the index is made of: spans of time, buckets, path components
//! and the settings that decide how deep the path tree goes.

use vstd::prelude::*;

verus! {

pub const NANOS_PER_SEC: u32 = 1_000_000_000;

pub const NANOS_PER_MILLI: u32 = 1_000_000;

pub const MILLIS_PER_SEC: u64 = 1_000;

/// One component of a path: opaque bytes.
pub type Component = Vec<u8>;

/// A path in the tree: the index name, then the time levels, then possibly a bucket.
pub type Path = Vec<Component>;

/// A span of time in whole seconds and a sub-second part in nanoseconds.
/// Spans are ordered by their length.
#[derive(Clone, Copy, Debug, PartialEq, Eq, Structural, Hash, PartialOrd, Ord)]
pub struct Duration {
    pub secs: u64,
    pub nanos: u32,
}

impl Duration {
    /// The sub-second part stays below one second.
    pub open spec fn wf(self) -> bool {
        self.nanos < NANOS_PER_SEC
    }

    /// The whole span in nanoseconds.
    pub open spec fn nanos_total(self) -> nat {
        (self.secs as nat) * (NANOS_PER_SEC as nat) + self.nanos as nat
    }

    /// The whole span in milliseconds, rounded down.
    pub open spec fn millis_total(self) -> nat {
        (self.secs as nat) * (MILLIS_PER_SEC as nat) + (self.nanos / NANOS_PER_MILLI) as nat
    }

    /// `self < other` as spans of time.
    pub open spec fn spec_lt(self, other: Duration) -> bool {
        self.secs < other.secs || (self.secs == other.secs && self.nanos < other.nanos)
    }

    pub fn from_secs(secs: u64) -> (d: Duration)
        ensures
            d == (Duration { secs, nanos: 0 }),
            d.wf(),
    {
        Duration { secs, nanos: 0 }
    }

    pub fn from_millis(millis: u64) -> (d: Duration)
        ensures
            d.wf(),
            d.secs == millis / MILLIS_PER_SEC,
            d.nanos == (millis % MILLIS_PER_SEC) * NANOS_PER_MILLI,
            d.nanos_total() == millis * NANOS_PER_MILLI,
            d.millis_total() == millis,
    {
        let sub: u32 = (millis % MILLIS_PER_SEC) as u32;
        let d = Duration { secs: millis / MILLIS_PER_SEC, nanos: sub * NANOS_PER_MILLI };
        assert(d.nanos / NANOS_PER_MILLI == sub) by (nonlinear_arith)
            requires
                d.nanos == sub * 1_000_000,
                NANOS_PER_MILLI == 1_000_000,
        ;
        d
    }

    /// The span of `nanos` nanoseconds.
    pub fn from_nanos(nanos: u128) -> (d: Option<Duration>)
        ensures
            d is Some <==> nanos / (NANOS_PER_SEC as u128) <= u64::MAX,
            d is Some ==> d.unwrap().wf() && d.unwrap().nanos_total() == nanos,
    {
        let secs: u128 = nanos / (NANOS_PER_SEC as u128);
        if secs > u64::MAX as u128 {
            None
        } else {
            Some(Duration { secs: secs as u64, nanos: (nanos % (NANOS_PER_SEC as u128)) as u32 })
        }
    }

    pub fn as_secs(&self) -> (s: u64)
        ensures
            s == self.secs,
    {
        self.secs
    }

    pub fn subsec_nanos(&self) -> (n: u32)
        ensures
            n == self.nanos,
    {
        self.nanos
    }

    pub fn as_nanos(&self) -> (n: u128)
        ensures
            n == self.nanos_total(),
    {
        let secs: u128 = self.secs as u128;
        assert(secs * 1_000_000_000 <= 0xffff_ffff_ffff_ffff * 1_000_000_000);
        secs * 1_000_000_000 + self.nanos as u128
    }

    pub fn as_millis(&self) -> (n: u128)
        ensures
            n == self.millis_total(),
    {
        let secs: u128 = self.secs as u128;
        assert(secs * 1_000 <= 0xffff_ffff_ffff_ffff * 1_000);
        secs * 1_000 + (self.nanos / NANOS_PER_MILLI) as u128
    }

    /// Whether `self` is the shorter span.
    pub fn lt(&self, other: &Duration) -> (b: bool)
        ensures
            b == self.spec_lt(*other),
            (self.wf() && other.wf()) ==> b == (self.nanos_total() < other.nanos_total()),
    {
        proof {
            if self.wf() && other.wf() {
                assert(self.spec_lt(*other) == (self.nanos_total() < other.nanos_total()))
                    by (nonlinear_arith)
                    requires
                        self.nanos < 1_000_000_000,
                        other.nanos < 1_000_000_000,
                        NANOS_PER_SEC == 1_000_000_000,
                ;
            }
        }
        self.secs < other.secs || (self.secs == other.secs && self.nanos < other.nanos)
    }
}

/// A time bucket: the span `[from, until)` counted from the epoch. Buckets are
/// ordered by where they start, and those of one start by where they end.
#[derive(Clone, Copy, Debug, PartialEq, Eq, Structural, Hash, PartialOrd, Ord)]
pub struct Index {
    pub from: Duration,
    pub until: Duration,
}

impl Index {
    pub open spec fn wf(self) -> bool {
        self.from.wf() && self.until.wf()
    }
}

/// A link of the store: from a base to a target, with a tag, made at a time.
#[derive(Clone, Debug)]
pub struct Link {
    /// The address the link leads to.
    pub target: Vec<u8>,
    /// When the link was made, in microseconds since the epoch.
    pub timestamp: i64,
    /// The tag the link carries.
    pub tag: Vec<u8>,
    /// The address of the record that made the link, by which it is deleted.
    pub create_link_hash: Vec<u8>,
}

/// What a link holds.
pub struct LinkView {
    pub target: Seq<u8>,
    pub timestamp: i64,
    pub tag: Seq<u8>,
    pub create_link_hash: Seq<u8>,
}

impl View for Link {
    type V = LinkView;

    open spec fn view(&self) -> LinkView {
        LinkView {
            target: self.target@,
            timestamp: self.timestamp,
            tag: self.tag@,
            create_link_hash: self.create_link_hash@,
        }
    }
}

/// What the links of `links` hold, in their order.
pub open spec fn links_view(links: Seq<Link>) -> Seq<LinkView> {
    Seq::new(links.len(), |k: int| links[k]@)
}

/// A bucket and the links that hang from it.
#[derive(Clone, Debug)]
pub struct EntryChunkIndex {
    pub index: Index,
    pub links: Vec<Link>,
}

/// The name under which a tree is kept.
#[derive(Clone, Debug)]
pub struct StringIndex(pub String);

/// The value of one time level of a path.
#[derive(Clone, Copy, Debug, PartialEq, Eq, Structural)]
pub struct TimeIndex(pub u32);

/// A path together with the conversions this library gives it.
#[derive(Clone, Debug)]
pub struct WrappedPath(pub Path);

/// One level of the time hierarchy, coarsest first.
#[derive(Clone, Copy, Debug, PartialEq, Eq, Structural, Hash)]
pub enum IndexType {
    Year,
    Month,
    Day,
    Hour,
    Minute,
    Second,
}

impl IndexType {
    /// The position of this level's component in a path (the name stands at 0).
    pub open spec fn position(self) -> nat {
        match self {
            IndexType::Year => 1,
            IndexType::Month => 2,
            IndexType::Day => 3,
            IndexType::Hour => 4,
            IndexType::Minute => 5,
            IndexType::Second => 6,
        }
    }

    pub fn depth(&self) -> (d: usize)
        ensures
            d == self.position(),
            1 <= d <= 6,
    {
        match self {
            IndexType::Year => 1,
            IndexType::Month => 2,
            IndexType::Day => 3,
            IndexType::Hour => 4,
            IndexType::Minute => 5,
            IndexType::Second => 6,
        }
    }

    /// The level whose component stands at `position`, if there is one.
    pub open spec fn at_position(position: nat) -> Option<IndexType> {
        if position == 1 {
            Some(IndexType::Year)
        } else if position == 2 {
            Some(IndexType::Month)
        } else if position == 3 {
            Some(IndexType::Day)
        } else if position == 4 {
            Some(IndexType::Hour)
        } else if position == 5 {
            Some(IndexType::Minute)
        } else if position == 6 {
            Some(IndexType::Second)
        } else {
            None
        }
    }

    pub fn from_depth(position: usize) -> (r: Option<IndexType>)
        ensures
            r == IndexType::at_position(position as nat),
    {
        if position == 1 {
            Some(IndexType::Year)
        } else if position == 2 {
            Some(IndexType::Month)
        } else if position == 3 {
            Some(IndexType::Day)
        } else if position == 4 {
            Some(IndexType::Hour)
        } else if position == 5 {
            Some(IndexType::Minute)
        } else if position == 6 {
            Some(IndexType::Second)
        } else {
            None
        }
    }
}

/// The direction of a query: oldest first or newest first.
#[derive(Clone, Copy, Debug, PartialEq, Eq, Structural)]
pub enum Order {
    Desc,
    Asc,
}

/// How a query walks the tree.
#[derive(Clone, Copy, Debug, PartialEq, Eq, Structural)]
pub enum SearchStrategy {
    Dfs,
    Bfs,
}

/// The settings of an index. They are fixed when the index is set up and every
/// function that depends on them takes them by reference.
#[derive(Clone, Copy, Debug, PartialEq, Eq, Structural)]
pub struct IndexConfiguration {
    /// How many links one agent may hang on one bucket.
    pub enforce_spam_limit: usize,
    /// The width of a bucket in milliseconds.
    pub max_chunk_interval: usize,
}

/// The number of path components that every tree has above the optional levels
/// and the bucket: year, month and day.
pub const DEFAULT_INDEX_DEPTH_LEN: usize = 3;

impl IndexConfiguration {
    /// A bucket has a positive width.
    pub open spec fn wf(self) -> bool {
        self.max_chunk_interval > 0
    }

    /// Whether the tree of an index with these settings has the level `t`:
    /// year, month and day always, hours below an hour's width, minutes below a
    /// minute's, seconds below a second's.
    pub open spec fn enabled(self, t: IndexType) -> bool {
        match t {
            IndexType::Year | IndexType::Month | IndexType::Day => true,
            IndexType::Hour => self.max_chunk_interval < 3_600_000,
            IndexType::Minute => self.max_chunk_interval < 60_000,
            IndexType::Second => self.max_chunk_interval < 1_000,
        }
    }

    /// The levels that depend on the width, finest first, and the day.
    pub open spec fn index_depth_spec(self) -> Seq<IndexType> {
        if self.max_chunk_interval < 1_000 {
            seq![IndexType::Second, IndexType::Minute, IndexType::Hour, IndexType::Day]
        } else if self.max_chunk_interval < 60_000 {
            seq![IndexType::Minute, IndexType::Hour, IndexType::Day]
        } else if self.max_chunk_interval < 3_600_000 {
            seq![IndexType::Hour, IndexType::Day]
        } else {
            seq![IndexType::Day]
        }
    }

    /// The number of components of a path that ends at the finest level: the
    /// name and one component for each level the tree has.
    pub open spec fn max_depth_size_spec(self) -> nat {
        DEFAULT_INDEX_DEPTH_LEN as nat + self.index_depth_spec().len()
    }

    pub fn max_chunk_interval(&self) -> (d: Duration)
        ensures
            d.wf(),
            d.millis_total() == self.max_chunk_interval,
            d.nanos_total() == self.max_chunk_interval * NANOS_PER_MILLI,
    {
        Duration::from_millis(self.max_chunk_interval as u64)
    }

    pub fn index_depth(&self) -> (v: Vec<IndexType>)
        ensures
            v@ == self.index_depth_spec(),
    {
        let v = if self.max_chunk_interval < 1_000 {
            vec![IndexType::Second, IndexType::Minute, IndexType::Hour, IndexType::Day]
        } else if self.max_chunk_interval < 60_000 {
            vec![IndexType::Minute, IndexType::Hour, IndexType::Day]
        } else if self.max_chunk_interval < 3_600_000 {
            vec![IndexType::Hour, IndexType::Day]
        } else {
            vec![IndexType::Day]
        };
        assert(v@ =~= self.index_depth_spec());
        v
    }

    pub fn contains(&self, t: IndexType) -> (b: bool)
        ensures
            b == self.enabled(t),
    {
        match t {
            IndexType::Year | IndexType::Month | IndexType::Day => true,
            IndexType::Hour => self.max_chunk_interval < 3_600_000,
            IndexType::Minute => self.max_chunk_interval < 60_000,
            IndexType::Second => self.max_chunk_interval < 1_000,
        }
    }

    pub fn max_depth_size(&self) -> (n: usize)
        ensures
            n == self.max_depth_size_spec(),
            4 <= n <= 7,
    {
        if self.max_chunk_interval < 1_000 {
            7
        } else if self.max_chunk_interval < 60_000 {
            6
        } else if self.max_chunk_interval < 3_600_000 {
            5
        } else {
            4
        }
    }
}

/// The levels below the day are enabled from the coarsest down: a tree that has
/// seconds has minutes, and one that has minutes has hours; and a level is
/// enabled exactly when its component fits in a path of full depth.
pub proof fn lemma_depth_is_prefix_closed(config: IndexConfiguration, t: IndexType)
    ensures
        config.enabled(IndexType::Second) ==> config.enabled(IndexType::Minute),
        config.enabled(IndexType::Minute) ==> config.enabled(IndexType::Hour),
        config.enabled(t) <==> t.position() < config.max_depth_size_spec(),
        config.enabled(t) <==> (t is Year || t is Month || config.index_depth_spec().contains(t)),
{
    let d = config.index_depth_spec();
    if config.max_chunk_interval < 1_000 {
        assert(d[0] == IndexType::Second && d[1] == IndexType::Minute && d[2] == IndexType::Hour
            && d[3] == IndexType::Day);
    } else if config.max_chunk_interval < 60_000 {
        assert(d[0] == IndexType::Minute && d[1] == IndexType::Hour && d[2] == IndexType::Day);
    } else if config.max_chunk_interval < 3_600_000 {
        assert(d[0] == IndexType::Hour && d[1] == IndexType::Day);
    } else {
        assert(d[0] == IndexType::Day);
    }
}

} // verus!
