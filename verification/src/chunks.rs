//! Time chunks that are laid out from a first chunk, the genesis: every chunk
//! is as wide as the settings say and starts a whole number of widths after
//! the genesis chunk.

use crate::entries::{Duration, IndexConfiguration, Link, Path, NANOS_PER_MILLI};
use crate::errors::{IndexError, IndexResult, MSG_FUTURE, MSG_GENESIS_ORDERING, MSG_NO_GENESIS,
    MSG_PERIOD};
use crate::utils::{get_time_path, time_path_result};
use vstd::prelude::*;

verus! {

/// A span of time that links are hung from.
#[derive(Clone, Copy, Debug, PartialEq, Eq, Structural, Hash)]
pub struct TimeChunk {
    pub from: Duration,
    pub until: Duration,
}

/// The name of the tree that chunks are kept in.
pub open spec fn chunk_tree_name() -> Seq<char> {
    seq!['t', 'i', 'm', 'e']
}

impl TimeChunk {
    pub open spec fn wf(self) -> bool {
        self.from.wf() && self.until.wf()
    }

    /// Whether this chunk may be created at the time `now` after the epoch: it
    /// does not start in the future, it is as wide as the settings say, and,
    /// unless it is the genesis chunk itself, there is a genesis chunk and this
    /// chunk starts a whole number of widths after it. The first rule that is
    /// broken decides the error.
    pub open spec fn validity(
        self,
        is_genesis: bool,
        now: Duration,
        genesis: Option<TimeChunk>,
        config: IndexConfiguration,
    ) -> IndexResult<()> {
        if now.nanos_total() < self.from.nanos_total() {
            Err(IndexError::Wasm(MSG_FUTURE))
        } else if self.until.nanos_total() - self.from.nanos_total() != config.max_chunk_interval
            * NANOS_PER_MILLI {
            Err(IndexError::Wasm(MSG_PERIOD))
        } else if is_genesis {
            Ok(())
        } else if genesis is None {
            Err(IndexError::Wasm(MSG_NO_GENESIS))
        } else if self.from.nanos_total() < genesis.unwrap().from.nanos_total() || ((
        self.from.nanos_total() - genesis.unwrap().from.nanos_total()) / (NANOS_PER_MILLI as int))
            % (config.max_chunk_interval as int) != 0 {
            Err(IndexError::Wasm(MSG_GENESIS_ORDERING))
        } else {
            Ok(())
        }
    }

    fn check(
        &self,
        is_genesis: bool,
        now: &Duration,
        genesis: Option<&TimeChunk>,
        config: &IndexConfiguration,
    ) -> (r: IndexResult<()>)
        requires
            self.wf(),
            now.wf(),
            config.wf(),
            genesis is Some ==> genesis.unwrap().wf(),
        ensures
            r == self.validity(
                is_genesis,
                *now,
                match genesis {
                    Some(g) => Some(*g),
                    None => None,
                },
                *config,
            ),
    {
        if now.lt(&self.from) {
            return Err(IndexError::Wasm(MSG_FUTURE));
        }
        let from = self.from.as_nanos();
        let until = self.until.as_nanos();
        let interval = config.max_chunk_interval().as_nanos();
        if until < from || until - from != interval {
            return Err(IndexError::Wasm(MSG_PERIOD));
        }
        if is_genesis {
            return Ok(());
        }
        let first = match genesis {
            Some(g) => g.from.as_nanos(),
            None => { return Err(IndexError::Wasm(MSG_NO_GENESIS)); },
        };
        if from < first || ((from - first) / (NANOS_PER_MILLI as u128)) % (
        config.max_chunk_interval as u128) != 0 {
            return Err(IndexError::Wasm(MSG_GENESIS_ORDERING));
        }
        Ok(())
    }

    /// Checks this chunk against the rules at the time `now` after the epoch,
    /// given the genesis chunk where there is one.
    pub fn validate_chunk(
        &self,
        now: &Duration,
        genesis: Option<&TimeChunk>,
        config: &IndexConfiguration,
    ) -> (r: IndexResult<()>)
        requires
            self.wf(),
            now.wf(),
            config.wf(),
            genesis is Some ==> genesis.unwrap().wf(),
        ensures
            r == self.validity(
                false,
                *now,
                match genesis {
                    Some(g) => Some(*g),
                    None => None,
                },
                *config,
            ),
    {
        self.check(false, now, genesis, config)
    }

    /// Create a new chunk: checks it against the rules and gives the path of
    /// the tree node that it is to be linked from.
    pub fn create_chunk(
        &self,
        is_genesis: bool,
        now: &Duration,
        genesis: Option<&TimeChunk>,
        config: &IndexConfiguration,
    ) -> (r: IndexResult<Path>)
        requires
            self.wf(),
            now.wf(),
            config.wf(),
            genesis is Some ==> genesis.unwrap().wf(),
        ensures
            ({
                let valid = self.validity(
                    is_genesis,
                    *now,
                    match genesis {
                        Some(g) => Some(*g),
                        None => None,
                    },
                    *config,
                );
                let path = time_path_result(chunk_tree_name(), self.from, *config);
                match r {
                    Ok(p) => valid is Ok && path == Ok::<Seq<Seq<u8>>, IndexError>(p.deep_view()),
                    Err(e) => if valid is Err {
                        valid == Err::<(), IndexError>(e)
                    } else {
                        path == Err::<Seq<Seq<u8>>, IndexError>(e)
                    },
                }
            }),
    {
        match self.check(is_genesis, now, genesis, config) {
            Ok(_) => {},
            Err(e) => { return Err(e); },
        }
        let name = String::from_str("time");
        proof {
            reveal_strlit("time");
            assert(name@ =~= chunk_tree_name());
        }
        get_time_path(name, self.from, config)
    }

    /// The chunk that lies `back_steps` widths before this one; none where
    /// that would start before the epoch.
    pub fn get_previous_chunk(&self, back_steps: u32, config: &IndexConfiguration) -> (r: Option<
        TimeChunk,
    >)
        requires
            self.wf(),
        ensures
            ({
                let back = back_steps * config.max_chunk_interval * NANOS_PER_MILLI;
                match r {
                    Some(chunk) => {
                        &&& chunk.wf()
                        &&& back <= self.from.nanos_total()
                        &&& back <= self.until.nanos_total()
                        &&& chunk.from.nanos_total() == self.from.nanos_total() - back
                        &&& chunk.until.nanos_total() == self.until.nanos_total() - back
                    },
                    None => back > self.from.nanos_total() || back > self.until.nanos_total(),
                }
            }),
    {
        let width: u128 = config.max_chunk_interval as u128;
        assert(width * 1_000_000 <= 0xffff_ffff_ffff_ffff * 1_000_000);
        let nanos: u128 = width * 1_000_000;
        let steps: u128 = back_steps as u128;
        assert(steps * nanos <= 0xffff_ffff * (0xffff_ffff_ffff_ffff * 1_000_000)) by (nonlinear_arith)
            requires
                steps <= 0xffff_ffff,
                nanos <= 0xffff_ffff_ffff_ffff * 1_000_000,
        ;
        let back: u128 = steps * nanos;
        assert(back == back_steps * config.max_chunk_interval * NANOS_PER_MILLI) by (nonlinear_arith)
            requires
                back == steps * nanos,
                nanos == width * 1_000_000,
                steps == back_steps,
                width == config.max_chunk_interval,
                NANOS_PER_MILLI == 1_000_000,
        ;
        let from = self.from.as_nanos();
        let until = self.until.as_nanos();
        if back > from || back > until {
            return None;
        }
        assert((from - back) / 1_000_000_000 <= from / 1_000_000_000 <= u64::MAX);
        assert((until - back) / 1_000_000_000 <= until / 1_000_000_000 <= u64::MAX);
        let from = match Duration::from_nanos(from - back) {
            Some(d) => d,
            None => { return None; },
        };
        let until = match Duration::from_nanos(until - back) {
            Some(d) => d,
            None => { return None; },
        };
        Some(TimeChunk { from, until })
    }

    /// The genesis chunk of a tree that starts at the time `now` after the
    /// epoch; none where its end is beyond what a span of time can hold.
    pub fn genesis(now: &Duration, config: &IndexConfiguration) -> (r: Option<TimeChunk>)
        requires
            now.wf(),
        ensures
            match r {
                Some(chunk) => chunk.wf() && chunk.from == *now && chunk.until.nanos_total()
                    == now.nanos_total() + config.max_chunk_interval * NANOS_PER_MILLI,
                None => (now.nanos_total() + config.max_chunk_interval * NANOS_PER_MILLI)
                    / 1_000_000_000 > u64::MAX,
            },
    {
        let width: u128 = config.max_chunk_interval as u128;
        assert(width * 1_000_000 <= 0xffff_ffff_ffff_ffff * 1_000_000);
        let until = now.as_nanos() + width * 1_000_000;
        match Duration::from_nanos(until) {
            Some(until) => Some(TimeChunk { from: *now, until }),
            None => None,
        }
    }
}

/// `best` is the place of the link made last: no link is later, and every
/// link behind it is earlier.
pub open spec fn is_latest_link(links: Seq<Link>, best: int) -> bool {
    &&& 0 <= best < links.len()
    &&& forall|k: int| 0 <= k < links.len() ==> (#[trigger] links[k]).timestamp <= links[best].timestamp
    &&& forall|k: int| best < k < links.len() ==> (#[trigger] links[k]).timestamp < links[best].timestamp
}

/// Among the links that hang from a tree node the place of the one made last,
/// which leads to the current chunk; none where there is no link.
pub fn latest_link(links: &Vec<Link>) -> (r: Option<usize>)
    ensures
        match r {
            Some(best) => is_latest_link(links@, best as int),
            None => links@.len() == 0,
        },
{
    if links.len() == 0 {
        return None;
    }
    let mut best: usize = 0;
    let mut i: usize = 1;
    while i < links.len()
        invariant
            1 <= i <= links.len(),
            best < i,
            forall|k: int| 0 <= k < i ==> (#[trigger] links@[k]).timestamp <= links@[best as int].timestamp,
            forall|k: int|
                best < k < i ==> (#[trigger] links@[k]).timestamp < links@[best as int].timestamp,
        decreases links.len() - i,
    {
        if links[i].timestamp >= links[best].timestamp {
            best = i;
        }
        i = i + 1;
    }
    Some(best)
}

} // verus!
