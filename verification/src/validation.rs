//! The rules a bucket has to meet before it is put into the tree.

use crate::codec::index_bytes;
use crate::entries::{Duration, Index, IndexConfiguration, Path, NANOS_PER_MILLI};
use crate::errors::{IndexError, IndexResult, MSG_FUTURE, MSG_ORDERING, MSG_PERIOD};
use crate::utils::{get_time_path, time_path_result};
use vstd::prelude::*;

verus! {

impl Index {
    /// Whether this bucket may be put into the tree at the time `now` after the
    /// epoch: it does not start in the future, it is as wide as the settings say,
    /// and it starts on a multiple of that width. The first rule that is broken
    /// decides the error.
    pub open spec fn validity(self, now: Duration, config: IndexConfiguration) -> IndexResult<()> {
        if now.nanos_total() < self.from.nanos_total() {
            Err(IndexError::RequestError(MSG_FUTURE))
        } else if self.until.nanos_total() - self.from.nanos_total() != config.max_chunk_interval
            * NANOS_PER_MILLI {
            Err(IndexError::RequestError(MSG_PERIOD))
        } else if self.from.millis_total() % (config.max_chunk_interval as nat) != 0 {
            Err(IndexError::RequestError(MSG_ORDERING))
        } else {
            Ok(())
        }
    }

    /// Checks this bucket against the rules, at the time `now` after the epoch.
    pub fn validate_chunk(&self, now: &Duration, config: &IndexConfiguration) -> (r: IndexResult<()>)
        requires
            self.wf(),
            now.wf(),
            config.wf(),
        ensures
            r == self.validity(*now, *config),
    {
        if now.lt(&self.from) {
            return Err(IndexError::RequestError(MSG_FUTURE));
        }
        let from = self.from.as_nanos();
        let until = self.until.as_nanos();
        let interval = config.max_chunk_interval().as_nanos();
        if until < from || until - from != interval {
            return Err(IndexError::RequestError(MSG_PERIOD));
        }
        if self.from.as_millis() % (config.max_chunk_interval as u128) != 0 {
            return Err(IndexError::RequestError(MSG_ORDERING));
        }
        Ok(())
    }

    /// The path at which this bucket is kept in the tree `index`: the path of the
    /// node for the time at which the bucket starts, and the bucket itself as
    /// the last component.
    pub open spec fn tree_path(self, name: Seq<char>, now: Duration, config: IndexConfiguration)
        -> IndexResult<Seq<Seq<u8>>> {
        match self.validity(now, config) {
            Err(e) => Err(e),
            Ok(_) => match time_path_result(name, self.from, config) {
                Err(e) => Err(e),
                Ok(path) => Ok(path.push(index_bytes(self))),
            },
        }
    }

    /// Create a new time index: checks this bucket against the rules at the time
    /// `now` after the epoch and gives the path at which it is to be kept in the
    /// tree `index`.
    pub fn new(&self, index: String, now: &Duration, config: &IndexConfiguration) -> (r: IndexResult<
        Path,
    >)
        requires
            self.wf(),
            now.wf(),
            config.wf(),
        ensures
            match r {
                Ok(path) => self.tree_path(index@, *now, *config) == Ok::<
                    Seq<Seq<u8>>,
                    IndexError,
                >(path.deep_view()),
                Err(e) => self.tree_path(index@, *now, *config) == Err::<Seq<Seq<u8>>, IndexError>(
                    e,
                ),
            },
    {
        match self.validate_chunk(now, config) {
            Ok(_) => {},
            Err(e) => { return Err(e); },
        }
        let mut time_path = match get_time_path(index, self.from, config) {
            Ok(path) => path,
            Err(e) => { return Err(e); },
        };
        let component = crate::codec::encode_index(self);
        let ghost before = time_path;
        time_path.push(component);
        proof {
            crate::paths::lemma_push_deep_view(before, time_path, component);
            assert(component.deep_view() =~= component@);
        }
        Ok(time_path)
    }
}

} // verus!
