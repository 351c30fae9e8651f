//! Choosing among the children of a tree node.

use crate::calendar::{CivilTime, TimePoint};
use crate::conversions::level_value;
use crate::entries::{IndexConfiguration, IndexType, Order, Path, TimeIndex};
use crate::errors::{IndexError, IndexResult, MSG_NO_CHILDREN, MSG_SHORT_CHILD};
use crate::paths::clone_path;
use vstd::prelude::*;

verus! {

/// The time `t` as seen from the level `level`: the fields down to that level
/// as they are, every finer field set to 1.
pub open spec fn level_bound(t: CivilTime, level: IndexType) -> CivilTime {
    CivilTime {
        year: t.year,
        month: if level.position() >= 2 { t.month } else { 1 },
        day: if level.position() >= 3 { t.day } else { 1 },
        hour: if level.position() >= 4 { t.hour } else { 1 },
        minute: if level.position() >= 5 { t.minute } else { 1 },
        second: if level.position() >= 6 { t.second } else { 1 },
    }
}

/// The two ends of a time span as seen from the level `index_type`, against
/// which the paths of that level are held; `None` where the tree does not have
/// the level.
pub fn get_naivedatetime(
    from: &TimePoint,
    until: &TimePoint,
    index_type: &IndexType,
    config: &IndexConfiguration,
) -> (r: Option<(CivilTime, CivilTime)>)
    ensures
        r == if config.enabled(*index_type) {
            Some((level_bound(from.civil, *index_type), level_bound(until.civil, *index_type)))
        } else {
            None::<(CivilTime, CivilTime)>
        },
{
    if !config.contains(*index_type) {
        return None;
    }
    let depth = index_type.depth();
    Some((bound_at(&from.civil, depth), bound_at(&until.civil, depth)))
}

fn bound_at(t: &CivilTime, depth: usize) -> (r: CivilTime)
    ensures
        r == (CivilTime {
            year: t.year,
            month: if depth >= 2 { t.month } else { 1 },
            day: if depth >= 3 { t.day } else { 1 },
            hour: if depth >= 4 { t.hour } else { 1 },
            minute: if depth >= 5 { t.minute } else { 1 },
            second: if depth >= 6 { t.second } else { 1 },
        }),
{
    CivilTime {
        year: t.year,
        month: if depth >= 2 { t.month } else { 1 },
        day: if depth >= 3 { t.day } else { 1 },
        hour: if depth >= 4 { t.hour } else { 1 },
        minute: if depth >= 5 { t.minute } else { 1 },
        second: if depth >= 6 { t.second } else { 1 },
    }
}

/// Whether a path whose time is `t` lies within the span from `from` to
/// `until`, both as seen from the level searched. In a descending search the
/// span runs from the later end to the earlier.
pub open spec fn within(t: CivilTime, from: CivilTime, until: CivilTime, order: Order) -> bool {
    match order {
        Order::Asc => from.spec_le(t) && t.spec_le(until),
        Order::Desc => until.spec_le(t) && t.spec_le(from),
    }
}

pub fn is_within(t: &CivilTime, from: &CivilTime, until: &CivilTime, order: Order) -> (b: bool)
    ensures
        b == within(*t, *from, *until, order),
{
    match order {
        Order::Asc => from.le(t) && t.le(until),
        Order::Desc => until.le(t) && t.le(from),
    }
}

/// The value by which a child is compared at the level `level`: the level
/// value at that level's position.
pub open spec fn child_key(child: Seq<Seq<u8>>, level: IndexType) -> IndexResult<u32> {
    if level.position() < child.len() {
        level_value(child, level.position() as int, true)
    } else {
        Err(IndexError::InternalError(MSG_SHORT_CHILD))
    }
}

/// Every child in front of `count` has a key.
pub open spec fn keys_ok(children: Seq<Seq<Seq<u8>>>, level: IndexType, count: int) -> bool {
    forall|k: int| 0 <= k < count ==> (#[trigger] child_key(children[k], level)) is Ok
}

/// `best` is the place of the newest child: no child has a larger key, and
/// every child behind it has a smaller one.
pub open spec fn is_newest(children: Seq<Seq<Seq<u8>>>, level: IndexType, best: int) -> bool {
    &&& 0 <= best < children.len()
    &&& keys_ok(children, level, children.len() as int)
    &&& forall|k: int|
        0 <= k < children.len() ==> (#[trigger] child_key(children[k], level)).unwrap()
            <= child_key(children[best], level).unwrap()
    &&& forall|k: int|
        best < k < children.len() ==> (#[trigger] child_key(children[k], level)).unwrap()
            < child_key(children[best], level).unwrap()
}

fn read_child_key(child: &Path, level: IndexType) -> (r: IndexResult<u32>)
    ensures
        r == child_key(child.deep_view(), level),
{
    let position = level.depth();
    if position < child.len() {
        assert(child.deep_view()[position as int] == child@[position as int]@);
        match TimeIndex::try_from(&child[position]) {
            Ok(t) => Ok(t.0),
            Err(e) => Err(e),
        }
    } else {
        Err(IndexError::InternalError(MSG_SHORT_CHILD))
    }
}

/// Find the newest time period one level down from `path`, among the children
/// `children` that the node at `path` has in the tree. Where the tree does not
/// have the level `time_index`, that is `path` itself. A node without children
/// is an error, and so is a child that has no value at the level; the first
/// such child decides which.
pub fn find_newest_time_path(
    path: Path,
    time_index: IndexType,
    children: &Vec<Path>,
    config: &IndexConfiguration,
) -> (r: IndexResult<Path>)
    ensures
        !config.enabled(time_index) ==> r is Ok && r.unwrap().deep_view() == path.deep_view(),
        config.enabled(time_index) ==> match r {
            Ok(newest) => exists|best: int| #[trigger]
                is_newest(children.deep_view(), time_index, best) && newest.deep_view()
                    == children.deep_view()[best],
            Err(e) => if children@.len() == 0 {
                e == IndexError::Wasm(MSG_NO_CHILDREN)
            } else {
                exists|bad: int|
                    0 <= bad < children@.len() && #[trigger] keys_ok(
                        children.deep_view(),
                        time_index,
                        bad,
                    ) && child_key(children.deep_view()[bad], time_index) == Err::<
                        u32,
                        IndexError,
                    >(e)
            },
        },
{
    if !config.contains(time_index) {
        return Ok(path);
    }
    if children.len() == 0 {
        return Err(IndexError::Wasm(MSG_NO_CHILDREN));
    }
    let ghost all = children.deep_view();
    let mut best: usize = 0;
    assert(all[0] == children@[0].deep_view());
    let mut best_key: u32 = match read_child_key(&children[0], time_index) {
        Ok(key) => key,
        Err(e) => {
            assert(keys_ok(all, time_index, 0));
            return Err(e);
        },
    };
    let mut i: usize = 1;
    while i < children.len()
        invariant
            1 <= i <= children.len(),
            config.enabled(time_index),
            all == children.deep_view(),
            all.len() == children@.len(),
            0 <= best < i,
            keys_ok(all, time_index, i as int),
            child_key(all[best as int], time_index) == Ok::<u32, IndexError>(best_key),
            forall|k: int|
                0 <= k < i ==> (#[trigger] child_key(all[k], time_index)).unwrap() <= best_key,
            forall|k: int|
                best < k < i ==> (#[trigger] child_key(all[k], time_index)).unwrap() < best_key,
        decreases children.len() - i,
    {
        assert(all[i as int] == children@[i as int].deep_view());
        let key = match read_child_key(&children[i], time_index) {
            Ok(key) => key,
            Err(e) => {
                return Err(e);
            },
        };
        if key >= best_key {
            best = i;
            best_key = key;
        }
        i = i + 1;
    }
    assert(is_newest(all, time_index, best as int));
    assert(all[best as int] == children@[best as int].deep_view());
    Ok(clone_path(&children[best]))
}

} // verus!
