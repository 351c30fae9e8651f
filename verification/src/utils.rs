//! The arithmetic of the tree: which bucket a time falls in, which path leads
//! to it, and how much of that path two times share.

use crate::calendar::{CivilTime, TimePoint};
use crate::codec::{encode_u32, uint_bytes};
use crate::entries::{Component, Duration, Index, IndexConfiguration, IndexType, StringIndex,
    NANOS_PER_MILLI};
use crate::errors::{IndexError, IndexResult, MSG_NAME_TOO_LONG, MSG_OVERFLOW};
use crate::names::text_bytes;
use crate::codec::pow256;
use vstd::prelude::*;
use vstd::utf8::encode_utf8;

verus! {

/// The level whose component stands at `position` (the finest for any position
/// from 6 on).
pub open spec fn level_at(position: nat) -> IndexType {
    match IndexType::at_position(position) {
        Some(t) => t,
        None => IndexType::Second,
    }
}

/// On how many levels in a row, counted from the level at `position` down and
/// among the levels the tree has, the two times have the same value.
pub open spec fn shared_levels_from(
    from: CivilTime,
    until: CivilTime,
    config: IndexConfiguration,
    position: nat,
) -> nat
    decreases 7 - position,
{
    if position < 1 || position >= config.max_depth_size_spec() || from.field(level_at(position))
        != until.field(level_at(position)) {
        0
    } else {
        1 + shared_levels_from(from, until, config, position + 1)
    }
}

/// On how many levels, from the year down, the two times agree before the
/// first on which they differ.
pub open spec fn shared_levels(from: CivilTime, until: CivilTime, config: IndexConfiguration)
    -> nat {
    shared_levels_from(from, until, config, 1)
}

/// The components of the first `count` levels of `time`.
pub open spec fn level_components(time: CivilTime, count: nat) -> Seq<Seq<u8>> {
    Seq::new(count, |i: int| uint_bytes(time.field(level_at((i + 1) as nat)) as nat))
}

/// The levels of the tree that come after the first `count`.
pub open spec fn levels_after(config: IndexConfiguration, count: nat) -> Seq<IndexType> {
    Seq::new(
        (config.max_depth_size_spec() - 1 - count) as nat,
        |i: int| level_at((count + 1 + i) as nat),
    )
}

pub proof fn lemma_shared_levels_bound(
    from: CivilTime,
    until: CivilTime,
    config: IndexConfiguration,
    position: nat,
)
    requires
        1 <= position,
    ensures
        position + shared_levels_from(from, until, config, position) <= if position
            < config.max_depth_size_spec() {
            config.max_depth_size_spec()
        } else {
            position
        },
    decreases 7 - position,
{
    if position < config.max_depth_size_spec() && from.field(level_at(position)) == until.field(
        level_at(position),
    ) {
        lemma_shared_levels_bound(from, until, config, position + 1);
    }
}

/// Find the part of the path that two times share, and the levels that are
/// left to search below it: the components of the levels on which `from` and
/// `until` agree, from the year down to the first level on which they differ,
/// and that level with every finer one the tree has. Where the two agree on
/// every level of the tree, nothing is left.
pub fn find_divergent_time(from: &TimePoint, until: &TimePoint, config: &IndexConfiguration)
    -> (r: (Vec<Component>, Vec<IndexType>))
    ensures
        r.0.deep_view() == level_components(
            from.civil,
            shared_levels(from.civil, until.civil, *config),
        ),
        r.1@ == levels_after(*config, shared_levels(from.civil, until.civil, *config)),
{
    let max = config.max_depth_size();
    let mut path: Vec<Component> = Vec::new();
    let mut position: usize = 1;
    let ghost shared = shared_levels(from.civil, until.civil, *config);
    proof {
        lemma_shared_levels_bound(from.civil, until.civil, *config, 1);
    }
    let mut diverged = false;
    while position < max && !diverged
        invariant
            1 <= position <= max,
            max == config.max_depth_size_spec(),
            4 <= max <= 7,
            path@.len() == position - 1,
            diverged ==> position < max && from.civil.field(level_at(position as nat))
                != until.civil.field(level_at(position as nat)),
            path.deep_view() == level_components(from.civil, (position - 1) as nat),
            shared == (position - 1) + shared_levels_from(
                from.civil,
                until.civil,
                *config,
                position as nat,
            ),
        decreases max - position + if diverged { 0int } else { 1int },
    {
        let level = match IndexType::from_depth(position) {
            Some(level) => level,
            None => IndexType::Second,
        };
        if from.civil.get(level) != until.civil.get(level) {
            diverged = true;
        } else {
            let component = encode_u32(from.civil.get(level));
            let ghost before = path;
            path.push(component);
            position = position + 1;
            proof {
                let want = level_components(from.civil, (position - 1) as nat);
                assert forall|k: int| 0 <= k < position - 1 implies path.deep_view()[k]
                    == want[k] by {
                    if k < position - 2 {
                        assert(path@[k] == before@[k]);
                        assert(before.deep_view()[k] == level_components(
                            from.civil,
                            (position - 2) as nat,
                        )[k]);
                    }
                }
                assert(path.deep_view() =~= want);
            }
        }
    }
    assert(shared == position - 1);
    let mut remaining: Vec<IndexType> = Vec::new();
    let mut next: usize = position;
    while next < max
        invariant
            position <= next <= max,
            1 <= position,
            max == config.max_depth_size_spec(),
            remaining@ == Seq::new(
                (next - position) as nat,
                |i: int| level_at((position + i) as nat),
            ),
        decreases max - next,
    {
        let level = match IndexType::from_depth(next) {
            Some(level) => level,
            None => IndexType::Second,
        };
        remaining.push(level);
        next = next + 1;
        assert(remaining@ =~= Seq::new(
            (next - position) as nat,
            |i: int| level_at((position + i) as nat),
        ));
    }
    assert(remaining@ =~= levels_after(*config, shared));
    (path, remaining)
}

/// Two times of one year and of different months share the year alone: the
/// shared part is the year's component, and the search goes on from the month
/// through every finer level the tree has.
pub proof fn lemma_divergence_at_month(
    from: CivilTime,
    until: CivilTime,
    config: IndexConfiguration,
)
    requires
        from.year == until.year,
        from.month != until.month,
    ensures
        shared_levels(from, until, config) == 1,
        level_components(from, shared_levels(from, until, config)) == seq![
            uint_bytes(from.year as nat),
        ],
        levels_after(config, 1) == seq![IndexType::Month, IndexType::Day] + if config.enabled(
            IndexType::Second,
        ) {
            seq![IndexType::Hour, IndexType::Minute, IndexType::Second]
        } else if config.enabled(IndexType::Minute) {
            seq![IndexType::Hour, IndexType::Minute]
        } else if config.enabled(IndexType::Hour) {
            seq![IndexType::Hour]
        } else {
            Seq::<IndexType>::empty()
        },
{
    reveal_with_fuel(shared_levels_from, 3);
    assert(level_components(from, 1) =~= seq![uint_bytes(from.year as nat)]);
    let rest = levels_after(config, 1);
    let tail = if config.enabled(IndexType::Second) {
        seq![IndexType::Hour, IndexType::Minute, IndexType::Second]
    } else if config.enabled(IndexType::Minute) {
        seq![IndexType::Hour, IndexType::Minute]
    } else if config.enabled(IndexType::Hour) {
        seq![IndexType::Hour]
    } else {
        Seq::<IndexType>::empty()
    };
    assert(rest =~= seq![IndexType::Month, IndexType::Day] + tail);
}

/// Where the two times differ first, whatever the level: the shared part stops
/// in front of it. Where they agree on every level of the tree, the shared
/// part is the whole path and nothing is left to search.
pub proof fn lemma_shared_levels_meaning(
    from: CivilTime,
    until: CivilTime,
    config: IndexConfiguration,
)
    ensures
        ({
            let n = shared_levels(from, until, config);
            &&& n < config.max_depth_size_spec()
            &&& forall|p: nat| 1 <= p <= n ==> from.field(level_at(p)) == until.field(level_at(p))
            &&& n + 1 < config.max_depth_size_spec() ==> from.field(level_at(n + 1))
                != until.field(level_at(n + 1))
            &&& levels_after(config, n).len() == config.max_depth_size_spec() - 1 - n
        }),
{
    reveal_with_fuel(shared_levels_from, 8);
    let n = shared_levels(from, until, config);
    assert forall|p: nat| 1 <= p <= n implies from.field(level_at(p)) == until.field(
        level_at(p),
    ) by {
        if p == 1 {
        } else if p == 2 {
        } else if p == 3 {
        } else if p == 4 {
        } else if p == 5 {
        } else {
        }
    }
}

/// Add the component of the level `time_index` to `time_path`, where the tree
/// has that level.
pub fn add_time_index_to_path(
    time_path: &mut Vec<Component>,
    from_timestamp: &TimePoint,
    time_index: IndexType,
    config: &IndexConfiguration,
) -> (r: IndexResult<()>)
    ensures
        r is Ok,
        final(time_path).deep_view() == if config.enabled(time_index) {
            old(time_path).deep_view().push(
                uint_bytes(from_timestamp.civil.field(time_index) as nat),
            )
        } else {
            old(time_path).deep_view()
        },
{
    if !config.contains(time_index) {
        return Ok(());
    }
    let component = encode_u32(from_timestamp.civil.get(time_index));
    let ghost before = *time_path;
    time_path.push(component);
    proof {
        let want = before.deep_view().push(uint_bytes(from_timestamp.civil.field(time_index) as nat));
        assert forall|k: int| 0 <= k < want.len() implies time_path.deep_view()[k] == want[k] by {
            if k < before@.len() {
                assert(time_path@[k] == before@[k]);
            }
        }
        assert(time_path.deep_view() =~= want);
    }
    Ok(())
}

/// The path of the tree node below which the buckets of `time` hang: the name
/// and one component for each level the tree has.
pub open spec fn time_path_of(name: Seq<char>, time: CivilTime, config: IndexConfiguration) -> Seq<
    Seq<u8>,
> {
    seq![text_bytes(encode_utf8(name))] + level_components(
        time,
        (config.max_depth_size_spec() - 1) as nat,
    )
}

/// The path to the node of the time `time` in the tree `index`.
pub fn time_path_for(index: String, time: &TimePoint, config: &IndexConfiguration) -> (r:
    IndexResult<Vec<Component>>)
    ensures
        match r {
            Ok(path) => path.deep_view() == time_path_of(index@, time.civil, *config)
                && encode_utf8(index@).len() < pow256(4),
            Err(e) => e == IndexError::InternalError(MSG_NAME_TOO_LONG) && encode_utf8(index@).len()
                >= pow256(4),
        },
{
    let ghost name = index@;
    let head = match StringIndex(index).get_sb() {
        Ok(head) => head,
        Err(e) => { return Err(e); },
    };
    let mut time_path: Vec<Component> = Vec::new();
    time_path.push(head);
    assert(time_path.deep_view()[0] == time_path@[0]@);
    assert(time_path.deep_view() =~= seq![text_bytes(encode_utf8(name))]);
    let _ = add_time_index_to_path(&mut time_path, time, IndexType::Year, config);
    let _ = add_time_index_to_path(&mut time_path, time, IndexType::Month, config);
    let _ = add_time_index_to_path(&mut time_path, time, IndexType::Day, config);
    let _ = add_time_index_to_path(&mut time_path, time, IndexType::Hour, config);
    let _ = add_time_index_to_path(&mut time_path, time, IndexType::Minute, config);
    let _ = add_time_index_to_path(&mut time_path, time, IndexType::Second, config);
    assert(time_path.deep_view() =~= time_path_of(name, time.civil, *config));
    Ok(time_path)
}

/// What `get_time_path` gives: the path of the node, an error where the
/// calendar cannot represent the time, or where the name is too long to be
/// given a length.
pub open spec fn time_path_result(name: Seq<char>, from: Duration, config: IndexConfiguration)
    -> IndexResult<Seq<Seq<u8>>> {
    match TimePoint::civil_at(from.secs, from.nanos) {
        None => Err(IndexError::InternalError(MSG_OVERFLOW)),
        Some(civil) => if encode_utf8(name).len() >= pow256(4) {
            Err(IndexError::InternalError(MSG_NAME_TOO_LONG))
        } else {
            Ok(time_path_of(name, civil, config))
        },
    }
}

/// Create the path of the tree node for the time `from` after the epoch in the
/// tree `index`. It fails where the calendar cannot represent that time.
pub fn get_time_path(index: String, from: Duration, config: &IndexConfiguration) -> (r:
    IndexResult<Vec<Component>>)
    ensures
        match r {
            Ok(path) => time_path_result(index@, from, *config) == Ok::<Seq<Seq<u8>>, IndexError>(
                path.deep_view(),
            ),
            Err(e) => time_path_result(index@, from, *config) == Err::<Seq<Seq<u8>>, IndexError>(e),
        },
        from.secs <= crate::calendar::MAX_CALENDAR_SECS && from.wf() && encode_utf8(index@).len()
            < pow256(4) ==> r is Ok,
{
    let time = match TimePoint::from_timestamp(from.secs, from.nanos) {
        Some(time) => time,
        None => { return Err(IndexError::InternalError(MSG_OVERFLOW)); },
    };
    time_path_for(index, &time, config)
}

/// The bucket of width `interval` that holds the instant `time`, both in
/// nanoseconds: it starts at the last multiple of the width that is not after
/// the instant.
pub open spec fn bucket_bounds(time: nat, interval: nat) -> (nat, nat) {
    ((time / interval) * interval, (time / interval + 1) * interval)
}

/// Buckets lie on a grid of multiples of the width that starts at the epoch; a
/// bucket holds exactly the instants from its start up to its end; so two
/// instants of one window have the same bucket.
pub proof fn lemma_bucket_bounds(time: nat, other: nat, interval: nat)
    requires
        interval > 0,
    ensures
        ({
            let (from, until) = bucket_bounds(time, interval);
            &&& from % interval == 0
            &&& until % interval == 0
            &&& until == from + interval
            &&& from <= time < until
            &&& (from <= other < until <==> bucket_bounds(other, interval) == bucket_bounds(
                time,
                interval,
            ))
            &&& (time / interval == other / interval ==> bucket_bounds(other, interval)
                == bucket_bounds(time, interval))
        }),
{
    let q = time / interval;
    let (from, until) = bucket_bounds(time, interval);
    vstd::arithmetic::div_mod::lemma_fundamental_div_mod(time as int, interval as int);
    vstd::arithmetic::div_mod::lemma_mod_multiples_basic(q as int, interval as int);
    vstd::arithmetic::div_mod::lemma_mod_multiples_basic(q as int + 1, interval as int);
    assert(until == from + interval) by (nonlinear_arith)
        requires
            from == q * interval,
            until == (q + 1) * interval,
    ;
    assert(from <= time < until) by (nonlinear_arith)
        requires
            from == q * interval,
            until == from + interval,
            time == interval * q + time % interval,
            0 <= time % interval < interval,
    ;
    let p = other / interval;
    vstd::arithmetic::div_mod::lemma_fundamental_div_mod(other as int, interval as int);
    if from <= other < until {
        vstd::arithmetic::div_mod::lemma_fundamental_div_mod_converse(
            other as int,
            interval as int,
            q as int,
            other - from,
        );
    }
    if bucket_bounds(other, interval) == bucket_bounds(time, interval) {
        assert(from <= other < until) by (nonlinear_arith)
            requires
                from == p * interval,
                until == (p + 1) * interval,
                other == interval * p + other % interval,
                0 <= other % interval < interval,
        ;
    }
}

/// The bucket that holds `time`: it starts at the last multiple of the width
/// that is not after `time`, and is one width long.
pub open spec fn bucket_of(time: TimePoint, config: IndexConfiguration) -> Index {
    let bounds = bucket_bounds(
        time.nanos_total(),
        (config.max_chunk_interval * NANOS_PER_MILLI) as nat,
    );
    Index {
        from: Duration {
            secs: (bounds.0 / 1_000_000_000) as u64,
            nanos: (bounds.0 % 1_000_000_000) as u32,
        },
        until: Duration {
            secs: (bounds.1 / 1_000_000_000) as u64,
            nanos: (bounds.1 % 1_000_000_000) as u32,
        },
    }
}

/// The bucket of a time holds that time, is one width long and lies on the
/// grid of multiples of the width that starts at the epoch; and two times of
/// one window of that grid have one bucket.
pub proof fn lemma_bucket_of(time: TimePoint, other: TimePoint, config: IndexConfiguration)
    requires
        time.wf(),
        other.wf(),
        config.wf(),
    ensures
        ({
            let width = (config.max_chunk_interval * NANOS_PER_MILLI) as nat;
            let bucket = bucket_of(time, config);
            &&& bucket.wf()
            &&& bucket.from.nanos_total() % width == 0
            &&& bucket.until.nanos_total() == bucket.from.nanos_total() + width
            &&& bucket.from.nanos_total() <= time.nanos_total() < bucket.until.nanos_total()
            &&& (bucket.from.nanos_total() <= other.nanos_total() < bucket.until.nanos_total()
                <==> bucket_of(other, config) == bucket)
            &&& (time.nanos_total() / width == other.nanos_total() / width ==> bucket_of(
                other,
                config,
            ) == bucket)
        }),
{
    let width = (config.max_chunk_interval * NANOS_PER_MILLI) as nat;
    lemma_bucket_bounds(time.nanos_total(), other.nanos_total(), width);
    lemma_bucket_bounds(other.nanos_total(), time.nanos_total(), width);
    let here = bucket_bounds(time.nanos_total(), width);
    let there = bucket_bounds(other.nanos_total(), width);
    assert(here.1 / 1_000_000_000 <= u64::MAX && there.1 / 1_000_000_000 <= u64::MAX);
    if bucket_of(other, config) == bucket_of(time, config) {
        assert(here.0 == there.0 && here.1 == there.1);
    }
}

/// Determine the bucket that holds `time`.
pub fn get_index_for_timestamp(time: &TimePoint, config: &IndexConfiguration) -> (r: Index)
    requires
        time.wf(),
        config.wf(),
    ensures
        r == bucket_of(*time, *config),
        r.wf(),
{
    let secs: u128 = time.secs as u128;
    assert(secs * 1_000_000_000 <= 0x7fff_ffff_ffff_ffff * 1_000_000_000);
    let now: u128 = secs * 1_000_000_000 + time.nanos as u128;
    let millis: u128 = config.max_chunk_interval as u128;
    assert(millis * 1_000_000 <= 0xffff_ffff_ffff_ffff * 1_000_000);
    let time_frame: u128 = millis * 1_000_000;
    let chunk_index_start: u128 = now / time_frame;
    proof {
        lemma_bucket_bounds(now as nat, now as nat, time_frame as nat);
    }
    let chunk_start: u128 = chunk_index_start * time_frame;
    let chunk_end: u128 = chunk_start + time_frame;
    let from = Duration {
        secs: (chunk_start / 1_000_000_000) as u64,
        nanos: (chunk_start % 1_000_000_000) as u32,
    };
    let until = Duration {
        secs: (chunk_end / 1_000_000_000) as u64,
        nanos: (chunk_end % 1_000_000_000) as u32,
    };
    Index { from, until }
}

} // verus!
