//! Between path components and the values they stand for.

use crate::calendar::CivilTime;
use crate::codec::{decode_index, decode_u32, encode_index, encode_u32, index_bytes, parse_index,
    parse_u32, uint_bytes};
use crate::entries::{Component, Index, IndexConfiguration, IndexType, Path, StringIndex,
    TimeIndex, WrappedPath};
use crate::errors::{DecodeError, IndexError, IndexResult, MSG_EMPTY_PATH, MSG_NAME_TOO_LONG,
    MSG_NO_NAME, MSG_NO_YEAR};
use crate::names::{decode_text, encode_text, parse_text, string_from_utf8, text_bytes};
use crate::codec::pow256;
use vstd::prelude::*;
use vstd::string::*;
use vstd::utf8::{decode_utf8, encode_utf8, valid_utf8};

verus! {

/// What a path says of itself: the index name, the time its levels spell where
/// it has any, and the bucket in its last component where that is one.
pub type IndexSegment = (String, Option<CivilTime>, Option<Index>);

impl TimeIndex {
    pub fn from(data: u32) -> (t: TimeIndex)
        ensures
            t.0 == data,
    {
        TimeIndex(data)
    }

    pub fn into(self) -> (v: u32)
        ensures
            v == self.0,
    {
        self.0
    }

    /// The component that holds this level value.
    pub fn get_sb(self) -> (r: IndexResult<Vec<u8>>)
        ensures
            r is Ok,
            r.unwrap()@ == uint_bytes(self.0 as nat),
    {
        Ok(encode_u32(self.0))
    }

    /// The level value in `data`. It is there exactly when `data` is the
    /// encoding of a 32-bit unsigned integer, in its shortest form; any other
    /// spelling of a number is refused.
    pub fn try_from(data: &Component) -> (r: IndexResult<TimeIndex>)
        ensures
            match r {
                Ok(t) => parse_u32(data@) == Some(t.0) && data@ == uint_bytes(t.0 as nat),
                Err(e) => e == IndexError::Serialization(DecodeError::Integer) && parse_u32(data@)
                    is None,
            },
    {
        match decode_u32(data) {
            Some(v) => Ok(TimeIndex(v)),
            None => Err(IndexError::Serialization(DecodeError::Integer)),
        }
    }
}

impl Index {
    /// The component that holds this bucket.
    pub fn get_sb(&self) -> (r: IndexResult<Vec<u8>>)
        ensures
            r is Ok,
            r.unwrap()@ == index_bytes(*self),
    {
        Ok(encode_index(self))
    }

    /// The bucket in `data`. It is there exactly when `data` is the encoding of
    /// a bucket as `get_sb` writes it; any other spelling is refused.
    pub fn try_from(data: &Component) -> (r: IndexResult<Index>)
        ensures
            match r {
                Ok(i) => parse_index(data@) == Some(i) && i.wf() && data@ == index_bytes(i),
                Err(e) => e == IndexError::Serialization(DecodeError::Bucket) && parse_index(data@)
                    is None,
            },
    {
        match decode_index(data) {
            Some(i) => Ok(i),
            None => Err(IndexError::Serialization(DecodeError::Bucket)),
        }
    }

    /// The bucket in the last component of `data`.
    pub fn try_from_path(data: &Path) -> (r: IndexResult<Index>)
        ensures
            r == path_bucket(data.deep_view()),
    {
        if data.len() == 0 {
            return Err(IndexError::InternalError(MSG_EMPTY_PATH));
        }
        assert(data.deep_view().last() == data@[data@.len() - 1]@);
        Index::try_from(&data[data.len() - 1])
    }
}

/// The bucket that the last component of `path` holds.
pub open spec fn path_bucket(path: Seq<Seq<u8>>) -> IndexResult<Index> {
    if path.len() == 0 {
        Err(IndexError::InternalError(MSG_EMPTY_PATH))
    } else {
        match parse_index(path.last()) {
            Some(i) => Ok(i),
            None => Err(IndexError::Serialization(DecodeError::Bucket)),
        }
    }
}

/// The characters of the index name that `data` holds.
pub open spec fn component_name(data: Seq<u8>) -> Option<Seq<char>> {
    match parse_text(data) {
        Some(text) => if valid_utf8(text) {
            Some(decode_utf8(text))
        } else {
            None
        },
        None => None,
    }
}

impl StringIndex {
    /// The component that holds this name; an error where the name is too
    /// long to be given a length.
    pub fn get_sb(self) -> (r: IndexResult<Vec<u8>>)
        ensures
            match r {
                Ok(b) => b@ == text_bytes(encode_utf8(self.0@)) && component_name(b@) == Some(
                    self.0@,
                ) && encode_utf8(self.0@).len() < pow256(4),
                Err(e) => e == IndexError::InternalError(MSG_NAME_TOO_LONG) && encode_utf8(
                    self.0@,
                ).len() >= pow256(4),
            },
    {
        let text = self.0.as_str().as_bytes_vec();
        proof {
            broadcast use vstd::utf8::encode_utf8_valid_utf8, vstd::utf8::encode_utf8_decode_utf8;

            if text@.len() < pow256(4) {
                crate::names::lemma_parse_of_text_bytes(text@);
            }
            assert(valid_utf8(encode_utf8(self.0@)));
            assert(decode_utf8(encode_utf8(self.0@)) == self.0@);
        }
        match encode_text(&text) {
            Some(b) => Ok(b),
            None => Err(IndexError::InternalError(MSG_NAME_TOO_LONG)),
        }
    }

    /// The name in `data`. It is there exactly when `data` frames well-formed
    /// UTF-8.
    pub fn try_from(data: &Component) -> (r: IndexResult<StringIndex>)
        ensures
            match r {
                Ok(s) => component_name(data@) == Some(s.0@),
                Err(e) => e == IndexError::Serialization(DecodeError::Text) && component_name(
                    data@,
                ) is None,
            },
    {
        match decode_text(data) {
            Some(text) => match string_from_utf8(text) {
                Some(s) => Ok(StringIndex(s)),
                None => Err(IndexError::Serialization(DecodeError::Text)),
            },
            None => Err(IndexError::Serialization(DecodeError::Text)),
        }
    }

    /// The name in the first component of `data`.
    pub fn try_from_path(data: &WrappedPath) -> (r: IndexResult<StringIndex>)
        ensures
            match r {
                Ok(s) => path_name(data.0.deep_view()) == Ok::<Seq<char>, IndexError>(s.0@),
                Err(e) => path_name(data.0.deep_view()) == Err::<Seq<char>, IndexError>(e),
            },
    {
        if data.0.len() == 0 {
            return Err(IndexError::InternalError(MSG_NO_NAME));
        }
        assert(data.0.deep_view()[0] == data.0@[0]@);
        StringIndex::try_from(&data.0[0])
    }
}

/// The index name that the first component of `path` holds.
pub open spec fn path_name(path: Seq<Seq<u8>>) -> IndexResult<Seq<char>> {
    if path.len() == 0 {
        Err(IndexError::InternalError(MSG_NO_NAME))
    } else {
        match component_name(path[0]) {
            Some(name) => Ok(name),
            None => Err(IndexError::Serialization(DecodeError::Text)),
        }
    }
}

/// The level value at `index` in `path`. Where the path is too short to have
/// it, a `strict` reading fails and a lenient one gives 1.
pub open spec fn level_value(path: Seq<Seq<u8>>, index: int, strict: bool) -> IndexResult<u32> {
    if 0 <= index < path.len() {
        match parse_u32(path[index]) {
            Some(v) => Ok(v),
            None => Err(IndexError::Serialization(DecodeError::Integer)),
        }
    } else if strict {
        Err(IndexError::InternalError(MSG_NO_YEAR))
    } else {
        Ok(1)
    }
}

/// The level value at `index`, which has to be there.
pub fn get_time_index_from_components_strict(components: &Vec<Component>, index: usize) -> (r:
    IndexResult<TimeIndex>)
    ensures
        match r {
            Ok(t) => level_value(components.deep_view(), index as int, true) == Ok::<
                u32,
                IndexError,
            >(t.0),
            Err(e) => level_value(components.deep_view(), index as int, true) == Err::<
                u32,
                IndexError,
            >(e),
        },
{
    if index < components.len() {
        assert(components.deep_view()[index as int] == components@[index as int]@);
        TimeIndex::try_from(&components[index])
    } else {
        Err(IndexError::InternalError(MSG_NO_YEAR))
    }
}

/// The level value at `index`, or 1 where the path ends before it.
pub fn get_time_index_from_components(components: &Vec<Component>, index: usize) -> (r:
    IndexResult<TimeIndex>)
    ensures
        match r {
            Ok(t) => level_value(components.deep_view(), index as int, false) == Ok::<
                u32,
                IndexError,
            >(t.0),
            Err(e) => level_value(components.deep_view(), index as int, false) == Err::<
                u32,
                IndexError,
            >(e),
        },
{
    if index < components.len() {
        assert(components.deep_view()[index as int] == components@[index as int]@);
        TimeIndex::try_from(&components[index])
    } else {
        Ok(TimeIndex(1))
    }
}

/// The level value that the time of `path` has at the level `t`: a level the
/// tree does not have counts as 1 whatever stands at its position.
pub open spec fn path_level(path: Seq<Seq<u8>>, config: IndexConfiguration, t: IndexType)
    -> IndexResult<u32> {
    if config.enabled(t) {
        level_value(path, t.position() as int, t is Year)
    } else {
        Ok(1)
    }
}

/// The time that the levels of `path` spell. The year has to be there; every
/// other level that the path is too short for, or that the tree does not have,
/// counts as 1. The first level that is there and does not decode decides the
/// error.
pub open spec fn path_time(path: Seq<Seq<u8>>, config: IndexConfiguration) -> IndexResult<
    CivilTime,
> {
    match path_level(path, config, IndexType::Year) {
        Err(e) => Err(e),
        Ok(year) => match path_level(path, config, IndexType::Month) {
            Err(e) => Err(e),
            Ok(month) => match path_level(path, config, IndexType::Day) {
                Err(e) => Err(e),
                Ok(day) => match path_level(path, config, IndexType::Hour) {
                    Err(e) => Err(e),
                    Ok(hour) => match path_level(path, config, IndexType::Minute) {
                        Err(e) => Err(e),
                        Ok(minute) => match path_level(path, config, IndexType::Second) {
                            Err(e) => Err(e),
                            Ok(second) => Ok(CivilTime { year, month, day, hour, minute, second }),
                        },
                    },
                },
            },
        },
    }
}

impl WrappedPath {
    /// The time that the levels of this path spell.
    pub fn try_into_datetime(&self, config: &IndexConfiguration) -> (r: IndexResult<CivilTime>)
        ensures
            r == path_time(self.0.deep_view(), *config),
    {
        let year = match get_time_index_from_components_strict(&self.0, 1) {
            Ok(t) => t.0,
            Err(e) => { return Err(e); },
        };
        let month = match get_time_index_from_components(&self.0, 2) {
            Ok(t) => t.0,
            Err(e) => { return Err(e); },
        };
        let day = match get_time_index_from_components(&self.0, 3) {
            Ok(t) => t.0,
            Err(e) => { return Err(e); },
        };
        let hour = if config.contains(IndexType::Hour) {
            match get_time_index_from_components(&self.0, 4) {
                Ok(t) => t.0,
                Err(e) => { return Err(e); },
            }
        } else {
            1
        };
        let minute = if config.contains(IndexType::Minute) {
            match get_time_index_from_components(&self.0, 5) {
                Ok(t) => t.0,
                Err(e) => { return Err(e); },
            }
        } else {
            1
        };
        let second = if config.contains(IndexType::Second) {
            match get_time_index_from_components(&self.0, 6) {
                Ok(t) => t.0,
                Err(e) => { return Err(e); },
            }
        } else {
            1
        };
        Ok(CivilTime { year, month, day, hour, minute, second })
    }

    /// The name, the time and the bucket of this path. A path of the name alone
    /// has neither time nor bucket; a longer one has a time, and a bucket where
    /// its last component holds one.
    pub fn try_into_segment(&self, config: &IndexConfiguration) -> (r: IndexResult<IndexSegment>)
        ensures
            match r {
                Ok(seg) => {
                    let path = self.0.deep_view();
                    &&& path_name(path) == Ok::<Seq<char>, IndexError>(seg.0@)
                    &&& if path.len() == 1 {
                        seg.1 is None && seg.2 is None
                    } else {
                        &&& path_time(path, *config) == Ok::<CivilTime, IndexError>(seg.1.unwrap())
                        &&& seg.1 is Some
                        &&& seg.2 == parse_index(path.last())
                    }
                },
                Err(e) => {
                    let path = self.0.deep_view();
                    if path_name(path) is Err {
                        path_name(path) == Err::<Seq<char>, IndexError>(e)
                    } else {
                        path.len() != 1 && path_time(path, *config) == Err::<CivilTime, IndexError>(
                            e,
                        )
                    }
                },
            },
    {
        let name = match StringIndex::try_from_path(self) {
            Ok(s) => s,
            Err(e) => { return Err(e); },
        };
        if self.0.len() == 1 {
            return Ok((name.0, None, None));
        }
        let time = match self.try_into_datetime(config) {
            Ok(t) => t,
            Err(e) => { return Err(e); },
        };
        let index = match Index::try_from_path(&self.0) {
            Ok(i) => Some(i),
            Err(_) => None,
        };
        Ok((name.0, Some(time), index))
    }
}

/// One component of a path, read for what it is.
#[derive(Clone, Debug, PartialEq, Eq)]
pub enum PathField {
    /// The index name, which stands first.
    Name(String),
    /// The value of a time level.
    TimeIndex(u32),
    /// A bucket.
    Index(Index),
}

/// As what the component `data` fails to read at the place `position` of a
/// path of `length` components, if it fails: the first component is the name;
/// every other is a level value, but for the last, which may be a bucket where
/// it is no level value.
pub open spec fn field_kind(data: Seq<u8>, position: int, length: int) -> Option<DecodeError> {
    if position == 0 {
        if component_name(data) is Some {
            None
        } else {
            Some(DecodeError::Text)
        }
    } else if parse_u32(data) is Some {
        None
    } else if position != length - 1 {
        Some(DecodeError::Integer)
    } else if parse_index(data) is Some {
        None
    } else {
        Some(DecodeError::Bucket)
    }
}

/// `field` is what `data` reads as at the place `position` of a path of
/// `length` components.
pub open spec fn is_field_of(field: PathField, data: Seq<u8>, position: int, length: int) -> bool {
    match field {
        PathField::Name(name) => position == 0 && component_name(data) == Some(name@),
        PathField::TimeIndex(v) => position != 0 && parse_u32(data) == Some(v),
        PathField::Index(i) => position != 0 && position == length - 1 && parse_u32(data) is None
            && parse_index(data) == Some(i),
    }
}

/// `fields` is what the components of `path` read as, or `e` is the error of
/// the first component that reads as nothing.
pub open spec fn reads_as(path: Seq<Seq<u8>>, r: IndexResult<Vec<PathField>>) -> bool {
    match r {
        Ok(fields) => fields@.len() == path.len() && forall|k: int|
            0 <= k < fields@.len() ==> is_field_of(
                #[trigger] fields@[k],
                path[k],
                k,
                path.len() as int,
            ),
        Err(e) => exists|bad: int|
            0 <= bad < path.len() && #[trigger] field_kind(path[bad], bad, path.len() as int)
                == Some(e->Serialization_0) && e is Serialization && forall|k: int|
                0 <= k < bad ==> (#[trigger] field_kind(path[k], k, path.len() as int)) is None,
    }
}

impl WrappedPath {
    /// The components of this path, each read for what it is: the name first,
    /// then level values, and a bucket at the last place only, where the last
    /// component is no level value. The first component that reads as nothing
    /// decides the error.
    pub fn fields(&self) -> (r: IndexResult<Vec<PathField>>)
        ensures
            reads_as(self.0.deep_view(), r),
    {
        let mut fields: Vec<PathField> = Vec::new();
        let mut i: usize = 0;
        let ghost path = self.0.deep_view();
        let ghost length = self.0@.len() as int;
        while i < self.0.len()
            invariant
                i <= self.0.len(),
                path == self.0.deep_view(),
                length == self.0@.len(),
                fields@.len() == i,
                forall|k: int| 0 <= k < i ==> is_field_of(#[trigger] fields@[k], path[k], k, length),
                forall|k: int| 0 <= k < i ==> (#[trigger] field_kind(path[k], k, length)) is None,
            decreases self.0.len() - i,
        {
            assert(path[i as int] == self.0@[i as int]@);
            let field = if i == 0 {
                match StringIndex::try_from(&self.0[i]) {
                    Ok(name) => PathField::Name(name.0),
                    Err(e) => {
                        assert(field_kind(path[i as int], i as int, length) == Some(
                            DecodeError::Text,
                        ));
                        return Err(e);
                    },
                }
            } else {
                match TimeIndex::try_from(&self.0[i]) {
                    Ok(t) => PathField::TimeIndex(t.0),
                    Err(e) => {
                        if i + 1 != self.0.len() {
                            assert(field_kind(path[i as int], i as int, length) == Some(
                                DecodeError::Integer,
                            ));
                            return Err(e);
                        }
                        match Index::try_from(&self.0[i]) {
                            Ok(bucket) => PathField::Index(bucket),
                            Err(e) => {
                                assert(field_kind(path[i as int], i as int, length) == Some(
                                    DecodeError::Bucket,
                                ));
                                return Err(e);
                            },
                        }
                    },
                }
            };
            fields.push(field);
            i = i + 1;
        }
        Ok(fields)
    }
}

/// A path made of a name and the components of the first `count` levels of a
/// time spells that time back: the levels it has come back as they went in,
/// and every finer level comes back as 1. What stands behind the last level
/// of the tree, such as a bucket, does not change that.
pub proof fn lemma_path_time_of_level_components(
    name: Seq<u8>,
    t: CivilTime,
    config: IndexConfiguration,
    count: nat,
    rest: Seq<Seq<u8>>,
)
    requires
        1 <= count < config.max_depth_size_spec(),
        rest.len() > 0 ==> count + 1 == config.max_depth_size_spec(),
    ensures
        path_time(seq![name] + crate::utils::level_components(t, count) + rest, config) == Ok::<
            CivilTime,
            IndexError,
        >(crate::search::level_bound(t, crate::utils::level_at(count))),
{
    let levels = crate::utils::level_components(t, count);
    let path = seq![name] + levels + rest;
    assert forall|p: nat| 1 <= p <= count implies #[trigger] path[p as int] == uint_bytes(
        t.field(crate::utils::level_at(p)) as nat,
    ) && parse_u32(path[p as int]) == Some(t.field(crate::utils::level_at(p))) by {
        assert(path[p as int] == levels[p - 1]);
        crate::codec::lemma_parse_of_u32_bytes(t.field(crate::utils::level_at(p)));
    }
    assert(path[1] == path[1nat as int]);
    if count >= 2 {
        assert(path[2] == path[2nat as int]);
    }
    if count >= 3 {
        assert(path[3] == path[3nat as int]);
    }
    if count >= 4 {
        assert(path[4] == path[4nat as int]);
    }
    if count >= 5 {
        assert(path[5] == path[5nat as int]);
    }
    if count >= 6 {
        assert(path[6] == path[6nat as int]);
    }
}

} // verus!
