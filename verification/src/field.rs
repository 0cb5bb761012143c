//! The fields of a post that have an index: their names, their values and
//! the literals that queries write for them.

use crate::post::{BooruPost, PostModel};
use crate::text::same_text;
use crate::value::{milli_ratio, option_code, option_key, ratio_code, value_in, ValueKind};
use std::str::FromStr;
use vstd::prelude::*;

verus! {

/// A field of a post that has an index of its own.
#[derive(Clone, Copy, Debug, PartialEq, Eq, Structural)]
pub enum Field {
    Id,
    ParentId,
    PixivId,
    Approver,
    Status,
    CreatedAt,
    UpdatedAt,
    FavCount,
    Score,
    Upvotes,
    Downvotes,
    Width,
    Height,
    Ratio,
    MPixel,
    FileExt,
    FileSize,
    Rating,
    TagCount,
    GenTags,
    ArtTags,
    CharTags,
    CopyTags,
    MetaTags,
}

/// The number of fields.
pub const FIELD_COUNT: usize = 24;

/// The field whose index queries name `t`.
pub open spec fn field_named(t: Seq<char>) -> Option<Field> {
    if t == "id"@ {
        Some(Field::Id)
    } else if t == "parent_id"@ {
        Some(Field::ParentId)
    } else if t == "pixiv_id"@ {
        Some(Field::PixivId)
    } else if t == "approver"@ {
        Some(Field::Approver)
    } else if t == "status"@ {
        Some(Field::Status)
    } else if t == "created_at"@ {
        Some(Field::CreatedAt)
    } else if t == "updated_at"@ {
        Some(Field::UpdatedAt)
    } else if t == "favcount"@ {
        Some(Field::FavCount)
    } else if t == "score"@ {
        Some(Field::Score)
    } else if t == "upvotes"@ {
        Some(Field::Upvotes)
    } else if t == "downvotes"@ {
        Some(Field::Downvotes)
    } else if t == "width"@ {
        Some(Field::Width)
    } else if t == "height"@ {
        Some(Field::Height)
    } else if t == "ratio"@ {
        Some(Field::Ratio)
    } else if t == "mpixel"@ {
        Some(Field::MPixel)
    } else if t == "file_ext"@ {
        Some(Field::FileExt)
    } else if t == "file_size"@ {
        Some(Field::FileSize)
    } else if t == "rating"@ {
        Some(Field::Rating)
    } else if t == "tagcount"@ {
        Some(Field::TagCount)
    } else if t == "gentags"@ {
        Some(Field::GenTags)
    } else if t == "arttags"@ {
        Some(Field::ArtTags)
    } else if t == "chartags"@ {
        Some(Field::CharTags)
    } else if t == "copytags"@ {
        Some(Field::CopyTags)
    } else if t == "metatags"@ {
        Some(Field::MetaTags)
    } else {
        None
    }
}

impl Field {
    /// The field that `name` names.
    pub fn from_name(name: &str) -> (r: Option<Field>)
        ensures
            r == field_named(name@),
    {
        if same_text(name, "id") {
            Some(Field::Id)
        } else if same_text(name, "parent_id") {
            Some(Field::ParentId)
        } else if same_text(name, "pixiv_id") {
            Some(Field::PixivId)
        } else if same_text(name, "approver") {
            Some(Field::Approver)
        } else if same_text(name, "status") {
            Some(Field::Status)
        } else if same_text(name, "created_at") {
            Some(Field::CreatedAt)
        } else if same_text(name, "updated_at") {
            Some(Field::UpdatedAt)
        } else if same_text(name, "favcount") {
            Some(Field::FavCount)
        } else if same_text(name, "score") {
            Some(Field::Score)
        } else if same_text(name, "upvotes") {
            Some(Field::Upvotes)
        } else if same_text(name, "downvotes") {
            Some(Field::Downvotes)
        } else if same_text(name, "width") {
            Some(Field::Width)
        } else if same_text(name, "height") {
            Some(Field::Height)
        } else if same_text(name, "ratio") {
            Some(Field::Ratio)
        } else if same_text(name, "mpixel") {
            Some(Field::MPixel)
        } else if same_text(name, "file_ext") {
            Some(Field::FileExt)
        } else if same_text(name, "file_size") {
            Some(Field::FileSize)
        } else if same_text(name, "rating") {
            Some(Field::Rating)
        } else if same_text(name, "tagcount") {
            Some(Field::TagCount)
        } else if same_text(name, "gentags") {
            Some(Field::GenTags)
        } else if same_text(name, "arttags") {
            Some(Field::ArtTags)
        } else if same_text(name, "chartags") {
            Some(Field::CharTags)
        } else if same_text(name, "copytags") {
            Some(Field::CopyTags)
        } else if same_text(name, "metatags") {
            Some(Field::MetaTags)
        } else {
            None
        }
    }

    /// The place of the field among all fields.
    pub open spec fn ordinal(self) -> int {
        match self {
            Field::Id => 0,
            Field::ParentId => 1,
            Field::PixivId => 2,
            Field::Approver => 3,
            Field::Status => 4,
            Field::CreatedAt => 5,
            Field::UpdatedAt => 6,
            Field::FavCount => 7,
            Field::Score => 8,
            Field::Upvotes => 9,
            Field::Downvotes => 10,
            Field::Width => 11,
            Field::Height => 12,
            Field::Ratio => 13,
            Field::MPixel => 14,
            Field::FileExt => 15,
            Field::FileSize => 16,
            Field::Rating => 17,
            Field::TagCount => 18,
            Field::GenTags => 19,
            Field::ArtTags => 20,
            Field::CharTags => 21,
            Field::CopyTags => 22,
            Field::MetaTags => 23,
        }
    }

    /// The place of the field among all fields.
    pub fn position(&self) -> (i: usize)
        ensures
            i == self.ordinal(),
            i < FIELD_COUNT,
    {
        match self {
            Field::Id => 0,
            Field::ParentId => 1,
            Field::PixivId => 2,
            Field::Approver => 3,
            Field::Status => 4,
            Field::CreatedAt => 5,
            Field::UpdatedAt => 6,
            Field::FavCount => 7,
            Field::Score => 8,
            Field::Upvotes => 9,
            Field::Downvotes => 10,
            Field::Width => 11,
            Field::Height => 12,
            Field::Ratio => 13,
            Field::MPixel => 14,
            Field::FileExt => 15,
            Field::FileSize => 16,
            Field::Rating => 17,
            Field::TagCount => 18,
            Field::GenTags => 19,
            Field::ArtTags => 20,
            Field::CharTags => 21,
            Field::CopyTags => 22,
            Field::MetaTags => 23,
        }
    }

    /// The field at the place `i`.
    pub fn at(i: usize) -> (f: Field)
        requires
            i < FIELD_COUNT,
        ensures
            f.ordinal() == i,
    {
        if i == 0 {
            Field::Id
        } else if i == 1 {
            Field::ParentId
        } else if i == 2 {
            Field::PixivId
        } else if i == 3 {
            Field::Approver
        } else if i == 4 {
            Field::Status
        } else if i == 5 {
            Field::CreatedAt
        } else if i == 6 {
            Field::UpdatedAt
        } else if i == 7 {
            Field::FavCount
        } else if i == 8 {
            Field::Score
        } else if i == 9 {
            Field::Upvotes
        } else if i == 10 {
            Field::Downvotes
        } else if i == 11 {
            Field::Width
        } else if i == 12 {
            Field::Height
        } else if i == 13 {
            Field::Ratio
        } else if i == 14 {
            Field::MPixel
        } else if i == 15 {
            Field::FileExt
        } else if i == 16 {
            Field::FileSize
        } else if i == 17 {
            Field::Rating
        } else if i == 18 {
            Field::TagCount
        } else if i == 19 {
            Field::GenTags
        } else if i == 20 {
            Field::ArtTags
        } else if i == 21 {
            Field::CharTags
        } else if i == 22 {
            Field::CopyTags
        } else {
            Field::MetaTags
        }
    }

    /// Whether the field has an equality index; the others have an ordered one.
    pub open spec fn is_key(self) -> bool {
        match self {
            Field::ParentId | Field::Approver | Field::Status | Field::FileExt | Field::Rating => true,
            _ => false,
        }
    }

    /// Whether the field has an equality index.
    pub fn has_key_index(&self) -> (b: bool)
        ensures
            b == self.is_key(),
    {
        match self {
            Field::ParentId | Field::Approver | Field::Status | Field::FileExt | Field::Rating => true,
            _ => false,
        }
    }

    /// Whether a query may list several values of the field, with commas between.
    pub open spec fn takes_list(self) -> bool {
        self.is_key() || self == Field::Id
    }

    /// The kind of the values of the field.
    pub open spec fn kind(self) -> ValueKind {
        match self {
            Field::Id | Field::FavCount | Field::FileSize => ValueKind::U32,
            Field::ParentId | Field::PixivId | Field::Approver => ValueKind::OptionU32,
            Field::Status => ValueKind::Status,
            Field::CreatedAt | Field::UpdatedAt => ValueKind::I64,
            Field::Score | Field::Upvotes | Field::Downvotes => ValueKind::I32,
            Field::Width | Field::Height | Field::TagCount | Field::GenTags | Field::ArtTags
            | Field::CharTags | Field::CopyTags | Field::MetaTags => ValueKind::U16,
            Field::Ratio => ValueKind::Ratio,
            Field::MPixel => ValueKind::MPixel,
            Field::FileExt => ValueKind::FileExt,
            Field::Rating => ValueKind::Rating,
        }
    }

    /// The kind of the values of the field.
    pub fn value_kind(&self) -> (k: ValueKind)
        ensures
            k == self.kind(),
    {
        match self {
            Field::Id | Field::FavCount | Field::FileSize => ValueKind::U32,
            Field::ParentId | Field::PixivId | Field::Approver => ValueKind::OptionU32,
            Field::Status => ValueKind::Status,
            Field::CreatedAt | Field::UpdatedAt => ValueKind::I64,
            Field::Score | Field::Upvotes | Field::Downvotes => ValueKind::I32,
            Field::Width | Field::Height | Field::TagCount | Field::GenTags | Field::ArtTags
            | Field::CharTags | Field::CopyTags | Field::MetaTags => ValueKind::U16,
            Field::Ratio => ValueKind::Ratio,
            Field::MPixel => ValueKind::MPixel,
            Field::FileExt => ValueKind::FileExt,
            Field::Rating => ValueKind::Rating,
        }
    }

    /// The value of the field in the post `p`, as the number that stands for it.
    pub open spec fn value(self, p: PostModel) -> i64 {
        match self {
            Field::Id => p.id as i64,
            Field::ParentId => option_code(p.parent_id),
            Field::PixivId => option_code(p.pixiv_id),
            Field::Approver => option_code(p.approver_id),
            Field::Status => p.status.code(),
            Field::CreatedAt => p.created_at,
            Field::UpdatedAt => p.updated_at,
            Field::FavCount => p.fav_count as i64,
            Field::Score => (p.up_score + p.down_score) as i64,
            Field::Upvotes => p.up_score as i64,
            Field::Downvotes => p.down_score as i64,
            Field::Width => p.width as i64,
            Field::Height => p.height as i64,
            Field::Ratio => milli_ratio(p.width as int, p.height as int),
            Field::MPixel => (p.width * p.height) as i64,
            Field::FileExt => p.file_ext.code(),
            Field::FileSize => p.file_size as i64,
            Field::Rating => p.rating.code(),
            Field::TagCount => (p.tags.len() as u16) as i64,
            Field::GenTags => p.tag_count_general as i64,
            Field::ArtTags => p.tag_count_artist as i64,
            Field::CharTags => p.tag_count_character as i64,
            Field::CopyTags => p.tag_count_copyright as i64,
            Field::MetaTags => p.tag_count_meta as i64,
        }
    }

    /// The value of the field in the post `p`.
    pub fn project(&self, p: &BooruPost) -> (v: i64)
        ensures
            v == self.value(p@),
    {
        match self {
            Field::Id => p.id as i64,
            Field::ParentId => option_key(p.parent_id),
            Field::PixivId => option_key(p.pixiv_id),
            Field::Approver => option_key(p.approver_id),
            Field::Status => p.status.key_code(),
            Field::CreatedAt => p.created_at,
            Field::UpdatedAt => p.updated_at,
            Field::FavCount => p.fav_count as i64,
            Field::Score => p.up_score as i64 + p.down_score as i64,
            Field::Upvotes => p.up_score as i64,
            Field::Downvotes => p.down_score as i64,
            Field::Width => p.width as i64,
            Field::Height => p.height as i64,
            Field::Ratio => ratio_code(p.width as u128, p.height as u128),
            Field::MPixel => {
                assert(p.width * p.height <= 0xffff * 0xffff) by (nonlinear_arith)
                    requires
                        p.width <= 0xffff,
                        p.height <= 0xffff,
                ;
                p.width as i64 * p.height as i64
            },
            Field::FileExt => p.file_ext.key_code(),
            Field::FileSize => p.file_size as i64,
            Field::Rating => p.rating.key_code(),
            Field::TagCount => {
                let n = p.tags.len();
                let cut: u16 = #[verifier::truncate]
                (n as u16);
                cut as i64
            },
            Field::GenTags => p.tag_count_general as i64,
            Field::ArtTags => p.tag_count_artist as i64,
            Field::CharTags => p.tag_count_character as i64,
            Field::CopyTags => p.tag_count_copyright as i64,
            Field::MetaTags => p.tag_count_meta as i64,
        }
    }
}

/// The parent of a post, or none.
#[derive(Clone, Copy, Debug, PartialEq, Eq, Hash, Structural)]
pub struct ParentId(pub Option<u32>);

/// The Pixiv id of a post, or none; none comes before every id.
#[derive(Clone, Copy, Debug, PartialEq, Eq, PartialOrd, Ord, Structural)]
pub struct PixivId(pub Option<u32>);

/// The approver of a post, or none.
#[derive(Clone, Copy, Debug, PartialEq, Eq, Hash, Structural)]
pub struct ApproverId(pub Option<u32>);

/// Width by height of a post, in thousandths.
#[derive(Clone, Copy, Debug, PartialEq, Eq, PartialOrd, Ord, Structural)]
pub struct AspectRatio(pub u32);

/// Width times height of a post, in pixels.
#[derive(Clone, Copy, Debug, PartialEq, Eq, PartialOrd, Ord, Structural)]
pub struct MPixel(pub u32);

/// The optional id that the number `c` stands for.
pub open spec fn option_of_code(c: i64) -> Option<u32> {
    if c < 0 {
        None
    } else {
        Some(c as u32)
    }
}

/// The optional id that `s` writes: `none` or a number.
pub open spec fn option_id_in(s: Seq<char>) -> Result<Option<u32>, ()> {
    match value_in(ValueKind::OptionU32, s) {
        Some(c) => Ok(option_of_code(c)),
        None => Err(()),
    }
}

/// The number of 32 bits that `s` writes as a value of the kind `kind`.
pub open spec fn u32_in(kind: ValueKind, s: Seq<char>) -> Result<u32, ()> {
    match value_in(kind, s) {
        Some(c) => Ok(c as u32),
        None => Err(()),
    }
}

fn read_option_id(s: &str) -> (r: Result<Option<u32>, ()>)
    ensures
        r == option_id_in(s@),
{
    let v = crate::text::chars_of(s);
    assert(v@.subrange(0, v@.len() as int) == v@);
    match crate::value::read_value(ValueKind::OptionU32, &v, 0, v.len()) {
        Some(c) => {
            if c < 0 {
                Ok(None)
            } else {
                Ok(Some(c as u32))
            }
        },
        None => Err(()),
    }
}

fn read_u32(kind: ValueKind, s: &str) -> (r: Result<u32, ()>)
    requires
        kind == ValueKind::Ratio || kind == ValueKind::MPixel,
    ensures
        r == u32_in(kind, s@),
{
    let v = crate::text::chars_of(s);
    assert(v@.subrange(0, v@.len() as int) == v@);
    match crate::value::read_value(kind, &v, 0, v.len()) {
        Some(c) => Ok(c as u32),
        None => Err(()),
    }
}

impl ParentId {
    /// The parent that `s` writes: `none` or an id.
    pub fn from_str(s: &str) -> (r: Result<ParentId, ()>)
        ensures
            r == match option_id_in(s@) {
                Ok(v) => Ok::<ParentId, ()>(ParentId(v)),
                Err(e) => Err(e),
            },
    {
        match read_option_id(s) {
            Ok(v) => Ok(ParentId(v)),
            Err(e) => Err(e),
        }
    }
}

impl PixivId {
    /// The Pixiv id that `s` writes: `none` or an id.
    pub fn from_str(s: &str) -> (r: Result<PixivId, ()>)
        ensures
            r == match option_id_in(s@) {
                Ok(v) => Ok::<PixivId, ()>(PixivId(v)),
                Err(e) => Err(e),
            },
    {
        match read_option_id(s) {
            Ok(v) => Ok(PixivId(v)),
            Err(e) => Err(e),
        }
    }
}

impl ApproverId {
    /// The approver that `s` writes: `none` or an id.
    pub fn from_str(s: &str) -> (r: Result<ApproverId, ()>)
        ensures
            r == match option_id_in(s@) {
                Ok(v) => Ok::<ApproverId, ()>(ApproverId(v)),
                Err(e) => Err(e),
            },
    {
        match read_option_id(s) {
            Ok(v) => Ok(ApproverId(v)),
            Err(e) => Err(e),
        }
    }
}

impl AspectRatio {
    /// The ratio that `s` writes, in thousandths: a decimal, or one decimal
    /// by another with a slash between. A decimal may have a sign and any
    /// number of digits. A negative ratio gives 0, and one too large for 32
    /// bits the largest number. A text that writes no ratio is refused.
    pub fn from_str(s: &str) -> (r: Result<AspectRatio, ()>)
        ensures
            r == match u32_in(ValueKind::Ratio, s@) {
                Ok(v) => Ok::<AspectRatio, ()>(AspectRatio(v)),
                Err(e) => Err(e),
            },
    {
        match read_u32(ValueKind::Ratio, s) {
            Ok(v) => Ok(AspectRatio(v)),
            Err(e) => Err(e),
        }
    }
}

impl MPixel {
    /// The number of pixels that `s` writes as a decimal in millions. The
    /// decimal may have a sign and any number of digits: a negative one
    /// gives 0, and one above 1000 gives 1000 millions. A text that writes
    /// no decimal is refused.
    pub fn from_str(s: &str) -> (r: Result<MPixel, ()>)
        ensures
            r == match u32_in(ValueKind::MPixel, s@) {
                Ok(v) => Ok::<MPixel, ()>(MPixel(v)),
                Err(e) => Err(e),
            },
    {
        match read_u32(ValueKind::MPixel, s) {
            Ok(v) => Ok(MPixel(v)),
            Err(e) => Err(e),
        }
    }
}

impl FromStr for ParentId {
    type Err = ();

    /// The parent that `s` writes: `none` or an id.
    fn from_str(s: &str) -> (r: Result<ParentId, ()>)
        ensures
            r == match option_id_in(s@) {
                Ok(v) => Ok::<ParentId, ()>(ParentId(v)),
                Err(e) => Err(e),
            },
    {
        ParentId::from_str(s)
    }
}

impl FromStr for PixivId {
    type Err = ();

    /// The Pixiv id that `s` writes: `none` or an id.
    fn from_str(s: &str) -> (r: Result<PixivId, ()>)
        ensures
            r == match option_id_in(s@) {
                Ok(v) => Ok::<PixivId, ()>(PixivId(v)),
                Err(e) => Err(e),
            },
    {
        PixivId::from_str(s)
    }
}

impl FromStr for ApproverId {
    type Err = ();

    /// The approver that `s` writes: `none` or an id.
    fn from_str(s: &str) -> (r: Result<ApproverId, ()>)
        ensures
            r == match option_id_in(s@) {
                Ok(v) => Ok::<ApproverId, ()>(ApproverId(v)),
                Err(e) => Err(e),
            },
    {
        ApproverId::from_str(s)
    }
}

impl FromStr for AspectRatio {
    type Err = ();

    /// The ratio that `s` writes, in thousandths; 0 where it is negative.
    fn from_str(s: &str) -> (r: Result<AspectRatio, ()>)
        ensures
            r == match u32_in(ValueKind::Ratio, s@) {
                Ok(v) => Ok::<AspectRatio, ()>(AspectRatio(v)),
                Err(e) => Err(e),
            },
    {
        AspectRatio::from_str(s)
    }
}

impl FromStr for MPixel {
    type Err = ();

    /// The number of pixels that `s` writes as a decimal in millions. The
    /// decimal may have a sign and any number of digits: a negative one
    /// gives 0, and one above 1000 gives 1000 millions. A text that writes
    /// no decimal is refused.
    fn from_str(s: &str) -> (r: Result<MPixel, ()>)
        ensures
            r == match u32_in(ValueKind::MPixel, s@) {
                Ok(v) => Ok::<MPixel, ()>(MPixel(v)),
                Err(e) => Err(e),
            },
    {
        MPixel::from_str(s)
    }
}

} // verus!
