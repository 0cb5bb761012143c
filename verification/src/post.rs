//! Post records: the normalized form that the indexes read, the raw form
//! that the upstream store hands out, and the way from one to the other.

use crate::text::{lowercase_of, same_text, split_words, to_lowercase, words_of};
use std::str::FromStr;
use vstd::prelude::*;

verus! {

/// The content rating of a post.
#[derive(Clone, Copy, Debug, PartialEq, Eq, Hash, Structural)]
pub enum Rating {
    G,
    S,
    Q,
    E,
}

/// The rating that the lowercase name `t` stands for.
pub open spec fn rating_named(t: Seq<char>) -> Option<Rating> {
    if t == "g"@ {
        Some(Rating::G)
    } else if t == "s"@ {
        Some(Rating::S)
    } else if t == "q"@ {
        Some(Rating::Q)
    } else if t == "e"@ {
        Some(Rating::E)
    } else {
        None
    }
}

/// `Ok` of what is there, and `Err(())` of nothing.
pub open spec fn ok_or_unit<T>(o: Option<T>) -> Result<T, ()> {
    match o {
        Some(v) => Ok(v),
        None => Err(()),
    }
}

impl Rating {
    /// The rating with the lowercase name `lower`.
    pub fn from_lower(lower: &str) -> (r: Option<Rating>)
        ensures
            r == rating_named(lower@),
    {
        if same_text(lower, "g") {
            Some(Rating::G)
        } else if same_text(lower, "s") {
            Some(Rating::S)
        } else if same_text(lower, "q") {
            Some(Rating::Q)
        } else if same_text(lower, "e") {
            Some(Rating::E)
        } else {
            None
        }
    }

    /// The rating that `s` names, in whatever case.
    pub fn from_str(s: &str) -> (r: Result<Rating, ()>)
        ensures
            r == ok_or_unit(rating_named(lowercase_of(s@))),
    {
        let lower = to_lowercase(s);
        match Rating::from_lower(lower.as_str()) {
            Some(v) => Ok(v),
            None => Err(()),
        }
    }

    /// The number that stands for the rating as an index key.
    pub open spec fn code(self) -> i64 {
        match self {
            Rating::G => 0,
            Rating::S => 1,
            Rating::Q => 2,
            Rating::E => 3,
        }
    }

    /// The number that stands for the rating as an index key.
    pub fn key_code(&self) -> (c: i64)
        ensures
            c == self.code(),
    {
        match self {
            Rating::G => 0,
            Rating::S => 1,
            Rating::Q => 2,
            Rating::E => 3,
        }
    }
}

impl FromStr for Rating {
    type Err = ();

    /// The rating that `s` names, in whatever case.
    fn from_str(s: &str) -> (r: Result<Rating, ()>)
        ensures
            r == ok_or_unit(rating_named(lowercase_of(s@))),
    {
        Rating::from_str(s)
    }
}

/// The file type of a post.
#[allow(clippy::upper_case_acronyms)]
#[derive(Clone, Copy, Debug, PartialEq, Eq, Hash, Structural)]
pub enum FileExt {
    AVIF,
    BMP,
    GIF,
    JPG,
    MP4,
    PNG,
    SWF,
    WEBM,
    WEBP,
    ZIP,
}

/// The file type that the lowercase name `t` stands for.
pub open spec fn file_ext_named(t: Seq<char>) -> Option<FileExt> {
    if t == "avif"@ {
        Some(FileExt::AVIF)
    } else if t == "bmp"@ {
        Some(FileExt::BMP)
    } else if t == "gif"@ {
        Some(FileExt::GIF)
    } else if t == "jpg"@ {
        Some(FileExt::JPG)
    } else if t == "png"@ {
        Some(FileExt::PNG)
    } else if t == "mp4"@ {
        Some(FileExt::MP4)
    } else if t == "swf"@ {
        Some(FileExt::SWF)
    } else if t == "webm"@ {
        Some(FileExt::WEBM)
    } else if t == "webp"@ {
        Some(FileExt::WEBP)
    } else if t == "zip"@ {
        Some(FileExt::ZIP)
    } else {
        None
    }
}

impl FileExt {
    /// The file type with the lowercase name `lower`.
    pub fn from_lower(lower: &str) -> (r: Option<FileExt>)
        ensures
            r == file_ext_named(lower@),
    {
        if same_text(lower, "avif") {
            Some(FileExt::AVIF)
        } else if same_text(lower, "bmp") {
            Some(FileExt::BMP)
        } else if same_text(lower, "gif") {
            Some(FileExt::GIF)
        } else if same_text(lower, "jpg") {
            Some(FileExt::JPG)
        } else if same_text(lower, "png") {
            Some(FileExt::PNG)
        } else if same_text(lower, "mp4") {
            Some(FileExt::MP4)
        } else if same_text(lower, "swf") {
            Some(FileExt::SWF)
        } else if same_text(lower, "webm") {
            Some(FileExt::WEBM)
        } else if same_text(lower, "webp") {
            Some(FileExt::WEBP)
        } else if same_text(lower, "zip") {
            Some(FileExt::ZIP)
        } else {
            None
        }
    }

    /// The file type that `s` names, in whatever case.
    pub fn from_str(s: &str) -> (r: Result<FileExt, ()>)
        ensures
            r == ok_or_unit(file_ext_named(lowercase_of(s@))),
    {
        let lower = to_lowercase(s);
        match FileExt::from_lower(lower.as_str()) {
            Some(v) => Ok(v),
            None => Err(()),
        }
    }

    /// The number that stands for the file type as an index key.
    pub open spec fn code(self) -> i64 {
        match self {
            FileExt::AVIF => 0,
            FileExt::BMP => 1,
            FileExt::GIF => 2,
            FileExt::JPG => 3,
            FileExt::MP4 => 4,
            FileExt::PNG => 5,
            FileExt::SWF => 6,
            FileExt::WEBM => 7,
            FileExt::WEBP => 8,
            FileExt::ZIP => 9,
        }
    }

    /// The number that stands for the file type as an index key.
    pub fn key_code(&self) -> (c: i64)
        ensures
            c == self.code(),
    {
        match self {
            FileExt::AVIF => 0,
            FileExt::BMP => 1,
            FileExt::GIF => 2,
            FileExt::JPG => 3,
            FileExt::MP4 => 4,
            FileExt::PNG => 5,
            FileExt::SWF => 6,
            FileExt::WEBM => 7,
            FileExt::WEBP => 8,
            FileExt::ZIP => 9,
        }
    }
}

impl FromStr for FileExt {
    type Err = ();

    /// The file type that `s` names, in whatever case.
    fn from_str(s: &str) -> (r: Result<FileExt, ()>)
        ensures
            r == ok_or_unit(file_ext_named(lowercase_of(s@))),
    {
        FileExt::from_str(s)
    }
}

/// The moderation status of a post.
#[derive(Clone, Copy, Debug, PartialEq, Eq, Hash, Structural)]
pub enum Status {
    Active,
    Banned,
    Deleted,
    Flagged,
    Pending,
}

/// The status that the lowercase name `t` stands for.
pub open spec fn status_named(t: Seq<char>) -> Option<Status> {
    if t == "active"@ {
        Some(Status::Active)
    } else if t == "banned"@ {
        Some(Status::Banned)
    } else if t == "deleted"@ {
        Some(Status::Deleted)
    } else if t == "flagged"@ {
        Some(Status::Flagged)
    } else if t == "pending"@ {
        Some(Status::Pending)
    } else {
        None
    }
}

/// The status that the flags of a raw post say: the first that is set of
/// banned, deleted, flagged and pending, and active if none is.
pub open spec fn status_of_flags(banned: bool, deleted: bool, flagged: bool, pending: bool) -> Status {
    if banned {
        Status::Banned
    } else if deleted {
        Status::Deleted
    } else if flagged {
        Status::Flagged
    } else if pending {
        Status::Pending
    } else {
        Status::Active
    }
}

impl Status {
    /// The status with the lowercase name `lower`.
    pub fn from_lower(lower: &str) -> (r: Option<Status>)
        ensures
            r == status_named(lower@),
    {
        if same_text(lower, "active") {
            Some(Status::Active)
        } else if same_text(lower, "banned") {
            Some(Status::Banned)
        } else if same_text(lower, "deleted") {
            Some(Status::Deleted)
        } else if same_text(lower, "flagged") {
            Some(Status::Flagged)
        } else if same_text(lower, "pending") {
            Some(Status::Pending)
        } else {
            None
        }
    }

    /// The status that `s` names, in whatever case.
    pub fn from_str(s: &str) -> (r: Result<Status, ()>)
        ensures
            r == ok_or_unit(status_named(lowercase_of(s@))),
    {
        let lower = to_lowercase(s);
        match Status::from_lower(lower.as_str()) {
            Some(v) => Ok(v),
            None => Err(()),
        }
    }

    /// The number that stands for the status as an index key.
    pub open spec fn code(self) -> i64 {
        match self {
            Status::Active => 0,
            Status::Banned => 1,
            Status::Deleted => 2,
            Status::Flagged => 3,
            Status::Pending => 4,
        }
    }

    /// The number that stands for the status as an index key.
    pub fn key_code(&self) -> (c: i64)
        ensures
            c == self.code(),
    {
        match self {
            Status::Active => 0,
            Status::Banned => 1,
            Status::Deleted => 2,
            Status::Flagged => 3,
            Status::Pending => 4,
        }
    }
}

impl FromStr for Status {
    type Err = ();

    /// The status that `s` names, in whatever case.
    fn from_str(s: &str) -> (r: Result<Status, ()>)
        ensures
            r == ok_or_unit(status_named(lowercase_of(s@))),
    {
        Status::from_str(s)
    }
}

/// A post as the indexes read it. Times are milliseconds since the epoch.
pub struct BooruPost {
    pub id: u32,
    pub parent_id: Option<u32>,
    pub pixiv_id: Option<u32>,
    pub uploader_id: u32,
    pub approver_id: Option<u32>,
    pub status: Status,
    pub created_at: i64,
    pub updated_at: i64,
    pub fav_count: u32,
    pub up_score: i32,
    pub down_score: i32,
    pub source: String,
    pub width: u16,
    pub height: u16,
    pub file_ext: FileExt,
    pub file_size: u32,
    pub rating: Rating,
    pub tags: Vec<String>,
    pub tag_count_general: u16,
    pub tag_count_artist: u16,
    pub tag_count_character: u16,
    pub tag_count_copyright: u16,
    pub tag_count_meta: u16,
}

/// What a post stands for in contracts.
pub struct PostModel {
    pub id: u32,
    pub parent_id: Option<u32>,
    pub pixiv_id: Option<u32>,
    pub uploader_id: u32,
    pub approver_id: Option<u32>,
    pub status: Status,
    pub created_at: i64,
    pub updated_at: i64,
    pub fav_count: u32,
    pub up_score: i32,
    pub down_score: i32,
    pub source: Seq<char>,
    pub width: u16,
    pub height: u16,
    pub file_ext: FileExt,
    pub file_size: u32,
    pub rating: Rating,
    pub tags: Seq<Seq<char>>,
    pub tag_count_general: u16,
    pub tag_count_artist: u16,
    pub tag_count_character: u16,
    pub tag_count_copyright: u16,
    pub tag_count_meta: u16,
}

/// The texts of a list of strings.
pub open spec fn texts_of(v: Seq<String>) -> Seq<Seq<char>> {
    Seq::new(v.len(), |i: int| v[i]@)
}

impl View for BooruPost {
    type V = PostModel;

    open spec fn view(&self) -> PostModel {
        PostModel {
            id: self.id,
            parent_id: self.parent_id,
            pixiv_id: self.pixiv_id,
            uploader_id: self.uploader_id,
            approver_id: self.approver_id,
            status: self.status,
            created_at: self.created_at,
            updated_at: self.updated_at,
            fav_count: self.fav_count,
            up_score: self.up_score,
            down_score: self.down_score,
            source: self.source@,
            width: self.width,
            height: self.height,
            file_ext: self.file_ext,
            file_size: self.file_size,
            rating: self.rating,
            tags: texts_of(self.tags@),
            tag_count_general: self.tag_count_general,
            tag_count_artist: self.tag_count_artist,
            tag_count_character: self.tag_count_character,
            tag_count_copyright: self.tag_count_copyright,
            tag_count_meta: self.tag_count_meta,
        }
    }
}

/// A post as the upstream store hands it out. Times are milliseconds since
/// the epoch.
pub struct RawBooruPost {
    pub id: i32,
    pub parent_id: Option<i32>,
    pub pixiv_id: Option<i32>,
    pub uploader_id: i32,
    pub approver_id: Option<i32>,
    pub is_banned: bool,
    pub is_deleted: bool,
    pub is_flagged: bool,
    pub is_pending: bool,
    pub created_at: i64,
    pub updated_at: i64,
    pub fav_count: i32,
    pub up_score: i32,
    pub down_score: i32,
    pub source: String,
    pub image_width: i32,
    pub image_height: i32,
    pub file_ext: String,
    pub file_size: i32,
    pub rating: String,
    pub tag_string: String,
    pub tag_count_general: i32,
    pub tag_count_artist: i32,
    pub tag_count_character: i32,
    pub tag_count_copyright: i32,
    pub tag_count_meta: i32,
}

/// The low 32 bits of `v` as an unsigned number.
pub open spec fn low_u32(v: i32) -> u32 {
    v as u32
}

/// The low 16 bits of `v` as an unsigned number.
pub open spec fn low_u16(v: i32) -> u16 {
    v as u16
}

/// The low 32 bits of an optional number.
pub open spec fn low_u32_opt(v: Option<i32>) -> Option<u32> {
    match v {
        Some(x) => Some(low_u32(x)),
        None => None,
    }
}

fn to_u32(v: i32) -> (r: u32)
    ensures
        r == low_u32(v),
{
    #[verifier::truncate]
    (v as u32)
}

fn to_u16(v: i32) -> (r: u16)
    ensures
        r == low_u16(v),
{
    #[verifier::truncate]
    (v as u16)
}

fn to_u32_opt(v: Option<i32>) -> (r: Option<u32>)
    ensures
        r == low_u32_opt(v),
{
    match v {
        Some(x) => Some(to_u32(x)),
        None => None,
    }
}

/// The post that a raw post with the file type `file_ext` and the rating
/// `rating` stands for: numbers cut to their width, the status read from the
/// flags, the tag string split into its words.
pub open spec fn post_of(raw: RawBooruPost, file_ext: FileExt, rating: Rating) -> PostModel {
    PostModel {
        id: low_u32(raw.id),
        parent_id: low_u32_opt(raw.parent_id),
        pixiv_id: low_u32_opt(raw.pixiv_id),
        uploader_id: low_u32(raw.uploader_id),
        approver_id: low_u32_opt(raw.approver_id),
        status: status_of_flags(raw.is_banned, raw.is_deleted, raw.is_flagged, raw.is_pending),
        created_at: raw.created_at,
        updated_at: raw.updated_at,
        fav_count: low_u32(raw.fav_count),
        up_score: raw.up_score,
        down_score: raw.down_score,
        source: raw.source@,
        width: low_u16(raw.image_width),
        height: low_u16(raw.image_height),
        file_ext,
        file_size: low_u32(raw.file_size),
        rating,
        tags: words_of(raw.tag_string@),
        tag_count_general: low_u16(raw.tag_count_general),
        tag_count_artist: low_u16(raw.tag_count_artist),
        tag_count_character: low_u16(raw.tag_count_character),
        tag_count_copyright: low_u16(raw.tag_count_copyright),
        tag_count_meta: low_u16(raw.tag_count_meta),
    }
}

impl BooruPost {
    /// The post that `raw` stands for, given its file type and its rating.
    pub fn from_parts(raw: RawBooruPost, file_ext: FileExt, rating: Rating) -> (post: BooruPost)
        ensures
            post@ == post_of(raw, file_ext, rating),
    {
        let status = if raw.is_banned {
            Status::Banned
        } else if raw.is_deleted {
            Status::Deleted
        } else if raw.is_flagged {
            Status::Flagged
        } else if raw.is_pending {
            Status::Pending
        } else {
            Status::Active
        };
        let tags = split_words(raw.tag_string.as_str());
        assert(texts_of(tags@) =~= words_of(raw.tag_string@));
        BooruPost {
            id: to_u32(raw.id),
            parent_id: to_u32_opt(raw.parent_id),
            pixiv_id: to_u32_opt(raw.pixiv_id),
            uploader_id: to_u32(raw.uploader_id),
            approver_id: to_u32_opt(raw.approver_id),
            status,
            created_at: raw.created_at,
            updated_at: raw.updated_at,
            fav_count: to_u32(raw.fav_count),
            up_score: raw.up_score,
            down_score: raw.down_score,
            source: raw.source,
            width: to_u16(raw.image_width),
            height: to_u16(raw.image_height),
            file_ext,
            file_size: to_u32(raw.file_size),
            rating,
            tags,
            tag_count_general: to_u16(raw.tag_count_general),
            tag_count_artist: to_u16(raw.tag_count_artist),
            tag_count_character: to_u16(raw.tag_count_character),
            tag_count_copyright: to_u16(raw.tag_count_copyright),
            tag_count_meta: to_u16(raw.tag_count_meta),
        }
    }

    /// The post that `raw` stands for; `None` where its file type or its
    /// rating has no known name.
    pub fn from(raw: RawBooruPost) -> (r: Option<BooruPost>)
        ensures
            match (
                file_ext_named(lowercase_of(raw.file_ext@)),
                rating_named(lowercase_of(raw.rating@)),
            ) {
                (Some(e), Some(g)) => r matches Some(post) && post@ == post_of(raw, e, g),
                _ => r is None,
            },
    {
        let file_ext = match FileExt::from_str(raw.file_ext.as_str()) {
            Ok(e) => e,
            Err(_) => {
                return None;
            },
        };
        let rating = match Rating::from_str(raw.rating.as_str()) {
            Ok(g) => g,
            Err(_) => {
                return None;
            },
        };
        Some(BooruPost::from_parts(raw, file_ext, rating))
    }
}

} // verus!
