use booru_index::field::Field;
use booru_index::post::{BooruPost, FileExt, Rating, RawBooruPost, Status};

fn raw() -> RawBooruPost {
    RawBooruPost {
        id: 42,
        parent_id: Some(7),
        pixiv_id: None,
        uploader_id: 3,
        approver_id: Some(-1),
        is_banned: false,
        is_deleted: true,
        is_flagged: true,
        is_pending: false,
        created_at: 1_700_000_000_123,
        updated_at: 1_700_000_100_456,
        fav_count: 11,
        up_score: 20,
        down_score: -4,
        source: "https://example.org/a.png".to_string(),
        image_width: 1920,
        image_height: 1080,
        file_ext: "PNG".to_string(),
        file_size: 123_456,
        rating: "s".to_string(),
        tag_string: " cat  long_hair\tfate_(series) ".to_string(),
        tag_count_general: 2,
        tag_count_artist: 0,
        tag_count_character: 0,
        tag_count_copyright: 1,
        tag_count_meta: 65_537,
    }
}

#[test]
fn names_of_ratings_statuses_and_file_types() {
    assert_eq!(Rating::from_str("g"), Ok(Rating::G));
    assert_eq!(Rating::from_str("S"), Ok(Rating::S));
    assert_eq!(Rating::from_str("Q"), Ok(Rating::Q));
    assert_eq!(Rating::from_str("e"), Ok(Rating::E));
    assert_eq!(Rating::from_str("x"), Err(()));
    assert_eq!(Rating::from_str(""), Err(()));
    assert_eq!(Rating::from_lower("G"), None);
    assert_eq!("E".parse::<Rating>(), Ok(Rating::E));
    assert_eq!(Status::from_str("Active"), Ok(Status::Active));
    assert_eq!(Status::from_str("BANNED"), Ok(Status::Banned));
    assert_eq!(Status::from_str("deleted"), Ok(Status::Deleted));
    assert_eq!(Status::from_str("flagged"), Ok(Status::Flagged));
    assert_eq!(Status::from_str("pending"), Ok(Status::Pending));
    assert_eq!(Status::from_str("gone"), Err(()));
    assert_eq!("pending".parse::<Status>(), Ok(Status::Pending));
    let names = ["avif", "bmp", "gif", "jpg", "mp4", "png", "swf", "webm", "webp", "zip"];
    let kinds = [
        FileExt::AVIF,
        FileExt::BMP,
        FileExt::GIF,
        FileExt::JPG,
        FileExt::MP4,
        FileExt::PNG,
        FileExt::SWF,
        FileExt::WEBM,
        FileExt::WEBP,
        FileExt::ZIP,
    ];
    for (name, kind) in names.iter().zip(kinds) {
        assert_eq!(FileExt::from_str(name), Ok(kind));
        assert_eq!(FileExt::from_str(&name.to_uppercase()), Ok(kind));
        assert_eq!(name.parse::<FileExt>(), Ok(kind));
    }
    assert_eq!(FileExt::from_str("jpeg"), Err(()));
}

#[test]
fn a_raw_post_becomes_a_post() {
    let post = BooruPost::from(raw()).unwrap();
    assert_eq!(post.id, 42);
    assert_eq!(post.parent_id, Some(7));
    assert_eq!(post.pixiv_id, None);
    assert_eq!(post.uploader_id, 3);
    assert_eq!(post.approver_id, Some(u32::MAX));
    assert_eq!(post.status, Status::Deleted);
    assert_eq!(post.created_at, 1_700_000_000_123);
    assert_eq!(post.updated_at, 1_700_000_100_456);
    assert_eq!(post.fav_count, 11);
    assert_eq!((post.up_score, post.down_score), (20, -4));
    assert_eq!(post.source, "https://example.org/a.png");
    assert_eq!((post.width, post.height), (1920, 1080));
    assert_eq!(post.file_ext, FileExt::PNG);
    assert_eq!(post.file_size, 123_456);
    assert_eq!(post.rating, Rating::S);
    assert_eq!(post.tags, vec!["cat", "long_hair", "fate_(series)"]);
    assert_eq!(post.tag_count_general, 2);
    assert_eq!(post.tag_count_copyright, 1);
    assert_eq!(post.tag_count_meta, 1);
}

#[test]
fn the_status_is_the_first_flag_that_is_set() {
    let status = |banned, deleted, flagged, pending| {
        let mut r = raw();
        r.is_banned = banned;
        r.is_deleted = deleted;
        r.is_flagged = flagged;
        r.is_pending = pending;
        BooruPost::from(r).unwrap().status
    };
    assert_eq!(status(true, true, true, true), Status::Banned);
    assert_eq!(status(false, true, true, true), Status::Deleted);
    assert_eq!(status(false, false, true, true), Status::Flagged);
    assert_eq!(status(false, false, false, true), Status::Pending);
    assert_eq!(status(false, false, false, false), Status::Active);
}

#[test]
fn a_raw_post_with_an_unknown_name_is_refused() {
    let mut bad_ext = raw();
    bad_ext.file_ext = "exe".to_string();
    assert!(BooruPost::from(bad_ext).is_none());
    let mut bad_rating = raw();
    bad_rating.rating = "z".to_string();
    assert!(BooruPost::from(bad_rating).is_none());
    let post = BooruPost::from_parts(raw(), FileExt::ZIP, Rating::E);
    assert_eq!((post.file_ext, post.rating), (FileExt::ZIP, Rating::E));
}

#[test]
fn fields_have_names_and_values() {
    let post = BooruPost::from(raw()).unwrap();
    let wants: [(&str, Field, i64); 24] = [
        ("id", Field::Id, 42),
        ("parent_id", Field::ParentId, 7),
        ("pixiv_id", Field::PixivId, -1),
        ("approver", Field::Approver, u32::MAX as i64),
        ("status", Field::Status, 2),
        ("created_at", Field::CreatedAt, 1_700_000_000_123),
        ("updated_at", Field::UpdatedAt, 1_700_000_100_456),
        ("favcount", Field::FavCount, 11),
        ("score", Field::Score, 16),
        ("upvotes", Field::Upvotes, 20),
        ("downvotes", Field::Downvotes, -4),
        ("width", Field::Width, 1920),
        ("height", Field::Height, 1080),
        ("ratio", Field::Ratio, 1777),
        ("mpixel", Field::MPixel, 1920 * 1080),
        ("file_ext", Field::FileExt, 5),
        ("file_size", Field::FileSize, 123_456),
        ("rating", Field::Rating, 1),
        ("tagcount", Field::TagCount, 3),
        ("gentags", Field::GenTags, 2),
        ("arttags", Field::ArtTags, 0),
        ("chartags", Field::CharTags, 0),
        ("copytags", Field::CopyTags, 1),
        ("metatags", Field::MetaTags, 1),
    ];
    for (i, (name, field, value)) in wants.iter().enumerate() {
        assert_eq!(Field::from_name(name), Some(*field));
        assert_eq!(field.position(), i);
        assert_eq!(Field::at(i), *field);
        assert_eq!(field.project(&post), *value);
    }
    assert_eq!(Field::from_name("uploader"), None);
    assert_eq!(Field::from_name("ID"), None);
    assert!(Field::Status.has_key_index() && !Field::Score.has_key_index());
    let mut flat = BooruPost::from(raw()).unwrap();
    flat.height = 0;
    assert_eq!(Field::Ratio.project(&flat), u32::MAX as i64);
    flat.width = 0;
    assert_eq!(Field::Ratio.project(&flat), 0);
    flat.up_score = i32::MAX;
    flat.down_score = i32::MAX;
    assert_eq!(Field::Score.project(&flat), 2 * (i32::MAX as i64));
    flat.width = u16::MAX;
    flat.height = u16::MAX;
    assert_eq!(Field::MPixel.project(&flat), 65535 * 65535);
}
