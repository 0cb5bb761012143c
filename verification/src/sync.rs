//! Changes that the upstream store reports, and how the database follows them.

use crate::db::CorpusError;
use crate::post::{BooruPost, PostModel};
use crate::index::Index;
use crate::post_index::PostDb;
use crate::text::same_text;
use vstd::prelude::*;

verus! {

/// The kinds of changes.
#[derive(Clone, Copy, Debug, PartialEq, Eq, Structural)]
pub enum ChangeKind {
    Insert,
    Update,
    Delete,
}

/// The kind of change that the channel `t` reports.
pub open spec fn channel_named(t: Seq<char>) -> Option<ChangeKind> {
    if t == "public_posts_insert"@ {
        Some(ChangeKind::Insert)
    } else if t == "public_posts_update"@ {
        Some(ChangeKind::Update)
    } else if t == "public_posts_delete"@ {
        Some(ChangeKind::Delete)
    } else {
        None
    }
}

/// The kind of change that the channel `channel` reports.
pub fn channel_kind(channel: &str) -> (r: Option<ChangeKind>)
    ensures
        r == channel_named(channel@),
{
    if same_text(channel, "public_posts_insert") {
        Some(ChangeKind::Insert)
    } else if same_text(channel, "public_posts_update") {
        Some(ChangeKind::Update)
    } else if same_text(channel, "public_posts_delete") {
        Some(ChangeKind::Delete)
    } else {
        None
    }
}

/// A change of the posts, with the rows that the store reports.
pub enum Change {
    Insert(BooruPost),
    Update { before: BooruPost, after: BooruPost },
    Delete(BooruPost),
}

/// Why a change was not applied.
#[derive(Clone, Copy, Debug, PartialEq, Eq, Structural)]
pub enum ChangeError {
    /// No post of the database carries the id of the row.
    UnknownPost,
    /// The database refuses the change.
    Corpus(CorpusError),
}

/// Whether the posts of `recs` that carry the id of `row` are `row`.
pub open spec fn row_is_held(recs: Map<u32, PostModel>, row: PostModel) -> bool {
    forall|id: u32| #[trigger] recs.contains_key(id) && recs[id].id == row.id ==> recs[id] == row
}

/// Whether some post of `recs` carries the id `post_id`.
pub open spec fn carries(recs: Map<u32, PostModel>, post_id: u32) -> bool {
    exists|id: u32| #[trigger] recs.contains_key(id) && recs[id].id == post_id
}

/// Whether `id` is the lowest id under which a post of `recs` carries the id `post_id`.
pub open spec fn first_carrier(recs: Map<u32, PostModel>, post_id: u32, id: u32) -> bool {
    &&& recs.contains_key(id)
    &&& recs[id].id == post_id
    &&& forall|x: u32| #[trigger] recs.contains_key(x) && recs[x].id == post_id ==> id <= x
}

/// The post that leaves with a change, if one does.
pub open spec fn post_gone(change: Change) -> Option<PostModel> {
    match change {
        Change::Insert(row) => None,
        Change::Update { before, after } => Some(before@),
        Change::Delete(row) => Some(row@),
    }
}

/// The post that comes in with a change, if one does.
pub open spec fn post_come(change: Change) -> Option<PostModel> {
    match change {
        Change::Insert(row) => Some(row@),
        Change::Update { before, after } => Some(after@),
        Change::Delete(row) => None,
    }
}

/// Whether the database takes the change: a new post where an id is left
/// and the index has room for it, a changed post where a post carries the
/// id of the old row and the index has room for the new one, and a deleted
/// post where a post carries its id.
pub open spec fn change_is_taken(db: PostDb, change: Change) -> bool {
    match change {
        Change::Insert(row) => (exists|x: u32| !db.records().contains_key(x))
            && db.index_view().room_for(row@),
        Change::Update { before, after } => carries(db.records(), before@.id)
            && db.index_view().room_for(after@),
        Change::Delete(row) => carries(db.records(), row@.id),
    }
}

/// Applies a change. A new post goes under the lowest id that is not live;
/// a changed or deleted post is found by the id that its old row carries,
/// under the lowest dense id where several posts carry it. The result is
/// the dense id that the change touched. The tags follow the posts as the
/// index of the posts says of every change.
pub fn apply_change(db: &mut PostDb, change: &Change) -> (r: Result<u32, ChangeError>)
    requires
        old(db).wf(),
        change matches Change::Update { before, after } ==> row_is_held(old(db).records(), before@),
        change matches Change::Delete(row) ==> row_is_held(old(db).records(), row@),
    ensures
        final(db).wf(),
        r is Err ==> final(db).index_view() == old(db).index_view(),
        match *change {
            Change::Insert(row) => match r {
                Ok(id) => !old(db).records().contains_key(id) && (forall|x: u32|
                    x < id ==> old(db).records().contains_key(x)) && final(db).records() == old(
                    db,
                ).records().insert(id, row@),
                Err(e) => e == ChangeError::Corpus(CorpusError::Full),
            },
            Change::Update { before, after } => match r {
                Ok(id) => old(db).records().contains_pair(id, before@) && first_carrier(
                    old(db).records(),
                    before@.id,
                    id,
                ) && final(db).records() == old(db).records().insert(id, after@),
                Err(ChangeError::UnknownPost) => !carries(old(db).records(), before@.id),
                Err(ChangeError::Corpus(e)) => e == CorpusError::Full && carries(
                    old(db).records(),
                    before@.id,
                ),
            },
            Change::Delete(row) => match r {
                Ok(id) => old(db).records().contains_pair(id, row@) && first_carrier(
                    old(db).records(),
                    row@.id,
                    id,
                ) && final(db).records() == old(db).records().remove(id),
                Err(e) => e == ChangeError::UnknownPost && !carries(old(db).records(), row@.id),
            },
        },
        r is Ok == change_is_taken(*old(db), *change),
        r is Ok ==> old(db).index_view().follows(
            final(db).index_view(),
            post_gone(*change),
            post_come(*change),
        ),
{
    proof {
        db.lemma_live();
    }
    match change {
        Change::Insert(row) => {
            let id = match db.next_id() {
                None => {
                    return Err(ChangeError::Corpus(CorpusError::Full));
                },
                Some(id) => id,
            };
            match db.insert(id, row) {
                Ok(()) => Ok(id),
                Err(e) => Err(ChangeError::Corpus(e)),
            }
        },
        Change::Update { before, after } => {
            let id = match db.index().id_index().post_id_to_id(before.id) {
                None => {
                    return Err(ChangeError::UnknownPost);
                },
                Some(id) => id,
            };
            match db.update(id, before, after) {
                Ok(()) => Ok(id),
                Err(e) => Err(ChangeError::Corpus(e)),
            }
        },
        Change::Delete(row) => {
            let id = match db.index().id_index().post_id_to_id(row.id) {
                None => {
                    return Err(ChangeError::UnknownPost);
                },
                Some(id) => id,
            };
            match db.remove(id, row) {
                Ok(()) => Ok(id),
                Err(e) => Err(ChangeError::Corpus(e)),
            }
        },
    }
}

} // verus!
