//! Visibility filter: who may see a post of a given tier.
use vstd::prelude::*;
use crate::error::AppError;
use crate::text::str_eq;

verus! {

/// Tier of a post that everyone may see.
pub const TIER_EVERYONE: u64 = 0;
/// Tier of a post for those who follow its author.
pub const TIER_FOLLOWERS: u64 = 10;
/// Tier of a post that only its author may see.
pub const TIER_AUTHOR: u64 = 20;

/// The three visibility tiers of a post.
#[derive(Clone, Copy, Debug, PartialEq, Eq, Structural)]
pub enum Visibility {
    Everyone,
    Following,
    JustMe,
}

/// The number under which a tier is stored.
pub open spec fn tier_of(v: Visibility) -> u64 {
    match v {
        Visibility::Everyone => TIER_EVERYONE,
        Visibility::Following => TIER_FOLLOWERS,
        Visibility::JustMe => TIER_AUTHOR,
    }
}

/// The label a form uses for a tier.
pub open spec fn label_of(v: Visibility) -> Seq<char> {
    match v {
        Visibility::Everyone => "Everyone"@,
        Visibility::Following => "Following"@,
        Visibility::JustMe => "Just me"@,
    }
}

impl Visibility {
    /// Reads a tier from its form label; any other label is a validation
    /// failure.
    pub fn from_label(label: &str) -> (r: Result<Visibility, AppError>)
        ensures
            r matches Ok(v) ==> label_of(v) == label@,
            r is Err ==> r == Err::<Visibility, AppError>(AppError::ValidationFailure) && (forall|v: Visibility| label_of(v) != label@),
    {
        proof {
            reveal_strlit("Everyone");
            reveal_strlit("Following");
            reveal_strlit("Just me");
        }
        if str_eq(label, "Everyone") {
            Ok(Visibility::Everyone)
        } else if str_eq(label, "Following") {
            Ok(Visibility::Following)
        } else if str_eq(label, "Just me") {
            Ok(Visibility::JustMe)
        } else {
            Err(AppError::ValidationFailure)
        }
    }

    /// The number under which the tier is stored.
    pub fn tier(&self) -> (r: u64)
        ensures
            r == tier_of(*self),
    {
        match self {
            Visibility::Everyone => TIER_EVERYONE,
            Visibility::Following => TIER_FOLLOWERS,
            Visibility::JustMe => TIER_AUTHOR,
        }
    }
}

/// Whether a post of tier `visibility` by `author` may be seen by viewer
/// `viewer`, who follows the authors in `follows`.
pub open spec fn may_visit(visibility: u64, follows: Seq<u64>, author: u64, viewer: u64) -> bool {
    visibility == TIER_EVERYONE
        || (visibility == TIER_FOLLOWERS && follows.contains(author))
        || (visibility == TIER_AUTHOR && author == viewer)
}

/// Whether a post of tier `visibility` by `solo_uid` may be seen by the
/// signed-in viewer `current_uid`, who follows the authors in `followers`.
pub fn can_visit_solo(visibility: u64, followers: &[u64], solo_uid: u64, current_uid: u64) -> (r: bool)
    ensures
        r == may_visit(visibility, followers@, solo_uid, current_uid),
{
    if visibility == TIER_EVERYONE {
        return true;
    }
    if visibility == TIER_AUTHOR {
        return solo_uid == current_uid;
    }
    if visibility != TIER_FOLLOWERS {
        return false;
    }
    let mut i: usize = 0;
    while i < followers.len()
        invariant
            i <= followers@.len(),
            visibility == TIER_FOLLOWERS,
            forall|j: int| 0 <= j < i ==> followers@[j] != solo_uid,
        decreases followers@.len() - i,
    {
        if followers[i] == solo_uid {
            proof {
                assert(followers@[i as int] == solo_uid);
                assert(followers@.contains(solo_uid));
            }
            return true;
        }
        i = i + 1;
    }
    false
}

/// Who is reading: a signed-in user and the authors they follow, or an
/// anonymous reader (no id).
pub struct Viewer {
    pub id: Option<u64>,
    pub follows: Vec<u64>,
}

/// Whether the viewer `(id, follows)` may see a post of tier `visibility`
/// by `author`; an anonymous viewer sees only posts for everyone.
pub open spec fn viewer_sees(id: Option<u64>, follows: Seq<u64>, visibility: u64, author: u64) -> bool {
    match id {
        None => visibility == TIER_EVERYONE,
        Some(v) => may_visit(visibility, follows, author, v),
    }
}

impl Viewer {
    /// A reader who is not signed in.
    pub fn anonymous() -> (r: Viewer)
        ensures
            r.id is None,
            r.follows@.len() == 0,
    {
        Viewer { id: None, follows: Vec::new() }
    }

    /// A signed-in reader and the authors they follow.
    pub fn signed_in(id: u64, follows: Vec<u64>) -> (r: Viewer)
        ensures
            r.id == Some(id),
            r.follows@ == follows@,
    {
        Viewer { id: Some(id), follows }
    }

    /// Whether this viewer may see a post of tier `visibility` by `author`.
    pub fn can_view(&self, visibility: u64, author: u64) -> (r: bool)
        ensures
            r == viewer_sees(self.id, self.follows@, visibility, author),
    {
        match self.id {
            None => visibility == TIER_EVERYONE,
            Some(v) => can_visit_solo(visibility, self.follows.as_slice(), author, v),
        }
    }
}

/// A followers-only post by `author` is visible to a signed-in viewer
/// exactly when the viewer follows the author, and never to an anonymous
/// one; an author-only post is visible to its author alone; a post for
/// everyone is visible to all.
pub proof fn lemma_visibility_tiers(id: Option<u64>, follows: Seq<u64>, author: u64)
    ensures
        id is Some ==> (viewer_sees(id, follows, TIER_FOLLOWERS, author) <==> follows.contains(author)),
        !viewer_sees(None, follows, TIER_FOLLOWERS, author),
        viewer_sees(id, follows, TIER_AUTHOR, author) <==> id == Some(author),
        viewer_sees(id, follows, TIER_EVERYONE, author),
{
}

} // verus!
