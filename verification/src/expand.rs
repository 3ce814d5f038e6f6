//! Which passage a context expansion is asked about: a passage id given
//! directly, or a hit of a saved search session.

use vstd::prelude::*;

verus! {

/// The passage that a context expansion is about.
pub enum HitRef {
    /// Given by its passage id.
    Passage(String),
    /// Hit `hit_id` of the saved search session at `session`.
    SessionHit { session: std::path::PathBuf, hit_id: String },
}

pub open spec fn usage_error() -> Seq<char> {
    "provide either --passage-id OR both --session and --hit"@
}

/// A passage id alone, or a session together with a hit id; any other
/// combination is refused.
pub fn resolve_request(
    passage_id: Option<String>,
    session: Option<std::path::PathBuf>,
    hit: Option<String>,
) -> (r: Result<HitRef, String>)
    ensures
        (passage_id is Some && session is None && hit is None) <==> r matches Ok(HitRef::Passage(_)),
        r matches Ok(HitRef::Passage(p)) ==> passage_id == Some(p),
        (passage_id is None && session is Some && hit is Some) <==> r matches Ok(HitRef::SessionHit { .. }),
        r matches Ok(HitRef::SessionHit { session: s, hit_id: h }) ==> session == Some(s) && hit == Some(h),
        r matches Err(m) ==> m@ == usage_error(),
{
    match (passage_id, session, hit) {
        (Some(passage_id), None, None) => Ok(HitRef::Passage(passage_id)),
        (None, Some(session), Some(hit_id)) => Ok(HitRef::SessionHit { session, hit_id }),
        _ => Err(String::from_str("provide either --passage-id OR both --session and --hit")),
    }
}

} // verus!
