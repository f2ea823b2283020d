use crate::annotated::{flatten, total_len, AnnotatedText, Segment};
use crate::issues::{strings_view, Match, MatchView};
use crate::util::utf16_to_byte_spec;
use vstd::prelude::*;

verus! {

/// At most this many replacements are kept for one match.
pub const MAX_REPLACEMENTS: usize = 10;

/// Longest excerpt, in characters, of an error response that is shown.
pub const MAX_EXCERPT: usize = 300;

/// One match as the checking service reports it, in UTF-16 units of the payload.
pub struct Found {
    pub message: String,
    pub short_message: String,
    pub rule_id: String,
    pub category_id: String,
    pub replacements: Vec<String>,
    pub offset: usize,
    pub length: usize,
}

/// The match that `f` stands for in the buffer, for a payload that starts at byte `base`;
/// `None` where an offset does not fit in `usize`.
pub open spec fn placed(payload: Seq<Segment>, base: int, f: Found) -> Option<MatchView> {
    let s = base + utf16_to_byte_spec(flatten(payload), f.offset as int);
    let e = base + utf16_to_byte_spec(flatten(payload), f.offset + f.length);
    let reps = strings_view(f.replacements@);
    if f.offset + f.length > usize::MAX || s > usize::MAX || e > usize::MAX {
        None
    } else {
        Some(
            MatchView {
                range: (s, e),
                title: f.short_message@,
                message: f.message@,
                replacements: if reps.len() > MAX_REPLACEMENTS {
                    reps.take(MAX_REPLACEMENTS as int)
                } else {
                    reps
                },
                category: f.category_id@,
                rule: f.rule_id@,
            },
        )
    }
}

/// Turns a reported match into a match in buffer byte offsets.
pub fn to_match(payload: &AnnotatedText, base: usize, found: Found) -> (r: Option<Match>)
    requires
        total_len(payload@) <= usize::MAX,
    ensures
        r matches Some(m) ==> placed(payload@, base as int, found) == Some(m@),
        r is None ==> placed(payload@, base as int, found) is None,
{
    let ghost f = found;
    if found.length > usize::MAX - found.offset {
        return None;
    }
    let s = payload.byte_offset(found.offset);
    let e = payload.byte_offset(found.offset + found.length);
    if s > usize::MAX - base || e > usize::MAX - base {
        return None;
    }
    let Found { message, short_message, rule_id, category_id, mut replacements, .. } = found;
    let ghost reps = strings_view(replacements@);
    replacements.truncate(MAX_REPLACEMENTS);
    let m = Match {
        range: (base + s)..(base + e),
        title: short_message,
        message,
        replacements,
        category: category_id,
        rule: rule_id,
    };
    assert(m@.replacements =~= (if reps.len() > MAX_REPLACEMENTS {
        reps.take(MAX_REPLACEMENTS as int)
    } else {
        reps
    }));
    Some(m)
}

/// The matches that the reported ones stand for, in order; those whose offsets do not fit in
/// `usize` are left out.
pub open spec fn placed_all(payload: Seq<Segment>, base: int, fs: Seq<Found>) -> Seq<MatchView>
    decreases fs.len(),
{
    if fs.len() == 0 {
        Seq::empty()
    } else {
        let rest = placed_all(payload, base, fs.drop_last());
        match placed(payload, base, fs.last()) {
            Some(m) => rest.push(m),
            None => rest,
        }
    }
}

/// Turns every reported match into a match in buffer byte offsets.
pub fn to_matches(payload: &AnnotatedText, base: usize, found: Vec<Found>) -> (r: Vec<Match>)
    requires
        total_len(payload@) <= usize::MAX,
    ensures
        crate::issues::matches_view(r@) == placed_all(payload@, base as int, found@),
{
    let mut r: Vec<Match> = Vec::new();
    for f in it: found
        invariant
            it.seq() == found@,
            total_len(payload@) <= usize::MAX,
            crate::issues::matches_view(r@) == placed_all(
                payload@,
                base as int,
                found@.take(it.index() as int),
            ),
    {
        let ghost i = it.index() as int;
        assert(found@.take(i + 1).drop_last() =~= found@.take(i));
        assert(found@.take(i + 1).last() == f);
        match to_match(payload, base, f) {
            Some(m) => {
                let ghost before = r@;
                r.push(m);
                assert(crate::issues::matches_view(r@) =~= crate::issues::matches_view(
                    before,
                ).push(m@));
            },
            None => {},
        }
    }
    assert(found@.take(found@.len() as int) =~= found@);
    r
}

/// Why a request to a service failed.
pub enum ServiceError {
    /// The service is overloaded or timed out: try again later.
    Unavailable,
    /// Any other failure status, with the start of the response body.
    Status { code: u16, excerpt: String },
}

/// The start of `body`, at most `MAX_EXCERPT` characters.
pub open spec fn excerpt_of(body: Seq<char>) -> Seq<char> {
    if body.len() > MAX_EXCERPT {
        body.take(MAX_EXCERPT as int)
    } else {
        body
    }
}

/// Sorts an HTTP status: success, unavailable (503, 504), or another failure.
pub fn classify_status(code: u16, body: &str) -> (r: Result<(), ServiceError>)
    ensures
        200 <= code <= 299 <==> r is Ok,
        r matches Err(ServiceError::Unavailable) <==> code == 503 || code == 504,
        r matches Err(ServiceError::Status { code: c, excerpt }) ==> c == code && excerpt@
            == excerpt_of(body@),
{
    if 200 <= code && code <= 299 {
        return Ok(());
    }
    if code == 504 || code == 503 {
        return Err(ServiceError::Unavailable);
    }
    let n = body.unicode_len();
    let keep = if n > MAX_EXCERPT {
        MAX_EXCERPT
    } else {
        n
    };
    Err(ServiceError::Status { code, excerpt: String::from_str(body.substring_char(0, keep)) })
}

/// The word-list service needs both a user name and an API key.
pub fn has_credentials(username: &str, api_key: &str) -> (r: bool)
    ensures
        r == (username@.len() > 0 && api_key@.len() > 0),
{
    !username.is_empty() && !api_key.is_empty()
}

/// Where a word the user accepts goes.
#[derive(Debug, Clone, Copy, PartialEq, Eq, Structural)]
pub enum WordTarget {
    /// The remote word list of the account.
    Remote,
    /// The local dictionary; `warn` where syncing was asked for without credentials.
    Local { warn: bool },
}

/// Remote where syncing is on and credentials are given, local otherwise.
pub fn word_target(sync: bool, username: &str, api_key: &str) -> (r: WordTarget)
    ensures
        r == (if sync && username@.len() > 0 && api_key@.len() > 0 {
            WordTarget::Remote
        } else {
            WordTarget::Local { warn: sync }
        }),
{
    if sync && has_credentials(username, api_key) {
        WordTarget::Remote
    } else {
        WordTarget::Local { warn: sync }
    }
}

/// The checking level sent with a request.
pub fn level(picky: bool) -> (r: &'static str)
    ensures
        r@ == (if picky {
            "picky"@
        } else {
            "default"@
        }),
{
    if picky {
        "picky"
    } else {
        "default"
    }
}

} // verus!
