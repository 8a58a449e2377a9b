use vstd::prelude::*;

verus! {

/// A skill row: one child record that belongs to exactly one coder.
///
/// Identifiers are 128-bit values; `created_at` counts microseconds since the
/// Unix epoch, in UTC.
#[derive(Debug, PartialEq, Eq)]
pub struct Skill {
    pub id: u128,
    pub title: String,
    pub description: String,
    pub coder_id: u128,
    pub created_at: i64,
}

impl Skill {
    pub fn new(id: u128, title: String, description: String, coder_id: u128, created_at: i64) -> (r: Skill)
        ensures
            r.id == id,
            r.title@ == title@,
            r.description@ == description@,
            r.coder_id == coder_id,
            r.created_at == created_at,
    {
        Skill { id, title, description, coder_id, created_at }
    }

    pub fn coder_id(&self) -> (r: u128)
        ensures
            r == self.coder_id,
    {
        self.coder_id
    }
}

/// A coder entity, known to this service by its identifier only.
#[derive(Debug, Clone, Copy, PartialEq, Eq)]
pub struct Coder {
    pub id: u128,
}

impl Coder {
    pub fn new(id: u128) -> (r: Coder)
        ensures
            r.id == id,
    {
        Coder { id }
    }

    pub fn id(&self) -> (r: u128)
        ensures
            r == self.id,
    {
        self.id
    }
}

/// The grouped fetch failed: connectivity, a malformed query or a constraint.
#[derive(Debug, PartialEq, Eq)]
pub struct StoreError {
    pub message: String,
}

/// A caller supplied an identifier that is not a UUID.
#[derive(Debug, Clone, Copy, PartialEq, Eq)]
pub struct KeyParseError;

/// The 128-bit value of the UUID that `s` spells, or `None` where `s` spells
/// none in any of the textual forms that the uuid crate reads.
pub uninterp spec fn uuid_value(s: Seq<char>) -> Option<u128>;

/// Relies on uuid::Uuid::parse_str, read back as a big-endian 128-bit value
/// by `as_u128`: the outcome depends on the text alone.
#[verifier::external_body]
fn uuid_parse(s: &str) -> (r: Option<u128>)
    ensures
        r == uuid_value(s@),
{
    uuid::Uuid::parse_str(s).ok().map(|u| u.as_u128())
}

/// Parses an identifier supplied by a caller into a key.
pub fn parse_key(s: &str) -> (r: Result<u128, KeyParseError>)
    ensures
        r == match uuid_value(s@) {
            Some(v) => Ok::<u128, KeyParseError>(v),
            None => Err(KeyParseError),
        },
{
    match uuid_parse(s) {
        Some(v) => Ok(v),
        None => Err(KeyParseError),
    }
}

} // verus!
