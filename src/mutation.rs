use vstd::prelude::*;

use crate::model::{parse_key, uuid_value, KeyParseError, Skill};

verus! {

/// A skill to insert; the store assigns its identifier and creation time.
#[derive(Debug, PartialEq, Eq)]
pub struct NewSkill {
    pub coder_id: u128,
    pub title: String,
    pub description: String,
}

impl NewSkill {
    /// The skill as stored, once the store has assigned `id` and `created_at`.
    pub fn into_skill(self, id: u128, created_at: i64) -> (r: Skill)
        ensures
            r.id == id,
            r.title@ == self.title@,
            r.description@ == self.description@,
            r.coder_id == self.coder_id,
            r.created_at == created_at,
    {
        Skill::new(id, self.title, self.description, self.coder_id, created_at)
    }
}

/// A new description for the skill `id`.
#[derive(Debug, PartialEq, Eq)]
pub struct SkillUpdate {
    pub id: u128,
    pub description: String,
}

/// The mutations of the skill service, checked before they reach the store.
#[derive(Debug, Clone, Copy, PartialEq, Eq)]
pub struct Mutation;

impl Mutation {
    /// The insert that creates a skill of coder `coder_id`; the identifier
    /// must be a UUID.
    pub fn create_skill(coder_id: &str, title: String, description: String) -> (r: Result<
        NewSkill,
        KeyParseError,
    >)
        ensures
            uuid_value(coder_id@) is None <==> r is Err,
            r matches Ok(n) ==> {
                &&& Some(n.coder_id) == uuid_value(coder_id@)
                &&& n.title@ == title@
                &&& n.description@ == description@
            },
    {
        let coder_id = parse_key(coder_id)?;
        Ok(NewSkill { coder_id, title, description })
    }

    /// The update that gives the skill `id` a new description; the identifier
    /// must be a UUID.
    pub fn update_skill(id: &str, description: String) -> (r: Result<SkillUpdate, KeyParseError>)
        ensures
            uuid_value(id@) is None <==> r is Err,
            r matches Ok(u) ==> Some(u.id) == uuid_value(id@) && u.description@ == description@,
    {
        let id = parse_key(id)?;
        Ok(SkillUpdate { id, description })
    }

    /// The key of the skill `id` to delete; the identifier must be a UUID.
    pub fn delete_skill(id: &str) -> (r: Result<u128, KeyParseError>)
        ensures
            r == match uuid_value(id@) {
                Some(v) => Ok::<u128, KeyParseError>(v),
                None => Err(KeyParseError),
            },
    {
        parse_key(id)
    }
}

} // verus!
