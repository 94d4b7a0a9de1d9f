use vstd::prelude::*;

use crate::amount::Amount;
use crate::user::User;

verus! {

/// A group of users sharing expenses. A direct group is one the ledger made
/// itself to hold a fixed set of members; it has no name.
#[derive(Debug)]
pub struct Group {
    pub id: String,
    pub name: Option<String>,
    pub created_at: String,
    pub creator_id: String,
    pub direct: bool,
}

/// That `user_id` belongs to group `group_id`.
#[derive(Debug)]
pub struct GroupMembership {
    pub group_id: String,
    pub user_id: String,
}

/// A member of a group with what they owe in it, per currency.
#[derive(Debug)]
pub struct GroupMember {
    pub member: User,
    pub owed_in_group: Vec<Amount>,
}

/// A copy of an optional text.
pub fn copy_text(o: &Option<String>) -> (r: Option<String>)
    ensures
        r == *o,
{
    match o {
        Some(s) => Some(s.clone()),
        None => None,
    }
}

impl Group {
    /// A copy of the group.
    pub fn copy(&self) -> (r: Group)
        ensures
            r == *self,
    {
        Group {
            id: self.id.clone(),
            name: copy_text(&self.name),
            created_at: self.created_at.clone(),
            creator_id: self.creator_id.clone(),
            direct: self.direct,
        }
    }
}

} // verus!
