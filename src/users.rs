use vstd::prelude::*;

verus! {

/// A person who can be paged. The engine never inspects these fields: it only
/// copies whole values into coverage entries.
#[derive(Debug, Clone, PartialEq, Eq)]
pub struct User {
    pub uuid: String,
    pub group_id: String,
    pub name: String,
    pub number: String,
}

impl User {
    pub fn new_user(uuid: String, group_id: String, name: String, number: String) -> (r: User)
        ensures
            r == (User { uuid, group_id, name, number }),
    {
        User { uuid, group_id, name, number }
    }

    /// A field-by-field copy, equal to `self`.
    pub fn copy(&self) -> (r: User)
        ensures
            r == *self,
    {
        User {
            uuid: self.uuid.clone(),
            group_id: self.group_id.clone(),
            name: self.name.clone(),
            number: self.number.clone(),
        }
    }
}

/// Copies a provider list element by element.
pub fn copy_users(v: &Vec<User>) -> (r: Vec<User>)
    ensures
        r@ == v@,
{
    let mut r: Vec<User> = Vec::new();
    let mut i: usize = 0;
    while i < v.len()
        invariant
            i <= v.len(),
            r@ == v@.subrange(0, i as int),
        decreases v.len() - i,
    {
        r.push(v[i].copy());
        i = i + 1;
        assert(r@ =~= v@.subrange(0, i as int));
    }
    assert(r@ =~= v@);
    r
}

} // verus!
