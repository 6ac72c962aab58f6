//! What the worker reads out of the store's records: the largest id in use and the
//! user that holds a name.
use vstd::prelude::*;

use crate::models::User;
use crate::text::same_text;

verus! {

/// The largest of `ids` and `floor`: where an id counter starts.
pub fn largest_id(ids: &Vec<i32>, floor: i32) -> (r: i32)
    ensures
        r >= floor,
        forall|i: int| 0 <= i < ids@.len() ==> ids@[i] <= r,
        r == floor || ids@.contains(r),
{
    let mut max = floor;
    let mut i: usize = 0;
    while i < ids.len()
        invariant
            i <= ids@.len(),
            max >= floor,
            forall|j: int| 0 <= j < i ==> ids@[j] <= max,
            max == floor || ids@.contains(max),
        decreases ids@.len() - i,
    {
        if ids[i] > max {
            max = ids[i];
        }
        i = i + 1;
    }
    max
}

/// The first user with this name.
pub fn user_named(users: &Vec<User>, name: &str) -> (r: Option<User>)
    ensures
        r matches Some(u) ==> exists|i: int|
            0 <= i < users@.len() && #[trigger] users@[i] == u && u.name@ == name@ && forall|j: int|
                0 <= j < i ==> (#[trigger] users@[j]).name@ != name@,
        r is None ==> forall|i: int| 0 <= i < users@.len() ==> (#[trigger] users@[i]).name@ != name@,
{
    let mut i: usize = 0;
    while i < users.len()
        invariant
            i <= users@.len(),
            forall|j: int| 0 <= j < i ==> (#[trigger] users@[j]).name@ != name@,
        decreases users@.len() - i,
    {
        if same_text(users[i].name.as_str(), name) {
            let u = users[i].duplicate();
            assert(users@[i as int] == u);
            return Some(u);
        }
        i = i + 1;
    }
    None
}

} // verus!
