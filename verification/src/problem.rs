//! The route record: one climbing route's metadata as persisted by the
//! store. The raw `date` string is the key routes are grouped by.

use vstd::prelude::*;

verus! {

/// One climbing route: an image reference, a difficulty grade, the name of
/// the setter, a like counter, and the raw `day/month/year` date string.
#[derive(Hash, Debug, Eq)]
pub struct ProblemData {
    pub image: String,
    pub grade: u8,
    pub setter: String,
    pub likes: u32,
    pub date: String,
}

/// Two route records are the same when all their fields read the same.
pub open spec fn problem_eq(a: &ProblemData, b: &ProblemData) -> bool {
    a.image@ == b.image@ && a.grade == b.grade && a.setter@ == b.setter@ && a.likes == b.likes
        && a.date@ == b.date@
}

impl Clone for ProblemData {
    fn clone(&self) -> (r: Self)
        ensures
            r == *self,
    {
        ProblemData {
            image: self.image.clone(),
            grade: self.grade,
            setter: self.setter.clone(),
            likes: self.likes,
            date: self.date.clone(),
        }
    }
}

impl PartialEq for ProblemData {
    fn eq(&self, other: &Self) -> (r: bool) {
        self.image == other.image && self.grade == other.grade && self.setter == other.setter
            && self.likes == other.likes && self.date == other.date
    }
}

impl vstd::std_specs::cmp::PartialEqSpecImpl for ProblemData {
    open spec fn obeys_eq_spec() -> bool {
        true
    }

    open spec fn eq_spec(&self, other: &Self) -> bool {
        problem_eq(self, other)
    }
}

/// The placeholder record the store falls back to: no image, grade `0`,
/// an unknown setter, no likes, and an empty date string.
pub open spec fn is_default_problem(p: ProblemData) -> bool {
    p.image@ == "false"@ && p.grade == 0 && p.setter@ == "Unknown"@ && p.likes == 0 && p.date@
        == ""@
}

impl Default for ProblemData {
    fn default() -> (p: Self)
        ensures
            is_default_problem(p),
    {
        ProblemData {
            image: String::from_str("false"),
            grade: 0,
            setter: String::from_str("Unknown"),
            likes: 0,
            date: String::from_str(""),
        }
    }
}

impl ProblemData {
    /// The raw date string of this route, the key it groups by.
    pub fn get_date(&self) -> (r: String)
        ensures
            r@ == self.date@,
    {
        self.date.clone()
    }
}

} // verus!
