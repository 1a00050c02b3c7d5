use vstd::prelude::*;

verus! {

/// How a profiling span reports: an incrementable counter, or a one-shot
/// span printed when it ends.
#[allow(non_camel_case_types)]
pub enum ProfileType {
    INCREMENTABLE,
    INSTANT,
}

/// A named profiling span. Timing and reporting are side effects of the
/// unverified front end; the span itself only carries its identity.
pub struct Profile {
    pub name: String,
    pub profile_type: ProfileType,
}

impl Profile {
    pub fn new(name: &str, profile_type: ProfileType) -> (p: Profile)
        ensures
            p.name@ == name@,
            p.profile_type == profile_type,
    {
        Profile { name: name.to_owned(), profile_type }
    }
}

} // verus!
