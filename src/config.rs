use vstd::prelude::*;

verus! {

/// The directory that holds a repository's data.
pub const GITY_DIR_NAME: &'static str = ".gity";

/// The directory, inside the repository's, that holds the objects.
pub const OBJECTS_DIR_NAME: &'static str = "objects";

/// Who makes changes.
#[derive(Clone, Debug)]
pub struct User {
    pub username: String,
    pub email: String,
}

/// The settings of a repository.
#[derive(Clone, Debug)]
pub struct Config {
    pub user: User,
}

} // verus!
