use vstd::prelude::*;
use vstd::string::*;

verus! {

/// Where the tracker document lives, derived from the user's home
/// directory. Paths are held as plain strings; the caller owns all file
/// system access.
#[derive(Debug, Clone)]
pub struct GlobalContext {
    home_path: String,
    base_path: String,
    tracker_path: String,
}

impl GlobalContext {
    pub closed spec fn home_path_spec(&self) -> Seq<char> {
        self.home_path@
    }

    pub closed spec fn base_path_spec(&self) -> Seq<char> {
        self.base_path@
    }

    pub closed spec fn tracker_path_spec(&self) -> Seq<char> {
        self.tracker_path@
    }

    pub fn new(home_dir: String) -> (r: Self)
        ensures
            r.home_path_spec() == home_dir@,
            r.base_path_spec() == home_dir@ + "/.fintrack"@,
            r.tracker_path_spec() == home_dir@ + "/.fintrack"@ + "/tracker.json"@,
    {
        let mut base = home_dir.clone();
        base.append("/.fintrack");
        let mut tracker = base.clone();
        tracker.append("/tracker.json");
        GlobalContext { home_path: home_dir, base_path: base, tracker_path: tracker }
    }

    /// The directory that holds the tracker's files.
    pub fn base_path(&self) -> (r: &String)
        ensures
            r@ == self.base_path_spec(),
    {
        &self.base_path
    }

    /// The location of the tracker.json containing the data.
    pub fn tracker_path(&self) -> (r: &String)
        ensures
            r@ == self.tracker_path_spec(),
    {
        &self.tracker_path
    }
}

} // verus!
