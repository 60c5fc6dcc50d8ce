use vstd::prelude::*;
use vstd::string::StringExecFns;

verus! {

/// `dir` joined to `fname` with a single separating slash.
pub open spec fn joined(dir: Seq<char>, fname: Seq<char>) -> Seq<char> {
    dir + seq!['/'] + fname
}

/// The project directory plus the name of the pipeline file inside it; every
/// relative resource name is resolved against the directory.
pub struct ProjectPath {
    pub dir: String,
    pub fname: String,
}

impl ProjectPath {
    pub fn new(dir: &str, fname: &str) -> (r: Self)
        ensures
            r.dir@ == dir@,
            r.fname@ == fname@,
    {
        Self { dir: dir.to_owned(), fname: fname.to_owned() }
    }

    /// Resolves a project-relative file name to a path under the project
    /// directory.
    pub fn path(&self, fname: &str) -> (r: String)
        ensures
            r@ == joined(self.dir@, fname@),
    {
        let mut r = self.dir.clone();
        r.append("/");
        proof {
            reveal_strlit("/");
            assert("/"@ =~= seq!['/']);
        }
        r.append(fname);
        r
    }

    /// The full path of the pipeline file itself.
    pub fn main(&self) -> (r: String)
        ensures
            r@ == joined(self.dir@, self.fname@),
    {
        let fname = self.fname.clone();
        self.path(fname.as_str())
    }
}

} // verus!
