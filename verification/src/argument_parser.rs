use crate::error::LinkError;
use vstd::prelude::*;

verus! {

/// Whether two of the paths are the same.
pub open spec fn has_duplicate(paths: Seq<String>) -> bool {
    exists|i: int, j: int| 0 <= i < j < paths.len() && (#[trigger] paths[i])@ == (#[trigger] paths[j])@
}

/// What the command line asks for. Only the objects, the library
/// directories and the libraries have a bearing on the link; the rest is
/// accepted and has no effect.
#[derive(Debug)]
pub struct Args {
    pub objects: Vec<String>,
    pub library_path: Option<Vec<String>>,
    pub library: Option<Vec<String>>,
    pub emulation: Option<String>,
    pub output: String,
    pub plugin: Option<String>,
    pub plugin_opt: Option<Vec<String>>,
    pub hash_style: Option<String>,
    pub keyword: Option<Vec<String>>,
    pub static_: Option<String>,
    pub as_needed: bool,
    pub build_id: bool,
    pub start_group: bool,
    pub end_group: bool,
}

impl Args {
    /// Refuses a command line that names the same object twice.
    pub fn check_objects(&self) -> (r: Result<(), LinkError>)
        ensures
            has_duplicate(self.objects@) ==> r == Err::<(), LinkError>(
                LinkError::DuplicateCommandLine,
            ),
            !has_duplicate(self.objects@) ==> r is Ok,
    {
        let n: usize = self.objects.len();
        let mut j: usize = 0;
        while j < n
            invariant
                j <= n,
                n == self.objects@.len(),
                forall|a: int, b: int|
                    0 <= a < b < j ==> (#[trigger] self.objects@[a])@ != (
                    #[trigger] self.objects@[b])@,
            decreases n - j,
        {
            let mut i: usize = 0;
            while i < j
                invariant
                    i <= j < n,
                    n == self.objects@.len(),
                    forall|a: int| 0 <= a < i ==> (#[trigger] self.objects@[a])@ != self.objects@[j as int]@,
                decreases j - i,
            {
                if self.objects[i] == self.objects[j] {
                    assert(self.objects@[i as int]@ == self.objects@[j as int]@);
                    return Err(LinkError::DuplicateCommandLine);
                }
                i += 1;
            }
            j += 1;
        }
        Ok(())
    }
}

} // verus!
