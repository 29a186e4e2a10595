//! What the harness decides about build-tool invocations: the metadata it
//! consumes, the subcommand a project needs, and the feature arguments
//! passed along. Spawning the tool itself is the caller's job.

use vstd::prelude::*;

use crate::normalize::chars_to_string;
use crate::text::extend_chars;
use crate::text::str_to_chars;

verus! {

/// The two fields of the build tool's metadata that the harness consumes.
pub struct Metadata {
    pub target_directory: String,
    pub workspace_root: String,
}

/// The ephemeral project the tests are built in.
pub struct CargoProject {
    /// Directory holding the generated manifest and sources.
    pub dir: String,
    /// The enclosing target directory.
    pub target_dir: String,
    /// Name of the generated package.
    pub name: String,
    pub has_pass: bool,
    pub has_compile_fail: bool,
    /// Features to enable, when the default set is overridden.
    pub features: Option<Vec<String>>,
}

impl CargoProject {
    /// The build subcommand a project needs: a full build when some test
    /// must produce a runnable binary, otherwise only a check.
    pub fn build_subcommand(&self) -> (r: &'static str)
        ensures
            self.has_pass ==> r@ == "build"@,
            !self.has_pass ==> r@ == "check"@,
    {
        if self.has_pass {
            "build"
        } else {
            "check"
        }
    }
}

/// The comma-separated join of a list of feature names.
pub open spec fn spec_comma_join(fs: Seq<Seq<char>>) -> Seq<char>
    decreases fs.len(),
{
    if fs.len() == 0 {
        Seq::empty()
    } else if fs.len() == 1 {
        fs[0]
    } else {
        spec_comma_join(fs.drop_last()) + seq![','] + fs.last()
    }
}

/// The views of a list of strings.
pub open spec fn str_views(ss: Seq<String>) -> Seq<Seq<char>> {
    ss.map_values(|s: String| s@)
}

/// The extra command-line arguments selecting features: nothing when the
/// project's default feature set is used, else the default set is switched
/// off and the enabled features are passed as one comma-separated list.
pub fn features(project: &CargoProject) -> (r: Vec<String>)
    ensures
        match project.features {
            Some(fs) => r@.len() == 3 && r@[0]@ == "--no-default-features"@ && r@[1]@
                == "--features"@ && r@[2]@ == spec_comma_join(str_views(fs@)),
            None => r@.len() == 0,
        },
{
    match &project.features {
        Some(fs) => {
            let mut joined: Vec<char> = Vec::new();
            let mut i: usize = 0;
            proof {
                assert(str_views(fs@).take(0) =~= Seq::<Seq<char>>::empty());
            }
            while i < fs.len()
                invariant
                    0 <= i <= fs@.len(),
                    joined@ == spec_comma_join(str_views(fs@).take(i as int)),
                decreases fs@.len() - i,
            {
                proof {
                    assert(str_views(fs@).take(i + 1).drop_last() =~= str_views(fs@).take(i as int));
                    assert(str_views(fs@).take(i + 1).last() == str_views(fs@)[i as int]);
                    assert(str_views(fs@)[i as int] == fs@[i as int]@);
                }
                if i > 0 {
                    joined.push(',');
                }
                let f = str_to_chars(fs[i].as_str());
                extend_chars(&mut joined, &f);
                proof {
                    if i > 0 {
                        assert(joined@ =~= spec_comma_join(str_views(fs@).take(i as int))
                            + seq![','] + fs@[i as int]@);
                    }
                }
                i += 1;
            }
            proof {
                assert(str_views(fs@).take(fs@.len() as int) =~= str_views(fs@));
            }
            let mut r: Vec<String> = Vec::new();
            let a = str_to_chars("--no-default-features");
            r.push(chars_to_string(&a));
            let b = str_to_chars("--features");
            r.push(chars_to_string(&b));
            r.push(chars_to_string(&joined));
            r
        },
        None => Vec::new(),
    }
}

} // verus!
