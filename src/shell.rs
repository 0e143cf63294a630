//! The shells that integration scripts exist for.

use vstd::prelude::*;
use crate::text::compare_text;

verus! {

#[derive(Debug, Clone, Copy, PartialEq, Eq, Structural)]
pub enum Shell {
    Bash,
    Zsh,
    Fish,
}

impl Shell {
    /// The shell called `name` (`bash`, `zsh` or `fish`), if it is one of
    /// those.
    pub fn from_name(name: &str) -> (r: Option<Shell>)
        ensures
            r == Some(Shell::Bash) <==> name@ == "bash"@,
            r == Some(Shell::Zsh) <==> name@ == "zsh"@,
            r == Some(Shell::Fish) <==> name@ == "fish"@,
    {
        proof {
            reveal_strlit("bash");
            reveal_strlit("zsh");
            reveal_strlit("fish");
            assert("bash"@ != "zsh"@ && "bash"@ != "fish"@ && "zsh"@ != "fish"@) by {
                assert("bash"@.len() != "zsh"@.len());
                assert("bash"@[0] != "fish"@[0]);
                assert("zsh"@[0] != "fish"@[0]);
            }
        }
        if compare_text(name, "bash") == 0 {
            Some(Shell::Bash)
        } else if compare_text(name, "zsh") == 0 {
            Some(Shell::Zsh)
        } else if compare_text(name, "fish") == 0 {
            Some(Shell::Fish)
        } else {
            None
        }
    }
}

} // verus!
