//! Turning what a user typed into the path used as a storage key, and
//! shortening a path under the home directory for display.

use vstd::prelude::*;
use vstd::string::*;

verus! {

/// Relies on shellexpand::tilde: a leading `~` that stands alone or before a
/// separator becomes the home directory, where one is known; other text
/// comes back as it was.
#[verifier::external_body]
fn expand_tilde(s: &str) -> (r: String)
    ensures
        !(s@.len() > 0 && s@[0] == '~') ==> r@ == s@,
        s@.len() > 1 && s@[0] == '~' && s@[1] != '/' && s@[1] != '\\' ==> r@ == s@,
        s@.len() > 0 ==> r@ == s@ || exists|home: Seq<char>| r@ == home + s@.drop_first(),
{
    shellexpand::tilde(s).into_owned()
}

/// Relies on dirs::home_dir: the user's home directory, where one is known,
/// as text.
#[verifier::external_body]
fn home_dir_text() -> (r: Option<String>) {
    dirs::home_dir().map(|p| p.to_string_lossy().into_owned())
}

/// The storage key for a path as the user typed it: a leading `~` is
/// expanded to the home directory; any other text is kept as it is.
pub fn normalize_path(s: &str) -> (r: String)
    ensures
        !(s@.len() > 0 && s@[0] == '~') ==> r@ == s@,
        s@.len() > 1 && s@[0] == '~' && s@[1] != '/' && s@[1] != '\\' ==> r@ == s@,
        s@.len() > 0 ==> r@ == s@ || exists|home: Seq<char>| r@ == home + s@.drop_first(),
{
    expand_tilde(s)
}

/// `path` with a leading `home` written as `~`; unchanged where it does not
/// start with `home`.
pub open spec fn abbreviated(path: Seq<char>, home: Seq<char>) -> Seq<char> {
    if home.len() <= path.len() && path.subrange(0, home.len() as int) == home {
        seq!['~'] + path.subrange(home.len() as int, path.len() as int)
    } else {
        path
    }
}

/// Writes a leading `home` in `path` as `~`.
pub fn abbreviate_home(path: &str, home: &str) -> (r: String)
    ensures
        r@ == abbreviated(path@, home@),
{
    let pl = path.unicode_len();
    let hl = home.unicode_len();
    if hl > pl {
        return path.to_owned();
    }
    let mut i: usize = 0;
    while i < hl
        invariant
            pl == path@.len(),
            hl == home@.len(),
            hl <= pl,
            i <= hl,
            forall|j: int| 0 <= j < i ==> path@[j] == home@[j],
        decreases hl - i,
    {
        if path.get_char(i) != home.get_char(i) {
            assert(path@.subrange(0, hl as int)[i as int] != home@[i as int]);
            return path.to_owned();
        }
        i += 1;
    }
    assert(path@.subrange(0, hl as int) =~= home@);
    let rest = path.substring_char(hl, pl);
    let mut r = "~".to_owned();
    proof {
        reveal_strlit("~");
    }
    r.append(rest);
    assert(r@ =~= seq!['~'] + path@.subrange(hl as int, pl as int));
    r
}

/// `path` for display: under the home directory it starts with `~`. Where
/// no home directory is known, `/` stands for it.
pub fn format_path(path: &str) -> (r: String)
    ensures
        exists|home: Seq<char>| r@ == abbreviated(path@, home),
{
    match home_dir_text() {
        Some(home) => abbreviate_home(path, home.as_str()),
        None => abbreviate_home(path, "/"),
    }
}

} // verus!
