use vstd::prelude::*;
use vstd::string::StrSliceExecFns;
use crate::search::chars_of;

verus! {

/// A path with a leading `~` read as the home directory `home`: "~" is the
/// home directory itself, "~/rest" is `home` + "/" + "rest"; any other
/// path is kept as it is.
pub open spec fn home_path(path: Seq<char>, home: Seq<char>) -> Seq<char> {
    if path == "~"@ {
        home
    } else if path.len() >= 2 && path[0] == '~' && path[1] == '/' {
        home + "/"@ + path.skip(2)
    } else {
        path
    }
}

/// `path` with a leading `~` read as the home directory `home` (see
/// `home_path`).
pub fn expand_home(path: &str, home: &str) -> (p: String)
    ensures
        p@ == home_path(path@, home@),
{
    proof {
        reveal_strlit("~");
        reveal_strlit("/");
    }
    let v = chars_of(path);
    let n = v.len();
    if n == 1 && v[0] == '~' {
        assert(path@ =~= "~"@);
        return String::from_str(home);
    }
    assert(path@ != "~"@) by {
        if path@ == "~"@ {
            assert(path@[0] == '~');
        }
    }
    if n >= 2 && v[0] == '~' && v[1] == '/' {
        let rest = path.substring_char(2, n);
        assert(rest@ =~= path@.skip(2));
        let mut p = String::from_str(home);
        p.append("/");
        p.append(rest);
        return p;
    }
    String::from_str(path)
}

} // verus!
