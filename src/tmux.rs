//! The `tmux` calls that open a session with one pane per directory.
use vstd::prelude::*;
use crate::text::views;

verus! {

/// Relies on `uuid::Uuid::new_v4` and its `Display`, which writes the
/// hyphenated lowercase form: 36 characters, with hyphens at positions 8,
/// 13, 18 and 23. The value is random.
#[verifier::external_body]
fn random_uuid() -> (r: String)
    ensures
        r@.len() == 36,
        r@[8] == '-' && r@[13] == '-' && r@[18] == '-' && r@[23] == '-',
{
    uuid::Uuid::new_v4().to_string()
}

/// A fresh session name: the tool's short name, a hyphen and a random
/// identifier.
pub fn generate_session_name() -> (r: String)
    ensures
        r@.len() == 40,
        r@.subrange(0, 4) == "mrt-"@,
{
    let id = random_uuid();
    let mut r = "mrt-".to_string();
    r.append(id.as_str());
    proof {
        reveal_strlit("mrt-");
        assert(r@.subrange(0, 4) =~= "mrt-"@);
    }
    r
}

/// The arguments that start a detached session called `session`.
pub fn new_session_args(session: &str) -> (r: Vec<String>)
    ensures
        views(r@) == seq!["new-session"@, "-d"@, "-s"@, session@],
{
    let r = vec!["new-session".to_string(), "-d".to_string(), "-s".to_string(), session.to_string()];
    assert(views(r@) =~= seq!["new-session"@, "-d"@, "-s"@, session@]);
    r
}

/// The arguments that attach the terminal to session `session`.
pub fn attach_args(session: &str) -> (r: Vec<String>)
    ensures
        views(r@) == seq!["attach"@, "-t"@, session@],
{
    let r = vec!["attach".to_string(), "-t".to_string(), session.to_string()];
    assert(views(r@) =~= seq!["attach"@, "-t"@, session@]);
    r
}

/// The `tmux` calls for one directory: change into it, split off a new pane
/// unless it is the last directory, and tile the panes.
pub open spec fn pane_steps(session: Seq<char>, path: Seq<char>, last: bool) -> Seq<Seq<Seq<char>>> {
    let cd = seq!["send-keys"@, "-t"@, session, "cd "@ + path, "Enter"@];
    let split = seq!["split-window"@, "-v"@, "-t"@, session];
    let layout = seq!["select-layout"@, "-t"@, session, "tiled"@];
    if last {
        seq![cd, layout]
    } else {
        seq![cd, split, layout]
    }
}

/// The `tmux` calls for the first `k` of `paths`, in order.
pub open spec fn pane_plan(session: Seq<char>, paths: Seq<Seq<char>>, k: int) -> Seq<Seq<Seq<char>>>
    decreases k,
{
    if k <= 0 {
        seq![]
    } else {
        pane_plan(session, paths, k - 1) + pane_steps(session, paths[k - 1], k == paths.len())
    }
}

/// The `tmux` calls that open one pane per directory of `paths` in
/// session `session`, in the order they are to be run.
pub fn open_panes(session: &str, paths: &Vec<String>) -> (r: Vec<Vec<String>>)
    ensures
        r@.map_values(|c: Vec<String>| views(c@)) == pane_plan(session@, views(paths@), paths@.len() as int),
{
    let mut r: Vec<Vec<String>> = Vec::new();
    let mut i: usize = 0;
    while i < paths.len()
        invariant
            i <= paths@.len(),
            r@.map_values(|c: Vec<String>| views(c@)) == pane_plan(session@, views(paths@), i as int),
        decreases paths.len() - i,
    {
        let ghost before = r@.map_values(|c: Vec<String>| views(c@));
        let mut cd = "cd ".to_string();
        cd.append(paths[i].as_str());
        let ghost path = paths@[i as int]@;
        assert(views(paths@)[i as int] == path);
        let last = i + 1 == paths.len();
        let ghost steps = pane_steps(session@, path, last);
        let cd_cmd = vec!["send-keys".to_string(), "-t".to_string(), session.to_string(), cd, "Enter".to_string()];
        assert(views(cd_cmd@) =~= steps[0]);
        r.push(cd_cmd);
        if !last {
            let split = vec!["split-window".to_string(), "-v".to_string(), "-t".to_string(), session.to_string()];
            assert(views(split@) =~= steps[1]);
            r.push(split);
        }
        let layout = vec!["select-layout".to_string(), "-t".to_string(), session.to_string(), "tiled".to_string()];
        assert(views(layout@) =~= steps.last());
        r.push(layout);
        proof {
            assert(r@.map_values(|c: Vec<String>| views(c@)) =~= before + steps);
        }
        i = i + 1;
    }
    r
}

} // verus!
