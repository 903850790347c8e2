//! What applying actions does to a file tree, and the resolved actions that
//! a caller performs on disk.
use vstd::prelude::*;

use crate::codec::{
    actions_view, blob_of, lemma_parse_blob_of, parse_blob, parse_combined_contents, record_is_plain,
    records_under, Action, FileAction,
};
use crate::paths::{join_path, joined};

verus! {

/// The regular files of a tree: path to content.
pub type Files = Map<Seq<char>, Seq<char>>;

/// The path that an action names.
pub open spec fn action_path(a: Action) -> Seq<char> {
    match a {
        Action::Write(p, _) => p,
        Action::Delete(p) => p,
    }
}

/// One action: a write creates or replaces the file, a delete removes it and
/// leaves the tree as it is when there is no such file.
pub open spec fn apply_action(fs: Files, a: Action) -> Files {
    match a {
        Action::Write(p, c) => fs.insert(p, c),
        Action::Delete(p) => fs.remove(p),
    }
}

/// The actions applied one after another, in order.
pub open spec fn apply_all(fs: Files, acts: Seq<Action>) -> Files
    decreases acts.len(),
{
    if acts.len() == 0 {
        fs
    } else {
        apply_all(apply_action(fs, acts[0]), acts.drop_first())
    }
}

/// Some action of `acts` names `p`.
pub open spec fn touches(acts: Seq<Action>, p: Seq<char>) -> bool {
    exists|i: int| 0 <= i < acts.len() && action_path(#[trigger] acts[i]) == p
}

/// The action with its path resolved under `root`.
pub open spec fn resolved(root: Seq<char>, a: Action) -> Action {
    match a {
        Action::Write(p, c) => Action::Write(joined(root, p), c),
        Action::Delete(p) => Action::Delete(joined(root, p)),
    }
}

/// A path that no action names keeps what it had.
pub proof fn lemma_untouched(fs: Files, acts: Seq<Action>, p: Seq<char>)
    requires
        !touches(acts, p),
    ensures
        apply_all(fs, acts).contains_key(p) == fs.contains_key(p),
        fs.contains_key(p) ==> apply_all(fs, acts)[p] == fs[p],
    decreases acts.len(),
{
    if acts.len() > 0 {
        assert(action_path(acts[0]) != p);
        assert(!touches(acts.drop_first(), p)) by {
            if touches(acts.drop_first(), p) {
                let i = choose|i: int|
                    0 <= i < acts.drop_first().len() && action_path(#[trigger] acts.drop_first()[i]) == p;
                assert(acts[i + 1] == acts.drop_first()[i]);
            }
        }
        lemma_untouched(apply_action(fs, acts[0]), acts.drop_first(), p);
    }
}

/// What a path holds after actions that name it does not depend on the tree
/// they started from.
pub proof fn lemma_touched(f1: Files, f2: Files, acts: Seq<Action>, p: Seq<char>)
    requires
        touches(acts, p),
    ensures
        apply_all(f1, acts).contains_key(p) == apply_all(f2, acts).contains_key(p),
        apply_all(f1, acts).contains_key(p) ==> apply_all(f1, acts)[p] == apply_all(f2, acts)[p],
    decreases acts.len(),
{
    let rest = acts.drop_first();
    let g1 = apply_action(f1, acts[0]);
    let g2 = apply_action(f2, acts[0]);
    if touches(rest, p) {
        lemma_touched(g1, g2, rest, p);
    } else {
        assert(action_path(acts[0]) == p) by {
            let i = choose|i: int| 0 <= i < acts.len() && action_path(#[trigger] acts[i]) == p;
            if i > 0 {
                assert(rest[i - 1] == acts[i]);
            }
        }
        lemma_untouched(g1, rest, p);
        lemma_untouched(g2, rest, p);
    }
}

/// Applying the same actions a second time changes nothing.
pub proof fn lemma_apply_idempotent(fs: Files, acts: Seq<Action>)
    ensures
        apply_all(apply_all(fs, acts), acts) == apply_all(fs, acts),
{
    let once = apply_all(fs, acts);
    let twice = apply_all(once, acts);
    assert forall|p: Seq<char>| #[trigger] twice.contains_key(p) == once.contains_key(p) && (
    twice.contains_key(p) ==> twice[p] == once[p]) by {
        if touches(acts, p) {
            lemma_touched(once, fs, acts, p);
        } else {
            lemma_untouched(once, acts, p);
        }
    }
    assert(twice =~= once);
}

/// Deleting a path that holds no file succeeds and leaves the tree as it was.
pub proof fn lemma_delete_missing(fs: Files, p: Seq<char>)
    requires
        !fs.contains_key(p),
    ensures
        apply_all(fs, seq![Action::Delete(p)]) == fs,
{
    let acts = seq![Action::Delete(p)];
    assert(acts[0] == Action::Delete(p));
    assert(acts.drop_first() =~= seq![]);
    assert(apply_all(fs.remove(p), acts.drop_first()) == fs.remove(p));
    assert(fs.remove(p) =~= fs);
}

/// Of two writes to one path, the later one decides what it holds.
pub proof fn lemma_later_write_wins(fs: Files, p: Seq<char>, c1: Seq<char>, c2: Seq<char>)
    ensures
        apply_all(fs, seq![Action::Write(p, c1), Action::Write(p, c2)]) == fs.insert(p, c2),
{
    let acts = seq![Action::Write(p, c1), Action::Write(p, c2)];
    let tail = acts.drop_first();
    assert(acts[0] == Action::Write(p, c1));
    assert(tail =~= seq![Action::Write(p, c2)]);
    assert(tail[0] == Action::Write(p, c2));
    assert(tail.drop_first() =~= seq![]);
    let f1 = fs.insert(p, c1);
    assert(apply_all(f1.insert(p, c2), tail.drop_first()) == f1.insert(p, c2));
    assert(apply_all(f1, tail) == f1.insert(p, c2));
    assert(f1.insert(p, c2) =~= fs.insert(p, c2));
}

/// A write that no later action on its path follows decides what the path holds.
pub proof fn lemma_last_write(fs: Files, acts: Seq<Action>, i: int, p: Seq<char>, c: Seq<char>)
    requires
        0 <= i < acts.len(),
        acts[i] == Action::Write(p, c),
        forall|j: int| i < j < acts.len() ==> action_path(#[trigger] acts[j]) != p,
    ensures
        apply_all(fs, acts).contains_key(p),
        apply_all(fs, acts)[p] == c,
    decreases i,
{
    let rest = acts.drop_first();
    if i == 0 {
        assert(!touches(rest, p)) by {
            if touches(rest, p) {
                let j = choose|j: int| 0 <= j < rest.len() && action_path(#[trigger] rest[j]) == p;
                assert(rest[j] == acts[j + 1]);
            }
        }
        lemma_untouched(fs.insert(p, c), rest, p);
    } else {
        assert forall|j: int| i - 1 < j < rest.len() implies action_path(#[trigger] rest[j]) != p by {
            assert(rest[j] == acts[j + 1]);
        }
        assert(rest[i - 1] == acts[i]);
        lemma_last_write(apply_action(fs, acts[0]), rest, i - 1, p, c);
    }
}

/// Round trip: encoding files (path, content) under `root` and decoding the
/// blob gives, in order, one write per file under `root`, at its relative path,
/// with its content followed by the line feed that closes its record. Applied
/// to an empty tree, the writes put that text at each file's relative path
/// (for the last file when several share one). This holds of every file whose
/// relative path is one plain line and whose content has no line that starts
/// with a marker or ends in a carriage return.
pub proof fn lemma_round_trip(root: Seq<char>, files: Seq<(Seq<char>, Seq<char>)>)
    requires
        forall|i: int|
            0 <= i < records_under(root, files).len() ==> record_is_plain(
                #[trigger] records_under(root, files)[i],
            ),
    ensures
        parse_blob(blob_of(records_under(root, files))) == records_under(root, files).map_values(
            |r: (Seq<char>, Seq<char>)| Action::Write(r.0, r.1 + seq!['\n']),
        ),
        forall|i: int|
            0 <= i < records_under(root, files).len() && (forall|j: int|
                i < j < records_under(root, files).len() ==> records_under(root, files)[j].0
                    != records_under(root, files)[i].0) ==> apply_all(
                Map::empty(),
                parse_blob(blob_of(records_under(root, files))),
            )[#[trigger] records_under(root, files)[i].0] == records_under(root, files)[i].1 + seq![
                '\n',
            ] && apply_all(Map::empty(), parse_blob(blob_of(records_under(root, files)))).contains_key(
                records_under(root, files)[i].0,
            ),
{
    let recs = records_under(root, files);
    lemma_parse_blob_of(recs);
    let acts = parse_blob(blob_of(recs));
    assert forall|i: int|
        0 <= i < recs.len() && (forall|j: int| i < j < recs.len() ==> recs[j].0 != recs[i].0) implies apply_all(
        Map::empty(),
        acts,
    )[#[trigger] recs[i].0] == recs[i].1 + seq!['\n'] && apply_all(Map::empty(), acts).contains_key(
        recs[i].0,
    ) by {
        assert(acts[i] == Action::Write(recs[i].0, recs[i].1 + seq!['\n']));
        assert forall|j: int| i < j < acts.len() implies action_path(#[trigger] acts[j]) != recs[i].0 by {
            assert(acts[j] == Action::Write(recs[j].0, recs[j].1 + seq!['\n']));
        }
        lemma_last_write(Map::empty(), acts, i, recs[i].0, recs[i].1 + seq!['\n']);
    }
}

/// The actions of a blob, each with its path resolved under `root_path`, in
/// blob order: what a caller then performs on disk.
pub fn distribution_plan(root_path: &str, clipboard_text: &str) -> (r: Vec<FileAction>)
    ensures
        actions_view(r@) == parse_blob(clipboard_text@).map_values(|a: Action| resolved(root_path@, a)),
{
    let acts = parse_combined_contents(clipboard_text);
    let ghost av = actions_view(acts@);
    let mut out: Vec<FileAction> = Vec::new();
    let mut i: usize = 0;
    while i < acts.len()
        invariant
            i <= acts@.len() == av.len(),
            av == actions_view(acts@),
            actions_view(out@) == av.take(i as int).map_values(|a: Action| resolved(root_path@, a)),
        decreases acts@.len() - i,
    {
        let next = match &acts[i] {
            FileAction::Write(p, c) => FileAction::Write(join_path(root_path, p.as_str()), c.clone()),
            FileAction::Delete(p) => FileAction::Delete(join_path(root_path, p.as_str())),
        };
        proof {
            assert(av[i as int] == acts@[i as int]@);
            assert(next@ == resolved(root_path@, av[i as int]));
            assert(actions_view(out@.push(next)) =~= actions_view(out@).push(next@));
            assert(av.take(i + 1).map_values(|a: Action| resolved(root_path@, a)) =~= av.take(
                i as int,
            ).map_values(|a: Action| resolved(root_path@, a)).push(resolved(root_path@, av[i as int])));
        }
        out.push(next);
        i = i + 1;
    }
    assert(av.take(i as int) =~= av);
    out
}

} // verus!
