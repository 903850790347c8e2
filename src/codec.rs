//! The blob format: file contents encoded as one text, and a text decoded into
//! write and delete actions.
use vstd::prelude::*;

use crate::paths::{make_relative, relative_path};
use crate::text::{chars_of, has_prefix, lemma_trimmed_last, prefix_at, push_all, slice_chars, string_of, strip_all, trim, trimmed};

verus! {

/// Marker that opens a write record; the rest of its line is the path.
pub const PATH_LINE_IDENTIFIER: &'static str = "=== FILE => ";

/// Marker that opens a delete record; the rest of its line is the path.
pub const DELETED_FILE_IDENTIFIER: &'static str = "=== ERASE => ";

/// The characters of the write marker.
pub open spec fn write_marker() -> Seq<char> {
    seq!['=', '=', '=', ' ', 'F', 'I', 'L', 'E', ' ', '=', '>', ' ']
}

/// The characters of the delete marker.
pub open spec fn erase_marker() -> Seq<char> {
    seq!['=', '=', '=', ' ', 'E', 'R', 'A', 'S', 'E', ' ', '=', '>', ' ']
}

/// One step that a blob asks for, with a path relative to the target root.
#[derive(Debug, PartialEq, Eq)]
pub enum FileAction {
    Write(String, String),
    Delete(String),
}

/// What a `FileAction` holds, as character sequences.
pub enum Action {
    Write(Seq<char>, Seq<char>),
    Delete(Seq<char>),
}

impl View for FileAction {
    type V = Action;

    open spec fn view(&self) -> Action {
        match self {
            FileAction::Write(p, c) => Action::Write(p@, c@),
            FileAction::Delete(p) => Action::Delete(p@),
        }
    }
}

/// The actions of a vector, as character sequences.
pub open spec fn actions_view(v: Seq<FileAction>) -> Seq<Action> {
    v.map_values(|a: FileAction| a@)
}

/// The lines of a vector, as character sequences.
pub open spec fn lines_view(v: Seq<Vec<char>>) -> Seq<Seq<char>> {
    v.map_values(|l: Vec<char>| l@)
}

// ---------------------------------------------------------------------------
// Lines

/// Position of the first line feed in `s`, or its length when there is none.
pub open spec fn nl_index(s: Seq<char>) -> nat
    decreases s.len(),
{
    if s.len() == 0 || s[0] == '\n' {
        0
    } else {
        1 + nl_index(s.drop_first())
    }
}

/// A line without the carriage return that ends it, if any.
pub open spec fn strip_cr(l: Seq<char>) -> Seq<char> {
    if l.len() > 0 && l.last() == '\r' {
        l.drop_last()
    } else {
        l
    }
}

/// The lines of `s` as `str::lines` yields them: split at each line feed, a
/// carriage return before the feed dropped, and no empty line after a final feed.
pub open spec fn lines_of(s: Seq<char>) -> Seq<Seq<char>>
    decreases s.len(),
{
    if s.len() == 0 {
        seq![]
    } else {
        let k = nl_index(s);
        if k >= s.len() {
            seq![s]
        } else {
            seq![strip_cr(s.take(k as int))] + lines_of(s.skip(k + 1 as int))
        }
    }
}

pub proof fn lemma_nl_index(s: Seq<char>, k: int)
    requires
        0 <= k <= s.len(),
        forall|j: int| 0 <= j < k ==> s[j] != '\n',
        k == s.len() || s[k] == '\n',
    ensures
        nl_index(s) == k,
    decreases k,
{
    if k > 0 {
        lemma_nl_index(s.drop_first(), k - 1);
    }
}

// ---------------------------------------------------------------------------
// Records

/// A line that opens a record.
pub open spec fn is_marker(l: Seq<char>) -> bool {
    has_prefix(l, write_marker()) || has_prefix(l, erase_marker())
}

/// How many lines at the start of `m` come before the first marker line.
pub open spec fn content_len(m: Seq<Seq<char>>) -> nat
    decreases m.len(),
{
    if m.len() == 0 || is_marker(m[0]) {
        0
    } else {
        1 + content_len(m.drop_first())
    }
}

/// The lines of `m`, each followed by a line feed.
pub open spec fn join_lines(m: Seq<Seq<char>>) -> Seq<char>
    decreases m.len(),
{
    if m.len() == 0 {
        seq![]
    } else {
        join_lines(m.drop_last()) + m.last() + seq!['\n']
    }
}

/// The path that a marker line names: the line without its marker (however
/// often it repeats) and without surrounding white space.
pub open spec fn record_path(line: Seq<char>, marker: Seq<char>) -> Seq<char> {
    trim(strip_all(line, marker))
}

/// The actions that lines `ls` hold, in order.
pub open spec fn parse_lines(ls: Seq<Seq<char>>) -> Seq<Action>
    decreases ls.len() via parse_lines_decreases
{
    if ls.len() == 0 {
        seq![]
    } else if has_prefix(ls[0], write_marker()) {
        let k = content_len(ls.drop_first()) as int;
        seq![Action::Write(record_path(ls[0], write_marker()), join_lines(ls.subrange(1, 1 + k)))]
            + parse_lines(ls.skip(1 + k))
    } else if has_prefix(ls[0], erase_marker()) {
        seq![Action::Delete(record_path(ls[0], erase_marker()))] + parse_lines(ls.drop_first())
    } else {
        parse_lines(ls.drop_first())
    }
}

#[via_fn]
proof fn parse_lines_decreases(ls: Seq<Seq<char>>) {
    if ls.len() > 0 {
        lemma_content_len_bound(ls.drop_first());
    }
}

/// The actions that a blob holds, in order.
pub open spec fn parse_blob(s: Seq<char>) -> Seq<Action> {
    parse_lines(lines_of(s))
}

pub proof fn lemma_content_len_bound(m: Seq<Seq<char>>)
    ensures
        content_len(m) <= m.len(),
    decreases m.len(),
{
    if m.len() > 0 {
        lemma_content_len_bound(m.drop_first());
    }
}

pub proof fn lemma_content_len(m: Seq<Seq<char>>, k: int)
    requires
        0 <= k <= m.len(),
        forall|j: int| 0 <= j < k ==> !is_marker(#[trigger] m[j]),
        k == m.len() || is_marker(m[k]),
    ensures
        content_len(m) == k,
    decreases k,
{
    if k > 0 {
        assert(!is_marker(m[0]));
        assert forall|j: int| 0 <= j < k - 1 implies !is_marker(#[trigger] m.drop_first()[j]) by {
            assert(m.drop_first()[j] == m[j + 1]);
        }
        lemma_content_len(m.drop_first(), k - 1);
    }
}

// ---------------------------------------------------------------------------
// Executable decoding

fn write_marker_chars() -> (r: Vec<char>)
    ensures
        r@ == write_marker(),
{
    let r = vec!['=', '=', '=', ' ', 'F', 'I', 'L', 'E', ' ', '=', '>', ' '];
    assert(r@ =~= write_marker());
    r
}

fn erase_marker_chars() -> (r: Vec<char>)
    ensures
        r@ == erase_marker(),
{
    let r = vec!['=', '=', '=', ' ', 'E', 'R', 'A', 'S', 'E', ' ', '=', '>', ' '];
    assert(r@ =~= erase_marker());
    r
}

/// Splits `s` into lines as `str::lines` does.
pub fn split_lines(s: &[char]) -> (r: Vec<Vec<char>>)
    ensures
        lines_view(r@) == lines_of(s@),
{
    let mut r: Vec<Vec<char>> = Vec::new();
    let mut st: usize = 0;
    let mut i: usize = 0;
    assert(s@.skip(0) =~= s@);
    assert(lines_view(r@) + lines_of(s@) =~= lines_of(s@));
    while i < s.len()
        invariant
            st <= i <= s@.len(),
            forall|j: int| st <= j < i ==> s@[j] != '\n',
            lines_of(s@) == lines_view(r@) + lines_of(s@.skip(st as int)),
        decreases s@.len() - i,
    {
        if s[i] == '\n' {
            let mut hi: usize = i;
            if hi > st && s[hi - 1] == '\r' {
                hi = hi - 1;
            }
            let line = slice_chars(s, st, hi);
            proof {
                let t = s@.skip(st as int);
                let k = i - st;
                assert forall|j: int| 0 <= j < k implies t[j] != '\n' by {
                    assert(t[j] == s@[st + j]);
                }
                lemma_nl_index(t, k);
                assert(t.take(k) =~= s@.subrange(st as int, i as int));
                assert(t.skip(k + 1) =~= s@.skip(i + 1));
                assert(strip_cr(t.take(k)) =~= line@);
                assert(lines_view(r@.push(line)) =~= lines_view(r@).push(line@));
            }
            r.push(line);
            st = i + 1;
        }
        i = i + 1;
    }
    if st < s.len() {
        let line = slice_chars(s, st, s.len());
        proof {
            let t = s@.skip(st as int);
            assert forall|j: int| 0 <= j < t.len() implies t[j] != '\n' by {
                assert(t[j] == s@[st + j]);
            }
            lemma_nl_index(t, t.len() as int);
            assert(t =~= line@);
            assert(lines_view(r@.push(line)) =~= lines_view(r@).push(line@));
        }
        r.push(line);
    } else {
        assert(s@.skip(st as int).len() == 0);
        assert(lines_view(r@) + lines_of(s@.skip(st as int)) =~= lines_view(r@));
    }
    r
}

/// Whether `l` opens a record.
fn marker_line(l: &[char], wm: &[char], em: &[char]) -> (r: bool)
    requires
        wm@ == write_marker(),
        em@ == erase_marker(),
    ensures
        r == is_marker(l@),
{
    assert(l@.skip(0) =~= l@);
    prefix_at(l, 0, wm) || prefix_at(l, 0, em)
}

/// The path named by a marker line.
fn path_after(line: &[char], marker: &[char]) -> (r: Vec<char>)
    requires
        marker@.len() > 0,
    ensures
        r@ == record_path(line@, marker@),
{
    let len = line.len();
    let mut a: usize = 0;
    assert(line@.skip(0) =~= line@);
    while prefix_at(line, a, marker)
        invariant
            a <= line@.len() == len,
            marker@.len() > 0,
            strip_all(line@, marker@) == strip_all(line@.skip(a as int), marker@),
        decreases line@.len() - a,
    {
        assert(marker@.len() <= line@.skip(a as int).len());
        assert(line@.skip(a as int).skip(marker@.len() as int) =~= line@.skip(
            a + marker@.len(),
        ));
        a = a + marker.len();
    }
    assert(line@.subrange(a as int, line@.len() as int) =~= line@.skip(a as int));
    trimmed(line, a, line.len())
}

/// Decodes lines into the actions they hold.
fn parse_line_seq(lines: &Vec<Vec<char>>) -> (r: Vec<FileAction>)
    ensures
        actions_view(r@) == parse_lines(lines_view(lines@)),
{
    let ghost ls = lines_view(lines@);
    let wm = write_marker_chars();
    let em = erase_marker_chars();
    let n = lines.len();
    let mut out: Vec<FileAction> = Vec::new();
    let mut i: usize = 0;
    assert(ls.skip(0) =~= ls);
    while i < n
        invariant
            n == lines@.len() == ls.len(),
            ls == lines_view(lines@),
            i <= n,
            wm@ == write_marker(),
            em@ == erase_marker(),
            parse_lines(ls) == actions_view(out@) + parse_lines(ls.skip(i as int)),
        decreases n - i,
    {
        let line = &lines[i];
        assert(line@ == ls[i as int]);
        assert(line@.skip(0) =~= line@);
        assert(ls.skip(i as int)[0] == ls[i as int]);
        if prefix_at(line, 0, &wm) {
            let path = path_after(line, &wm);
            let mut content: Vec<char> = Vec::new();
            let mut j: usize = i + 1;
            assert(ls.subrange(i + 1, j as int) =~= seq![]);
            while j < n && !marker_line(&lines[j], &wm, &em)
                invariant
                    n == lines@.len() == ls.len(),
                    ls == lines_view(lines@),
                    i < j <= n,
                    wm@ == write_marker(),
                    em@ == erase_marker(),
                    content@ == join_lines(ls.subrange(i + 1, j as int)),
                    forall|t: int| i + 1 <= t < j ==> !is_marker(#[trigger] ls[t]),
                decreases n - j,
            {
                assert(lines@[j as int]@ == ls[j as int]);
                push_all(&mut content, &lines[j]);
                content.push('\n');
                proof {
                    let m = ls.subrange(i + 1, j + 1);
                    assert(m.drop_last() =~= ls.subrange(i + 1, j as int));
                    assert(m.last() == ls[j as int]);
                }
                j = j + 1;
            }
            proof {
                let rest = ls.skip(i as int);
                let m = rest.drop_first();
                let k = j - i - 1;
                assert forall|t: int| 0 <= t < k implies !is_marker(#[trigger] m[t]) by {
                    assert(m[t] == ls[i + 1 + t]);
                }
                if j < n {
                    assert(m[k] == ls[j as int]);
                }
                lemma_content_len(m, k);
                assert(rest.subrange(1, 1 + k) =~= ls.subrange(i + 1, j as int));
                assert(rest.skip(1 + k) =~= ls.skip(j as int));
            }
            let act = FileAction::Write(string_of(&path), string_of(&content));
            proof {
                assert(actions_view(out@.push(act)) =~= actions_view(out@).push(act@));
            }
            out.push(act);
            i = j;
        } else if prefix_at(line, 0, &em) {
            let path = path_after(line, &em);
            let act = FileAction::Delete(string_of(&path));
            proof {
                assert(ls.skip(i as int).drop_first() =~= ls.skip(i + 1));
                assert(actions_view(out@.push(act)) =~= actions_view(out@).push(act@));
            }
            out.push(act);
            i = i + 1;
        } else {
            assert(ls.skip(i as int).drop_first() =~= ls.skip(i + 1));
            i = i + 1;
        }
    }
    assert(ls.skip(n as int) =~= seq![]);
    assert(actions_view(out@) + parse_lines(ls.skip(n as int)) =~= actions_view(out@));
    out
}

// ---------------------------------------------------------------------------
// Encoding

/// One write record: the marker line naming `rel`, the content, and one more line feed.
pub open spec fn record_of(rel: Seq<char>, content: Seq<char>) -> Seq<char> {
    write_marker() + rel + seq!['\n'] + content + seq!['\n']
}

/// The records of `recs` (relative path, content), concatenated in order.
pub open spec fn blob_of(recs: Seq<(Seq<char>, Seq<char>)>) -> Seq<char>
    decreases recs.len(),
{
    if recs.len() == 0 {
        seq![]
    } else {
        record_of(recs[0].0, recs[0].1) + blob_of(recs.drop_first())
    }
}

/// The files (path, content) that lie under `root`, each with its path made
/// relative to `root`, in order; the others are left out.
pub open spec fn records_under(root: Seq<char>, files: Seq<(Seq<char>, Seq<char>)>) -> Seq<(Seq<char>, Seq<char>)>
    decreases files.len(),
{
    if files.len() == 0 {
        seq![]
    } else {
        let rest = records_under(root, files.drop_last());
        match relative_path(files.last().0, root) {
            Some(rel) => rest.push((rel, files.last().1)),
            None => rest,
        }
    }
}

/// The (path, content) pairs of a vector, as character sequences.
pub open spec fn files_view(v: Seq<(String, String)>) -> Seq<(Seq<char>, Seq<char>)> {
    v.map_values(|f: (String, String)| (f.0@, f.1@))
}

pub proof fn lemma_blob_push(recs: Seq<(Seq<char>, Seq<char>)>, r: (Seq<char>, Seq<char>))
    ensures
        blob_of(recs.push(r)) == blob_of(recs) + record_of(r.0, r.1),
    decreases recs.len(),
{
    if recs.len() == 0 {
        assert(recs.push(r).drop_first() =~= seq![]);
        assert(recs.push(r)[0] == r);
        assert(blob_of(recs.push(r).drop_first()) =~= seq![]);
        assert(blob_of(recs.push(r)) =~= blob_of(recs) + record_of(r.0, r.1));
    } else {
        assert(recs.push(r).drop_first() =~= recs.drop_first().push(r));
        lemma_blob_push(recs.drop_first(), r);
        assert(recs.push(r)[0] == recs[0]);
        let h = record_of(recs[0].0, recs[0].1);
        assert(blob_of(recs.push(r)) == h + blob_of(recs.drop_first().push(r)));
        assert(blob_of(recs) == h + blob_of(recs.drop_first()));
        assert(blob_of(recs.push(r)) =~= blob_of(recs) + record_of(r.0, r.1));
    }
}

/// Encodes files into one blob. Each entry of `files` is a path and the
/// content read from it; an entry whose path does not lie under `root_path`
/// is left out, every other one becomes a write record naming its path
/// relative to `root_path`.
pub fn combine_file_contents(root_path: &str, files: &Vec<(String, String)>) -> (r: String)
    ensures
        r@ == blob_of(records_under(root_path@, files_view(files@))),
{
    let ghost fv = files_view(files@);
    let wm = write_marker_chars();
    let mut out: Vec<char> = Vec::new();
    let mut i: usize = 0;
    assert(fv.take(0) =~= seq![]);
    while i < files.len()
        invariant
            i <= files@.len() == fv.len(),
            fv == files_view(files@),
            wm@ == write_marker(),
            out@ == blob_of(records_under(root_path@, fv.take(i as int))),
        decreases files@.len() - i,
    {
        let f = &files[i];
        assert(fv.take(i + 1).drop_last() =~= fv.take(i as int));
        assert(fv.take(i + 1).last() == (f.0@, f.1@));
        match make_relative(f.0.as_str(), root_path) {
            Some(rel) => {
                let ghost before = out@;
                push_all(&mut out, &wm);
                push_all(&mut out, &chars_of(rel.as_str()));
                out.push('\n');
                push_all(&mut out, &chars_of(f.1.as_str()));
                out.push('\n');
                proof {
                    lemma_blob_push(records_under(root_path@, fv.take(i as int)), (rel@, f.1@));
                    assert(out@ =~= before + record_of(rel@, f.1@));
                }
            },
            None => {},
        }
        i = i + 1;
    }
    assert(fv.take(i as int) =~= fv);
    string_of(&out)
}

// ---------------------------------------------------------------------------
// Decoding an encoded blob

/// No carriage return stands right before a line feed.
pub open spec fn no_cr_before_nl(s: Seq<char>) -> bool {
    forall|i: int| 0 < i < s.len() && #[trigger] s[i] == '\n' ==> s[i - 1] != '\r'
}

/// A relative path that a marker line carries unchanged: one line, without
/// surrounding white space, not itself starting with the write marker.
pub open spec fn path_is_plain(rel: Seq<char>) -> bool {
    &&& forall|j: int| 0 <= j < rel.len() ==> rel[j] != '\n'
    &&& trim(rel) == rel
    &&& !has_prefix(rel, write_marker())
}

/// A record (relative path, content) that decodes to what was encoded.
pub open spec fn record_is_plain(r: (Seq<char>, Seq<char>)) -> bool {
    path_is_plain(r.0) && content_is_plain(r.1)
}

/// Content whose record decodes to it (plus the record's closing line feed):
/// no line of it starts with a marker, and no line ends in a carriage return.
pub open spec fn content_is_plain(c: Seq<char>) -> bool {
    let s = c + seq!['\n'];
    &&& no_cr_before_nl(s)
    &&& forall|i: int| 0 <= i < lines_of(s).len() ==> !is_marker(#[trigger] lines_of(s)[i])
}

pub proof fn lemma_nl_index_props(s: Seq<char>)
    ensures
        nl_index(s) <= s.len(),
        forall|j: int| 0 <= j < nl_index(s) ==> s[j] != '\n',
        nl_index(s) < s.len() ==> s[nl_index(s) as int] == '\n',
    decreases s.len(),
{
    if s.len() > 0 && s[0] != '\n' {
        lemma_nl_index_props(s.drop_first());
        assert forall|j: int| 0 <= j < nl_index(s) implies s[j] != '\n' by {
            if j > 0 {
                assert(s[j] == s.drop_first()[j - 1]);
            }
        }
    }
}

/// The lines of a text that ends a line, followed by more text, are its
/// lines followed by those of the rest.
pub proof fn lemma_lines_concat(x: Seq<char>, y: Seq<char>)
    requires
        x.len() == 0 || x.last() == '\n',
    ensures
        lines_of(x + y) == lines_of(x) + lines_of(y),
    decreases x.len(),
{
    if x.len() == 0 {
        assert(x + y =~= y);
        assert(lines_of(x) + lines_of(y) =~= lines_of(y));
    } else {
        let k = nl_index(x);
        lemma_nl_index_props(x);
        if k >= x.len() {
            assert(x[x.len() - 1] != '\n');
        }
        assert(k < x.len());
        let s = x + y;
        assert forall|j: int| 0 <= j < k implies s[j] != '\n' by {
            assert(s[j] == x[j]);
        }
        lemma_nl_index(s, k as int);
        assert(s.take(k as int) =~= x.take(k as int));
        let x2 = x.skip(k + 1 as int);
        assert(s.skip(k + 1 as int) =~= x2 + y);
        if x2.len() > 0 {
            assert(x2.last() == x.last());
        }
        lemma_lines_concat(x2, y);
        assert(lines_of(s) =~= lines_of(x) + lines_of(y));
    }
}

/// A single line followed by a line feed.
pub proof fn lemma_lines_single(l: Seq<char>)
    requires
        forall|j: int| 0 <= j < l.len() ==> l[j] != '\n',
        l.len() == 0 || l.last() != '\r',
    ensures
        lines_of(l + seq!['\n']) == seq![l],
{
    let s = l + seq!['\n'];
    assert forall|j: int| 0 <= j < l.len() implies s[j] != '\n' by {
        assert(s[j] == l[j]);
    }
    lemma_nl_index(s, l.len() as int);
    assert(s.take(l.len() as int) =~= l);
    assert(s.skip(l.len() + 1 as int) =~= Seq::<char>::empty());
    assert(lines_of(Seq::<char>::empty()) == Seq::<Seq<char>>::empty());
    assert(strip_cr(l) == l);
    assert(lines_of(s) =~= seq![l]);
}

pub proof fn lemma_join_lines_cons(a: Seq<char>, m: Seq<Seq<char>>)
    ensures
        join_lines(seq![a] + m) == a + seq!['\n'] + join_lines(m),
    decreases m.len(),
{
    let w = seq![a] + m;
    if m.len() == 0 {
        assert(w =~= seq![a]);
        assert(w.drop_last() =~= Seq::<Seq<char>>::empty());
        assert(w.last() == a);
        assert(join_lines(Seq::<Seq<char>>::empty()) == Seq::<char>::empty());
        assert(join_lines(w) =~= a + seq!['\n'] + join_lines(m));
    } else {
        assert(w.drop_last() =~= seq![a] + m.drop_last());
        assert(w.last() == m.last());
        lemma_join_lines_cons(a, m.drop_last());
        assert(join_lines(w) =~= a + seq!['\n'] + join_lines(m));
    }
}

/// Text that ends a line, with no carriage return before a line feed, is its
/// lines joined back.
pub proof fn lemma_join_lines_of(s: Seq<char>)
    requires
        s.len() == 0 || s.last() == '\n',
        no_cr_before_nl(s),
    ensures
        join_lines(lines_of(s)) == s,
    decreases s.len(),
{
    if s.len() > 0 {
        let k = nl_index(s);
        lemma_nl_index_props(s);
        if k >= s.len() {
            assert(s[s.len() - 1] != '\n');
        }
        let head = s.take(k as int);
        let rest = s.skip(k + 1 as int);
        if k > 0 {
            assert(head.last() == s[k - 1]);
        }
        assert(strip_cr(head) == head);
        assert forall|i: int| 0 < i < rest.len() && #[trigger] rest[i] == '\n' implies rest[i - 1] != '\r' by {
            assert(rest[i] == s[k + 1 + i]);
            assert(rest[i - 1] == s[k + i]);
        }
        if rest.len() > 0 {
            assert(rest.last() == s.last());
        }
        lemma_join_lines_of(rest);
        lemma_join_lines_cons(head, lines_of(rest));
        assert(lines_of(s) == seq![head] + lines_of(rest));
        assert(head + seq!['\n'] + rest =~= s);
    }
}

/// A plain path comes back unchanged from its marker line, and that line
/// neither holds a line feed nor ends in a carriage return.
pub proof fn lemma_marker_line(rel: Seq<char>)
    requires
        path_is_plain(rel),
    ensures
        record_path(write_marker() + rel, write_marker()) == rel,
        forall|j: int| 0 <= j < (write_marker() + rel).len() ==> (write_marker() + rel)[j] != '\n',
        (write_marker() + rel).last() != '\r',
{
    let wm = write_marker();
    let line = wm + rel;
    assert(line.take(wm.len() as int) =~= wm);
    assert(line.skip(wm.len() as int) =~= rel);
    assert(has_prefix(line, wm));
    assert(strip_all(line, wm) == strip_all(line.skip(wm.len() as int), wm));
    assert(strip_all(rel, wm) == rel);
    assert forall|j: int| 0 <= j < line.len() implies line[j] != '\n' by {
        if j >= wm.len() {
            assert(line[j] == rel[j - wm.len()]);
        }
    }
    if rel.len() > 0 {
        lemma_trimmed_last(rel);
        assert(line.last() == rel.last());
    }
}

/// The lines of an encoded blob: each record gives its marker line, then the
/// lines of its content and closing line feed.
pub proof fn lemma_blob_lines(recs: Seq<(Seq<char>, Seq<char>)>)
    requires
        recs.len() > 0,
        path_is_plain(recs[0].0),
    ensures
        lines_of(blob_of(recs)) == seq![write_marker() + recs[0].0] + lines_of(recs[0].1 + seq!['\n'])
            + lines_of(blob_of(recs.drop_first())),
{
    let rel = recs[0].0;
    let h = write_marker() + rel + seq!['\n'];
    let cc = recs[0].1 + seq!['\n'];
    let b = blob_of(recs.drop_first());
    assert(blob_of(recs) =~= h + (cc + b));
    lemma_marker_line(rel);
    lemma_lines_concat(h, cc + b);
    lemma_lines_concat(cc, b);
    lemma_lines_single(write_marker() + rel);
}

/// Decoding an encoded blob gives one write per record, in order, each
/// holding the record's content and the line feed that closes it.
pub proof fn lemma_parse_blob_of(recs: Seq<(Seq<char>, Seq<char>)>)
    requires
        forall|i: int| 0 <= i < recs.len() ==> record_is_plain(#[trigger] recs[i]),
    ensures
        parse_blob(blob_of(recs)) == recs.map_values(
            |r: (Seq<char>, Seq<char>)| Action::Write(r.0, r.1 + seq!['\n']),
        ),
    decreases recs.len(),
{
    let f = |r: (Seq<char>, Seq<char>)| Action::Write(r.0, r.1 + seq!['\n']);
    if recs.len() == 0 {
        assert(lines_of(blob_of(recs)) =~= seq![]);
        assert(recs.map_values(f) =~= seq![]);
    } else {
        let rest = recs.drop_first();
        assert forall|i: int| 0 <= i < rest.len() implies record_is_plain(#[trigger] rest[i]) by {
            assert(rest[i] == recs[i + 1]);
        }
        assert(record_is_plain(recs[0]));
        lemma_blob_lines(recs);
        let wm = write_marker();
        let first = wm + recs[0].0;
        let cc = recs[0].1 + seq!['\n'];
        let lc = lines_of(cc);
        let lb = lines_of(blob_of(rest));
        let ls = seq![first] + lc + lb;
        assert(ls[0] == first);
        assert(first.take(wm.len() as int) =~= wm);
        let m = ls.drop_first();
        assert(m =~= lc + lb);
        assert forall|j: int| 0 <= j < lc.len() implies !is_marker(#[trigger] m[j]) by {
            assert(m[j] == lc[j]);
        }
        if rest.len() > 0 {
            lemma_blob_lines(rest);
            assert(m[lc.len() as int] == lb[0]);
            assert(lb[0] == wm + rest[0].0);
            assert((wm + rest[0].0).take(wm.len() as int) =~= wm);
        } else {
            assert(blob_of(rest) =~= seq![]);
            assert(lb =~= seq![]);
        }
        lemma_content_len(m, lc.len() as int);
        assert(ls.subrange(1, 1 + lc.len() as int) =~= lc);
        assert(ls.skip(1 + lc.len() as int) =~= lb);
        lemma_marker_line(recs[0].0);
        lemma_join_lines_of(cc);
        lemma_parse_blob_of(rest);
        assert(recs.map_values(f) =~= seq![f(recs[0])] + rest.map_values(f));
        assert(parse_blob(blob_of(recs)) =~= recs.map_values(f));
    }
}

/// Decodes a blob into the actions it holds, in blob order.
pub fn parse_combined_contents(clipboard_text: &str) -> (r: Vec<FileAction>)
    ensures
        actions_view(r@) == parse_blob(clipboard_text@),
{
    let chars = chars_of(clipboard_text);
    let lines = split_lines(&chars);
    parse_line_seq(&lines)
}

} // verus!
