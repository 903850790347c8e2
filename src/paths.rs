//! Paths as slash-separated text: relativizing against a root, joining onto a
//! root, and choosing files by extension.
use vstd::prelude::*;

use crate::text::{chars_of, eq_ascii_nocase, eq_ignore_ascii_case, push_all, slice_chars, string_of};

verus! {

/// Position of the first slash in `s`, or its length when there is none.
pub open spec fn slash_index(s: Seq<char>) -> nat
    decreases s.len(),
{
    if s.len() == 0 || s[0] == '/' {
        0
    } else {
        1 + slash_index(s.drop_first())
    }
}

/// A piece between slashes that names something: not empty and not `.`.
pub open spec fn is_normal(p: Seq<char>) -> bool {
    p.len() > 0 && p != seq!['.']
}

/// The named pieces of a path, in order: repeated slashes and `.` pieces add nothing.
pub open spec fn components(s: Seq<char>) -> Seq<Seq<char>>
    decreases s.len(),
{
    if s.len() == 0 {
        seq![]
    } else {
        let k = slash_index(s);
        let rest = if k < s.len() {
            components(s.skip(k + 1 as int))
        } else {
            seq![]
        };
        if is_normal(s.take(k as int)) {
            seq![s.take(k as int)] + rest
        } else {
            rest
        }
    }
}

/// The path starts at the file system root.
pub open spec fn is_rooted(s: Seq<char>) -> bool {
    s.len() > 0 && s[0] == '/'
}

/// The pieces joined with single slashes.
pub open spec fn join_slash(ps: Seq<Seq<char>>) -> Seq<char>
    decreases ps.len(),
{
    if ps.len() == 0 {
        seq![]
    } else if ps.len() == 1 {
        ps[0]
    } else {
        join_slash(ps.drop_last()) + seq!['/'] + ps.last()
    }
}

/// `abs` relative to `base`: the components of `abs` after those of `base`,
/// when both are rooted alike and `base`'s components begin `abs`'s.
pub open spec fn relative_path(abs: Seq<char>, base: Seq<char>) -> Option<Seq<char>> {
    let ca = components(abs);
    let cb = components(base);
    if is_rooted(abs) == is_rooted(base) && cb.is_prefix_of(ca) {
        Some(join_slash(ca.skip(cb.len() as int)))
    } else {
        None
    }
}

/// `rel` resolved under `root`, as `Path::join` does it: a rooted `rel` stands
/// alone, and a slash goes between unless `root` is empty or already ends in one.
pub open spec fn joined(root: Seq<char>, rel: Seq<char>) -> Seq<char> {
    if is_rooted(rel) || root.len() == 0 {
        rel
    } else if root.last() == '/' {
        root + rel
    } else {
        root + seq!['/'] + rel
    }
}

/// Position of the last `.` in `s`, or -1 when there is none.
pub open spec fn last_dot(s: Seq<char>) -> int
    decreases s.len(),
{
    if s.len() == 0 {
        -1
    } else if s.last() == '.' {
        s.len() - 1
    } else {
        last_dot(s.drop_last())
    }
}

/// The last component of a path, unless there is none or it is `..`.
pub open spec fn file_name(path: Seq<char>) -> Option<Seq<char>> {
    let c = components(path);
    if c.len() > 0 && c.last() != seq!['.', '.'] {
        Some(c.last())
    } else {
        None
    }
}

/// What follows the last dot of the file name, where a dot stands after its
/// first character.
pub open spec fn extension(path: Seq<char>) -> Option<Seq<char>> {
    match file_name(path) {
        Some(n) => if last_dot(n) > 0 {
            Some(n.skip(last_dot(n) + 1))
        } else {
            None
        },
        None => None,
    }
}

/// A file is taken when it is a regular file and the allow-list is empty or
/// holds its extension up to ASCII case.
pub open spec fn wanted(path: Seq<char>, is_file: bool, allowed: Seq<Seq<char>>) -> bool {
    is_file && (allowed.len() == 0 || (extension(path) is Some && exists|i: int|
        0 <= i < allowed.len() && eq_ascii_nocase(#[trigger] allowed[i], extension(path)->0)))
}

/// The strings of a vector, as character sequences.
pub open spec fn strings_view(v: Seq<String>) -> Seq<Seq<char>> {
    v.map_values(|s: String| s@)
}

/// The pieces of a vector, as character sequences.
pub open spec fn pieces_view(v: Seq<Vec<char>>) -> Seq<Seq<char>> {
    v.map_values(|s: Vec<char>| s@)
}

/// The paths of the wanted entries, in order.
pub open spec fn selected(entries: Seq<(Seq<char>, bool)>, allowed: Seq<Seq<char>>) -> Seq<Seq<char>>
    decreases entries.len(),
{
    if entries.len() == 0 {
        seq![]
    } else {
        let e = entries.last();
        let rest = selected(entries.drop_last(), allowed);
        if wanted(e.0, e.1, allowed) {
            rest.push(e.0)
        } else {
            rest
        }
    }
}

/// A path is selected exactly when some entry with that path is a regular
/// file and the allow-list is empty or holds its extension up to ASCII case.
pub proof fn lemma_selected_iff(entries: Seq<(Seq<char>, bool)>, allowed: Seq<Seq<char>>, f: Seq<char>)
    ensures
        selected(entries, allowed).contains(f) <==> exists|i: int|
            0 <= i < entries.len() && (#[trigger] entries[i]).0 == f && wanted(
                entries[i].0,
                entries[i].1,
                allowed,
            ),
    decreases entries.len(),
{
    if entries.len() > 0 {
        let init = entries.drop_last();
        let e = entries.last();
        let rest = selected(init, allowed);
        lemma_selected_iff(init, allowed, f);
        if selected(entries, allowed).contains(f) {
            if rest.contains(f) {
                let i = choose|i: int|
                    0 <= i < init.len() && (#[trigger] init[i]).0 == f && wanted(init[i].0, init[i].1, allowed);
                assert(entries[i] == init[i]);
            } else {
                assert(wanted(e.0, e.1, allowed));
                let k = choose|k: int| 0 <= k < rest.push(e.0).len() && rest.push(e.0)[k] == f;
                assert(k == rest.len());
                assert(entries[entries.len() - 1] == e);
            }
        }
        if exists|i: int|
            0 <= i < entries.len() && (#[trigger] entries[i]).0 == f && wanted(entries[i].0, entries[i].1, allowed) {
            let i = choose|i: int|
                0 <= i < entries.len() && (#[trigger] entries[i]).0 == f && wanted(entries[i].0, entries[i].1, allowed);
            if i < init.len() {
                assert(init[i] == entries[i]);
                let k = choose|k: int| 0 <= k < rest.len() && rest[k] == f;
                if wanted(e.0, e.1, allowed) {
                    assert(rest.push(e.0)[k] == f);
                }
            } else {
                assert(rest.push(e.0)[rest.len() as int] == f);
            }
        }
    }
}

pub proof fn lemma_slash_index(s: Seq<char>, k: int)
    requires
        0 <= k <= s.len(),
        forall|j: int| 0 <= j < k ==> s[j] != '/',
        k == s.len() || s[k] == '/',
    ensures
        slash_index(s) == k,
    decreases k,
{
    if k > 0 {
        lemma_slash_index(s.drop_first(), k - 1);
    }
}

fn normal_piece(p: &[char]) -> (r: bool)
    ensures
        r == is_normal(p@),
{
    if p.len() == 0 {
        false
    } else if p.len() == 1 && p[0] == '.' {
        assert(p@ =~= seq!['.']);
        false
    } else {
        assert(p@ != seq!['.']) by {
            if p@.len() == 1 {
                assert(p@[0] != seq!['.'][0]);
            }
        }
        true
    }
}

/// The components of a path.
pub fn split_components(s: &[char]) -> (r: Vec<Vec<char>>)
    ensures
        pieces_view(r@) == components(s@),
{
    let mut r: Vec<Vec<char>> = Vec::new();
    let mut st: usize = 0;
    let mut i: usize = 0;
    assert(s@.skip(0) =~= s@);
    assert(pieces_view(r@) + components(s@) =~= components(s@));
    while i < s.len()
        invariant
            st <= i <= s@.len(),
            forall|j: int| st <= j < i ==> s@[j] != '/',
            components(s@) == pieces_view(r@) + components(s@.skip(st as int)),
        decreases s@.len() - i,
    {
        if s[i] == '/' {
            let piece = slice_chars(s, st, i);
            proof {
                let t = s@.skip(st as int);
                let k = i - st;
                assert forall|j: int| 0 <= j < k implies t[j] != '/' by {
                    assert(t[j] == s@[st + j]);
                }
                lemma_slash_index(t, k);
                assert(t.take(k) =~= piece@);
                assert(t.skip(k + 1) =~= s@.skip(i + 1));
                assert(pieces_view(r@.push(piece)) =~= pieces_view(r@).push(piece@));
            }
            if normal_piece(&piece) {
                r.push(piece);
            }
            st = i + 1;
        }
        i = i + 1;
    }
    if st < s.len() {
        let piece = slice_chars(s, st, s.len());
        proof {
            let t = s@.skip(st as int);
            assert forall|j: int| 0 <= j < t.len() implies t[j] != '/' by {
                assert(t[j] == s@[st + j]);
            }
            lemma_slash_index(t, t.len() as int);
            assert(t.take(t.len() as int) =~= piece@);
            assert(pieces_view(r@.push(piece)) =~= pieces_view(r@).push(piece@));
        }
        if normal_piece(&piece) {
            r.push(piece);
        } else {
            assert(pieces_view(r@) + seq![] =~= pieces_view(r@));
        }
    } else {
        assert(s@.skip(st as int).len() == 0);
        assert(pieces_view(r@) + components(s@.skip(st as int)) =~= pieces_view(r@));
    }
    r
}

fn same_chars(a: &[char], b: &[char]) -> (r: bool)
    ensures
        r == (a@ == b@),
{
    if a.len() != b.len() {
        return false;
    }
    let mut i: usize = 0;
    while i < a.len()
        invariant
            a@.len() == b@.len(),
            i <= a@.len(),
            forall|j: int| 0 <= j < i ==> a@[j] == b@[j],
        decreases a@.len() - i,
    {
        if a[i] != b[i] {
            return false;
        }
        i = i + 1;
    }
    assert(a@ =~= b@);
    true
}

fn rooted(s: &[char]) -> (r: bool)
    ensures
        r == is_rooted(s@),
{
    s.len() > 0 && s[0] == '/'
}

/// The pieces `ps[from..]` joined with single slashes.
fn join_from(ps: &Vec<Vec<char>>, from: usize) -> (r: Vec<char>)
    requires
        from <= ps@.len(),
    ensures
        r@ == join_slash(pieces_view(ps@).skip(from as int)),
{
    let ghost v = pieces_view(ps@);
    let mut out: Vec<char> = Vec::new();
    let mut i: usize = from;
    assert(v.subrange(from as int, from as int) =~= seq![]);
    while i < ps.len()
        invariant
            from <= i <= ps@.len() == v.len(),
            v == pieces_view(ps@),
            out@ == join_slash(v.subrange(from as int, i as int)),
        decreases ps@.len() - i,
    {
        if i > from {
            out.push('/');
        }
        push_all(&mut out, &ps[i]);
        proof {
            let w = v.subrange(from as int, i + 1);
            assert(w.drop_last() =~= v.subrange(from as int, i as int));
            assert(w.last() == ps@[i as int]@);
            if i == from {
                assert(out@ =~= w[0]);
            } else {
                assert(out@ =~= join_slash(w.drop_last()) + seq!['/'] + w.last());
            }
        }
        i = i + 1;
    }
    assert(v.subrange(from as int, i as int) =~= v.skip(from as int));
    out
}

/// `absolute_path` relative to `base_path`, or `None` when `base_path` is not
/// one of its ancestors (or itself).
pub fn make_relative(absolute_path: &str, base_path: &str) -> (r: Option<String>)
    ensures
        match r {
            Some(x) => relative_path(absolute_path@, base_path@) == Some(x@),
            None => relative_path(absolute_path@, base_path@) is None,
        },
{
    let a = chars_of(absolute_path);
    let b = chars_of(base_path);
    if rooted(&a) != rooted(&b) {
        return None;
    }
    let ca = split_components(&a);
    let cb = split_components(&b);
    let ghost va = pieces_view(ca@);
    let ghost vb = pieces_view(cb@);
    if cb.len() > ca.len() {
        return None;
    }
    let mut i: usize = 0;
    while i < cb.len()
        invariant
            cb@.len() <= ca@.len(),
            va == components(absolute_path@),
            vb == components(base_path@),
            is_rooted(absolute_path@) == is_rooted(base_path@),
            va == pieces_view(ca@),
            vb == pieces_view(cb@),
            i <= cb@.len(),
            forall|j: int| 0 <= j < i ==> va[j] == vb[j],
        decreases cb@.len() - i,
    {
        if !same_chars(&ca[i], &cb[i]) {
            proof {
                assert(va.subrange(0, vb.len() as int)[i as int] != vb[i as int]);
            }
            return None;
        }
        i = i + 1;
    }
    assert(va.subrange(0, vb.len() as int) =~= vb);
    let rel = join_from(&ca, cb.len());
    Some(string_of(&rel))
}

/// `relative_path` resolved under `root_path`, as `Path::join` does it.
pub fn join_path(root_path: &str, relative_path: &str) -> (r: String)
    ensures
        r@ == joined(root_path@, relative_path@),
{
    let root = chars_of(root_path);
    let rel = chars_of(relative_path);
    let mut out: Vec<char> = Vec::new();
    if !rooted(&rel) && root.len() > 0 {
        push_all(&mut out, &root);
        if root[root.len() - 1] != '/' {
            out.push('/');
        }
    }
    push_all(&mut out, &rel);
    string_of(&out)
}

/// The extension of a path's file name.
pub fn path_extension(path: &[char]) -> (r: Option<Vec<char>>)
    ensures
        match r {
            Some(x) => extension(path@) == Some(x@),
            None => extension(path@) is None,
        },
{
    let comps = split_components(path);
    let ghost c = pieces_view(comps@);
    if comps.len() == 0 {
        return None;
    }
    let name = &comps[comps.len() - 1];
    assert(name@ == c.last());
    let dots = vec!['.', '.'];
    if same_chars(name, &dots) {
        assert(dots@ =~= seq!['.', '.']);
        return None;
    }
    assert(dots@ =~= seq!['.', '.']);
    let mut j: usize = name.len();
    assert(name@.take(j as int) =~= name@);
    while j > 0 && name[j - 1] != '.'
        invariant
            j <= name@.len(),
            last_dot(name@) == last_dot(name@.take(j as int)),
        decreases j,
    {
        assert(name@.take(j as int).drop_last() =~= name@.take(j - 1));
        j = j - 1;
    }
    if j > 1 {
        assert(name@.take(j as int).last() == name@[j - 1]);
        Some(slice_chars(name, j, name.len()))
    } else {
        proof {
            if j == 1 {
                assert(name@.take(j as int).last() == name@[0]);
            } else {
                assert(name@.take(0).len() == 0);
            }
        }
        None
    }
}

/// Whether an entry is taken: `is_file` says whether `path` is a regular file;
/// an empty allow-list takes every file, else the extension must equal one of
/// its entries up to ASCII case.
pub fn is_valid_file(path: &str, is_file: bool, whitelisted_file_types: &Vec<String>) -> (r: bool)
    ensures
        r == wanted(path@, is_file, strings_view(whitelisted_file_types@)),
{
    let ghost wl = strings_view(whitelisted_file_types@);
    if !is_file {
        return false;
    }
    if whitelisted_file_types.len() == 0 {
        return true;
    }
    let p = chars_of(path);
    match path_extension(&p) {
        None => false,
        Some(ext) => {
            let mut i: usize = 0;
            while i < whitelisted_file_types.len()
                invariant
                    i <= whitelisted_file_types@.len() == wl.len(),
                    wl == strings_view(whitelisted_file_types@),
                    extension(path@) == Some(ext@),
                    is_file,
                    wl.len() > 0,
                    forall|j: int| 0 <= j < i ==> !eq_ascii_nocase(#[trigger] wl[j], ext@),
                decreases whitelisted_file_types@.len() - i,
            {
                let w = chars_of(whitelisted_file_types[i].as_str());
                if eq_ignore_ascii_case(&w, &ext) {
                    assert(wl[i as int] == w@);
                    assert(eq_ascii_nocase(wl[i as int], extension(path@)->0));
                    return true;
                }
                i = i + 1;
            }
            false
        },
    }
}

/// The paths of the entries that `is_valid_file` takes, in the given order.
/// Each entry is a path and whether it is a regular file.
pub fn select_files(entries: &Vec<(String, bool)>, whitelisted_file_types: &Vec<String>) -> (r: Vec<String>)
    ensures
        strings_view(r@) == selected(entries@.map_values(|e: (String, bool)| (e.0@, e.1)), strings_view(whitelisted_file_types@)),
{
    let ghost es = entries@.map_values(|e: (String, bool)| (e.0@, e.1));
    let ghost wl = strings_view(whitelisted_file_types@);
    let mut out: Vec<String> = Vec::new();
    let mut i: usize = 0;
    assert(es.take(0) =~= seq![]);
    while i < entries.len()
        invariant
            i <= entries@.len() == es.len(),
            es == entries@.map_values(|e: (String, bool)| (e.0@, e.1)),
            wl == strings_view(whitelisted_file_types@),
            strings_view(out@) == selected(es.take(i as int), wl),
        decreases entries@.len() - i,
    {
        let e = &entries[i];
        assert(es.take(i + 1).drop_last() =~= es.take(i as int));
        assert(es.take(i + 1).last() == (e.0@, e.1));
        if is_valid_file(e.0.as_str(), e.1, whitelisted_file_types) {
            let p = string_of(&chars_of(e.0.as_str()));
            assert(strings_view(out@.push(p)) =~= strings_view(out@).push(p@));
            out.push(p);
        }
        i = i + 1;
    }
    assert(es.take(i as int) =~= es);
    out
}

} // verus!
