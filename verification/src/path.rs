//! `/`-separated paths on the SD card, relative to a current directory.

use crate::text;
use crate::text::{chars_of, find_char, same_text, string_of};
use vstd::prelude::*;

verus! {

/// What one part of a path does to the directories it goes through.
pub open spec fn stepped(at: Seq<Seq<char>>, part: Seq<char>) -> Seq<Seq<char>> {
    if part == ""@ || part == "."@ {
        at
    } else if part == ".."@ {
        if at.len() > 0 {
            at.drop_last()
        } else {
            at
        }
    } else {
        at.push(part)
    }
}

/// Where the parts of a path lead to, one after the other.
pub open spec fn walked(at: Seq<Seq<char>>, parts: Seq<Seq<char>>) -> Seq<Seq<char>>
    decreases parts.len(),
{
    if parts.len() == 0 {
        at
    } else {
        walked(stepped(at, parts[0]), parts.drop_first())
    }
}

/// Each part with a `/` before it.
pub open spec fn joined(parts: Seq<Seq<char>>) -> Seq<char>
    decreases parts.len(),
{
    if parts.len() == 0 {
        Seq::empty()
    } else {
        joined(parts.drop_last()) + seq!['/'] + parts.last()
    }
}

/// The absolute path of a directory.
pub open spec fn absolute(parts: Seq<Seq<char>>) -> Seq<char> {
    if joined(parts).len() == 0 {
        seq!['/']
    } else {
        joined(parts)
    }
}

/// The directories that `path` goes through from `cwd`.
pub open spec fn resolved_parts(cwd: Seq<char>, path: Seq<char>) -> Seq<Seq<char>> {
    let start = if path.len() > 0 && path[0] == '/' {
        Seq::empty()
    } else {
        cwd
    };
    walked(
        walked(Seq::empty(), text::pieces_from(start, 0, '/')),
        text::pieces_from(path, 0, '/'),
    )
}

pub open spec fn resolved(cwd: Seq<char>, path: Seq<char>) -> Seq<char> {
    absolute(resolved_parts(cwd, path))
}

spec fn views(parts: Seq<Vec<char>>) -> Seq<Seq<char>> {
    Seq::new(parts.len(), |i: int| parts[i]@)
}

/// Goes through the parts of `path`.
fn walk(parts: &mut Vec<Vec<char>>, path: &Vec<char>)
    ensures
        views(final(parts)@) == walked(views(old(parts)@), text::pieces_from(path@, 0, '/')),
{
    let mut from: usize = 0;
    let ghost goal = walked(views(parts@), text::pieces_from(path@, 0, '/'));
    loop
        invariant_except_break
            from <= path@.len(),
            walked(views(parts@), text::pieces_from(path@, from as int, '/')) == goal,
        ensures
            views(parts@) == goal,
        decreases path@.len() - from,
    {
        let at = find_char(path, from, '/');
        let slice: &[char] = path;
        let part = &slice[from..at];
        let ghost before = views(parts@);
        let ghost rest = text::pieces_from(path@, from as int, '/');
        proof {
            assert(rest[0] =~= part@);
            if at < path@.len() {
                assert(rest.drop_first() =~= text::pieces_from(path@, at + 1, '/'));
            } else {
                assert(rest.drop_first() =~= Seq::<Seq<char>>::empty());
            }
        }
        let name = string_of(part);
        if same_text(name.as_str(), "") || same_text(name.as_str(), ".") {
        } else if same_text(name.as_str(), "..") {
            if parts.len() > 0 {
                parts.pop();
                assert(views(parts@) =~= before.drop_last());
            }
        } else {
            parts.push(vstd::slice::slice_to_vec(part));
            assert(views(parts@) =~= before.push(part@));
        }
        assert(views(parts@) == stepped(before, rest[0]));
        if at == path.len() {
            assert(walked(views(parts@), Seq::<Seq<char>>::empty()) == views(parts@));
            break;
        }
        from = at + 1;
    }
}

/// `path` as an absolute path with no `.`, `..` or empty parts: from the root if it starts
/// with `/`, else from `cwd` (itself absolute). `..` at the root stays there.
pub fn resolve(cwd: &str, path: &str) -> (r: String)
    ensures
        r@ == resolved(cwd@, path@),
{
    let chars = chars_of(path);
    let start = if chars.len() > 0 && chars[0] == '/' {
        Vec::new()
    } else {
        chars_of(cwd)
    };
    let mut parts: Vec<Vec<char>> = Vec::new();
    assert(views(parts@) =~= Seq::<Seq<char>>::empty());
    walk(&mut parts, &start);
    walk(&mut parts, &chars);
    let ghost model = views(parts@);
    let mut out: Vec<char> = Vec::new();
    let mut i: usize = 0;
    assert(model.subrange(0, 0) =~= Seq::<Seq<char>>::empty());
    while i < parts.len()
        invariant
            i <= parts@.len(),
            model == views(parts@),
            out@ == joined(model.subrange(0, i as int)),
        decreases parts@.len() - i,
    {
        out.push('/');
        out.extend_from_slice(&parts[i]);
        i += 1;
        proof {
            let done = model.subrange(0, i as int);
            assert(done.drop_last() =~= model.subrange(0, i - 1));
            assert(out@ =~= joined(done));
        }
    }
    assert(model.subrange(0, i as int) =~= model);
    if out.len() == 0 {
        out.push('/');
        assert(out@ =~= seq!['/']);
    }
    string_of(&out)
}

/// A name that can be part of an absolute path.
pub open spec fn is_name(part: Seq<char>) -> bool {
    &&& part != ""@
    &&& part != "."@
    &&& part != ".."@
    &&& forall|i: int| 0 <= i < part.len() ==> #[trigger] part[i] != '/'
}

pub open spec fn all_names(parts: Seq<Seq<char>>) -> bool {
    forall|i: int| 0 <= i < parts.len() ==> is_name(#[trigger] parts[i])
}

proof fn lemma_pieces_have_no_slash(s: Seq<char>, from: int)
    requires
        0 <= from <= s.len(),
    ensures
        forall|k: int, i: int|
            0 <= k < text::pieces_from(s, from, '/').len() && 0 <= i < text::pieces_from(
                s,
                from,
                '/',
            )[k].len() ==> #[trigger] text::pieces_from(s, from, '/')[k][i] != '/',
    decreases s.len() - from,
{
    text::lemma_found(s, from, '/');
    let at = text::find_from(s, from, '/');
    let pieces = text::pieces_from(s, from, '/');
    if at < s.len() {
        lemma_pieces_have_no_slash(s, at + 1);
        assert forall|k: int, i: int|
            0 <= k < pieces.len() && 0 <= i < pieces[k].len() implies #[trigger] pieces[k][i]
            != '/' by {
            if k > 0 {
                assert(pieces[k] == text::pieces_from(s, at + 1, '/')[k - 1]);
            } else {
                assert(pieces[0][i] == s[from + i]);
            }
        }
    } else {
        assert forall|k: int, i: int|
            0 <= k < pieces.len() && 0 <= i < pieces[k].len() implies #[trigger] pieces[k][i]
            != '/' by {
            assert(pieces[k][i] == s[from + i]);
        }
    }
}

proof fn lemma_walk_keeps_names(at: Seq<Seq<char>>, parts: Seq<Seq<char>>)
    requires
        all_names(at),
        forall|k: int, i: int|
            0 <= k < parts.len() && 0 <= i < parts[k].len() ==> #[trigger] parts[k][i] != '/',
    ensures
        all_names(walked(at, parts)),
    decreases parts.len(),
{
    if parts.len() > 0 {
        let rest = parts.drop_first();
        assert forall|k: int, i: int|
            0 <= k < rest.len() && 0 <= i < rest[k].len() implies #[trigger] rest[k][i] != '/' by {
            assert(rest[k] == parts[k + 1]);
            assert(parts[k + 1][i] != '/');
        }
        assert forall|i: int| 0 <= i < parts[0].len() implies #[trigger] parts[0][i] != '/' by {}
        lemma_walk_keeps_names(stepped(at, parts[0]), rest);
    }
}

/// A resolved path has no `.`, `..` or empty parts.
pub proof fn resolved_paths_are_normal(cwd: Seq<char>, path: Seq<char>)
    ensures
        all_names(resolved_parts(cwd, path)),
{
    let start = if path.len() > 0 && path[0] == '/' {
        Seq::empty()
    } else {
        cwd
    };
    lemma_pieces_have_no_slash(start, 0);
    lemma_pieces_have_no_slash(path, 0);
    lemma_walk_keeps_names(Seq::empty(), text::pieces_from(start, 0, '/'));
    lemma_walk_keeps_names(
        walked(Seq::empty(), text::pieces_from(start, 0, '/')),
        text::pieces_from(path, 0, '/'),
    );
}

/// Walking names one by one leads through all of them.
proof fn lemma_walk_names(at: Seq<Seq<char>>, parts: Seq<Seq<char>>)
    requires
        all_names(parts),
    ensures
        walked(at, parts) == at + parts,
    decreases parts.len(),
{
    if parts.len() == 0 {
        assert(at + parts =~= at);
    } else {
        assert(is_name(parts[0]));
        assert forall|i: int| 0 <= i < parts.drop_first().len() implies is_name(
            #[trigger] parts.drop_first()[i],
        ) by {
            assert(is_name(parts[i + 1]));
        }
        lemma_walk_names(at.push(parts[0]), parts.drop_first());
        assert(at.push(parts[0]) + parts.drop_first() =~= at + parts);
    }
}

/// The pieces of a joined path are its parts, after an empty one.
proof fn lemma_pieces_of_joined(parts: Seq<Seq<char>>, done: int, from: int)
    requires
        all_names(parts),
        0 < done <= parts.len(),
        from == joined(parts.subrange(0, done)).len() - parts[done - 1].len(),
    ensures
        0 <= from <= joined(parts).len(),
        text::pieces_from(joined(parts), from, '/') == parts.subrange(
            done - 1,
            parts.len() as int,
        ),
    decreases parts.len() - done,
{
    let whole = joined(parts);
    let so_far = joined(parts.subrange(0, done));
    let part = parts[done - 1];
    assert(is_name(part));
    lemma_joined_prefix(parts, done);
    assert(parts.subrange(0, done).last() == part);
    assert(so_far =~= joined(parts.subrange(0, done).drop_last()) + seq!['/'] + part);
    assert forall|i: int| from <= i < from + part.len() implies whole[i] == part[i - from] by {
        assert(whole[i] == so_far[i]);
    }
    let end = from + part.len();
    if done == parts.len() {
        assert(parts.subrange(0, done) =~= parts);
        text::lemma_find_unique(whole, from, '/', end);
        assert(whole.subrange(from, whole.len() as int) =~= part);
        assert(text::pieces_from(whole, from, '/') =~= seq![part]);
        assert(parts.subrange(done - 1, parts.len() as int) =~= seq![part]);
    } else {
        let next = joined(parts.subrange(0, done + 1));
        lemma_joined_prefix(parts, done + 1);
        assert(parts.subrange(0, done + 1).drop_last() =~= parts.subrange(0, done));
        assert(parts.subrange(0, done + 1).last() == parts[done]);
        assert(next =~= so_far + seq!['/'] + parts[done]);
        assert(whole[end] == next[end]);
        assert(whole[end] == '/');
        text::lemma_find_unique(whole, from, '/', end);
        lemma_pieces_of_joined(parts, done + 1, end + 1);
        assert(whole.subrange(from, end) =~= part);
        assert(text::pieces_from(whole, from, '/') =~= seq![part] + parts.subrange(
            done,
            parts.len() as int,
        ));
        assert(parts.subrange(done - 1, parts.len() as int) =~= seq![part] + parts.subrange(
            done,
            parts.len() as int,
        ));
    }
}

proof fn lemma_joined_prefix(parts: Seq<Seq<char>>, n: int)
    requires
        0 <= n <= parts.len(),
    ensures
        joined(parts.subrange(0, n)).len() <= joined(parts).len(),
        joined(parts).subrange(0, joined(parts.subrange(0, n)).len() as int) == joined(
            parts.subrange(0, n),
        ),
        forall|i: int|
            0 <= i < joined(parts.subrange(0, n)).len() ==> #[trigger] joined(
                parts.subrange(0, n),
            )[i] == joined(parts)[i],
    decreases parts.len(),
{
    let part = joined(parts.subrange(0, n));
    if n == parts.len() {
        assert(parts.subrange(0, n) =~= parts);
        assert(joined(parts).subrange(0, part.len() as int) =~= part);
    } else {
        let before = parts.drop_last();
        assert(before.subrange(0, n) =~= parts.subrange(0, n));
        lemma_joined_prefix(before, n);
        assert(joined(parts).subrange(0, part.len() as int) =~= part);
    }
}

/// Going through an absolute path from the root leads through its parts.
proof fn lemma_absolute(parts: Seq<Seq<char>>)
    requires
        all_names(parts),
    ensures
        walked(Seq::empty(), text::pieces_from(absolute(parts), 0, '/')) == parts,
        absolute(parts).len() > 0,
        absolute(parts)[0] == '/',
        walked(Seq::empty(), text::pieces_from(Seq::empty(), 0, '/')) == Seq::<Seq<char>>::empty(),
{
    let whole = absolute(parts);
    let root = Seq::<char>::empty();
    reveal_strlit("");
    // The root's only piece is empty.
    text::lemma_find_unique(root, 0, '/', 0);
    assert(root.subrange(0, 0) =~= ""@);
    assert(text::pieces_from(root, 0, '/') =~= seq![""@]);
    let none = Seq::<Seq<char>>::empty();
    assert(walked(none, seq![""@]) == none) by {
        assert(seq![""@].drop_first() =~= none);
        assert(stepped(none, ""@) == none);
        assert(walked(none, none) == none);
    }
    if parts.len() == 0 {
        assert(joined(parts) =~= Seq::<char>::empty());
        assert(whole =~= seq!['/']);
        text::lemma_find_unique(whole, 0, '/', 0);
        text::lemma_find_unique(whole, 1, '/', 1);
        assert(whole.subrange(1, 1) =~= ""@);
        assert(whole.subrange(0, 0) =~= ""@);
        assert(text::pieces_from(whole, 1, '/') =~= seq![""@]);
        assert(text::pieces_from(whole, 0, '/') =~= seq![""@, ""@]);
        assert(seq![""@, ""@].drop_first() =~= seq![""@]);
        assert(walked(none, seq![""@, ""@]) == none);
        assert(parts =~= none);
    } else {
        let one = parts.subrange(0, 1);
        assert(one.drop_last() =~= none);
        assert(joined(one.drop_last()) =~= Seq::<char>::empty());
        assert(joined(one) =~= seq!['/'] + parts[0]);
        lemma_joined_prefix(parts, 1);
        assert(whole[0] == joined(one)[0]);
        assert(whole == joined(parts));
        lemma_pieces_of_joined(parts, 1, 1);
        assert(parts.subrange(0, parts.len() as int) =~= parts);
        text::lemma_find_unique(whole, 0, '/', 0);
        assert(whole.subrange(0, 0) =~= ""@);
        let pieces = text::pieces_from(whole, 0, '/');
        assert(pieces =~= seq![""@] + parts);
        assert(pieces.drop_first() =~= parts);
        assert(walked(none, pieces) == walked(none, parts));
        lemma_walk_names(none, parts);
        assert(none + parts =~= parts);
    }
}

/// A resolved path leads to the same place again, whatever the current directory.
pub proof fn resolving_again_changes_nothing(cwd: Seq<char>, path: Seq<char>, other: Seq<char>)
    ensures
        resolved(other, resolved(cwd, path)) == resolved(cwd, path),
{
    resolved_paths_are_normal(cwd, path);
    lemma_absolute(resolved_parts(cwd, path));
}

/// From the directory that names lead to, a name leads one further, `..` one back (but not past
/// the root), and neither `.` nor nothing anywhere else; what starts with `/` leads from
/// the root.
pub proof fn names_lead_on_and_dots_back(parts: Seq<Seq<char>>, name: Seq<char>, cwd: Seq<char>)
    requires
        all_names(parts),
        is_name(name),
    ensures
        resolved(absolute(parts), name) == (if parts.len() == 0 {
            seq!['/'] + name
        } else {
            absolute(parts) + seq!['/'] + name
        }),
        parts.len() > 0 ==> resolved(absolute(parts), ".."@) == absolute(parts.drop_last()),
        resolved(seq!['/'], ".."@) == seq!['/'],
        resolved(absolute(parts), "."@) == absolute(parts),
        resolved(absolute(parts), ""@) == absolute(parts),
        resolved(cwd, absolute(parts)) == absolute(parts),
{
    let none = Seq::<Seq<char>>::empty();
    reveal_strlit("");
    reveal_strlit(".");
    reveal_strlit("..");
    lemma_absolute(parts);
    lemma_absolute(none);
    assert(joined(none) =~= Seq::<char>::empty());
    assert(absolute(none) == seq!['/']);
    lemma_single(parts, name);
    lemma_single(parts, ".."@);
    lemma_single(none, ".."@);
    lemma_single(parts, "."@);
    lemma_single(parts, ""@);
    let further = parts.push(name);
    assert(further.drop_last() =~= parts);
    assert(joined(further) == joined(parts) + seq!['/'] + name);
    if parts.len() == 0 {
        assert(parts =~= none);
        assert(joined(further) =~= seq!['/'] + name);
    } else {
        assert(joined(parts).len() > 0);
    }
}

/// Where one part that is no slash leads.
proof fn lemma_single(parts: Seq<Seq<char>>, part: Seq<char>)
    requires
        all_names(parts),
        forall|i: int| 0 <= i < part.len() ==> #[trigger] part[i] != '/',
    ensures
        resolved_parts(absolute(parts), part) == stepped(parts, part),
{
    lemma_absolute(parts);
    text::lemma_find_unique(part, 0, '/', part.len() as int);
    assert(part.subrange(0, part.len() as int) =~= part);
    assert(text::pieces_from(part, 0, '/') =~= seq![part]);
    reveal_with_fuel(walked, 2);
    assert(seq![part].drop_first() =~= Seq::<Seq<char>>::empty());
}

/// The parts of two paths with a slash between them are those of the first and of the second.
proof fn lemma_parts_of_two(a: Seq<char>, b: Seq<char>, from: int)
    requires
        0 <= from <= a.len(),
    ensures
        text::pieces_from(a + seq!['/'] + b, from, '/') == text::pieces_from(a, from, '/')
            + text::pieces_from(b, 0, '/'),
    decreases a.len() - from,
{
    let path = a + seq!['/'] + b;
    let at = text::find_from(a, from, '/');
    text::lemma_found(a, from, '/');
    assert forall|i: int| from <= i < at implies path[i] != '/' by {
        assert(path[i] == a[i]);
    }
    text::lemma_find_unique(path, from, '/', at);
    assert(path.subrange(from, at) =~= a.subrange(from, at));
    if at < a.len() {
        lemma_parts_of_two(a, b, at + 1);
    } else {
        lemma_later(a + seq!['/'], b, 0);
    }
    assert(text::pieces_from(path, from, '/') =~= text::pieces_from(a, from, '/')
        + text::pieces_from(b, 0, '/'));
}

/// The parts of a path don't depend on what is before it.
proof fn lemma_later(before: Seq<char>, s: Seq<char>, from: int)
    requires
        0 <= from <= s.len(),
    ensures
        text::pieces_from(before + s, before.len() + from, '/') == text::pieces_from(s, from, '/'),
    decreases s.len() - from,
{
    let whole = before + s;
    let n = before.len() as int;
    let at = text::find_from(s, from, '/');
    text::lemma_found(s, from, '/');
    assert forall|i: int| n + from <= i < n + at implies whole[i] != '/' by {
        assert(whole[i] == s[i - n]);
    }
    text::lemma_find_unique(whole, n + from, '/', n + at);
    assert(whole.subrange(n + from, n + at) =~= s.subrange(from, at));
    if at < s.len() {
        lemma_later(before, s, at + 1);
    }
    assert(text::pieces_from(whole, n + from, '/') =~= text::pieces_from(s, from, '/'));
}

proof fn lemma_walk_on(at: Seq<Seq<char>>, a: Seq<Seq<char>>, b: Seq<Seq<char>>)
    ensures
        walked(at, a + b) == walked(walked(at, a), b),
    decreases a.len(),
{
    if a.len() == 0 {
        assert(a + b =~= b);
    } else {
        assert((a + b).drop_first() =~= a.drop_first() + b);
        lemma_walk_on(stepped(at, a[0]), a.drop_first(), b);
    }
}

/// A path in two halves leads where the second half does from where the first half leads.
pub proof fn paths_lead_on(cwd: Seq<char>, a: Seq<char>, b: Seq<char>)
    requires
        a.len() > 0,
        b.len() > 0 ==> b[0] != '/',
    ensures
        resolved(cwd, a + seq!['/'] + b) == resolved(resolved(cwd, a), b),
{
    let path = a + seq!['/'] + b;
    let none = Seq::<Seq<char>>::empty();
    let start = if a[0] == '/' {
        Seq::empty()
    } else {
        cwd
    };
    assert(path[0] == a[0]);
    resolved_paths_are_normal(cwd, a);
    lemma_absolute(resolved_parts(cwd, a));
    lemma_parts_of_two(a, b, 0);
    lemma_walk_on(
        walked(none, text::pieces_from(start, 0, '/')),
        text::pieces_from(a, 0, '/'),
        text::pieces_from(b, 0, '/'),
    );
}

} // verus!
