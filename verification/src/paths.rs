//! Slash-separated paths, compared component by component.

use vstd::prelude::*;
use vstd::slice::slice_subrange;
use crate::reading::{is_solid, law_pieces_are_read, law_white_space_is_taken_away, lemma_split_after};
use crate::secrets::lemma_split_some;
use crate::text::{begins_with, chars_of, copy_chars, lemma_chars_deep, lemma_split_on_free, lines, lines_of, same_chars, split_chars, split_on, starts_with, string_of, trim, trim_of, Text};

verus! {

/// `p` starts at the root of the file system.
pub open spec fn is_absolute(p: Text) -> bool {
    p.len() > 0 && p[0] == '/'
}

/// The piece stands for a step of its own: it is neither empty nor a dot.
pub open spec fn is_step(piece: Text) -> bool {
    piece.len() > 0 && piece != seq!['.']
}

/// The components of a path: the root or a leading dot, where there is one, and then the
/// names between the slashes. Repeated and trailing slashes, and dots further on, count for
/// nothing.
pub open spec fn components(p: Text) -> Seq<Text> {
    let pieces = split_on(p, '/');
    let first = if is_absolute(p) {
        seq![seq!['/']]
    } else if pieces[0] == seq!['.'] {
        seq![seq!['.']]
    } else {
        Seq::empty()
    };
    first + pieces.filter(|q: Text| is_step(q))
}

/// The two texts name the same path.
pub open spec fn same_path(a: Text, b: Text) -> bool {
    components(a) == components(b)
}

/// `path` is `root` or lies below it.
pub open spec fn is_under(path: Text, root: Text) -> bool {
    components(root).is_prefix_of(components(path))
}

/// The last component of a path, where it is a name.
pub open spec fn file_name(p: Text) -> Option<Text> {
    let c = components(p);
    if c.len() == 0 || c.last() == seq!['/'] || c.last() == seq!['.'] || c.last() == seq!['.', '.'] {
        None
    } else {
        Some(c.last())
    }
}

/// `b` seen from the directory `a`.
pub open spec fn join_path(a: Text, b: Text) -> Text {
    if is_absolute(b) {
        b
    } else if a.len() == 0 || a.last() == '/' {
        a + b
    } else {
        a + seq!['/'] + b
    }
}

/// Whether `p` starts at the root of the file system.
pub fn is_absolute_path(p: &str) -> (r: bool)
    ensures
        r == is_absolute(p@),
{
    let c = chars_of(p);
    c.len() > 0 && c[0] == '/'
}

fn is_dot(s: &Vec<char>) -> (r: bool)
    ensures
        r == (s@ == seq!['.']),
{
    if s.len() == 1 && s[0] == '.' {
        assert(s@ =~= seq!['.']);
        true
    } else {
        false
    }
}

/// The components of a path.
pub fn components_of(p: &str) -> (r: Vec<Vec<char>>)
    ensures
        r.deep_view() == components(p@),
{
    let c = chars_of(p);
    let pieces = split_chars(c.as_slice(), '/');
    let ghost all = pieces.deep_view();
    let mut out: Vec<Vec<char>> = Vec::new();
    proof {
        lemma_chars_deep(pieces@[0]);
    }
    if c.len() > 0 && c[0] == '/' {
        let slash: Vec<char> = vec!['/'];
        proof {
            lemma_chars_deep(slash);
            assert(slash@ =~= seq!['/']);
        }
        out.push(slash);
        assert(out.deep_view() =~= seq![seq!['/']]);
    } else if is_dot(&pieces[0]) {
        let dot: Vec<char> = vec!['.'];
        proof {
            lemma_chars_deep(dot);
            assert(dot@ =~= seq!['.']);
        }
        out.push(dot);
        assert(out.deep_view() =~= seq![seq!['.']]);
    } else {
        assert(out.deep_view() =~= Seq::<Text>::empty());
    }
    let ghost first = out.deep_view();
    let ghost keep = |q: Text| is_step(q);
    let mut i: usize = 0;
    proof {
        reveal(Seq::filter);
        assert(all.take(0).filter(keep) =~= Seq::<Text>::empty());
        assert(first + all.take(0).filter(keep) =~= first);
    }
    while i < pieces.len()
        invariant
            i <= pieces@.len(),
            all == pieces.deep_view(),
            keep == (|q: Text| is_step(q)),
            out.deep_view() == first + all.take(i as int).filter(keep),
        decreases pieces@.len() - i,
    {
        let ghost before = out.deep_view();
        proof {
            lemma_chars_deep(pieces@[i as int]);
            reveal(Seq::filter);
            assert(all.take(i + 1).drop_last() =~= all.take(i as int));
            assert(all.take(i + 1).last() == all[i as int]);
        }
        if pieces[i].len() > 0 && !is_dot(&pieces[i]) {
            let piece = copy_chars(pieces[i].as_slice());
            proof {
                lemma_chars_deep(piece);
            }
            out.push(piece);
            assert(out.deep_view() =~= before.push(all[i as int]));
            assert(out.deep_view() =~= first + all.take(i + 1).filter(keep));
        }
        i += 1;
    }
    assert(all.take(i as int) =~= all);
    out
}

/// Whether the two texts name the same path.
pub fn names_same_path(a: &str, b: &str) -> (r: bool)
    ensures
        r == same_path(a@, b@),
{
    let x = components_of(a);
    let y = components_of(b);
    assert(x.deep_view().len() == x@.len() && y.deep_view().len() == y@.len());
    x.len() == y.len() && has_prefix(&x, &y)
}

/// Whether `x` begins with the pieces of `y`.
fn has_prefix(x: &Vec<Vec<char>>, y: &Vec<Vec<char>>) -> (r: bool)
    ensures
        r == y.deep_view().is_prefix_of(x.deep_view()),
        x@.len() == y@.len() ==> r == (x.deep_view() == y.deep_view()),
{
    if y.len() > x.len() {
        return false;
    }
    let mut i: usize = 0;
    while i < y.len()
        invariant
            i <= y@.len() <= x@.len(),
            forall|k: int| 0 <= k < i ==> #[trigger] x.deep_view()[k] == y.deep_view()[k],
        decreases y@.len() - i,
    {
        proof {
            lemma_chars_deep(x@[i as int]);
            lemma_chars_deep(y@[i as int]);
        }
        if !same_chars(x[i].as_slice(), y[i].as_slice()) {
            assert(x.deep_view()[i as int] != y.deep_view()[i as int]);
            assert(x.deep_view().subrange(0, y@.len() as int)[i as int] != y.deep_view()[i as int]);
            return false;
        }
        i += 1;
    }
    assert(x.deep_view().subrange(0, y@.len() as int) =~= y.deep_view());
    proof {
        if x@.len() == y@.len() {
            assert(x.deep_view() =~= y.deep_view());
        }
    }
    true
}

/// Whether `path` is `root` or lies below it.
pub fn path_is_under(path: &str, root: &str) -> (r: bool)
    ensures
        r == is_under(path@, root@),
{
    let x = components_of(path);
    let y = components_of(root);
    has_prefix(&x, &y)
}

/// The last component of a path, where it is a name.
pub fn file_name_of(p: &str) -> (r: Option<String>)
    ensures
        r.deep_view() == file_name(p@),
{
    let c = components_of(p);
    if c.len() == 0 {
        return None;
    }
    let last = &c[c.len() - 1];
    proof {
        lemma_chars_deep(c@[c@.len() - 1]);
    }
    let n: usize = last.len();
    if (n == 1 && (last[0] == '/' || last[0] == '.')) || (n == 2 && last[0] == '.' && last[1] == '.') {
        proof {
            if n == 1 {
                assert(last@ =~= seq![last@[0]]);
            } else {
                assert(last@ =~= seq!['.', '.']);
            }
        }
        return None;
    }
    Some(string_of(last.as_slice()))
}

/// `b` seen from the directory `a`.
pub fn join_path_of(a: &str, b: &str) -> (r: String)
    ensures
        r@ == join_path(a@, b@),
{
    let x = chars_of(a);
    if is_absolute_path(b) {
        return b.to_string();
    }
    let mut out: String = a.to_string();
    if x.len() > 0 && x[x.len() - 1] != '/' {
        out.push('/');
        assert(out@ =~= a@ + seq!['/']);
    }
    out.append(b);
    out
}

/// The git directory that a `.git` file in the work tree `tree` points to: what follows
/// `gitdir:` on the first line that begins so.
pub open spec fn git_dir_of(file: Seq<Text>, tree: Text) -> Option<Text>
    decreases file.len(),
{
    if file.len() == 0 {
        None
    } else if starts_with(file[0], "gitdir:"@) {
        Some(join_path(tree, trim(file[0].skip("gitdir:"@.len() as int))))
    } else {
        git_dir_of(file.drop_first(), tree)
    }
}

/// The git directory that the text of a `.git` file in the work tree `tree` points to.
pub fn resolve_git_file(text: &str, tree: &str) -> (r: Option<String>)
    ensures
        r.deep_view() == git_dir_of(lines(text@), tree@),
{
    let c = chars_of(text);
    let all = lines_of(c.as_slice());
    let ghost l = all.deep_view();
    let mark = chars_of("gitdir:");
    let mut i: usize = 0;
    assert(l.skip(0) =~= l);
    while i < all.len()
        invariant
            i <= all@.len(),
            l == all.deep_view(),
            l == lines(text@),
            mark@ == "gitdir:"@,
            git_dir_of(l, tree@) == git_dir_of(l.skip(i as int), tree@),
        decreases all@.len() - i,
    {
        let line = all[i].as_slice();
        proof {
            lemma_chars_deep(all@[i as int]);
            assert(l.skip(i as int)[0] == line@);
            assert(l.skip(i as int).drop_first() =~= l.skip(i + 1));
        }
        if begins_with(line, "gitdir:") {
            let rest = slice_subrange(line, mark.len(), line.len());
            assert(rest@ =~= line@.skip("gitdir:"@.len() as int));
            let target = string_of(trim_of(rest));
            let dir = join_path_of(tree, target.as_str());
            assert(git_dir_of(l.skip(i as int), tree@) == Some(dir@));
            return Some(dir);
        }
        i += 1;
    }
    None
}

/// Every path is under itself.
pub proof fn law_path_under_itself(p: Text)
    ensures
        is_under(p, p),
{
    let c = components(p);
    assert(c.subrange(0, c.len() as int) =~= c);
}

/// A path below a path that is below a third is below the third.
pub proof fn law_path_under_transitive(a: Text, b: Text, c: Text)
    requires
        is_under(a, b),
        is_under(b, c),
    ensures
        is_under(a, c),
{
    let x = components(a);
    let y = components(b);
    let z = components(c);
    assert(x.subrange(0, z.len() as int) =~= y.subrange(0, z.len() as int)) by {
        assert forall|i: int| 0 <= i < z.len() implies x[i] == y[i] by {
            assert(x.subrange(0, y.len() as int)[i] == y[i]);
        }
    }
}

/// Whether the text can be a name on a path.
pub open spec fn is_path_name(name: Text) -> bool {
    &&& name.len() > 0
    &&& name != seq!['.']
    &&& forall|i: int| 0 <= i < name.len() ==> #[trigger] name[i] != '/'
}

/// A name that is put to a path is one component more, whether or not the path ends in a slash.
pub proof fn law_name_is_one_more_component(a: Text, name: Text)
    requires
        is_path_name(name),
    ensures
        components(join_path(a, name)) == components(a).push(name),
{
    let keep = |q: Text| is_step(q);
    let none = Seq::<char>::empty();
    let slash = seq!['/'];
    let p = join_path(a, name);
    reveal(Seq::filter);
    lemma_split_some(a, '/');
    if a.len() == 0 {
        law_pieces_are_read(name, none, '/');
        law_pieces_are_read(a, none, '/');
        assert(p =~= name);
        assert(seq![name].drop_last() =~= Seq::<Text>::empty());
        assert(seq![name].filter(keep) =~= seq![name]);
        assert(seq![a].drop_last() =~= Seq::<Text>::empty());
        assert(seq![a].filter(keep) =~= Seq::<Text>::empty());
        assert(components(a) =~= Seq::<Text>::empty());
        assert(components(p) =~= seq![name]);
    } else if a.last() == '/' {
        let b = a.drop_last();
        assert(a =~= b + slash + none);
        lemma_split_after(b, none, '/');
        assert(p =~= b + slash + name);
        lemma_split_after(b, name, '/');
        lemma_split_some(b, '/');
        let pieces = split_on(b, '/');
        assert(pieces.push(none).drop_last() =~= pieces);
        assert(pieces.push(name).drop_last() =~= pieces);
        assert(split_on(a, '/')[0] == split_on(p, '/')[0]);
        assert(p[0] == a[0]);
        assert(components(p) =~= components(a).push(name));
    } else {
        assert(p =~= a + slash + name);
        lemma_split_after(a, name, '/');
        let pieces = split_on(a, '/');
        assert(pieces.push(name).drop_last() =~= pieces);
        assert(split_on(a, '/')[0] == split_on(p, '/')[0]);
        assert(p[0] == a[0]);
        assert(components(p) =~= components(a).push(name));
    }
}

/// What is in a directory is under it and has the name that it has there; it is under nothing
/// else that is in the directory, and the directory is not under it.
pub proof fn law_path_in_directory(a: Text, x: Text, y: Text)
    requires
        is_path_name(x),
        is_path_name(y),
    ensures
        is_under(join_path(a, x), a),
        !is_under(a, join_path(a, x)),
        x != y ==> !is_under(join_path(a, x), join_path(a, y)),
        x != seq!['.', '.'] ==> file_name(join_path(a, x)) == Some(x),
{
    law_name_is_one_more_component(a, x);
    law_name_is_one_more_component(a, y);
    let c = components(a);
    assert(c.push(x).subrange(0, c.len() as int) =~= c);
    if is_under(join_path(a, x), join_path(a, y)) {
        assert(c.push(x).subrange(0, c.len() as int + 1)[c.len() as int] == c.push(y)[c.len() as int]);
    }
    assert(x != seq!['/']) by {
        if x == seq!['/'] {
            assert(x[0] == '/');
        }
    }
}

/// A slash at the end makes no difference to where a path leads, and an absolute path leads to
/// where it says from everywhere.
pub proof fn law_slash_at_the_end(a: Text, b: Text)
    requires
        a.len() > 0,
    ensures
        same_path(a + seq!['/'], a),
        is_absolute(b) ==> join_path(a, b) == b,
{
    let none = Seq::<char>::empty();
    let p = a + seq!['/'];
    reveal(Seq::filter);
    assert(p =~= p + none);
    lemma_split_after(a, none, '/');
    lemma_split_some(a, '/');
    let pieces = split_on(a, '/');
    assert(pieces.push(none).drop_last() =~= pieces);
    assert(p[0] == a[0]);
    assert(components(p) =~= components(a));
}

/// The first line that names a git directory says where it is, seen from the tree.
pub proof fn law_git_dir_is_read(line: Text, rest: Seq<Text>, path: Text, tree: Text)
    requires
        is_solid(path),
    ensures
        git_dir_of(seq!["gitdir: "@ + path] + rest, tree) == Some(join_path(tree, path)),
        !starts_with(line, "gitdir:"@) ==> git_dir_of(seq![line] + rest, tree) == git_dir_of(
            rest,
            tree,
        ),
        git_dir_of(Seq::empty(), tree) is None,
{
    reveal_strlit("gitdir: ");
    reveal_strlit("gitdir:");
    let first = "gitdir: "@ + path;
    assert(first.subrange(0, "gitdir:"@.len() as int) =~= "gitdir:"@);
    let tail = first.skip("gitdir:"@.len() as int);
    assert(tail =~= seq![' '] + path + Seq::<char>::empty());
    law_white_space_is_taken_away(seq![' '], path, Seq::empty());
    assert((seq![line] + rest).drop_first() =~= rest);
}

/// A path from the root leads elsewhere than one that is not, whatever the names.
pub proof fn law_absolute_paths(a: Text, b: Text)
    requires
        is_absolute(a),
        !is_absolute(b),
    ensures
        !same_path(a, b),
        !is_under(a, b) || components(b).len() == 0,
        !is_under(b, a),
        components(a)[0] == seq!['/'],
{
    let keep = |q: Text| is_step(q);
    let pieces = split_on(b, '/');
    lemma_split_on_free(b, '/');
    lemma_split_some(b, '/');
    assert(components(a)[0] == seq!['/']);
    let c = components(b);
    if c.len() > 0 {
        assert(c[0] != seq!['/']) by {
            let steps = pieces.filter(keep);
            if pieces[0] == seq!['.'] {
                assert(c[0] == seq!['.']);
                assert(seq!['.'][0] == '.');
                assert(seq!['/'][0] == '/');
            } else {
                assert(c[0] == steps[0]);
                assert(steps.contains(steps[0]));
                pieces.lemma_filter_contains_rev(keep, steps[0]);
                let k = choose|k: int| 0 <= k < pieces.len() && pieces[k] == steps[0];
                if steps[0] == seq!['/'] {
                    assert(pieces[k][0] == '/');
                }
            }
        }
    }
    if is_under(a, b) && c.len() > 0 {
        assert(components(a).subrange(0, c.len() as int)[0] == c[0]);
    }
    if is_under(b, a) {
        assert(c.subrange(0, components(a).len() as int)[0] == components(a)[0]);
    }
}

/// A dot in a path stands for no step, unless the path begins with it.
pub proof fn law_dots_are_no_steps(a: Text)
    requires
        a.len() > 0,
        a.last() != '/',
    ensures
        same_path(a + seq!['/', '.'], a),
{
    let keep = |q: Text| is_step(q);
    let dot = seq!['.'];
    let p = a + seq!['/'] + dot;
    assert(a + seq!['/', '.'] =~= p);
    reveal(Seq::filter);
    lemma_split_after(a, dot, '/');
    lemma_split_some(a, '/');
    let pieces = split_on(a, '/');
    assert(pieces.push(dot).drop_last() =~= pieces);
    assert(!is_step(dot));
    assert(pieces.push(dot).filter(keep) =~= pieces.filter(keep));
    assert(p[0] == a[0]);
    assert(split_on(p, '/')[0] == pieces[0]);
    assert(components(p) =~= components(a));
}

} // verus!
