//! What the tree shows of the files of a repository.

use vstd::prelude::*;
use crate::annex::{drive_name, law_keys_on_a_drive, FileView, MetaView};
use crate::files::{direct_files, directory_nodes, directory_prefix, entry_key, file_nodes, goes_deeper, has_file_with, in_entry_order, is_below, lemma_entry_nodes, lemma_subdirectories_finite, listed_files, location_names, member_lines, next_name, recorded_locations, shown_locations, subdirectories, unused_file, unused_files};
use crate::logs::key_size;
use crate::node::NodeView;
use crate::order::{key_less, law_sorted};
use crate::table::{lemma_map_of, lemma_members_of, lemma_ordered_distinct, lemma_pairs_of_finite, map_of, members_of, pairs_of};
use crate::text::{decimal, join, lemma_next_of, next_of, split_on, text_less, Text};
use crate::trust::{trust_letter, TrustLevel};
use crate::usage::child_path;
use crate::util::bytes_text;

verus! {

// ---------------------------------------------------------------------------------------
// Names along a path

/// Whether `name` holds no separator.
pub open spec fn is_name(name: Text) -> bool {
    forall|i: int| 0 <= i < name.len() ==> #[trigger] name[i] != '/'
}

/// Whether no name along the path is empty.
pub open spec fn is_plain(path: Text) -> bool {
    &&& path.len() > 0
    &&& path[0] != '/'
    &&& path[path.len() - 1] != '/'
    &&& forall|i: int| 0 <= i < path.len() - 1 && #[trigger] path[i] == '/' ==> path[i + 1] != '/'
}

proof fn lemma_name_only(name: Text)
    requires
        is_name(name),
    ensures
        next_of(name, '/', 0) == name.len(),
{
    lemma_next_of(name, '/', 0);
}

proof fn lemma_name_first(name: Text, rest: Text)
    requires
        is_name(name),
    ensures
        next_of(name + "/"@ + rest, '/', 0) == name.len(),
        (name + "/"@ + rest).take(name.len() as int) == name,
        (name + "/"@ + rest).len() > name.len(),
{
    reveal_strlit("/");
    let all = name + "/"@ + rest;
    lemma_next_of(all, '/', 0);
    assert(all[name.len() as int] == '/');
    let j = next_of(all, '/', 0);
    if j < name.len() {
        assert(all[j] == name[j]);
    }
    assert(all.take(name.len() as int) =~= name);
}

// ---------------------------------------------------------------------------------------
// The entries of a level

/// What a level shows: a directory for every file that leads into one, the other files, and
/// what else there is.
#[verifier::rlimit(40)]
proof fn lemma_entries(
    m: MetaView,
    dir_path: Text,
    drive: Option<Text>,
    files: Seq<FileView>,
    n: int,
    highlight: Option<Text>,
    more: Seq<NodeView>,
)
    ensures
        ({
            let kids = in_entry_order(
                directory_nodes(m, dir_path, drive, subdirectories(files, n)) + file_nodes(
                    m,
                    direct_files(files, n),
                    highlight,
                ) + more,
            );
            &&& forall|i: int|
                0 <= i < files.len() && goes_deeper(#[trigger] files[i], n) ==> kids.contains(
                    (NodeView::Directory {
                        meta: m,
                        dir_path: child_path(dir_path, next_name(files[i], n)),
                        drive,
                    }),
                )
            &&& forall|i: int|
                0 <= i < files.len() && !goes_deeper(#[trigger] files[i], n) ==> kids.contains(
                    (NodeView::File { meta: m, file: files[i], highlight }),
                )
            &&& forall|x: NodeView| #[trigger] more.contains(x) ==> kids.contains(x)
            &&& forall|x: NodeView| #[trigger]
                kids.contains(x) ==> is_entry(m, dir_path, drive, files, n, highlight, x)
                    || more.contains(x)
        }),
{
    let names = subdirectories(files, n);
    let direct = direct_files(files, n);
    let a = directory_nodes(m, dir_path, drive, names);
    let b = file_nodes(m, direct, highlight);
    let all = a + b + more;
    let kids = in_entry_order(all);
    law_sorted(all, |x: NodeView| entry_key(x));
    lemma_subdirectories_finite(files, n);
    lemma_members_of(names);
    let w = members_of(names);
    assert forall|i: int|
        0 <= i < files.len() && goes_deeper(#[trigger] files[i], n) implies kids.contains(
        (NodeView::Directory {
            meta: m,
            dir_path: child_path(dir_path, next_name(files[i], n)),
            drive,
        }),
    ) by {
        let s = next_name(files[i], n);
        assert(names.contains(s));
        assert(w.contains(s));
        let k = choose|k: int| 0 <= k < w.len() && w[k] == s;
        let node = NodeView::Directory { meta: m, dir_path: child_path(dir_path, s), drive };
        assert(a[k] == node);
        assert(all[k] == node);
        assert(all.contains(node));
    }
    assert forall|i: int|
        0 <= i < files.len() && !goes_deeper(#[trigger] files[i], n) implies kids.contains(
        (NodeView::File { meta: m, file: files[i], highlight }),
    ) by {
        files.lemma_filter_contains(|g: FileView| !goes_deeper(g, n), i);
        let k = choose|k: int| 0 <= k < direct.len() && direct[k] == files[i];
        let node = NodeView::File { meta: m, file: files[i], highlight };
        assert(b[k] == node);
        assert(all[a.len() + k] == node);
        assert(all.contains(node));
    }
    assert forall|x: NodeView| #[trigger] more.contains(x) implies kids.contains(x) by {
        let k = choose|k: int| 0 <= k < more.len() && more[k] == x;
        assert(all[a.len() + b.len() + k] == x);
        assert(all.contains(x));
    }
    assert forall|x: NodeView| #[trigger] kids.contains(x) implies is_entry(
        m,
        dir_path,
        drive,
        files,
        n,
        highlight,
        x,
    ) || more.contains(x) by {
        assert(all.contains(x));
        let k = choose|k: int| 0 <= k < all.len() && all[k] == x;
        if k < a.len() {
            let s = w[k];
            assert(w.contains(s));
            assert(names.contains(s));
            let i = choose|i: int|
                0 <= i < files.len() && goes_deeper(#[trigger] files[i], n) && next_name(
                    files[i],
                    n,
                ) == s;
            assert(is_entry_of(m, dir_path, drive, files[i], n, highlight, x));
            assert(files.contains(files[i]));
        } else if k < a.len() + b.len() {
            let f = direct[k - a.len()];
            let keep = |g: FileView| !goes_deeper(g, n);
            files.lemma_filter_pred(keep, k - a.len());
            assert(direct.contains(f));
            files.lemma_filter_contains_rev(keep, f);
            assert(x == b[k - a.len()]);
            assert(is_entry_of(m, dir_path, drive, f, n, highlight, x));
        } else {
            assert(more[k - a.len() - b.len()] == x);
        }
    }
}

spec fn is_entry_of(
    m: MetaView,
    dir_path: Text,
    drive: Option<Text>,
    f: FileView,
    n: int,
    highlight: Option<Text>,
    x: NodeView,
) -> bool {
    if goes_deeper(f, n) {
        x == (NodeView::Directory { meta: m, dir_path: child_path(dir_path, next_name(f, n)), drive })
    } else {
        x == (NodeView::File { meta: m, file: f, highlight })
    }
}

spec fn is_entry(
    m: MetaView,
    dir_path: Text,
    drive: Option<Text>,
    files: Seq<FileView>,
    n: int,
    highlight: Option<Text>,
    x: NodeView,
) -> bool {
    exists|f: FileView| #[trigger]
        files.contains(f) && is_entry_of(m, dir_path, drive, f, n, highlight, x)
}

#[verifier::rlimit(40)]
proof fn lemma_directory_entries(m: MetaView, dir_path: Text, drive: Option<Text>)
    ensures
        ({
            let kids = (NodeView::Directory { meta: m, dir_path, drive }).children();
            let n = directory_prefix(dir_path).len() as int;
            &&& forall|f: FileView| #[trigger]
                m.files.contains(f) && is_below(m, f, dir_path, drive) ==> if goes_deeper(f, n) {
                    kids.contains(
                        (NodeView::Directory {
                            meta: m,
                            dir_path: child_path(dir_path, next_name(f, n)),
                            drive,
                        }),
                    )
                } else {
                    kids.contains((NodeView::File { meta: m, file: f, highlight: None }))
                }
            &&& forall|x: NodeView| #[trigger]
                kids.contains(x) ==> exists|f: FileView| #[trigger]
                    m.files.contains(f) && is_below(m, f, dir_path, drive) && is_entry_of(
                        m,
                        dir_path,
                        drive,
                        f,
                        n,
                        None,
                        x,
                    )
        }),
{
    let kids = (NodeView::Directory { meta: m, dir_path, drive }).children();
    let n = directory_prefix(dir_path).len() as int;
    let keep = |f: FileView| is_below(m, f, dir_path, drive);
    let below = m.files.filter(keep);
    let none = Seq::<NodeView>::empty();
    lemma_entries(m, dir_path, drive, below, n, None, none);
    let nodes = directory_nodes(m, dir_path, drive, subdirectories(below, n)) + file_nodes(
        m,
        direct_files(below, n),
        None,
    );
    assert(nodes + none =~= nodes);
    assert forall|f: FileView| #[trigger]
        m.files.contains(f) && is_below(m, f, dir_path, drive) implies if goes_deeper(f, n) {
        kids.contains(
            (NodeView::Directory {
                meta: m,
                dir_path: child_path(dir_path, next_name(f, n)),
                drive,
            }),
        )
    } else {
        kids.contains((NodeView::File { meta: m, file: f, highlight: None }))
    } by {
        let i = choose|i: int| 0 <= i < m.files.len() && m.files[i] == f;
        m.files.lemma_filter_contains(keep, i);
        let j = choose|j: int| 0 <= j < below.len() && below[j] == f;
        assert(below[j] == f);
    }
    assert forall|x: NodeView| #[trigger] kids.contains(x) implies exists|f: FileView| #[trigger]
        m.files.contains(f) && is_below(m, f, dir_path, drive) && is_entry_of(
            m,
            dir_path,
            drive,
            f,
            n,
            None,
            x,
        ) by {
        assert(is_entry(m, dir_path, drive, below, n, None, x));
        let f = choose|f: FileView| #[trigger]
            below.contains(f) && is_entry_of(m, dir_path, drive, f, n, None, x);
        m.files.lemma_filter_contains_rev(keep, f);
        let j = choose|j: int| 0 <= j < below.len() && below[j] == f;
        m.files.lemma_filter_pred(keep, j);
        assert(m.files.contains(f));
    }
}

// ---------------------------------------------------------------------------------------
// Directories

/// Whether the content of `key` is on the drive, where one is asked for.
pub open spec fn has_content(m: MetaView, key: Text, drive: Option<Text>) -> bool {
    drive matches Some(u) ==> m.locations.contains_key(key) && m.locations[key].contains(u)
}

/// A directory shows every file that is right in it and, where a drive is asked for, on it.
pub proof fn law_directory_shows_its_files(
    m: MetaView,
    dir_path: Text,
    drive: Option<Text>,
    name: Text,
    f: FileView,
)
    requires
        m.files.contains(f),
        is_name(name),
        name.len() > 0,
        f.path == (if dir_path.len() == 0 {
            name
        } else {
            dir_path + "/"@ + name
        }),
        has_content(m, f.key, drive),
    ensures
        (NodeView::Directory { meta: m, dir_path, drive }).children().contains(
            (NodeView::File { meta: m, file: f, highlight: None }),
        ),
{
    reveal_strlit("/");
    let prefix = directory_prefix(dir_path);
    let n = prefix.len() as int;
    assert(f.path =~= prefix + name);
    assert(f.path.skip(n) =~= name);
    assert(f.path.subrange(0, n) =~= prefix);
    lemma_name_only(name);
    lemma_directory_entries(m, dir_path, drive);
    assert(is_below(m, f, dir_path, drive));
}

/// A directory shows every directory in it that leads to a file which, where a drive is asked
/// for, is on it; and that directory asks for the same drive.
pub proof fn law_directory_leads_on(
    m: MetaView,
    dir_path: Text,
    drive: Option<Text>,
    name: Text,
    rest: Text,
    f: FileView,
)
    requires
        m.files.contains(f),
        is_name(name),
        f.path == (if dir_path.len() == 0 {
            name
        } else {
            dir_path + "/"@ + name
        }) + "/"@ + rest,
        has_content(m, f.key, drive),
    ensures
        (NodeView::Directory { meta: m, dir_path, drive }).children().contains(
            (NodeView::Directory {
                meta: m,
                dir_path: (if dir_path.len() == 0 {
                    name
                } else {
                    dir_path + "/"@ + name
                }),
                drive,
            }),
        ),
{
    reveal_strlit("/");
    let prefix = directory_prefix(dir_path);
    let n = prefix.len() as int;
    assert(f.path =~= prefix + (name + "/"@ + rest));
    assert(f.path.skip(n) =~= name + "/"@ + rest);
    assert(f.path.subrange(0, n) =~= prefix);
    lemma_name_first(name, rest);
    lemma_directory_entries(m, dir_path, drive);
    assert(is_below(m, f, dir_path, drive));
    assert(next_name(f, n) =~= name);
}

/// Whether the path is that of a file right in the directory.
pub open spec fn is_right_in(path: Text, dir_path: Text) -> bool {
    exists|name: Text| #[trigger]
        is_name(name) && name.len() > 0 && path == (if dir_path.len() == 0 {
            name
        } else {
            dir_path + "/"@ + name
        })
}

/// Whether `sub` is a directory right in another on the way to the path.
pub open spec fn is_on_way(path: Text, dir_path: Text, sub: Text) -> bool {
    exists|name: Text, rest: Text| #[trigger]
        leads_by(path, dir_path, name, rest) && sub == (if dir_path.len() == 0 {
            name
        } else {
            dir_path + "/"@ + name
        })
}

/// Whether the path goes through the directory, then through `name`, then on with `rest`.
pub open spec fn leads_by(path: Text, dir_path: Text, name: Text, rest: Text) -> bool {
    &&& is_name(name)
    &&& path == (if dir_path.len() == 0 {
        name
    } else {
        dir_path + "/"@ + name
    }) + "/"@ + rest
}

/// A directory shows nothing but files right in it and directories right in it that lead to a
/// file; where a drive is asked for, those files are on it. What it shows is of the same
/// repository, and a directory that it shows asks for the same drive.
pub proof fn law_directory_shows_nothing_else(
    m: MetaView,
    dir_path: Text,
    drive: Option<Text>,
    x: NodeView,
)
    requires
        (NodeView::Directory { meta: m, dir_path, drive }).children().contains(x),
    ensures
        match x {
            NodeView::File { meta, file, highlight } => {
                &&& meta == m
                &&& highlight is None
                &&& m.files.contains(file)
                &&& has_content(m, file.key, drive)
                &&& is_right_in(file.path, dir_path)
            },
            NodeView::Directory { meta, dir_path: sub, drive: asked } => {
                &&& meta == m
                &&& asked == drive
                &&& exists|f: FileView| #[trigger]
                    m.files.contains(f) && has_content(m, f.key, drive) && is_on_way(
                        f.path,
                        dir_path,
                        sub,
                    )
            },
            _ => false,
        },
{
    reveal_strlit("/");
    lemma_directory_entries(m, dir_path, drive);
    let prefix = directory_prefix(dir_path);
    let n = prefix.len() as int;
    let f = choose|f: FileView| #[trigger]
        m.files.contains(f) && is_below(m, f, dir_path, drive) && is_entry_of(
            m,
            dir_path,
            drive,
            f,
            n,
            None,
            x,
        );
    assert(f.path.subrange(0, n) == prefix);
    assert(f.path =~= prefix + f.path.skip(n));
    lemma_split_path(f, dir_path);
}

/// What a path is below a directory: a name, or a name and what follows it.
proof fn lemma_split_path(f: FileView, dir_path: Text)
    requires
        f.path.len() > directory_prefix(dir_path).len(),
        f.path == directory_prefix(dir_path) + f.path.skip(directory_prefix(dir_path).len() as int),
    ensures
        ({
            let n = directory_prefix(dir_path).len() as int;
            if goes_deeper(f, n) {
                is_on_way(f.path, dir_path, child_path(dir_path, next_name(f, n)))
            } else {
                is_right_in(f.path, dir_path)
            }
        }),
{
    reveal_strlit("/");
    let prefix = directory_prefix(dir_path);
    let n = prefix.len() as int;
    let tail = f.path.skip(n);
    lemma_next_of(tail, '/', 0);
    let j = next_of(tail, '/', 0);
    if goes_deeper(f, n) {
        let name = tail.take(j);
        let rest = tail.skip(j + 1);
        assert(tail =~= name + "/"@ + rest);
        assert(f.path =~= (if dir_path.len() == 0 {
            name
        } else {
            dir_path + "/"@ + name
        }) + "/"@ + rest);
        assert(is_name(name));
        assert(leads_by(f.path, dir_path, name, rest));
    } else {
        assert(is_name(tail));
        assert(f.path =~= (if dir_path.len() == 0 {
            tail
        } else {
            dir_path + "/"@ + tail
        }));
    }
}

// ---------------------------------------------------------------------------------------
// All files

#[verifier::rlimit(40)]
proof fn lemma_top_entries(
    m: MetaView,
    files: Seq<FileView>,
    drive: Option<Text>,
    highlight: Option<Text>,
    more: Seq<NodeView>,
    kids: Seq<NodeView>,
)
    requires
        kids == in_entry_order(
            directory_nodes(m, Seq::empty(), drive, subdirectories(files, 0)) + file_nodes(
                m,
                direct_files(files, 0),
                highlight,
            ) + more,
        ),
    ensures
        forall|f: FileView| #[trigger]
            files.contains(f) && is_name(f.path) ==> kids.contains(
                (NodeView::File { meta: m, file: f, highlight }),
            ),
        forall|f: FileView, name: Text, rest: Text| #[trigger]
            files.contains(f) && #[trigger] leads_by(f.path, Seq::empty(), name, rest)
                ==> kids.contains((NodeView::Directory { meta: m, dir_path: name, drive })),
        forall|x: NodeView| #[trigger]
            kids.contains(x) ==> more.contains(x) || exists|f: FileView| #[trigger]
                files.contains(f) && is_top_entry(m, f, drive, highlight, x),
        forall|x: NodeView| #[trigger] more.contains(x) ==> kids.contains(x),
{
    let top = Seq::<char>::empty();
    lemma_entries(m, top, drive, files, 0, highlight, more);
    assert forall|f: FileView| #[trigger] files.contains(f) && is_name(f.path) implies kids.contains(
        (NodeView::File { meta: m, file: f, highlight }),
    ) by {
        let i = choose|i: int| 0 <= i < files.len() && files[i] == f;
        assert(f.path.skip(0) =~= f.path);
        lemma_name_only(f.path);
        assert(!goes_deeper(files[i], 0));
    }
    assert forall|f: FileView, name: Text, rest: Text| #[trigger]
        files.contains(f) && #[trigger] leads_by(f.path, top, name, rest) implies kids.contains(
        (NodeView::Directory { meta: m, dir_path: name, drive }),
    ) by {
        let i = choose|i: int| 0 <= i < files.len() && files[i] == f;
        assert(f.path.skip(0) =~= f.path);
        lemma_name_first(name, rest);
        assert(goes_deeper(files[i], 0));
        assert(next_name(f, 0) =~= name);
    }
    assert forall|x: NodeView| #[trigger] kids.contains(x) implies more.contains(x) || exists|
        f: FileView,
    | #[trigger]
        files.contains(f) && is_top_entry(m, f, drive, highlight, x) by {
        if !more.contains(x) {
            assert(is_entry(m, top, drive, files, 0, highlight, x));
            let f = choose|f: FileView| #[trigger]
                files.contains(f) && is_entry_of(m, top, drive, f, 0, highlight, x);
            reveal_strlit("/");
            let p = f.path.skip(0);
            assert(p =~= f.path);
            lemma_next_of(p, '/', 0);
            let j = next_of(p, '/', 0);
            if goes_deeper(f, 0) {
                let name = p.take(j);
                let rest = p.skip(j + 1);
                assert(f.path =~= name + "/"@ + rest);
                assert(is_name(name));
                assert(leads_by(f.path, top, name, rest));
            } else {
                assert(is_name(f.path));
            }
            assert(is_top_entry(m, f, drive, highlight, x));
        }
    }
}

/// Whether a top entry is the file, or the first directory on the way to it.
pub open spec fn is_top_entry(
    m: MetaView,
    f: FileView,
    drive: Option<Text>,
    highlight: Option<Text>,
    x: NodeView,
) -> bool {
    ||| is_name(f.path) && x == (NodeView::File { meta: m, file: f, highlight })
    ||| x matches NodeView::Directory { meta, dir_path, drive: asked } && meta == m && asked == drive
        && is_on_way(f.path, Seq::empty(), dir_path)
}

/// The list of all files shows every file of the top directory and every directory of it that
/// leads to a file, and nothing else.
pub proof fn law_all_files_from_the_top(m: MetaView)
    ensures
        ({
            let kids = (NodeView::AllFiles { meta: m }).children();
            &&& forall|f: FileView| #[trigger]
                m.files.contains(f) && is_name(f.path) ==> kids.contains(
                    (NodeView::File { meta: m, file: f, highlight: None }),
                )
            &&& forall|f: FileView, name: Text, rest: Text| #[trigger]
                m.files.contains(f) && #[trigger] leads_by(f.path, Seq::empty(), name, rest)
                    ==> kids.contains(
                    (NodeView::Directory { meta: m, dir_path: name, drive: None }),
                )
            &&& forall|x: NodeView| #[trigger]
                kids.contains(x) ==> exists|f: FileView| #[trigger]
                    m.files.contains(f) && is_top_entry(m, f, None, None, x)
        }),
{
    let kids = (NodeView::AllFiles { meta: m }).children();
    let none = Seq::<NodeView>::empty();
    let nodes = directory_nodes(m, Seq::empty(), None, subdirectories(m.files, 0)) + file_nodes(
        m,
        direct_files(m.files, 0),
        None,
    );
    assert(nodes + none =~= nodes);
    lemma_top_entries(m, m.files, None, None, none, kids);
}

/// Whether each node is shown by the one before it.
pub open spec fn is_way(way: Seq<NodeView>) -> bool {
    &&& way.len() > 0
    &&& forall|i: int|
        0 <= i < way.len() - 1 ==> #[trigger] way[i].children().contains(way[i + 1])
}

proof fn lemma_way_on(first: NodeView, way: Seq<NodeView>)
    requires
        is_way(way),
        first.children().contains(way[0]),
    ensures
        is_way(seq![first] + way),
        (seq![first] + way).last() == way.last(),
        (seq![first] + way)[0] == first,
{
    let all = seq![first] + way;
    assert forall|i: int| 0 <= i < all.len() - 1 implies #[trigger] all[i].children().contains(
        all[i + 1],
    ) by {
        if i > 0 {
            assert(way[i - 1].children().contains(way[i - 1 + 1]));
            assert(all[i] == way[i - 1]);
            assert(all[i + 1] == way[i]);
        } else {
            assert(all[0] == first);
            assert(all[1] == way[0]);
        }
    }
}

/// From every directory along its path a way leads down to the file.
proof fn lemma_way_down(m: MetaView, drive: Option<Text>, f: FileView, n: int) -> (way: Seq<NodeView>)
    requires
        m.files.contains(f),
        has_content(m, f.key, drive),
        is_plain(f.path),
        0 < n < f.path.len() - 1,
        f.path[n] == '/',
    ensures
        is_way(way),
        way[0] == (NodeView::Directory { meta: m, dir_path: f.path.take(n), drive }),
        way.last() == (NodeView::File { meta: m, file: f, highlight: None }),
    decreases f.path.len() - n,
{
    reveal_strlit("/");
    let dir = f.path.take(n);
    let here = NodeView::Directory { meta: m, dir_path: dir, drive };
    let tail = f.path.skip(n + 1);
    lemma_next_of(tail, '/', 0);
    let j = next_of(tail, '/', 0);
    let name = tail.take(j);
    if j < tail.len() {
        let rest = tail.skip(j + 1);
        assert(tail =~= name + "/"@ + rest);
        assert(is_name(name));
        assert(f.path =~= (dir + "/"@ + name) + "/"@ + rest);
        law_directory_leads_on(m, dir, drive, name, rest, f);
        let k = n + 1 + j;
        assert(f.path[k] == tail[j]);
        assert(k < f.path.len() - 1);
        assert(f.path.take(k) =~= dir + "/"@ + name);
        let way = lemma_way_down(m, drive, f, k);
        lemma_way_on(here, way);
        seq![here] + way
    } else {
        assert(name =~= tail);
        assert(f.path =~= dir + "/"@ + name);
        assert(is_name(name));
        law_directory_shows_its_files(m, dir, drive, name, f);
        let end = NodeView::File { meta: m, file: f, highlight: None };
        let way = seq![end];
        assert(is_way(way));
        lemma_way_on(here, way);
        seq![here] + way
    }
}

/// Every file of a repository, however deep it lies, is reached from the list of all files.
pub proof fn law_every_file_is_reached(m: MetaView, f: FileView)
    requires
        m.files.contains(f),
        is_plain(f.path),
    ensures
        exists|way: Seq<NodeView>| #[trigger]
            is_way(way) && way[0] == (NodeView::AllFiles { meta: m }) && way.last() == (
            NodeView::File { meta: m, file: f, highlight: None }),
{
    reveal_strlit("/");
    let top = NodeView::AllFiles { meta: m };
    law_all_files_from_the_top(m);
    lemma_next_of(f.path, '/', 0);
    let j = next_of(f.path, '/', 0);
    if j < f.path.len() {
        let name = f.path.take(j);
        let rest = f.path.skip(j + 1);
        assert(f.path =~= name + "/"@ + rest);
        assert(is_name(name));
        assert(leads_by(f.path, Seq::empty(), name, rest));
        let way = lemma_way_down(m, None, f, j);
        lemma_way_on(top, way);
        assert(is_way(seq![top] + way));
    } else {
        assert(is_name(f.path));
        let end = NodeView::File { meta: m, file: f, highlight: None };
        let way = seq![end];
        assert(is_way(way));
        lemma_way_on(top, way);
        assert(is_way(seq![top] + way));
    }
}

// ---------------------------------------------------------------------------------------
// The files on a drive

/// What the files on a drive show: of every listed file the file itself, marked as found on
/// the drive, or the first directory on the way to it, which asks for the drive; and every key
/// that is on the drive and has no listed file. There is nothing else.
#[verifier::rlimit(40)]
pub proof fn law_drive_shows_its_files(
    m: MetaView,
    u: Text,
    name: Text,
    listing: Seq<FileView>,
)
    requires
        m.locations.dom().finite(),
    ensures
        ({
            let kids = (NodeView::FilesOnDrive {
                meta: m,
                drive_uuid: u,
                drive_name: name,
                listing: Some(listing),
            }).children();
            &&& forall|f: FileView| #[trigger]
                listing.contains(f) && is_name(f.path) ==> kids.contains(
                    (NodeView::File { meta: m, file: f, highlight: Some(u) }),
                )
            &&& forall|f: FileView, first: Text, rest: Text| #[trigger]
                listing.contains(f) && #[trigger] leads_by(f.path, Seq::empty(), first, rest)
                    ==> kids.contains(
                    (NodeView::Directory { meta: m, dir_path: first, drive: Some(u) }),
                )
            &&& forall|key: Text| #[trigger]
                m.locations.contains_key(key) && m.locations[key].contains(u) && (forall|i: int|
                    0 <= i < listing.len() ==> (#[trigger] listing[i]).key != key)
                    ==> kids.contains(
                    (NodeView::File {
                        meta: m,
                        file: FileView { path: "<unused key> "@ + key, key, size: key_size(key) },
                        highlight: Some(u),
                    }),
                )
            &&& forall|x: NodeView| #[trigger]
                kids.contains(x) ==> {
                    ||| exists|f: FileView| #[trigger]
                        listing.contains(f) && is_top_entry(m, f, Some(u), Some(u), x)
                    ||| exists|key: Text| #[trigger]
                        m.locations.contains_key(key) && is_unused_row(m, u, listing, key, x)
                }
        }),
{
    let kids = (NodeView::FilesOnDrive {
        meta: m,
        drive_uuid: u,
        drive_name: name,
        listing: Some(listing),
    }).children();
    let unused = unused_files(m, u, listing);
    let more = file_nodes(m, unused, Some(u));
    let p = pairs_of(m.locations);
    let keep = |q: (Text, Set<Text>)| q.1.contains(u) && !has_file_with(listing, q.0);
    let kept = p.filter(keep);
    lemma_top_entries(m, listing, Some(u), Some(u), more, kids);
    lemma_pairs_of_finite(m.locations);
    lemma_ordered_distinct(p);
    lemma_map_of(p);
    assert forall|key: Text| #[trigger]
        m.locations.contains_key(key) && m.locations[key].contains(u) && (forall|i: int|
            0 <= i < listing.len() ==> (#[trigger] listing[i]).key != key) implies kids.contains(
        (NodeView::File {
            meta: m,
            file: FileView { path: "<unused key> "@ + key, key, size: key_size(key) },
            highlight: Some(u),
        }),
    ) by {
        assert(map_of(p).contains_key(key));
        let i = choose|i: int| 0 <= i < p.len() && (#[trigger] p[i]).0 == key;
        assert(map_of(p)[p[i].0] == p[i].1);
        assert(!has_file_with(listing, key));
        assert(keep(p[i]));
        p.lemma_filter_contains(keep, i);
        assert(kept.contains(p[i]));
        let k = choose|k: int| 0 <= k < kept.len() && kept[k] == p[i];
        assert(unused[k] == unused_file(key));
        let x = NodeView::File { meta: m, file: unused_file(key), highlight: Some(u) };
        assert(more[k] == x);
        assert(more.contains(x));
    }
    assert forall|x: NodeView| #[trigger] kids.contains(x) implies {
        ||| exists|f: FileView| #[trigger]
            listing.contains(f) && is_top_entry(m, f, Some(u), Some(u), x)
        ||| exists|key: Text| #[trigger]
            m.locations.contains_key(key) && is_unused_row(m, u, listing, key, x)
    } by {
        if more.contains(x) {
            let k = choose|k: int| 0 <= k < more.len() && more[k] == x;
            p.lemma_filter_pred(keep, k);
            assert(kept.contains(kept[k]));
            p.lemma_filter_contains_rev(keep, kept[k]);
            let i = choose|i: int| 0 <= i < p.len() && p[i] == kept[k];
            assert(map_of(p).contains_key(p[i].0) && map_of(p)[p[i].0] == p[i].1);
            let key = p[i].0;
            assert(x == more[k]);
            assert(unused[k] == unused_file(key));
            assert forall|j: int| 0 <= j < listing.len() implies (#[trigger] listing[j]).key
                != key by {
                if listing[j].key == key {
                    assert(has_file_with(listing, key));
                }
            }
            assert(m.locations.contains_key(key));
            assert(is_unused_row(m, u, listing, key, x));
        }
    }
}

/// Whether the row stands for a key that is on the drive and has no listed file.
pub open spec fn is_unused_row(
    m: MetaView,
    u: Text,
    listing: Seq<FileView>,
    key: Text,
    x: NodeView,
) -> bool {
    &&& m.locations[key].contains(u)
    &&& forall|i: int| 0 <= i < listing.len() ==> (#[trigger] listing[i]).key != key
    &&& x == (NodeView::File {
        meta: m,
        file: FileView { path: "<unused key> "@ + key, key, size: key_size(key) },
        highlight: Some(u),
    })
}

/// Every file in a directory of a drive, however deep, has the drive among the locations of
/// its key; and every directory on the way asks for the drive.
pub proof fn law_directories_of_a_drive_stay_on_it(
    m: MetaView,
    u: Text,
    name: Text,
    listing: Option<Seq<FileView>>,
    way: Seq<NodeView>,
    i: int,
)
    requires
        is_way(way),
        way[0] == (NodeView::FilesOnDrive {
            meta: m,
            drive_uuid: u,
            drive_name: name,
            listing,
        }),
        0 < i < way.len(),
    ensures
        match way[i] {
            NodeView::Directory { meta, drive, .. } => meta == m && drive == Some(u),
            NodeView::File { meta, file, .. } => meta == m && (i > 1 ==> m.files.contains(file)
                && m.locations.contains_key(file.key) && m.locations[file.key].contains(u)),
            _ => false,
        },
    decreases i,
{
    assert(way[i - 1].children().contains(way[i - 1 + 1]));
    if i == 1 {
        let files = listed_files(listing);
        let unused = unused_files(m, u, files);
        let more = file_nodes(m, unused, Some(u));
        lemma_entries(m, Seq::empty(), Some(u), files, 0, Some(u), more);
        let x = way[1];
        if more.contains(x) {
            let k = choose|k: int| 0 <= k < more.len() && more[k] == x;
            assert(x == more[k]);
        } else {
            assert(is_entry(m, Seq::empty(), Some(u), files, 0, Some(u), x));
        }
    } else {
        law_directories_of_a_drive_stay_on_it(m, u, name, listing, way, i - 1);
        match way[i - 1] {
            NodeView::Directory { meta, dir_path, drive } => {
                law_directory_shows_nothing_else(m, dir_path, drive, way[i]);
            },
            _ => {
                assert(way[i - 1].children() =~= Seq::empty());
            },
        }
    }
}

/// Every listed file of the working tree that is on record for the drive is reached from the
/// files on the drive.
pub proof fn law_every_file_on_a_drive_is_reached(
    m: MetaView,
    u: Text,
    name: Text,
    listing: Seq<FileView>,
    f: FileView,
)
    requires
        m.locations.dom().finite(),
        listing.contains(f),
        m.files.contains(f),
        m.locations.contains_key(f.key),
        m.locations[f.key].contains(u),
        is_plain(f.path),
    ensures
        exists|way: Seq<NodeView>| #[trigger]
            is_way(way) && way[0] == (NodeView::FilesOnDrive {
                meta: m,
                drive_uuid: u,
                drive_name: name,
                listing: Some(listing),
            }) && (way.last() matches NodeView::File { meta, file, .. } && meta == m && file == f),
{
    reveal_strlit("/");
    let top = NodeView::FilesOnDrive {
        meta: m,
        drive_uuid: u,
        drive_name: name,
        listing: Some(listing),
    };
    law_drive_shows_its_files(m, u, name, listing);
    lemma_next_of(f.path, '/', 0);
    let j = next_of(f.path, '/', 0);
    if j < f.path.len() {
        let first = f.path.take(j);
        let rest = f.path.skip(j + 1);
        assert(f.path =~= first + "/"@ + rest);
        assert(is_name(first));
        assert(leads_by(f.path, Seq::empty(), first, rest));
        let way = lemma_way_down(m, Some(u), f, j);
        lemma_way_on(top, way);
        assert(is_way(seq![top] + way));
    } else {
        assert(is_name(f.path));
        let end = NodeView::File { meta: m, file: f, highlight: Some(u) };
        let way = seq![end];
        assert(is_way(way));
        lemma_way_on(top, way);
        assert(is_way(seq![top] + way));
    }
}

// ---------------------------------------------------------------------------------------
// A file

/// Whether the row is that of a drive: its name, how far it is trusted, and a star where the
/// file was come upon on it.
pub open spec fn tells_of_drive(m: MetaView, row: Text, u: Text, highlight: Option<Text>) -> bool {
    let trust = if m.remotes.contains_key(u) {
        m.remotes[u].trust
    } else {
        TrustLevel::SemiTrusted
    };
    if highlight == Some(u) {
        row == "  "@ + drive_name(m, u) + " "@ + seq![trust_letter(trust)] + " ★"@
    } else {
        row == "  "@ + drive_name(m, u) + " "@ + seq![trust_letter(trust)]
    }
}

/// Whether the rows tell of the drives, each in a row of its own, by ascending uuid.
pub open spec fn tell_of_drives(
    m: MetaView,
    rows: Seq<Text>,
    drives: Set<Text>,
    highlight: Option<Text>,
) -> bool {
    exists|uuids: Seq<Text>| #[trigger]
        lists_all(uuids, drives) && rows.len() == uuids.len() && forall|i: int|
            0 <= i < uuids.len() ==> tells_of_drive(m, #[trigger] rows[i], uuids[i], highlight)
}

/// Whether the members of the set are listed, each once and in ascending order.
pub open spec fn lists_all(list: Seq<Text>, set: Set<Text>) -> bool {
    &&& list.len() == set.len()
    &&& forall|x: Text| #[trigger] list.contains(x) <==> set.contains(x)
    &&& forall|i: int, j: int|
        0 <= i < j < list.len() ==> text_less(#[trigger] list[i], #[trigger] list[j])
}

proof fn lemma_lists_all(set: Set<Text>)
    requires
        set.finite(),
    ensures
        lists_all(members_of(set), set),
{
    lemma_members_of(set);
    let s = set.mk_map(|k: Text| ());
    assert(s.dom() =~= set);
    lemma_pairs_of_finite(s);
    let p = pairs_of(s);
    let w = members_of(set);
    assert forall|i: int, j: int| 0 <= i < j < w.len() implies text_less(
        #[trigger] w[i],
        #[trigger] w[j],
    ) by {
        assert(text_less(p[i].0, p[j].0));
    }
}

/// The details of a file tell where its content is: on the drives on record and the one it was
/// come upon on, all of them and no other, and how many they are. Only where there is none is
/// it where git-annex says that it is.
#[verifier::rlimit(40)]
pub proof fn law_details_tell_where(
    m: MetaView,
    f: FileView,
    highlight: Option<Text>,
    live: Set<Text>,
    drives: Set<Text>,
)
    requires
        drives.finite(),
        forall|u: Text| #[trigger]
            drives.contains(u) <==> (m.locations.contains_key(f.key) && m.locations[f.key].contains(u))
                || highlight == Some(u),
        live.finite(),
    ensures
        ({
            let d = (NodeView::File { meta: m, file: f, highlight }).details(live);
            let head = if f.size is Some {
                3int
            } else {
                2
            };
            &&& d.len() > head
            &&& d[0] == "path: "@ + f.path
            &&& d[1] == "key: "@ + f.key
            &&& f.size matches Some(n) ==> d[2] == "size: "@ + bytes_text(n as nat)
            &&& drives.len() > 0 ==> {
                &&& d[head] == "present on "@ + decimal(drives.len()) + " locations:"@
                &&& tell_of_drives(m, d.skip(head + 1), drives, highlight)
            }
            &&& drives.len() == 0 && live.len() > 0 ==> {
                &&& d[head] == "present on "@ + decimal(live.len()) + " locations:"@
                &&& tell_of_drives(m, d.skip(head + 1), live, None)
            }
            &&& drives.len() == 0 && live.len() == 0 ==> {
                &&& d[head] == "no location records (perhaps never copied)"@
                &&& d.len() == head + 1
            }
        }),
        (NodeView::File { meta: m, file: f, highlight }).live_query() == (if drives.len() == 0 {
            Some((m.root, f.key))
        } else {
            None
        }),
{
    let d = (NodeView::File { meta: m, file: f, highlight }).details(live);
    let head = if f.size is Some {
        3int
    } else {
        2
    };
    let none = Set::<Text>::empty();
    let known = recorded_locations(m, f.key, highlight);
    assert(known =~= drives);
    let shown = shown_locations(m, f.key, highlight, live);
    if drives.len() == 0 {
        assert(drives =~= none);
        if live.len() == 0 {
            assert(live =~= none);
        }
        if let Some(h) = highlight {
            assert(drives.contains(h));
        }
    } else {
        assert(drives != none);
    }
    if shown.len() > 0 {
        assert(shown != none);
        lemma_lists_all(shown);
        let uuids = members_of(shown);
        let rows = d.skip(head + 1);
        assert(lists_all(uuids, shown));
        assert forall|i: int| 0 <= i < uuids.len() implies tells_of_drive(
            m,
            #[trigger] rows[i],
            uuids[i],
            highlight,
        ) by {
            let base = "  "@ + drive_name(m, uuids[i]) + " "@ + seq![
                trust_letter(
                    if m.remotes.contains_key(uuids[i]) {
                        m.remotes[uuids[i]].trust
                    } else {
                        TrustLevel::SemiTrusted
                    },
                ),
            ];
            assert(base + Seq::<char>::empty() =~= base);
        }
        assert(tell_of_drives(m, rows, shown, highlight));
    }
}

/// Whether the names of the drives are listed, in ascending order.
pub open spec fn names_drives(m: MetaView, names: Seq<Text>, drives: Set<Text>) -> bool {
    &&& names.len() == drives.len()
    &&& forall|u: Text| #[trigger] drives.contains(u) ==> names.contains(drive_name(m, u))
    &&& forall|i: int|
        0 <= i < names.len() ==> exists|u: Text| #[trigger]
            drives.contains(u) && drive_name(m, u) == #[trigger] names[i]
    &&& forall|i: int, j: int|
        0 <= i < j < names.len() ==> !text_less(#[trigger] names[j], #[trigger] names[i])
}

/// The row of a file shows its path, its size where that is known, and the names of the drives
/// on record: all of up to three, else the first and how many more there are.
#[verifier::rlimit(40)]
pub proof fn law_file_row(m: MetaView, f: FileView, highlight: Option<Text>)
    requires
        m.locations.contains_key(f.key) ==> m.locations[f.key].finite(),
    ensures
        ({
            let label = (NodeView::File { meta: m, file: f, highlight }).label();
            let base = match f.size {
                Some(n) => f.path + " ("@ + bytes_text(n as nat) + ")"@,
                None => f.path,
            };
            &&& !m.locations.contains_key(f.key) ==> label == base
            &&& m.locations.contains_key(f.key) && m.locations[f.key].len() <= 3
                ==> exists|names: Seq<Text>| #[trigger]
                names_drives(m, names, m.locations[f.key]) && label == base + (" ["@ + join(
                    names,
                    ","@,
                ) + "]"@)
            &&& m.locations.contains_key(f.key) && m.locations[f.key].len() > 3
                ==> exists|names: Seq<Text>| #[trigger]
                names_drives(m, names, m.locations[f.key]) && label == base + (" ["@ + names[0]
                    + "+"@ + decimal((m.locations[f.key].len() - 1) as nat) + "]"@)
        }),
{
    let label = (NodeView::File { meta: m, file: f, highlight }).label();
    if m.locations.contains_key(f.key) {
        let drives = m.locations[f.key];
        let names = location_names(m, f.key);
        let name = |u: Text| drive_name(m, u);
        let w = members_of(drives);
        let given = w.map_values(name);
        lemma_members_of(drives);
        law_sorted(given, |t: Text| (0int, t));
        assert forall|u: Text| #[trigger] drives.contains(u) implies names.contains(
            drive_name(m, u),
        ) by {
            assert(w.contains(u));
            let k = choose|k: int| 0 <= k < w.len() && w[k] == u;
            assert(given[k] == drive_name(m, u));
            assert(given.contains(drive_name(m, u)));
        }
        assert forall|i: int| 0 <= i < names.len() implies exists|u: Text| #[trigger]
            drives.contains(u) && drive_name(m, u) == #[trigger] names[i] by {
            assert(names.contains(names[i]));
            assert(given.contains(names[i]));
            let k = choose|k: int| 0 <= k < given.len() && given[k] == names[i];
            assert(w.contains(w[k]));
            assert(drives.contains(w[k]));
            assert(drive_name(m, w[k]) == names[i]);
        }
        assert forall|i: int, j: int| 0 <= i < j < names.len() implies !text_less(
            #[trigger] names[j],
            #[trigger] names[i],
        ) by {
            assert(!key_less((0int, names[j]), (0int, names[i])));
        }
        assert(names_drives(m, names, drives));
    } else {
        let base = match f.size {
            Some(n) => f.path + " ("@ + bytes_text(n as nat) + ")"@,
            None => f.path,
        };
        assert(base + Seq::<char>::empty() =~= base);
    }
}

/// The row of a directory shows the last name of its path.
pub proof fn law_directory_row(m: MetaView, parent: Text, name: Text, drive: Option<Text>)
    requires
        is_name(name),
        name.len() > 0,
    ensures
        (NodeView::Directory { meta: m, dir_path: name, drive }).label() == name + "/"@,
        (NodeView::Directory { meta: m, dir_path: parent + "/"@ + name, drive }).label() == name
            + "/"@,
{
    lemma_last_name(parent, name);
    lemma_name_only(name);
    let alone = split_on(name, '/');
    assert(alone =~= seq![name]);
    reveal_strlit("/");
    assert((parent + "/"@ + name).len() > 0);
}

proof fn lemma_last_name(parent: Text, name: Text)
    requires
        is_name(name),
    ensures
        split_on(parent + "/"@ + name, '/').last() == name,
    decreases parent.len(),
{
    reveal_strlit("/");
    let all = parent + "/"@ + name;
    lemma_next_of(all, '/', 0);
    let j = next_of(all, '/', 0);
    assert(all[parent.len() as int] == '/');
    assert(j <= parent.len());
    let rest = all.skip(j + 1);
    if j == parent.len() {
        assert(rest =~= name);
        lemma_name_only(name);
        assert(split_on(name, '/') =~= seq![name]);
    } else {
        let shorter = parent.skip(j + 1);
        assert(rest =~= shorter + "/"@ + name);
        lemma_last_name(shorter, name);
    }
    assert(split_on(rest, '/').len() > 0);
    assert(split_on(all, '/') =~= seq![all.take(j)] + split_on(rest, '/'));
}

/// Wherever files are shown, directories come before files, and each by what is shown of
/// them.
pub proof fn law_entries_in_order(n: NodeView, i: int, j: int)
    requires
        n is Directory || n is AllFiles || n is FilesOnDrive,
        0 <= i < j < n.children().len(),
    ensures
        n.children()[j] is Directory ==> n.children()[i] is Directory,
        (n.children()[i] is Directory <==> n.children()[j] is Directory) ==> !text_less(
            n.children()[j].label(),
            n.children()[i].label(),
        ),
{
    let nodes = match n {
        NodeView::FilesOnDrive { meta, drive_uuid, listing, .. } => {
            let l = listed_files(listing);
            directory_nodes(meta, Seq::empty(), Some(drive_uuid), subdirectories(l, 0))
                + file_nodes(meta, direct_files(l, 0), Some(drive_uuid)) + file_nodes(
                meta,
                unused_files(meta, drive_uuid, l),
                Some(drive_uuid),
            )
        },
        NodeView::Directory { meta, dir_path, drive } => {
            let k = directory_prefix(dir_path).len() as int;
            let below = meta.files.filter(|f: FileView| is_below(meta, f, dir_path, drive));
            directory_nodes(meta, dir_path, drive, subdirectories(below, k)) + file_nodes(
                meta,
                direct_files(below, k),
                None,
            )
        },
        NodeView::AllFiles { meta } => {
            directory_nodes(meta, Seq::empty(), None, subdirectories(meta.files, 0)) + file_nodes(
                meta,
                direct_files(meta.files, 0),
                None,
            )
        },
        _ => Seq::empty(),
    };
    let kids = n.children();
    assert(kids == in_entry_order(nodes));
    law_sorted(nodes, |x: NodeView| entry_key(x));
    lemma_entry_nodes(nodes, i);
    lemma_entry_nodes(nodes, j);
    assert(!key_less(entry_key(kids[j]), entry_key(kids[i])));
}

/// The record behind a file is there where its key is on record, and has a line for each drive
/// that has the content, by ascending uuid.
pub proof fn law_file_record(m: MetaView, f: FileView, highlight: Option<Text>)
    requires
        m.locations.contains_key(f.key) ==> m.locations[f.key].finite(),
    ensures
        ({
            let raw = (NodeView::File { meta: m, file: f, highlight }).raw_text();
            &&& raw is Some <==> m.locations.contains_key(f.key)
            &&& m.locations.contains_key(f.key) ==> exists|uuids: Seq<Text>| #[trigger]
                lists_all(uuids, m.locations[f.key]) && raw == Some(
                    "key: "@ + f.key + "\n"@ + member_lines(uuids),
                )
        }),
{
    if m.locations.contains_key(f.key) {
        lemma_lists_all(m.locations[f.key]);
    }
}

/// One more drive is one more line.
pub proof fn law_record_lines(uuids: Seq<Text>, u: Text)
    ensures
        member_lines(Seq::empty()).len() == 0,
        member_lines(uuids.push(u)) == member_lines(uuids) + "  "@ + u + "\n"@,
{
    assert(uuids.push(u).drop_last() =~= uuids);
}

/// The row of the files on a drive shows how many keys are there, and that of all files how
/// many files there are.
pub proof fn law_rows_of_lists(
    m: MetaView,
    u: Text,
    name: Text,
    listing: Option<Seq<FileView>>,
)
    requires
        m.locations.dom().finite(),
    ensures
        (NodeView::FilesOnDrive { meta: m, drive_uuid: u, drive_name: name, listing }).label()
            == "files on "@ + name + " ("@ + decimal(
            m.locations.dom().filter(|k: Text| m.locations[k].contains(u)).len(),
        ) + ")"@,
        (NodeView::AllFiles { meta: m }).label() == "all annexed files ("@ + decimal(m.files.len())
            + ")"@,
{
    law_keys_on_a_drive(m.locations, u);
}

/// Before the files on a drive are shown, git-annex is asked for them, by the name of the
/// drive, or as `here`; what it answers is what is listed.
pub proof fn law_files_on_a_drive_are_asked_for(
    m: MetaView,
    u: Text,
    name: Text,
    files: Seq<FileView>,
)
    ensures
        ({
            let n = NodeView::FilesOnDrive { meta: m, drive_uuid: u, drive_name: name, listing: None };
            let answered = n.with_listing(files);
            &&& u == m.uuid ==> n.listing_query() == Some((m.root, "here"@))
            &&& u != m.uuid ==> n.listing_query() == Some((m.root, name))
            &&& answered == (NodeView::FilesOnDrive {
                meta: m,
                drive_uuid: u,
                drive_name: name,
                listing: Some(files),
            })
            &&& answered.listing_query() is None
        }),
{
}

/// The details of a directory name its path, and those of the files on a drive the drive.
pub proof fn law_details_of_lists(
    m: MetaView,
    path: Text,
    drive: Option<Text>,
    u: Text,
    name: Text,
    listing: Option<Seq<FileView>>,
    live: Set<Text>,
)
    ensures
        ({
            let d = (NodeView::Directory { meta: m, dir_path: path, drive }).details(live);
            &&& d.len() == 1
            &&& path.len() > 0 ==> d[0] == "directory: "@ + path
            &&& path.len() == 0 ==> d[0] == "directory: "@ + "<root>"@
        }),
        (NodeView::FilesOnDrive { meta: m, drive_uuid: u, drive_name: name, listing }).details(
            live,
        )[0] == "Drive: "@ + name + " ("@ + u + ")"@,
{
}

} // verus!
