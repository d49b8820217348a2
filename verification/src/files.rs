//! The nodes for files and directories.

use std::rc::Rc;
use vstd::prelude::*;
use vstd::slice::slice_subrange;
use crate::annex::{count_keys_on, drive_name, keys_on, short_name, AnnexMetadata, AnnexedFile, FileView, MetaView};
use crate::logs::{key_size, parse_size_from_key, sort_strings};
use crate::node::{no_nodes, push_node, AllFilesNode, AnnexFileNode, DirectoryNode, FilesOnDriveNode, NodeView, TreeNode};
use crate::order::{arrange, arranged, law_sorted, lemma_order, sorted_by, sorted_texts, Key, SortKey};
use crate::reading::{is_solid, law_last_place};
use crate::table::{lemma_members_of, members_of, pairs_of, Dup, StrSet};
use crate::text::{before_char, begins_with, chars_of, count_text, cut_at_char, decimal, join, join_of, labelled, lemma_chars_deep, lemma_next_of, lines, lines_of, next_of, no_rows, push_row, rfind, rfind_index, split_chars, split_on, stands_at, starts_with, string_of, trim, trim_of, Text};
use crate::trust::{trust_letter, TrustLevel};
use crate::usage::child_path;
use crate::util::{bytes_text, human_bytes};

verus! {

// ---------------------------------------------------------------------------------------
// A file

/// The names of the drives that have the content of `key`, in order.
pub open spec fn location_names(m: MetaView, key: Text) -> Seq<Text> {
    sorted_texts(members_of(m.locations[key]).map_values(|u: Text| drive_name(m, u)))
}

/// Where the content of `key` is, in brackets: up to three names, else the first one and how
/// many more there are.
pub open spec fn location_badge(m: MetaView, key: Text) -> Text {
    if m.locations.contains_key(key) {
        let names = location_names(m, key);
        if names.len() > 3 {
            " ["@ + names[0] + "+"@ + decimal((names.len() - 1) as nat) + "]"@
        } else {
            " ["@ + join(names, ","@) + "]"@
        }
    } else {
        Seq::empty()
    }
}

/// What the list shows of a file: its path, its size, and where it is.
pub open spec fn file_label(m: MetaView, f: FileView) -> Text {
    let base = match f.size {
        Some(n) => f.path + " ("@ + bytes_text(n as nat) + ")"@,
        None => f.path,
    };
    base + location_badge(m, f.key)
}

/// The drives that are shown for a file: those on record and the one it was come upon on,
/// else those of a live answer.
pub open spec fn shown_locations(
    m: MetaView,
    key: Text,
    highlight: Option<Text>,
    live: Set<Text>,
) -> Set<Text> {
    let known = recorded_locations(m, key, highlight);
    if known == Set::<Text>::empty() {
        live
    } else {
        known
    }
}

/// The drives on record for a key, and the one it was come upon on.
pub open spec fn recorded_locations(m: MetaView, key: Text, highlight: Option<Text>) -> Set<Text> {
    let recorded = if m.locations.contains_key(key) {
        m.locations[key]
    } else {
        Set::empty()
    };
    match highlight {
        Some(h) => recorded.insert(h),
        None => recorded,
    }
}

/// The row for a drive that has the content.
pub open spec fn location_row(m: MetaView, u: Text, highlight: Option<Text>) -> Text {
    let trust = if m.remotes.contains_key(u) {
        m.remotes[u].trust
    } else {
        TrustLevel::SemiTrusted
    };
    "  "@ + drive_name(m, u) + " "@ + seq![trust_letter(trust)] + (if highlight == Some(u) {
        " ★"@
    } else {
        Seq::empty()
    })
}

/// What is known of a file.
pub open spec fn file_details(
    m: MetaView,
    f: FileView,
    highlight: Option<Text>,
    live: Set<Text>,
) -> Seq<Text> {
    let rows = seq!["path: "@ + f.path, "key: "@ + f.key];
    let sized = match f.size {
        Some(n) => rows.push("size: "@ + bytes_text(n as nat)),
        None => rows,
    };
    let locations = shown_locations(m, f.key, highlight, live);
    if locations == Set::<Text>::empty() {
        sized.push("no location records (perhaps never copied)"@)
    } else {
        sized.push("present on "@ + decimal(locations.len()) + " locations:"@) + members_of(
            locations,
        ).map_values(|u: Text| location_row(m, u, highlight))
    }
}

/// A line for each member.
pub open spec fn member_lines(members: Seq<Text>) -> Text
    decreases members.len(),
{
    if members.len() == 0 {
        Seq::empty()
    } else {
        member_lines(members.drop_last()) + "  "@ + members.last() + "\n"@
    }
}

/// The locations on record, as lines.
pub open spec fn file_raw(m: MetaView, key: Text) -> Option<Text> {
    if m.locations.contains_key(key) {
        Some("key: "@ + key + "\n"@ + member_lines(members_of(m.locations[key])))
    } else {
        None
    }
}

fn location_names_of(meta: &AnnexMetadata, uuids: &StrSet) -> (r: Vec<String>)
    ensures
        r.deep_view() == sorted_texts(
            members_of(uuids@).map_values(|u: Text| drive_name(meta.deep_view(), u)),
        ),
{
    let n: usize = uuids.len();
    let ghost w = members_of(uuids@);
    let ghost name = |u: Text| drive_name(meta.deep_view(), u);
    let mut names: Vec<String> = Vec::new();
    let mut i: usize = 0;
    assert(names.deep_view() =~= w.take(0).map_values(name));
    while i < n
        invariant
            i <= n,
            n == w.len(),
            w == members_of(uuids@),
            name == (|u: Text| drive_name(meta.deep_view(), u)),
            names.deep_view() == w.take(i as int).map_values(name),
        decreases n - i,
    {
        push_row(&mut names, short_name(meta, uuids.member_at(i).as_str()));
        assert(w.take(i + 1).map_values(name) =~= w.take(i as int).map_values(name).push(
            name(w[i as int]),
        ));
        i += 1;
    }
    assert(w.take(i as int) =~= w);
    sort_strings(names)
}

impl AnnexFileNode {
    fn badge(&self) -> (r: String)
        ensures
            r@ == location_badge(self.meta.deep_view(), self.file.key@),
    {
        match self.meta.locations.get(self.file.key.as_str()) {
            Some(uuids) => {
                let names = location_names_of(&*self.meta, uuids);
                if names.len() > 3 {
                    labelled(" [", names[0].as_str()).concat("+").concat(
                        count_text(names.len() - 1).as_str(),
                    ).concat("]")
                } else {
                    labelled(" [", join_of(&names, ",").as_str()).concat("]")
                }
            },
            None => {
                let r = String::new();
                assert(r@ =~= Seq::<char>::empty());
                r
            },
        }
    }

    /// What the list shows of it.
    pub fn label(&self) -> (r: String)
        ensures
            r@ == file_label(self.meta.deep_view(), self.file.deep_view()),
    {
        let base = match self.file.size {
            Some(n) => labelled(self.file.path.as_str(), " (").concat(human_bytes(n).as_str()).concat(
                ")",
            ),
            None => self.file.path.clone(),
        };
        base.concat(self.badge().as_str())
    }

    /// The drives on record for the file, and the one it was come upon on.
    fn recorded(&self) -> (r: StrSet)
        ensures
            r@ == recorded_locations(
                self.meta.deep_view(),
                self.file.key@,
                self.highlight_drive.deep_view(),
            ),
    {
        let mut known = match self.meta.locations.get(self.file.key.as_str()) {
            Some(uuids) => uuids.dup(),
            None => StrSet::new(),
        };
        if let Some(h) = &self.highlight_drive {
            known.insert(h.clone());
        }
        known
    }

    /// Whether nothing is on record, so that git-annex is to be asked.
    pub fn wants_live(&self) -> (r: bool)
        ensures
            r == (recorded_locations(
                self.meta.deep_view(),
                self.file.key@,
                self.highlight_drive.deep_view(),
            ) == Set::<Text>::empty()),
    {
        self.recorded().is_empty()
    }

    fn location_row_of(&self, u: &String) -> (r: String)
        ensures
            r@ == location_row(self.meta.deep_view(), u@, self.highlight_drive.deep_view()),
    {
        let trust = match self.meta.remotes.get(u.as_str()) {
            Some(r) => r.trust,
            None => TrustLevel::SemiTrusted,
        };
        let star: bool = match &self.highlight_drive {
            Some(h) => *h == *u,
            None => false,
        };
        let mut mark: Vec<char> = Vec::new();
        mark.push(trust.short());
        assert(mark@ =~= seq![trust_letter(trust)]);
        let name = short_name(&*self.meta, u.as_str());
        let row = labelled("  ", name.as_str()).concat(" ").concat(
            string_of(mark.as_slice()).as_str(),
        );
        if star {
            row.concat(" ★")
        } else {
            let empty = String::new();
            assert(empty@ =~= Seq::<char>::empty());
            row.concat(empty.as_str())
        }
    }

    /// What is known of the file. `live` holds what git-annex answers where nothing is on
    /// record.
    pub fn details(&self, live: &StrSet) -> (r: Vec<String>)
        ensures
            r.deep_view() == file_details(
                self.meta.deep_view(),
                self.file.deep_view(),
                self.highlight_drive.deep_view(),
                live@,
            ),
    {
        let mut d = no_rows();
        push_row(&mut d, labelled("path: ", self.file.path.as_str()));
        push_row(&mut d, labelled("key: ", self.file.key.as_str()));
        if let Some(n) = self.file.size {
            push_row(&mut d, labelled("size: ", human_bytes(n).as_str()));
        }
        let recorded = self.recorded();
        let shown = if recorded.is_empty() {
            live.dup()
        } else {
            recorded
        };
        if shown.is_empty() {
            push_row(&mut d, "no location records (perhaps never copied)".to_string());
            return d;
        }
        let n: usize = shown.len();
        push_row(&mut d, labelled("present on ", count_text(n).as_str()).concat(" locations:"));
        let ghost start = d.deep_view();
        let ghost w = members_of(shown@);
        let ghost row = |u: Text|
            location_row(self.meta.deep_view(), u, self.highlight_drive.deep_view());
        let mut i: usize = 0;
        assert(start + w.take(0).map_values(row) =~= start);
        while i < n
            invariant
                i <= n,
                n == w.len(),
                w == members_of(shown@),
                row == (|u: Text|
                    location_row(self.meta.deep_view(), u, self.highlight_drive.deep_view())),
                d.deep_view() == start + w.take(i as int).map_values(row),
            decreases n - i,
        {
            push_row(&mut d, self.location_row_of(shown.member_at(i)));
            assert(start + w.take(i + 1).map_values(row) =~= (start + w.take(i as int).map_values(
                row,
            )).push(row(w[i as int])));
            i += 1;
        }
        assert(w.take(i as int) =~= w);
        d
    }

    /// The locations on record, as lines.
    pub fn raw_text(&self) -> (r: Option<String>)
        ensures
            r.deep_view() == file_raw(self.meta.deep_view(), self.file.key@),
    {
        match self.meta.locations.get(self.file.key.as_str()) {
            Some(uuids) => {
                let n: usize = uuids.len();
                let ghost w = members_of(uuids@);
                let mut s = labelled("key: ", self.file.key.as_str()).concat("\n");
                let ghost start = s@;
                let mut i: usize = 0;
                assert(start + member_lines(w.take(0)) =~= start);
                while i < n
                    invariant
                        i <= n,
                        n == w.len(),
                        w == members_of(uuids@),
                        s@ == start + member_lines(w.take(i as int)),
                    decreases n - i,
                {
                    let ghost before = member_lines(w.take(i as int));
                    proof {
                        assert(w.take(i + 1).drop_last() =~= w.take(i as int));
                        assert(w.take(i + 1).last() == w[i as int]);
                    }
                    s = s.concat("  ").concat(uuids.member_at(i).as_str()).concat("\n");
                    assert(s@ =~= start + (before + "  "@ + w[i as int] + "\n"@));
                    i += 1;
                }
                assert(w.take(i as int) =~= w);
                Some(s)
            },
            None => None,
        }
    }
}

// ---------------------------------------------------------------------------------------
// Directories

/// The last name of a path.
pub open spec fn last_name(path: Text) -> Text {
    split_on(path, '/').last()
}

/// The last name of a path.
pub fn last_name_of(path: &str) -> (r: String)
    ensures
        r@ == last_name(path@),
{
    let c = chars_of(path);
    let pieces = split_chars(c.as_slice(), '/');
    let n: usize = pieces.len();
    proof {
        lemma_chars_deep(pieces@[n - 1]);
        assert(pieces.deep_view()[n - 1] == pieces@[n - 1]@);
    }
    string_of(pieces[n - 1].as_slice())
}

/// What the list shows of a directory.
pub open spec fn directory_label(dir_path: Text) -> Text {
    if dir_path.len() == 0 {
        "<root>"@
    } else {
        last_name(dir_path) + "/"@
    }
}

/// Whether what follows the first `n` characters of the path leads into a directory.
pub open spec fn goes_deeper(f: FileView, n: int) -> bool {
    next_of(f.path.skip(n), '/', 0) < f.path.skip(n).len()
}

/// The first name after the first `n` characters of the path.
pub open spec fn next_name(f: FileView, n: int) -> Text {
    before_char(f.path.skip(n), '/')
}

/// The directories that the files lead into.
pub open spec fn subdirectories(files: Seq<FileView>, n: int) -> Set<Text> {
    Set::new(
        |s: Text|
            exists|i: int|
                0 <= i < files.len() && goes_deeper(#[trigger] files[i], n) && next_name(
                    files[i],
                    n,
                ) == s,
    )
}

/// The files that lead into no further directory.
pub open spec fn direct_files(files: Seq<FileView>, n: int) -> Seq<FileView> {
    files.filter(|f: FileView| !goes_deeper(f, n))
}

/// The nodes for the directories.
pub open spec fn directory_nodes(
    m: MetaView,
    dir_path: Text,
    drive: Option<Text>,
    names: Set<Text>,
) -> Seq<NodeView> {
    members_of(names).map_values(
        |s: Text|
            NodeView::Directory { meta: m, dir_path: child_path(dir_path, s), drive },
    )
}

/// The nodes for the files.
pub open spec fn file_nodes(m: MetaView, files: Seq<FileView>, highlight: Option<Text>) -> Seq<
    NodeView,
> {
    files.map_values(|f: FileView| NodeView::File { meta: m, file: f, highlight })
}

/// The place of an entry: directories before files, each by what is shown.
pub open spec fn entry_key(n: NodeView) -> Key {
    match n {
        NodeView::Directory { dir_path, .. } => (0, directory_label(dir_path)),
        NodeView::File { meta, file, .. } => (1, file_label(meta, file)),
        _ => (1, Seq::empty()),
    }
}

/// Entries in the order in which they are shown.
pub open spec fn in_entry_order(nodes: Seq<NodeView>) -> Seq<NodeView> {
    sorted_by(nodes, |n: NodeView| entry_key(n))
}

fn sort_nodes(nodes: Vec<Rc<TreeNode>>) -> (r: Vec<Rc<TreeNode>>)
    ensures
        r.deep_view() == in_entry_order(nodes.deep_view()),
{
    let ghost d = nodes.deep_view();
    let ghost key = |n: NodeView| entry_key(n);
    let mut keys: Vec<SortKey> = Vec::new();
    let mut i: usize = 0;
    assert(keys.deep_view() =~= d.take(0).map_values(key));
    while i < nodes.len()
        invariant
            i <= nodes@.len(),
            d == nodes.deep_view(),
            key == (|n: NodeView| entry_key(n)),
            keys@.len() == i,
            keys.deep_view() == d.take(i as int).map_values(key),
        decreases nodes@.len() - i,
    {
        let ghost before = keys.deep_view();
        let node = &*nodes[i];
        assert(node.deep_view() == d[i as int]);
        let k = match node {
            TreeNode::Directory(n) => SortKey::new(0, n.label().as_str()),
            TreeNode::File(n) => SortKey::new(1, n.label().as_str()),
            _ => {
                proof {
                    reveal_strlit("");
                    assert(""@ =~= Seq::<char>::empty());
                }
                SortKey::new(1, "")
            },
        };
        keys.push(k);
        assert(keys.deep_view() =~= before.push(key(d[i as int])));
        assert(d.take(i + 1).map_values(key) =~= d.take(i as int).map_values(key).push(
            key(d[i as int]),
        ));
        i += 1;
    }
    assert(d.take(i as int) =~= d);
    let out = arrange(nodes, &keys);
    proof {
        lemma_order(keys.deep_view());
        assert(out.deep_view() =~= arranged(d, keys.deep_view()));
    }
    out
}

/// The directories that the files lead into, and the files that lead into none.
fn split_level(files: &Vec<AnnexedFile>, n: usize) -> (r: (StrSet, Vec<AnnexedFile>))
    requires
        forall|i: int| 0 <= i < files@.len() ==> (#[trigger] files@[i]).path@.len() >= n,
    ensures
        r.0@ == subdirectories(files.deep_view(), n as int),
        r.1.deep_view() == direct_files(files.deep_view(), n as int),
{
    let ghost d = files.deep_view();
    let ghost direct = |f: FileView| !goes_deeper(f, n as int);
    let mut names = StrSet::new();
    let mut out: Vec<AnnexedFile> = Vec::new();
    let mut i: usize = 0;
    proof {
        reveal(Seq::filter);
        assert(d.take(0).filter(direct) =~= Seq::<FileView>::empty());
        assert(out.deep_view() =~= Seq::<FileView>::empty());
        assert(names@ =~= subdirectories(d.take(0), n as int));
    }
    while i < files.len()
        invariant
            i <= files@.len(),
            d == files.deep_view(),
            direct == (|f: FileView| !goes_deeper(f, n as int)),
            forall|j: int| 0 <= j < files@.len() ==> (#[trigger] files@[j]).path@.len() >= n,
            names@ == subdirectories(d.take(i as int), n as int),
            out.deep_view() == d.take(i as int).filter(direct),
        decreases files@.len() - i,
    {
        let ghost before = out.deep_view();
        let f = &files[i];
        let path = chars_of(f.path.as_str());
        let rest = slice_subrange(path.as_slice(), n, path.len());
        let (head, _tail) = cut_at_char(rest, '/');
        proof {
            assert(d[i as int] == f.deep_view());
            assert(rest@ =~= f.path@.skip(n as int));
            lemma_next_of(rest@, '/', 0);
            reveal(Seq::filter);
            assert(d.take(i + 1).drop_last() =~= d.take(i as int));
            assert(d.take(i + 1).last() == d[i as int]);
        }
        let deeper: bool = head.len() < rest.len();
        if deeper {
            names.insert(string_of(head));
        } else {
            out.push(f.dup());
            assert(out.deep_view() =~= before.push(d[i as int]));
        }
        proof {
            let now = d.take(i + 1);
            let old = d.take(i as int);
            assert forall|s: Text| #[trigger] subdirectories(now, n as int).contains(s) <==> names@.contains(
                s,
            ) by {
                if subdirectories(old, n as int).contains(s) {
                    let k = choose|k: int|
                        0 <= k < old.len() && goes_deeper(#[trigger] old[k], n as int) && next_name(
                            old[k],
                            n as int,
                        ) == s;
                    assert(now[k] == old[k]);
                }
                if deeper && s == head@ {
                    assert(now[i as int] == d[i as int]);
                }
                if subdirectories(now, n as int).contains(s) {
                    let k = choose|k: int|
                        0 <= k < now.len() && goes_deeper(#[trigger] now[k], n as int) && next_name(
                            now[k],
                            n as int,
                        ) == s;
                    if k < i {
                        assert(now[k] == old[k]);
                        assert(subdirectories(old, n as int).contains(s));
                    }
                }
            }
            assert(names@ =~= subdirectories(now, n as int));
        }
        i += 1;
    }
    assert(d.take(i as int) =~= d);
    (names, out)
}

fn push_directories(
    kids: &mut Vec<Rc<TreeNode>>,
    meta: &Rc<AnnexMetadata>,
    dir_path: &String,
    drive: &Option<String>,
    names: &StrSet,
)
    ensures
        final(kids).deep_view() == old(kids).deep_view() + directory_nodes(
            meta.deep_view(),
            dir_path@,
            drive.deep_view(),
            names@,
        ),
{
    let n: usize = names.len();
    let ghost start = kids.deep_view();
    let ghost w = members_of(names@);
    let ghost node = |s: Text|
        NodeView::Directory {
            meta: meta.deep_view(),
            dir_path: child_path(dir_path@, s),
            drive: drive.deep_view(),
        };
    let mut i: usize = 0;
    assert(start + w.take(0).map_values(node) =~= start);
    while i < n
        invariant
            i <= n,
            n == w.len(),
            w == members_of(names@),
            node == (|s: Text|
                NodeView::Directory {
                    meta: meta.deep_view(),
                    dir_path: child_path(dir_path@, s),
                    drive: drive.deep_view(),
                }),
            kids.deep_view() == start + w.take(i as int).map_values(node),
        decreases n - i,
    {
        let name = names.member_at(i);
        let path = if dir_path.as_str().is_empty() {
            name.clone()
        } else {
            dir_path.clone().concat("/").concat(name.as_str())
        };
        push_node(
            kids,
            TreeNode::Directory(
                DirectoryNode { meta: meta.dup(), dir_path: path, drive_uuid: drive.dup() },
            ),
        );
        assert(start + w.take(i + 1).map_values(node) =~= (start + w.take(i as int).map_values(
            node,
        )).push(node(w[i as int])));
        i += 1;
    }
    assert(w.take(i as int) =~= w);
}

fn push_files(
    kids: &mut Vec<Rc<TreeNode>>,
    meta: &Rc<AnnexMetadata>,
    files: &Vec<AnnexedFile>,
    highlight: &Option<String>,
)
    ensures
        final(kids).deep_view() == old(kids).deep_view() + file_nodes(
            meta.deep_view(),
            files.deep_view(),
            highlight.deep_view(),
        ),
{
    let ghost start = kids.deep_view();
    let ghost w = files.deep_view();
    let ghost node = |f: FileView|
        NodeView::File { meta: meta.deep_view(), file: f, highlight: highlight.deep_view() };
    let mut i: usize = 0;
    assert(start + w.take(0).map_values(node) =~= start);
    while i < files.len()
        invariant
            i <= files@.len(),
            w == files.deep_view(),
            node == (|f: FileView|
                NodeView::File {
                    meta: meta.deep_view(),
                    file: f,
                    highlight: highlight.deep_view(),
                }),
            kids.deep_view() == start + w.take(i as int).map_values(node),
        decreases files@.len() - i,
    {
        push_node(
            kids,
            TreeNode::File(
                AnnexFileNode {
                    meta: meta.dup(),
                    file: files[i].dup(),
                    highlight_drive: highlight.dup(),
                },
            ),
        );
        assert(start + w.take(i + 1).map_values(node) =~= (start + w.take(i as int).map_values(
            node,
        )).push(node(w[i as int])));
        i += 1;
    }
    assert(w.take(i as int) =~= w);
}

/// What the path of a file below the directory begins with.
pub open spec fn directory_prefix(dir_path: Text) -> Text {
    if dir_path.len() == 0 {
        Seq::empty()
    } else {
        dir_path + "/"@
    }
}

/// Whether the content of the key is on the drive, or no drive is asked for.
pub open spec fn is_on(m: MetaView, key: Text, drive: Option<Text>) -> bool {
    match drive {
        Some(u) => m.locations.contains_key(key) && m.locations[key].contains(u),
        None => true,
    }
}

/// Whether the file is below the directory, and on the drive if one is asked for.
pub open spec fn is_below(m: MetaView, f: FileView, dir_path: Text, drive: Option<Text>) -> bool {
    let prefix = directory_prefix(dir_path);
    starts_with(f.path, prefix) && is_on(m, f.key, drive) && f.path.len() > prefix.len()
}

/// The directories and files of a directory.
pub open spec fn directory_children(m: MetaView, dir_path: Text, drive: Option<Text>) -> Seq<
    NodeView,
> {
    let n = directory_prefix(dir_path).len() as int;
    let below = m.files.filter(|f: FileView| is_below(m, f, dir_path, drive));
    in_entry_order(
        directory_nodes(m, dir_path, drive, subdirectories(below, n)) + file_nodes(
            m,
            direct_files(below, n),
            None,
        ),
    )
}

/// What is known of a directory.
pub open spec fn directory_details(dir_path: Text) -> Seq<Text> {
    seq![
        "directory: "@ + (if dir_path.len() == 0 {
            "<root>"@
        } else {
            dir_path
        }),
    ]
}

impl DirectoryNode {
    /// What the list shows of it.
    pub fn label(&self) -> (r: String)
        ensures
            r@ == directory_label(self.dir_path@),
    {
        if self.dir_path.as_str().is_empty() {
            "<root>".to_string()
        } else {
            last_name_of(self.dir_path.as_str()).concat("/")
        }
    }

    fn holds(&self, f: &AnnexedFile, prefix: &String) -> (r: bool)
        requires
            prefix@ == directory_prefix(self.dir_path@),
        ensures
            r == is_below(
                self.meta.deep_view(),
                f.deep_view(),
                self.dir_path@,
                self.drive_uuid.deep_view(),
            ),
    {
        let path = chars_of(f.path.as_str());
        if !begins_with(path.as_slice(), prefix.as_str()) {
            return false;
        }
        if let Some(drive) = &self.drive_uuid {
            match self.meta.locations.get(f.key.as_str()) {
                Some(uuids) => {
                    if !uuids.contains(drive.as_str()) {
                        return false;
                    }
                },
                None => {
                    return false;
                },
            }
        }
        let head = chars_of(prefix.as_str());
        path.len() > head.len()
    }

    /// The nodes below it.
    pub fn children(&self) -> (r: Vec<Rc<TreeNode>>)
        ensures
            r.deep_view() == directory_children(
                self.meta.deep_view(),
                self.dir_path@,
                self.drive_uuid.deep_view(),
            ),
    {
        let ghost m = self.meta.deep_view();
        let ghost dir = self.dir_path@;
        let ghost drive = self.drive_uuid.deep_view();
        let prefix = if self.dir_path.as_str().is_empty() {
            let r = String::new();
            assert(r@ =~= Seq::<char>::empty());
            r
        } else {
            self.dir_path.clone().concat("/")
        };
        let head = chars_of(prefix.as_str());
        let files = &self.meta.files;
        let ghost w = files.deep_view();
        let ghost keep = |f: FileView| is_below(m, f, dir, drive);
        let mut below: Vec<AnnexedFile> = Vec::new();
        let mut i: usize = 0;
        proof {
            reveal(Seq::filter);
            assert(w.take(0).filter(keep) =~= Seq::<FileView>::empty());
            assert(below.deep_view() =~= Seq::<FileView>::empty());
        }
        while i < files.len()
            invariant
                i <= files@.len(),
                w == files.deep_view(),
                m == self.meta.deep_view(),
                dir == self.dir_path@,
                drive == self.drive_uuid.deep_view(),
                prefix@ == directory_prefix(dir),
                keep == (|f: FileView| is_below(m, f, dir, drive)),
                below.deep_view() == w.take(i as int).filter(keep),
                forall|j: int|
                    0 <= j < below@.len() ==> (#[trigger] below@[j]).path@.len() >= prefix@.len(),
            decreases files@.len() - i,
        {
            let ghost before = below.deep_view();
            proof {
                reveal(Seq::filter);
                assert(w.take(i + 1).drop_last() =~= w.take(i as int));
                assert(w.take(i + 1).last() == w[i as int]);
            }
            if self.holds(&files[i], &prefix) {
                below.push(files[i].dup());
                assert(below.deep_view() =~= before.push(w[i as int]));
                assert(below@.last().deep_view().path == w[i as int].path);
            }
            i += 1;
        }
        assert(w.take(i as int) =~= w);
        let (names, direct) = split_level(&below, head.len());
        let mut kids = no_nodes();
        push_directories(&mut kids, &self.meta, &self.dir_path, &self.drive_uuid, &names);
        push_files(&mut kids, &self.meta, &direct, &None);
        proof {
            let a = directory_nodes(m, dir, drive, names@);
            assert(Seq::<NodeView>::empty() + a =~= a);
        }
        sort_nodes(kids)
    }

    /// What is known of it.
    pub fn details(&self) -> (r: Vec<String>)
        ensures
            r.deep_view() == directory_details(self.dir_path@),
    {
        let mut d = no_rows();
        if self.dir_path.as_str().is_empty() {
            push_row(&mut d, labelled("directory: ", "<root>"));
        } else {
            push_row(&mut d, labelled("directory: ", self.dir_path.as_str()));
        }
        d
    }
}

// ---------------------------------------------------------------------------------------
// All files

/// The top directories and files of the working tree.
pub open spec fn all_files_children(m: MetaView) -> Seq<NodeView> {
    in_entry_order(
        directory_nodes(m, Seq::empty(), None, subdirectories(m.files, 0)) + file_nodes(
            m,
            direct_files(m.files, 0),
            None,
        ),
    )
}

/// What is known of the list of all files.
pub open spec fn all_files_details() -> Seq<Text> {
    seq![
        "All files currently annexed in the working tree."@,
        "Each entry shows locations when descended."@,
        "For very large repos prefer descending into specific drives to filter."@,
    ]
}

impl AllFilesNode {
    /// What the list shows of it.
    pub fn label(&self) -> (r: String)
        ensures
            r@ == "all annexed files ("@ + decimal(self.meta.deep_view().files.len()) + ")"@,
    {
        labelled("all annexed files (", count_text(self.meta.files.len()).as_str()).concat(")")
    }

    /// The nodes below it.
    pub fn children(&self) -> (r: Vec<Rc<TreeNode>>)
        ensures
            r.deep_view() == all_files_children(self.meta.deep_view()),
    {
        let (names, direct) = split_level(&self.meta.files, 0);
        let top = String::new();
        assert(top@ =~= Seq::<char>::empty());
        let mut kids = no_nodes();
        push_directories(&mut kids, &self.meta, &top, &None, &names);
        push_files(&mut kids, &self.meta, &direct, &None);
        proof {
            let a = directory_nodes(self.meta.deep_view(), Seq::empty(), None, names@);
            assert(Seq::<NodeView>::empty() + a =~= a);
        }
        sort_nodes(kids)
    }

    /// What is known of it.
    pub fn details(&self) -> (r: Vec<String>)
        ensures
            r.deep_view() == all_files_details(),
    {
        let mut d = no_rows();
        push_row(&mut d, "All files currently annexed in the working tree.".to_string());
        push_row(&mut d, "Each entry shows locations when descended.".to_string());
        push_row(
            &mut d,
            "For very large repos prefer descending into specific drives to filter.".to_string(),
        );
        d
    }
}

// ---------------------------------------------------------------------------------------
// Files on a drive

/// The path on a line of `git annex list`: what follows the last two spaces.
pub open spec fn listed_path(line: Text) -> Option<Text> {
    match rfind(line, "  "@) {
        Some(p) => {
            let t = trim(line.skip(p + "  "@.len()));
            if t.len() > 0 {
                Some(t)
            } else {
                None
            }
        },
        None => None,
    }
}

/// The paths on the lines.
pub open spec fn listed_paths(list: Seq<Text>) -> Seq<Text>
    decreases list.len(),
{
    if list.len() == 0 {
        Seq::empty()
    } else {
        match listed_path(list.last()) {
            Some(p) => listed_paths(list.drop_last()).push(p),
            None => listed_paths(list.drop_last()),
        }
    }
}

/// The paths in an answer of `git annex list`.
pub fn paths_listed(stdout: &str) -> (r: Vec<String>)
    ensures
        r.deep_view() == listed_paths(lines(stdout@)),
{
    let c = chars_of(stdout);
    let all = lines_of(c.as_slice());
    let ghost l = all.deep_view();
    let gap = chars_of("  ");
    let mut out = no_rows();
    let mut i: usize = 0;
    while i < all.len()
        invariant
            i <= all@.len(),
            l == all.deep_view(),
            gap@ == "  "@,
            out.deep_view() == listed_paths(l.take(i as int)),
        decreases all@.len() - i,
    {
        let line = all[i].as_slice();
        let n: usize = line.len();
        proof {
            lemma_chars_deep(all@[i as int]);
            assert(l.take(i + 1).drop_last() =~= l.take(i as int));
            assert(l.take(i + 1).last() == line@);
        }
        if let Some(p) = rfind_index(line, gap.as_slice()) {
            let rest = slice_subrange(line, p + gap.len(), n);
            assert(rest@ =~= line@.skip(p + gap@.len()));
            let path = trim_of(rest);
            if path.len() > 0 {
                push_row(&mut out, string_of(path));
            }
        }
        i += 1;
    }
    assert(l.take(i as int) =~= l);
    out
}

/// Whether some file has the key.
pub open spec fn has_file_with(files: Seq<FileView>, key: Text) -> bool {
    exists|i: int| 0 <= i < files.len() && (#[trigger] files[i]).key == key
}

/// A file that stands for a key that no file has.
pub open spec fn unused_file(key: Text) -> FileView {
    FileView { path: "<unused key> "@ + key, key, size: key_size(key) }
}

/// The keys on the drive that no listed file has.
pub open spec fn unused_files(m: MetaView, drive: Text, listing: Seq<FileView>) -> Seq<FileView> {
    pairs_of(m.locations).filter(
        |p: (Text, Set<Text>)| p.1.contains(drive) && !has_file_with(listing, p.0),
    ).map_values(|p: (Text, Set<Text>)| unused_file(p.0))
}

/// The top directories and files among the listed files, and the keys on the drive that none
/// of them has.
pub open spec fn drive_files_children(m: MetaView, drive: Text, listing: Seq<FileView>) -> Seq<
    NodeView,
> {
    in_entry_order(
        directory_nodes(m, Seq::empty(), Some(drive), subdirectories(listing, 0)) + file_nodes(
            m,
            direct_files(listing, 0),
            Some(drive),
        ) + file_nodes(m, unused_files(m, drive, listing), Some(drive)),
    )
}

/// What is known of the files on a drive.
pub open spec fn drive_files_details(drive_uuid: Text, name: Text) -> Seq<Text> {
    seq![
        "Drive: "@ + name + " ("@ + drive_uuid + ")"@,
        "Files whose content is recorded as present on this drive."@,
        "For working tree files the path is shown; unused keys shown with <unused key> prefix."@,
    ]
}

/// The files of a listing; none before git-annex was asked.
pub open spec fn listed_files(listing: Option<Seq<FileView>>) -> Seq<FileView> {
    match listing {
        Some(l) => l,
        None => Seq::empty(),
    }
}

fn key_set(files: &Vec<AnnexedFile>) -> (r: StrSet)
    ensures
        forall|key: Text| #[trigger]
            r@.contains(key) <==> has_file_with(files.deep_view(), key),
{
    let ghost d = files.deep_view();
    let mut keys = StrSet::new();
    let mut i: usize = 0;
    while i < files.len()
        invariant
            i <= files@.len(),
            d == files.deep_view(),
            forall|key: Text| #[trigger]
                keys@.contains(key) <==> exists|j: int| 0 <= j < i && (#[trigger] d[j]).key == key,
        decreases files@.len() - i,
    {
        let ghost before = keys@;
        let key = files[i].key.clone();
        assert(d[i as int].key == key@);
        keys.insert(key);
        i += 1;
        proof {
            assert forall|k: Text| #[trigger] keys@.contains(k) <==> exists|j: int|
                0 <= j < i && (#[trigger] d[j]).key == k by {
                if before.contains(k) {
                    let j = choose|j: int| 0 <= j < i - 1 && (#[trigger] d[j]).key == k;
                    assert(d[j].key == k);
                }
                if exists|j: int| 0 <= j < i && (#[trigger] d[j]).key == k {
                    let j = choose|j: int| 0 <= j < i && (#[trigger] d[j]).key == k;
                    if j < i - 1 {
                        assert(before.contains(k));
                    }
                }
            }
        }
    }
    keys
}

fn unused_of(meta: &AnnexMetadata, drive: &String, listing: &Vec<AnnexedFile>) -> (r: Vec<
    AnnexedFile,
>)
    ensures
        r.deep_view() == unused_files(meta.deep_view(), drive@, listing.deep_view()),
{
    let keys = key_set(listing);
    let n: usize = meta.locations.len();
    let ghost p = pairs_of(meta.locations@);
    let ghost keep = |q: (Text, Set<Text>)|
        q.1.contains(drive@) && !has_file_with(listing.deep_view(), q.0);
    let ghost file = |q: (Text, Set<Text>)| unused_file(q.0);
    let mut out: Vec<AnnexedFile> = Vec::new();
    let mut i: usize = 0;
    proof {
        reveal(Seq::filter);
        assert(p.take(0).filter(keep) =~= Seq::<(Text, Set<Text>)>::empty());
        assert(out.deep_view() =~= p.take(0).filter(keep).map_values(file));
    }
    while i < n
        invariant
            i <= n,
            n == p.len(),
            p == pairs_of(meta.locations@),
            forall|key: Text| #[trigger]
                keys@.contains(key) <==> has_file_with(listing.deep_view(), key),
            keep == (|q: (Text, Set<Text>)|
                q.1.contains(drive@) && !has_file_with(listing.deep_view(), q.0)),
            file == (|q: (Text, Set<Text>)| unused_file(q.0)),
            out.deep_view() == p.take(i as int).filter(keep).map_values(file),
        decreases n - i,
    {
        let ghost before = out.deep_view();
        proof {
            reveal(Seq::filter);
            assert(p.take(i + 1).drop_last() =~= p.take(i as int));
            assert(p.take(i + 1).last() == p[i as int]);
        }
        let key = meta.locations.key_at(i);
        if meta.locations.value_at(i).contains(drive.as_str()) && !keys.contains(key.as_str()) {
            let fake = AnnexedFile {
                path: labelled("<unused key> ", key.as_str()),
                key: key.clone(),
                size: parse_size_from_key(key.as_str()),
            };
            out.push(fake);
            proof {
                assert(out.deep_view() =~= before.push(file(p[i as int])));
                assert(p.take(i + 1).filter(keep) == p.take(i as int).filter(keep).push(
                    p[i as int],
                ));
                assert(p.take(i + 1).filter(keep).map_values(file) =~= before.push(
                    file(p[i as int]),
                ));
            }
        }
        i += 1;
    }
    assert(p.take(i as int) =~= p);
    out
}

impl FilesOnDriveNode {
    /// What the list shows of it.
    pub fn label(&self) -> (r: String)
        ensures
            r@ == "files on "@ + self.drive_name@ + " ("@ + decimal(
                keys_on(pairs_of(self.meta.deep_view().locations), self.drive_uuid@),
            ) + ")"@,
    {
        let n: usize = count_keys_on(&self.meta.locations, self.drive_uuid.as_str());
        labelled("files on ", self.drive_name.as_str()).concat(" (").concat(
            count_text(n).as_str(),
        ).concat(")")
    }

    /// The name under which git-annex knows the drive.
    pub fn query_name(&self) -> (r: String)
        ensures
            r@ == (if self.drive_uuid@ == self.meta.deep_view().uuid {
                "here"@
            } else {
                self.drive_name@
            }),
    {
        if self.drive_uuid == self.meta.uuid {
            "here".to_string()
        } else {
            self.drive_name.clone()
        }
    }

    /// The nodes below it.
    pub fn children(&self) -> (r: Vec<Rc<TreeNode>>)
        ensures
            r.deep_view() == drive_files_children(
                self.meta.deep_view(),
                self.drive_uuid@,
                listed_files(self.listing.deep_view()),
            ),
    {
        let ghost m = self.meta.deep_view();
        let none: Vec<AnnexedFile> = Vec::new();
        assert(none.deep_view() =~= Seq::<FileView>::empty());
        let files = match &self.listing {
            Some(l) => l,
            None => &none,
        };
        let (names, direct) = split_level(files, 0);
        let top = String::new();
        assert(top@ =~= Seq::<char>::empty());
        let drive = Some(self.drive_uuid.clone());
        let mut kids = no_nodes();
        push_directories(&mut kids, &self.meta, &top, &drive, &names);
        push_files(&mut kids, &self.meta, &direct, &drive);
        let unused = unused_of(&*self.meta, &self.drive_uuid, files);
        push_files(&mut kids, &self.meta, &unused, &drive);
        proof {
            let a = directory_nodes(m, Seq::empty(), Some(self.drive_uuid@), names@);
            assert(Seq::<NodeView>::empty() + a =~= a);
        }
        sort_nodes(kids)
    }

    /// What is known of it.
    pub fn details(&self) -> (r: Vec<String>)
        ensures
            r.deep_view() == drive_files_details(self.drive_uuid@, self.drive_name@),
    {
        let mut d = no_rows();
        push_row(
            &mut d,
            labelled("Drive: ", self.drive_name.as_str()).concat(" (").concat(
                self.drive_uuid.as_str(),
            ).concat(")"),
        );
        push_row(&mut d, "Files whose content is recorded as present on this drive.".to_string());
        push_row(
            &mut d,
            "For working tree files the path is shown; unused keys shown with <unused key> prefix.".to_string(),
        );
        d
    }
}

// ---------------------------------------------------------------------------------------
// Laws

/// Only finitely many directories are led into.
pub proof fn lemma_subdirectories_finite(files: Seq<FileView>, n: int)
    ensures
        subdirectories(files, n).finite(),
    decreases files.len(),
{
    if files.len() == 0 {
        assert(subdirectories(files, n) =~= Set::<Text>::empty());
    } else {
        let rest = files.drop_last();
        let last = files.last();
        lemma_subdirectories_finite(rest, n);
        let bigger = subdirectories(rest, n).insert(next_name(last, n));
        assert(subdirectories(files, n).subset_of(bigger)) by {
            assert forall|s: Text| subdirectories(files, n).contains(s) implies bigger.contains(s) by {
                let i = choose|i: int|
                    0 <= i < files.len() && goes_deeper(#[trigger] files[i], n) && next_name(
                        files[i],
                        n,
                    ) == s;
                if i < rest.len() {
                    assert(rest[i] == files[i]);
                }
            }
        }
        vstd::set_lib::lemma_set_subset_finite(bigger, subdirectories(files, n));
    }
}

/// What a directory shows is below it, on the drive if one is asked for, and all that is below
/// it shows, as a file or in a directory.
pub proof fn law_directory_shows_what_is_below(m: MetaView, dir_path: Text, drive: Option<Text>)
    ensures
        forall|f: FileView| #[trigger]
            directory_children(m, dir_path, drive).contains(
                (NodeView::File { meta: m, file: f, highlight: None }),
            ) ==> m.files.contains(f) && is_below(m, f, dir_path, drive),
        forall|i: int|
            0 <= i < m.files.len() && is_below(m, #[trigger] m.files[i], dir_path, drive) ==> {
                let n = directory_prefix(dir_path).len() as int;
                let kids = directory_children(m, dir_path, drive);
                if goes_deeper(m.files[i], n) {
                    kids.contains(
                        (NodeView::Directory {
                            meta: m,
                            dir_path: child_path(dir_path, next_name(m.files[i], n)),
                            drive,
                        }),
                    )
                } else {
                    kids.contains(
                        (NodeView::File { meta: m, file: m.files[i], highlight: None }),
                    )
                }
            },
{
    let n = directory_prefix(dir_path).len() as int;
    let keep = |f: FileView| is_below(m, f, dir_path, drive);
    let below = m.files.filter(keep);
    let names = subdirectories(below, n);
    let direct = direct_files(below, n);
    let a = directory_nodes(m, dir_path, drive, names);
    let b = file_nodes(m, direct, None);
    let kids = directory_children(m, dir_path, drive);
    law_sorted(a + b, |x: NodeView| entry_key(x));
    assert forall|f: FileView| #[trigger]
        kids.contains((NodeView::File { meta: m, file: f, highlight: None })) implies m.files.contains(
        f,
    ) && is_below(m, f, dir_path, drive) by {
        let node = NodeView::File { meta: m, file: f, highlight: None };
        assert((a + b).contains(node));
        let k = choose|k: int| 0 <= k < (a + b).len() && (a + b)[k] == node;
        assert(k >= a.len());
        assert(direct[k - a.len()] == f);
        assert(direct.contains(f));
        below.lemma_filter_contains_rev(|g: FileView| !goes_deeper(g, n), f);
        m.files.lemma_filter_contains_rev(keep, f);
        let j = choose|j: int| 0 <= j < below.len() && below[j] == f;
        m.files.lemma_filter_pred(keep, j);
    }
    assert forall|i: int|
        0 <= i < m.files.len() && is_below(m, #[trigger] m.files[i], dir_path, drive) implies {
        if goes_deeper(m.files[i], n) {
            kids.contains(
                (NodeView::Directory {
                    meta: m,
                    dir_path: child_path(dir_path, next_name(m.files[i], n)),
                    drive,
                }),
            )
        } else {
            kids.contains((NodeView::File { meta: m, file: m.files[i], highlight: None }))
        }
    } by {
        let f = m.files[i];
        m.files.lemma_filter_contains(keep, i);
        let j = choose|j: int| 0 <= j < below.len() && below[j] == f;
        if goes_deeper(f, n) {
            let s = next_name(f, n);
            assert(goes_deeper(below[j], n));
            assert(names.contains(s));
            lemma_subdirectories_finite(below, n);
            lemma_members_of(names);
            assert(members_of(names).contains(s));
            let k = choose|k: int| 0 <= k < members_of(names).len() && members_of(names)[k] == s;
            let node = NodeView::Directory { meta: m, dir_path: child_path(dir_path, s), drive };
            assert(a[k] == node);
            assert((a + b)[k] == node);
            assert((a + b).contains(node));
        } else {
            below.lemma_filter_contains(|g: FileView| !goes_deeper(g, n), j);
            let k = choose|k: int| 0 <= k < direct.len() && direct[k] == f;
            let node = NodeView::File { meta: m, file: f, highlight: None };
            assert(b[k] == node);
            assert((a + b)[a.len() + k] == node);
            assert((a + b).contains(node));
        }
    }
}

/// Every key on record for a drive is found there: by a listed file, or as an unused key.
pub proof fn law_drive_shows_every_key(
    m: MetaView,
    drive: Text,
    listing: Seq<FileView>,
    i: int,
)
    requires
        0 <= i < pairs_of(m.locations).len(),
        pairs_of(m.locations)[i].1.contains(drive),
    ensures
        has_file_with(listing, pairs_of(m.locations)[i].0) || drive_files_children(
            m,
            drive,
            listing,
        ).contains(
            (NodeView::File {
                meta: m,
                file: unused_file(pairs_of(m.locations)[i].0),
                highlight: Some(drive),
            }),
        ),
{
    let p = pairs_of(m.locations);
    let key = p[i].0;
    if !has_file_with(listing, key) {
        let keep = |q: (Text, Set<Text>)| q.1.contains(drive) && !has_file_with(listing, q.0);
        p.lemma_filter_contains(keep, i);
        let kept = p.filter(keep);
        let k = choose|k: int| 0 <= k < kept.len() && kept[k] == p[i];
        let unused = unused_files(m, drive, listing);
        assert(unused[k] == unused_file(key));
        let a = directory_nodes(m, Seq::empty(), Some(drive), subdirectories(listing, 0))
            + file_nodes(m, direct_files(listing, 0), Some(drive));
        let b = file_nodes(m, unused, Some(drive));
        let node = NodeView::File { meta: m, file: unused_file(key), highlight: Some(drive) };
        assert(b[k] == node);
        assert((a + b)[a.len() + k] == node);
        assert((a + b).contains(node));
        law_sorted(a + b, |x: NodeView| entry_key(x));
    }
}

/// Whether a row names one of the drives.
pub open spec fn names_location(
    m: MetaView,
    row: Text,
    locations: Set<Text>,
    highlight: Option<Text>,
) -> bool {
    exists|u: Text| #[trigger] locations.contains(u) && row == location_row(m, u, highlight)
}

/// The details of a file name every drive that has its content, and no other.
pub proof fn law_details_name_every_location(
    m: MetaView,
    f: FileView,
    highlight: Option<Text>,
    live: Set<Text>,
)
    requires
        shown_locations(m, f.key, highlight, live).finite(),
    ensures
        ({
            let d = file_details(m, f, highlight, live);
            let locations = shown_locations(m, f.key, highlight, live);
            let head = if f.size is Some {
                4int
            } else {
                3
            };
            &&& locations.len() > 0 ==> d.len() == head + locations.len()
            &&& locations.len() == 0 ==> d.len() == head
            &&& forall|u: Text| #[trigger]
                locations.contains(u) ==> exists|i: int|
                    head <= i < d.len() && #[trigger] d[i] == location_row(m, u, highlight)
            &&& locations.len() > 0 ==> forall|i: int|
                head <= i < d.len() ==> names_location(m, #[trigger] d[i], locations, highlight)
        }),
{
    let d = file_details(m, f, highlight, live);
    let locations = shown_locations(m, f.key, highlight, live);
    let head = if f.size is Some {
        4int
    } else {
        3
    };
    lemma_members_of(locations);
    let w = members_of(locations);
    if locations.len() > 0 {
        assert(locations != Set::<Text>::empty());
        assert forall|u: Text| #[trigger] locations.contains(u) implies exists|i: int|
            head <= i < d.len() && #[trigger] d[i] == location_row(m, u, highlight) by {
            assert(w.contains(u));
            let k = choose|k: int| 0 <= k < w.len() && w[k] == u;
            assert(d[head + k] == location_row(m, u, highlight));
        }
        assert forall|i: int| head <= i < d.len() implies names_location(
            m,
            #[trigger] d[i],
            locations,
            highlight,
        ) by {
            let u = w[i - head];
            assert(w.contains(u));
            assert(locations.contains(u));
            assert(d[i] == location_row(m, u, highlight));
        }
    } else {
        assert(locations =~= Set::<Text>::empty());
    }
}

/// The entries of a directory are directories and files.
pub proof fn lemma_entry_nodes(nodes: Seq<NodeView>, i: int)
    requires
        forall|k: int|
            0 <= k < nodes.len() ==> (#[trigger] nodes[k]) is Directory || nodes[k] is File,
        0 <= i < in_entry_order(nodes).len(),
    ensures
        in_entry_order(nodes)[i] is Directory || in_entry_order(nodes)[i] is File,
{
    let kids = in_entry_order(nodes);
    law_sorted(nodes, |x: NodeView| entry_key(x));
    assert(kids.contains(kids[i]));
    let k = choose|k: int| 0 <= k < nodes.len() && nodes[k] == kids[i];
    assert(nodes[k] is Directory || nodes[k] is File);
}

/// The path on a line of a listing is what follows the last double blank, without the white
/// space around it.
pub proof fn law_listed_path(head: Text, path: Text)
    requires
        is_solid(path),
        forall|i: int| !#[trigger] stands_at(path, "  "@, i),
    ensures
        listed_path(head + "  "@ + path) == Some(path),
        (forall|i: int| !#[trigger] stands_at(head, "  "@, i)) ==> listed_path(head) is None,
{
    reveal_strlit("  ");
    let line = head + "  "@ + path;
    let n = head.len() as int;
    law_last_place(line, "  "@);
    law_last_place(head, "  "@);
    assert(line.subrange(n, n + "  "@.len()) =~= "  "@);
    assert(stands_at(line, "  "@, n));
    let p = rfind(line, "  "@)->0;
    if p > n {
        assert(line.subrange(p, p + "  "@.len())[1] == ' ');
        assert(line.subrange(p, p + "  "@.len())[0] == ' ');
        if p == n + 1 {
            assert(line[p + 1] == path[0]);
        } else {
            assert(path.subrange(p - n - 2, p - n - 2 + "  "@.len()) =~= "  "@) by {
                assert(line[p] == path[p - n - 2]);
                assert(line[p + 1] == path[p - n - 1]);
            }
            assert(stands_at(path, "  "@, p - n - 2));
        }
    }
    assert(line.skip(n + "  "@.len()) =~= path);
    assert(trim(path) == path);
}

/// Every line with a path adds it at the end of the paths.
pub proof fn law_listed_paths(list: Seq<Text>, line: Text)
    ensures
        listed_paths(Seq::empty()).len() == 0,
        listed_path(line) matches Some(p) ==> listed_paths(list.push(line)) == listed_paths(list).push(
            p,
        ),
        listed_path(line) is None ==> listed_paths(list.push(line)) == listed_paths(list),
{
    assert(list.push(line).drop_last() =~= list);
}

} // verus!
