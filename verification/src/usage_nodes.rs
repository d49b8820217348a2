//! The nodes of the usage view.

use std::rc::Rc;
use vstd::prelude::*;
use crate::annex::{AnnexMetadata, FileView, MetaView};
use crate::files::{file_details, file_raw, last_name, last_name_of};
use crate::node::{no_nodes, push_node, AnnexFileNode, NodeView, ParentDirNode, TreeNode, UsageDirNode, UsageFileNode};
use crate::table::{Dup, StrSet};
use crate::text::{count_text, decimal, decimal_of, labelled, no_rows, push_row, Text};
use crate::usage::{build_usage_tree, law_rows_are_entries, lemma_entry_leads_to_file, shown_path, shown_path_of, usage_of, ChildView, RowView, TreeView, UsageListing};
use crate::util::{bytes_text, human_bytes};

verus! {

impl ParentDirNode {
    /// What is known of it.
    pub fn details(&self) -> (r: Vec<String>)
        ensures
            r.deep_view() == seq!["Go up one directory (same as ← / h / Back)."@],
    {
        let mut d = no_rows();
        push_row(&mut d, "Go up one directory (same as ← / h / Back).".to_string());
        d
    }
}

/// What the list shows of a directory of the usage view.
pub open spec fn usage_label(tree: TreeView, dir_path: Text) -> Text {
    if dir_path.len() == 0 {
        "disk usage — "@ + bytes_text(tree.stats(dir_path).0 as nat) + ", "@ + decimal(
            tree.stats(dir_path).1,
        ) + " files, largest first"@
    } else {
        last_name(dir_path) + "/"@
    }
}

/// The nodes for the entries of a directory. An entry for which there is no file is left out.
pub open spec fn usage_nodes(m: MetaView, tree: TreeView, list: Seq<ChildView>) -> Seq<NodeView>
    decreases list.len(),
{
    if list.len() == 0 {
        Seq::empty()
    } else {
        let before = usage_nodes(m, tree, list.drop_last());
        let c = list.last();
        if c.is_dir {
            before.push(NodeView::UsageDir { meta: m, tree, dir_path: c.rel_path })
        } else {
            match c.file_idx {
                Some(i) if i < m.files.len() => before.push(
                    NodeView::UsageFile { meta: m, file: m.files[i], name: c.name, size: c.size },
                ),
                _ => before,
            }
        }
    }
}

/// The way up, and the entries, the largest first.
pub open spec fn usage_children(m: MetaView, tree: TreeView, dir_path: Text) -> Seq<NodeView> {
    seq![NodeView::ParentDir] + usage_nodes(m, tree, tree.list(dir_path))
}

/// Which row is selected at first: the largest entry, and not the way up.
pub open spec fn usage_first_row(m: MetaView, tree: TreeView, dir_path: Text) -> nat {
    if usage_children(m, tree, dir_path).len() > 1 {
        1
    } else {
        0
    }
}

/// What is known of a directory of the usage view.
pub open spec fn usage_details(tree: TreeView, dir_path: Text) -> Seq<Text> {
    seq![
        "directory: "@ + shown_path(dir_path),
        "annex size: "@ + bytes_text(tree.stats(dir_path).0 as nat) + " ("@ + decimal(
            tree.stats(dir_path).1,
        ) + " files)"@,
        "Sizes come from git-annex keys, not the filesystem."@,
        "Dropped or missing content is still counted and listed."@,
        "Entries are sorted largest first (ncdu-style). Enter a dir to browse it."@,
    ]
}

/// A line for each row.
pub open spec fn row_lines(rows: Seq<RowView>) -> Text
    decreases rows.len(),
{
    if rows.len() == 0 {
        Seq::empty()
    } else {
        let r = rows.last();
        row_lines(rows.drop_last()) + decimal(r.size as nat) + "\t"@ + (if r.is_dir {
            "dir"@
        } else {
            "file"@
        }) + "\t"@ + r.name + "\n"@
    }
}

/// The listing of a directory of the usage view, as lines.
pub open spec fn usage_raw(tree: TreeView, dir_path: Text) -> Text {
    let l = tree.listing(dir_path);
    l.path + "\n"@ + bytes_text(l.total_size as nat) + "  "@ + decimal(l.file_count) + " files\n"@
        + row_lines(l.entries)
}

impl UsageDirNode {
    /// The top of the usage view of a repository.
    pub fn root(meta: Rc<AnnexMetadata>) -> (r: UsageDirNode)
        ensures
            r.deep_view() == (NodeView::UsageDir {
                meta: meta.deep_view(),
                tree: usage_of(meta.deep_view().files),
                dir_path: Seq::empty(),
            }),
    {
        let files = meta.files.as_slice();
        assert(files.deep_view() =~= meta.files.deep_view());
        let tree = Rc::new(build_usage_tree(files));
        let dir_path = String::new();
        assert(dir_path@ =~= Seq::<char>::empty());
        UsageDirNode { meta, tree, dir_path }
    }

    fn is_root(&self) -> (r: bool)
        ensures
            r == (self.dir_path@.len() == 0),
    {
        self.dir_path.as_str().is_empty()
    }

    /// What the list shows of it.
    pub fn label(&self) -> (r: String)
        ensures
            r@ == usage_label(self.tree.deep_view(), self.dir_path@),
    {
        if self.is_root() {
            let (size, n) = self.tree.stats(self.dir_path.as_str());
            labelled("disk usage — ", human_bytes(size).as_str()).concat(", ").concat(
                count_text(n).as_str(),
            ).concat(" files, largest first")
        } else {
            last_name_of(self.dir_path.as_str()).concat("/")
        }
    }

    /// What it is.
    pub fn kind(&self) -> (r: &'static str)
        ensures
            r@ == (if self.dir_path@.len() == 0 {
                "usage"@
            } else {
                "dir"@
            }),
    {
        if self.is_root() {
            "usage"
        } else {
            "dir"
        }
    }

    /// The size of a directory below the top; the top stands in a menu, which shows none.
    pub fn size(&self) -> (r: Option<u64>)
        ensures
            r == (if self.dir_path@.len() == 0 {
                None
            } else {
                Some(self.tree.deep_view().stats(self.dir_path@).0)
            }),
    {
        if self.is_root() {
            None
        } else {
            Some(self.tree.stats(self.dir_path.as_str()).0)
        }
    }

    /// Which row is selected at first.
    pub fn initial_selected(&self) -> (r: usize)
        ensures
            r == usage_first_row(self.meta.deep_view(), self.tree.deep_view(), self.dir_path@),
    {
        if self.children().len() > 1 {
            1
        } else {
            0
        }
    }

    /// What the directory holds, with its total.
    pub fn usage_listing(&self) -> (r: Option<UsageListing>)
        ensures
            r.deep_view() == Some(self.tree.deep_view().listing(self.dir_path@)),
    {
        Some(self.tree.listing(self.dir_path.as_str()))
    }

    /// The nodes below it.
    pub fn children(&self) -> (r: Vec<Rc<TreeNode>>)
        ensures
            r.deep_view() == usage_children(
                self.meta.deep_view(),
                self.tree.deep_view(),
                self.dir_path@,
            ),
    {
        let ghost m = self.meta.deep_view();
        let ghost tree = self.tree.deep_view();
        let list = self.tree.children_sorted(self.dir_path.as_str());
        let ghost w = list.deep_view();
        let ghost first = seq![NodeView::ParentDir];
        let mut kids = no_nodes();
        push_node(&mut kids, TreeNode::ParentDir(ParentDirNode {  }));
        let mut i: usize = 0;
        assert(first + usage_nodes(m, tree, w.take(0)) =~= first);
        while i < list.len()
            invariant
                i <= list@.len(),
                w == list.deep_view(),
                m == self.meta.deep_view(),
                tree == self.tree.deep_view(),
                kids.deep_view() == first + usage_nodes(m, tree, w.take(i as int)),
            decreases list@.len() - i,
        {
            let ghost before = usage_nodes(m, tree, w.take(i as int));
            let c = &list[i];
            proof {
                assert(w.take(i + 1).drop_last() =~= w.take(i as int));
                assert(w.take(i + 1).last() == w[i as int]);
                assert(w[i as int] == c.deep_view());
            }
            if c.is_dir {
                push_node(
                    &mut kids,
                    TreeNode::UsageDir(
                        UsageDirNode {
                            meta: self.meta.dup(),
                            tree: self.tree.dup(),
                            dir_path: c.rel_path.clone(),
                        },
                    ),
                );
                assert(kids.deep_view() =~= first + before.push(kids.deep_view().last()));
            } else if let Some(idx) = c.file_idx {
                if idx < self.meta.files.len() {
                    let file = self.meta.files[idx].dup();
                    assert(file.deep_view() == m.files[idx as int]);
                    push_node(
                        &mut kids,
                        TreeNode::UsageFile(
                            UsageFileNode {
                                meta: self.meta.dup(),
                                file,
                                name: c.name.clone(),
                                size: c.size,
                            },
                        ),
                    );
                    assert(kids.deep_view() =~= first + before.push(kids.deep_view().last()));
                }
            }
            i += 1;
        }
        assert(w.take(i as int) =~= w);
        kids
    }

    /// What is known of it.
    pub fn details(&self) -> (r: Vec<String>)
        ensures
            r.deep_view() == usage_details(self.tree.deep_view(), self.dir_path@),
    {
        let (size, n) = self.tree.stats(self.dir_path.as_str());
        let mut d = no_rows();
        push_row(
            &mut d,
            labelled("directory: ", shown_path_of(self.dir_path.as_str()).as_str()),
        );
        push_row(
            &mut d,
            labelled("annex size: ", human_bytes(size).as_str()).concat(" (").concat(
                count_text(n).as_str(),
            ).concat(" files)"),
        );
        push_row(&mut d, "Sizes come from git-annex keys, not the filesystem.".to_string());
        push_row(&mut d, "Dropped or missing content is still counted and listed.".to_string());
        push_row(
            &mut d,
            "Entries are sorted largest first (ncdu-style). Enter a dir to browse it.".to_string(),
        );
        d
    }

    /// The record behind it, as text.
    pub fn raw_text(&self) -> (r: Option<String>)
        ensures
            r.deep_view() == Some(usage_raw(self.tree.deep_view(), self.dir_path@)),
    {
        let l = self.tree.listing(self.dir_path.as_str());
        let ghost w = l.entries.deep_view();
        let mut s = labelled(l.path.as_str(), "\n").concat(human_bytes(l.total_size).as_str()).concat(
            "  ",
        ).concat(count_text(l.file_count).as_str()).concat(" files\n");
        let ghost start = s@;
        let mut i: usize = 0;
        assert(start + row_lines(w.take(0)) =~= start);
        while i < l.entries.len()
            invariant
                i <= l.entries@.len(),
                w == l.entries.deep_view(),
                s@ == start + row_lines(w.take(i as int)),
            decreases l.entries@.len() - i,
        {
            let e = &l.entries[i];
            let ghost before = row_lines(w.take(i as int));
            proof {
                assert(w.take(i + 1).drop_last() =~= w.take(i as int));
                assert(w.take(i + 1).last() == w[i as int]);
                assert(w[i as int] == e.deep_view());
            }
            let kind = if e.is_dir {
                "dir"
            } else {
                "file"
            };
            s = s.concat(decimal_of(e.size).as_str()).concat("\t").concat(kind).concat("\t").concat(
                e.name.as_str(),
            ).concat("\n");
            assert(s@ =~= start + (before + decimal(e.size as nat) + "\t"@ + kind@ + "\t"@ + e.name@
                + "\n"@));
            i += 1;
        }
        assert(w.take(i as int) =~= w);
        Some(s)
    }
}

/// Whether the content of the key is here.
pub open spec fn is_here(m: MetaView, key: Text) -> bool {
    m.locations.contains_key(key) && m.locations[key].contains(m.uuid)
}

/// What is known of the file; where its content is not here, the second row says so.
pub open spec fn usage_file_details(m: MetaView, f: FileView, live: Set<Text>) -> Seq<
    Text,
> {
    let d = file_details(m, f, None, live);
    if is_here(m, f.key) {
        d
    } else {
        d.insert(1, "content not present here — size is from the git-annex key"@)
    }
}

impl UsageFileNode {
    fn as_file(&self) -> (r: AnnexFileNode)
        ensures
            r.deep_view() == (NodeView::File {
                meta: self.meta.deep_view(),
                file: self.file.deep_view(),
                highlight: None,
            }),
    {
        AnnexFileNode { meta: self.meta.dup(), file: self.file.dup(), highlight_drive: None }
    }

    fn present_here(&self) -> (r: bool)
        ensures
            r == is_here(self.meta.deep_view(), self.file.key@),
    {
        match self.meta.locations.get(self.file.key.as_str()) {
            Some(uuids) => uuids.contains(self.meta.uuid.as_str()),
            None => false,
        }
    }

    /// Whether the content is here.
    pub fn present(&self) -> (r: Option<bool>)
        ensures
            r == Some(is_here(self.meta.deep_view(), self.file.key@)),
    {
        Some(self.present_here())
    }

    /// Whether nothing is on record, so that git-annex is to be asked.
    pub fn wants_live(&self) -> (r: bool)
        ensures
            r == (crate::files::recorded_locations(
                self.meta.deep_view(),
                self.file.key@,
                None,
            ) == Set::<Text>::empty()),
    {
        self.as_file().wants_live()
    }

    /// What is known of it.
    pub fn details(&self, live: &StrSet) -> (r: Vec<String>)
        ensures
            r.deep_view() == usage_file_details(
                self.meta.deep_view(),
                self.file.deep_view(),
                live@,
            ),
    {
        let mut d = self.as_file().details(live);
        if !self.present_here() {
            let ghost before = d.deep_view();
            let note = "content not present here — size is from the git-annex key".to_string();
            assert(d@.len() >= 1) by {
                assert(before.len() >= 1);
            }
            d.insert(1, note);
            assert(d.deep_view() =~= before.insert(1, note@));
        }
        d
    }

    /// The record behind it, as text.
    pub fn raw_text(&self) -> (r: Option<String>)
        ensures
            r.deep_view() == file_raw(self.meta.deep_view(), self.file.key@),
    {
        self.as_file().raw_text()
    }
}

/// The entries of a directory of the usage view are directories and files.
pub proof fn lemma_usage_nodes(m: MetaView, tree: TreeView, list: Seq<ChildView>, i: int)
    requires
        0 <= i < usage_nodes(m, tree, list).len(),
    ensures
        usage_nodes(m, tree, list)[i] is UsageDir || usage_nodes(m, tree, list)[i] is UsageFile,
    decreases list.len(),
{
    if list.len() > 0 {
        let before = usage_nodes(m, tree, list.drop_last());
        if i < before.len() {
            lemma_usage_nodes(m, tree, list.drop_last(), i);
        }
    }
}

/// A directory of the usage view shows the way up first and then a row for each entry, in the
/// order of the listing: directories lead on, and files are those of the repository, with the
/// size that the entry has.
pub proof fn law_usage_shows_every_entry(m: MetaView, dir_path: Text, i: int)
    ensures
        ({
            let tree = usage_of(m.files);
            let kids = (NodeView::UsageDir { meta: m, tree, dir_path }).children();
            let list = tree.list(dir_path);
            &&& kids.len() == 1 + list.len()
            &&& kids[0] is ParentDir
            &&& 0 <= i < list.len() && list[i].is_dir ==> kids[i + 1] == (NodeView::UsageDir {
                meta: m,
                tree,
                dir_path: list[i].rel_path,
            })
            &&& 0 <= i < list.len() && !list[i].is_dir ==> (list[i].file_idx matches Some(k) && 0 <= k
                < m.files.len() && kids[i + 1] == (NodeView::UsageFile {
                meta: m,
                file: m.files[k],
                name: list[i].name,
                size: list[i].size,
            }))
        }),
{
    let tree = usage_of(m.files);
    let list = tree.list(dir_path);
    law_rows_are_entries(m.files, dir_path);
    assert forall|k: int| 0 <= k < list.len() implies leads_somewhere(#[trigger] list[k], m) by {
        lemma_entry_leads_to_file(m.files, dir_path, list[k].name);
    }
    lemma_all_usage_nodes(m, tree, list);
}

spec fn leads_somewhere(c: ChildView, m: MetaView) -> bool {
    !c.is_dir ==> (c.file_idx matches Some(k) && 0 <= k < m.files.len())
}

proof fn lemma_all_usage_nodes(m: MetaView, tree: TreeView, list: Seq<ChildView>)
    requires
        forall|k: int| 0 <= k < list.len() ==> leads_somewhere(#[trigger] list[k], m),
    ensures
        usage_nodes(m, tree, list).len() == list.len(),
        forall|k: int|
            0 <= k < list.len() ==> (#[trigger] usage_nodes(m, tree, list)[k]) == (
            if list[k].is_dir {
                NodeView::UsageDir { meta: m, tree, dir_path: list[k].rel_path }
            } else {
                NodeView::UsageFile {
                    meta: m,
                    file: m.files[list[k].file_idx->0],
                    name: list[k].name,
                    size: list[k].size,
                }
            }),
    decreases list.len(),
{
    if list.len() > 0 {
        let rest = list.drop_last();
        assert forall|k: int| 0 <= k < rest.len() implies leads_somewhere(#[trigger] rest[k], m) by {
            assert(rest[k] == list[k]);
        }
        lemma_all_usage_nodes(m, tree, rest);
        assert(leads_somewhere(list[list.len() - 1], m));
        let all = usage_nodes(m, tree, list);
        let before = usage_nodes(m, tree, rest);
        assert forall|k: int| 0 <= k < rest.len() implies all[k] == before[k] && list[k]
            == rest[k] by {}
    }
}

/// What a file of the usage view tells is what the file tells, and that its content is not
/// here, where that is so.
pub proof fn law_usage_file_details(
    m: MetaView,
    f: FileView,
    name: Text,
    size: u64,
    live: Set<Text>,
)
    ensures
        ({
            let n = NodeView::UsageFile { meta: m, file: f, name, size };
            let d = n.details(live);
            let file = (NodeView::File { meta: m, file: f, highlight: None }).details(live);
            let here = m.locations.contains_key(f.key) && m.locations[f.key].contains(m.uuid);
            &&& here ==> d == file
            &&& !here ==> d.len() == file.len() + 1 && d[0] == file[0] && d.skip(2) == file.skip(1)
                && d[1] == "content not present here — size is from the git-annex key"@
            &&& n.present() == Some(here)
            &&& n.size() == Some(size)
            &&& n.label() == name
        }),
{
    let file = (NodeView::File { meta: m, file: f, highlight: None }).details(live);
    let d = (NodeView::UsageFile { meta: m, file: f, name, size }).details(live);
    assert(file.len() > 1);
    if !is_here(m, f.key) {
        assert(d.skip(2) =~= file.skip(1));
    }
}

/// What the usage view tells of a directory: how much is in it and how many files, and where it
/// is; the first entry is selected, if there is one.
pub proof fn law_usage_directory(m: MetaView, dir_path: Text, live: Set<Text>)
    ensures
        ({
            let tree = usage_of(m.files);
            let n = NodeView::UsageDir { meta: m, tree, dir_path };
            let total = tree.stats(dir_path);
            &&& dir_path.len() == 0 ==> n.label() == "disk usage — "@ + bytes_text(total.0 as nat)
                + ", "@ + decimal(total.1) + " files, largest first"@ && n.size() is None
            &&& dir_path.len() > 0 ==> n.label() == last_name(dir_path) + "/"@ && n.size() == Some(
                total.0,
            )
            &&& dir_path.len() > 0 ==> n.details(live)[0] == "directory: "@ + ("/"@ + dir_path)
            &&& n.details(live)[1] == "annex size: "@ + bytes_text(total.0 as nat) + " ("@
                + decimal(total.1) + " files)"@
            &&& tree.list(dir_path).len() > 0 ==> n.initial_selected() == 1
            &&& tree.list(dir_path).len() == 0 ==> n.initial_selected() == 0
            &&& n.usage_listing() matches Some(l) && l.total_size == total.0 && l.file_count
                == total.1 && l.entries.len() == tree.list(dir_path).len()
        }),
{
    law_usage_shows_every_entry(m, dir_path, 0);
}

/// The listing of a directory has a row for each entry, in the same order; a directory is
/// shown with a slash.
pub proof fn law_usage_listing(files: Seq<FileView>, dir: Text, i: int)
    requires
        0 <= i < usage_of(files).list(dir).len(),
    ensures
        ({
            let c = usage_of(files).list(dir)[i];
            let row = usage_of(files).listing(dir).entries[i];
            &&& c.is_dir ==> row.name == c.name + "/"@
            &&& !c.is_dir ==> row.name == c.name
            &&& row.size == c.size && row.is_dir == c.is_dir && row.file_count == c.file_count
        }),
        dir.len() > 0 ==> usage_of(files).listing(dir).path == "/"@ + dir,
        dir.len() == 0 ==> usage_of(files).listing(dir).path == "/"@,
{
}

/// One more row is one more line, with the size, what it is, and the name.
pub proof fn law_usage_lines(rows: Seq<RowView>, r: RowView)
    ensures
        row_lines(Seq::empty()).len() == 0,
        r.is_dir ==> row_lines(rows.push(r)) == row_lines(rows) + decimal(r.size as nat) + "\t"@
            + "dir"@ + "\t"@ + r.name + "\n"@,
        !r.is_dir ==> row_lines(rows.push(r)) == row_lines(rows) + decimal(r.size as nat) + "\t"@
            + "file"@ + "\t"@ + r.name + "\n"@,
{
    assert(rows.push(r).drop_last() =~= rows);
}

} // verus!
