//! What every node of the tree can be asked.

use std::rc::Rc;
use vstd::prelude::*;
use crate::annex::{keys_on, FileView};
use crate::files::{all_files_children, all_files_details, direct_files, directory_children, directory_details, directory_label, directory_nodes, directory_prefix, drive_files_children, drive_files_details, file_details, file_label, file_nodes, file_raw, is_below, lemma_entry_nodes, listed_files, recorded_locations, subdirectories, unused_files};
use crate::node::{drive_children, drive_details, drive_info_details, drive_kind, drive_label, drives_children, drives_details, no_nodes, repo_children, repo_details, repo_info_details, repo_label, root_children, root_details, summary_details, summary_label, NodeView, TreeNode};
use crate::table::{pairs_of, StrSet};
use crate::text::{decimal, Text};
use crate::trust::TrustLevel;
use crate::usage::{ListingView, UsageListing};
use crate::usage_nodes::{is_here, lemma_usage_nodes, usage_children, usage_details, usage_file_details, usage_first_row, usage_label, usage_raw};

verus! {

impl NodeView {
    /// What the list shows of the node.
    pub open spec fn label(self) -> Text {
        match self {
            NodeView::Root { scan_root, .. } => "scan: "@ + scan_root,
            NodeView::Loading { path } => path + " (loading...)"@,
            NodeView::Summary { summary } => summary_label(summary),
            NodeView::Repo { meta, .. } => repo_label(meta),
            NodeView::RepoInfo { .. } => "info / summary"@,
            NodeView::Drives { meta, .. } => "drives / remotes ("@ + decimal(meta.remotes.len())
                + ")"@,
            NodeView::Drive { meta, remote, .. } => drive_label(meta, remote),
            NodeView::DriveInfo { .. } => "drive info"@,
            NodeView::FilesOnDrive { meta, drive_uuid, drive_name, .. } => "files on "@ + drive_name
                + " ("@ + decimal(keys_on(pairs_of(meta.locations), drive_uuid)) + ")"@,
            NodeView::File { meta, file, .. } => file_label(meta, file),
            NodeView::Directory { dir_path, .. } => directory_label(dir_path),
            NodeView::AllFiles { meta } => "all annexed files ("@ + decimal(meta.files.len())
                + ")"@,
            NodeView::ParentDir => ".."@,
            NodeView::UsageDir { tree, dir_path, .. } => usage_label(tree, dir_path),
            NodeView::UsageFile { name, .. } => name,
        }
    }

    /// What the node is.
    pub open spec fn kind(self) -> Text {
        match self {
            NodeView::Root { .. } => "root"@,
            NodeView::Loading { .. } => "repo"@,
            NodeView::Summary { .. } => "repo"@,
            NodeView::Repo { .. } => "repo"@,
            NodeView::RepoInfo { .. } => "info"@,
            NodeView::Drives { .. } => "drives"@,
            NodeView::Drive { meta, remote, .. } => drive_kind(meta, remote),
            NodeView::DriveInfo { .. } => "info"@,
            NodeView::FilesOnDrive { .. } => "files"@,
            NodeView::File { .. } => "file"@,
            NodeView::Directory { .. } => "dir"@,
            NodeView::AllFiles { .. } => "files"@,
            NodeView::ParentDir => "parent"@,
            NodeView::UsageDir { dir_path, .. } => if dir_path.len() == 0 {
                "usage"@
            } else {
                "dir"@
            },
            NodeView::UsageFile { .. } => "file"@,
        }
    }

    /// The nodes below the node.
    pub open spec fn children(self) -> Seq<NodeView> {
        match self {
            NodeView::Root { summaries, .. } => root_children(summaries),
            NodeView::Repo { meta, profiles } => repo_children(meta, profiles),
            NodeView::Drives { meta, profiles } => drives_children(meta, profiles),
            NodeView::Drive { meta, remote, .. } => drive_children(meta, remote),
            NodeView::FilesOnDrive { meta, drive_uuid, listing, .. } => drive_files_children(
                meta,
                drive_uuid,
                listed_files(listing),
            ),
            NodeView::Directory { meta, dir_path, drive } => directory_children(
                meta,
                dir_path,
                drive,
            ),
            NodeView::AllFiles { meta } => all_files_children(meta),
            NodeView::UsageDir { meta, tree, dir_path } => usage_children(meta, tree, dir_path),
            _ => Seq::empty(),
        }
    }

    /// What is known of the node, where `live` is what git-annex answers about a file of which
    /// nothing is on record.
    pub open spec fn details(self, live: Set<Text>) -> Seq<Text> {
        match self {
            NodeView::Root { scan_root, summaries } => root_details(scan_root, summaries),
            NodeView::Loading { .. } => seq!["Loading git-annex metadata in background..."@],
            NodeView::Summary { summary } => summary_details(summary),
            NodeView::Repo { meta, .. } => repo_details(meta),
            NodeView::RepoInfo { meta } => repo_info_details(meta),
            NodeView::Drives { meta, profiles } => drives_details(meta, profiles),
            NodeView::Drive { remote, .. } => drive_details(remote),
            NodeView::DriveInfo { remote } => drive_info_details(remote),
            NodeView::FilesOnDrive { drive_uuid, drive_name, .. } => drive_files_details(
                drive_uuid,
                drive_name,
            ),
            NodeView::File { meta, file, highlight } => file_details(meta, file, highlight, live),
            NodeView::Directory { dir_path, .. } => directory_details(dir_path),
            NodeView::AllFiles { .. } => all_files_details(),
            NodeView::ParentDir => seq!["Go up one directory (same as ← / h / Back)."@],
            NodeView::UsageDir { tree, dir_path, .. } => usage_details(tree, dir_path),
            NodeView::UsageFile { meta, file, .. } => usage_file_details(meta, file, live),
        }
    }

    /// The record behind the node, as text.
    pub open spec fn raw_text(self) -> Option<Text> {
        match self {
            NodeView::File { meta, file, .. } => file_raw(meta, file.key),
            NodeView::UsageDir { tree, dir_path, .. } => Some(usage_raw(tree, dir_path)),
            NodeView::UsageFile { meta, file, .. } => file_raw(meta, file.key),
            _ => None,
        }
    }

    /// The repository that is loaded when the node is entered.
    pub open spec fn annex_repo_path(self) -> Option<Text> {
        match self {
            NodeView::Summary { summary } => Some(summary.root),
            _ => None,
        }
    }

    /// The repository that is being loaded.
    pub open spec fn loading_path(self) -> Option<Text> {
        match self {
            NodeView::Loading { path } => Some(path),
            _ => None,
        }
    }

    /// The repository that the node is, loaded.
    pub open spec fn loaded_repo_path(self) -> Option<Text> {
        match self {
            NodeView::Repo { meta, .. } => Some(meta.root),
            _ => None,
        }
    }

    /// Whether the drive is set up otherwise than most drives of its name.
    pub open spec fn anomalous(self) -> bool {
        match self {
            NodeView::Drive { anomalous, .. } => anomalous,
            _ => false,
        }
    }

    /// How far a drive is trusted.
    pub open spec fn trust(self) -> Option<TrustLevel> {
        match self {
            NodeView::Drive { remote, .. } => Some(remote.trust),
            _ => None,
        }
    }

    /// The size of a row of the usage view.
    pub open spec fn size(self) -> Option<u64> {
        match self {
            NodeView::UsageDir { tree, dir_path, .. } => if dir_path.len() == 0 {
                None
            } else {
                Some(tree.stats(dir_path).0)
            },
            NodeView::UsageFile { size, .. } => Some(size),
            _ => None,
        }
    }

    /// Whether the content of a file of the usage view is here.
    pub open spec fn present(self) -> Option<bool> {
        match self {
            NodeView::UsageFile { meta, file, .. } => Some(is_here(meta, file.key)),
            _ => None,
        }
    }

    /// Which row is selected when the node is entered.
    pub open spec fn initial_selected(self) -> nat {
        match self {
            NodeView::UsageDir { meta, tree, dir_path } => usage_first_row(meta, tree, dir_path),
            _ => 0,
        }
    }

    /// The listing of a directory of the usage view.
    pub open spec fn usage_listing(self) -> Option<ListingView> {
        match self {
            NodeView::UsageDir { tree, dir_path, .. } => Some(tree.listing(dir_path)),
            _ => None,
        }
    }

    /// The repository and the drive that git-annex is to be asked about before the node can be
    /// entered.
    pub open spec fn listing_query(self) -> Option<(Text, Text)> {
        match self {
            NodeView::FilesOnDrive { meta, drive_uuid, drive_name, listing: None } => Some(
                (
                    meta.root,
                    if drive_uuid == meta.uuid {
                        "here"@
                    } else {
                        drive_name
                    },
                ),
            ),
            _ => None,
        }
    }

    /// The node once git-annex has answered.
    pub open spec fn with_listing(self, files: Seq<FileView>) -> NodeView {
        match self {
            NodeView::FilesOnDrive { meta, drive_uuid, drive_name, .. } => NodeView::FilesOnDrive {
                meta,
                drive_uuid,
                drive_name,
                listing: Some(files),
            },
            _ => self,
        }
    }

    /// The repository and the key that git-annex is to be asked about for the details.
    pub open spec fn live_query(self) -> Option<(Text, Text)> {
        match self {
            NodeView::File { meta, file, highlight } => if recorded_locations(
                meta,
                file.key,
                highlight,
            ) == Set::<Text>::empty() {
                Some((meta.root, file.key))
            } else {
                None
            },
            NodeView::UsageFile { meta, file, .. } => if recorded_locations(meta, file.key, None)
                == Set::<Text>::empty() {
                Some((meta.root, file.key))
            } else {
                None
            },
            _ => None,
        }
    }
}

/// What every node of the tree can be asked.
pub trait Node {
    /// What the node stands for.
    spec fn node(&self) -> NodeView;

    /// What the list shows of the node.
    fn label(&self) -> (r: String)
        ensures
            r@ == self.node().label(),
    ;

    /// What the node is.
    fn kind(&self) -> (r: &'static str)
        ensures
            r@ == self.node().kind(),
    ;

    /// The nodes below the node.
    fn children(&self) -> (r: Vec<Rc<TreeNode>>)
        ensures
            r.deep_view() == self.node().children(),
    ;

    /// What is known of the node.
    fn details(&self, live: &StrSet) -> (r: Vec<String>)
        ensures
            r.deep_view() == self.node().details(live@),
    ;

    /// The record behind the node, as text.
    fn raw_text(&self) -> (r: Option<String>)
        ensures
            r.deep_view() == self.node().raw_text(),
    ;

    /// The repository that is loaded when the node is entered.
    fn annex_repo_path(&self) -> (r: Option<&String>)
        ensures
            r.deep_view() == self.node().annex_repo_path(),
    ;

    /// The repository that is being loaded.
    fn loading_path(&self) -> (r: Option<String>)
        ensures
            r.deep_view() == self.node().loading_path(),
    ;

    /// The repository that the node is, loaded.
    fn loaded_repo_path(&self) -> (r: Option<&String>)
        ensures
            r.deep_view() == self.node().loaded_repo_path(),
    ;

    /// Whether the drive is set up otherwise than most drives of its name.
    fn anomalous(&self) -> (r: bool)
        ensures
            r == self.node().anomalous(),
    ;

    /// How far a drive is trusted.
    fn trust(&self) -> (r: Option<TrustLevel>)
        ensures
            r == self.node().trust(),
    ;

    /// The size of a row of the usage view.
    fn size(&self) -> (r: Option<u64>)
        ensures
            r == self.node().size(),
    ;

    /// Whether the content of a file of the usage view is here.
    fn present(&self) -> (r: Option<bool>)
        ensures
            r == self.node().present(),
    ;

    /// Which row is selected when the node is entered.
    fn initial_selected(&self) -> (r: usize)
        ensures
            r == self.node().initial_selected(),
    ;

    /// The listing of a directory of the usage view.
    fn usage_listing(&self) -> (r: Option<UsageListing>)
        ensures
            r.deep_view() == self.node().usage_listing(),
    ;

    /// The repository and the drive that git-annex is to be asked about before the node can be
    /// entered.
    fn listing_query(&self) -> (r: Option<(String, String)>)
        ensures
            r.deep_view() == self.node().listing_query(),
    ;

    /// The repository and the key that git-annex is to be asked about for the details.
    fn live_query(&self) -> (r: Option<(String, String)>)
        ensures
            r.deep_view() == self.node().live_query(),
    ;
}

impl Node for TreeNode {
    open spec fn node(&self) -> NodeView {
        self.deep_view()
    }

    fn label(&self) -> (r: String) {
        match self {
            TreeNode::Root(n) => n.label(),
            TreeNode::Loading(n) => n.label(),
            TreeNode::Summary(n) => n.label(),
            TreeNode::Repo(n) => n.label(),
            TreeNode::RepoInfo(_) => "info / summary".to_string(),
            TreeNode::Drives(n) => n.label(),
            TreeNode::Drive(n) => n.label(),
            TreeNode::DriveInfo(_) => "drive info".to_string(),
            TreeNode::FilesOnDrive(n) => n.label(),
            TreeNode::File(n) => n.label(),
            TreeNode::Directory(n) => n.label(),
            TreeNode::AllFiles(n) => n.label(),
            TreeNode::ParentDir(_) => "..".to_string(),
            TreeNode::UsageDir(n) => n.label(),
            TreeNode::UsageFile(n) => n.name.clone(),
        }
    }

    fn kind(&self) -> (r: &'static str) {
        match self {
            TreeNode::Root(_) => "root",
            TreeNode::Loading(_) => "repo",
            TreeNode::Summary(_) => "repo",
            TreeNode::Repo(_) => "repo",
            TreeNode::RepoInfo(_) => "info",
            TreeNode::Drives(_) => "drives",
            TreeNode::Drive(n) => n.kind(),
            TreeNode::DriveInfo(_) => "info",
            TreeNode::FilesOnDrive(_) => "files",
            TreeNode::File(_) => "file",
            TreeNode::Directory(_) => "dir",
            TreeNode::AllFiles(_) => "files",
            TreeNode::ParentDir(_) => "parent",
            TreeNode::UsageDir(n) => n.kind(),
            TreeNode::UsageFile(_) => "file",
        }
    }

    fn children(&self) -> (r: Vec<Rc<TreeNode>>) {
        match self {
            TreeNode::Root(n) => n.children(),
            TreeNode::Repo(n) => n.children(),
            TreeNode::Drives(n) => n.children(),
            TreeNode::Drive(n) => n.children(),
            TreeNode::FilesOnDrive(n) => n.children(),
            TreeNode::Directory(n) => n.children(),
            TreeNode::AllFiles(n) => n.children(),
            TreeNode::UsageDir(n) => n.children(),
            _ => no_nodes(),
        }
    }

    fn details(&self, live: &StrSet) -> (r: Vec<String>) {
        match self {
            TreeNode::Root(n) => n.details(),
            TreeNode::Loading(n) => n.details(),
            TreeNode::Summary(n) => n.details(),
            TreeNode::Repo(n) => n.details(),
            TreeNode::RepoInfo(n) => n.details(),
            TreeNode::Drives(n) => n.details(),
            TreeNode::Drive(n) => n.details(),
            TreeNode::DriveInfo(n) => n.details(),
            TreeNode::FilesOnDrive(n) => n.details(),
            TreeNode::File(n) => n.details(live),
            TreeNode::Directory(n) => n.details(),
            TreeNode::AllFiles(n) => n.details(),
            TreeNode::ParentDir(n) => n.details(),
            TreeNode::UsageDir(n) => n.details(),
            TreeNode::UsageFile(n) => n.details(live),
        }
    }

    fn raw_text(&self) -> (r: Option<String>) {
        match self {
            TreeNode::File(n) => n.raw_text(),
            TreeNode::UsageDir(n) => n.raw_text(),
            TreeNode::UsageFile(n) => n.raw_text(),
            _ => None,
        }
    }

    fn annex_repo_path(&self) -> (r: Option<&String>) {
        match self {
            TreeNode::Summary(n) => Some(&n.summary.root),
            _ => None,
        }
    }

    fn loading_path(&self) -> (r: Option<String>) {
        match self {
            TreeNode::Loading(n) => Some(n.path.clone()),
            _ => None,
        }
    }

    fn loaded_repo_path(&self) -> (r: Option<&String>) {
        match self {
            TreeNode::Repo(n) => Some(&n.meta.root),
            _ => None,
        }
    }

    fn anomalous(&self) -> (r: bool) {
        match self {
            TreeNode::Drive(n) => n.anomalous,
            _ => false,
        }
    }

    fn trust(&self) -> (r: Option<TrustLevel>) {
        match self {
            TreeNode::Drive(n) => Some(n.remote.trust),
            _ => None,
        }
    }

    fn size(&self) -> (r: Option<u64>) {
        match self {
            TreeNode::UsageDir(n) => n.size(),
            TreeNode::UsageFile(n) => Some(n.size),
            _ => None,
        }
    }

    fn present(&self) -> (r: Option<bool>) {
        match self {
            TreeNode::UsageFile(n) => n.present(),
            _ => None,
        }
    }

    fn initial_selected(&self) -> (r: usize) {
        match self {
            TreeNode::UsageDir(n) => n.initial_selected(),
            _ => 0,
        }
    }

    fn usage_listing(&self) -> (r: Option<UsageListing>) {
        match self {
            TreeNode::UsageDir(n) => n.usage_listing(),
            _ => None,
        }
    }

    fn listing_query(&self) -> (r: Option<(String, String)>) {
        match self {
            TreeNode::FilesOnDrive(n) => if n.listing.is_none() {
                Some((n.meta.root.clone(), n.query_name()))
            } else {
                None
            },
            _ => None,
        }
    }

    fn live_query(&self) -> (r: Option<(String, String)>) {
        match self {
            TreeNode::File(n) => if n.wants_live() {
                Some((n.meta.root.clone(), n.file.key.clone()))
            } else {
                None
            },
            TreeNode::UsageFile(n) => if n.wants_live() {
                Some((n.meta.root.clone(), n.file.key.clone()))
            } else {
                None
            },
            _ => None,
        }
    }
}

/// Repositories that are not loaded stand only below the top, and nothing below a node is the
/// top, a repository that is being loaded or a loaded one.
pub proof fn law_only_the_top_leads_to_repositories(n: NodeView, i: int)
    requires
        0 <= i < n.children().len(),
    ensures
        n.children()[i] is Summary <==> n is Root,
        !(n.children()[i] is Root),
        !(n.children()[i] is Loading),
        !(n.children()[i] is Repo),
{
    match n {
        NodeView::FilesOnDrive { meta, drive_uuid, listing, .. } => {
            let l = listed_files(listing);
            let nodes = directory_nodes(
                meta,
                Seq::empty(),
                Some(drive_uuid),
                subdirectories(l, 0),
            ) + file_nodes(meta, direct_files(l, 0), Some(drive_uuid)) + file_nodes(
                meta,
                unused_files(meta, drive_uuid, l),
                Some(drive_uuid),
            );
            lemma_entry_nodes(nodes, i);
        },
        NodeView::Directory { meta, dir_path, drive } => {
            let k = directory_prefix(dir_path).len() as int;
            let below = meta.files.filter(|f: FileView| is_below(meta, f, dir_path, drive));
            let nodes = directory_nodes(meta, dir_path, drive, subdirectories(below, k))
                + file_nodes(meta, direct_files(below, k), None);
            lemma_entry_nodes(nodes, i);
        },
        NodeView::AllFiles { meta } => {
            let nodes = directory_nodes(
                meta,
                Seq::empty(),
                None,
                subdirectories(meta.files, 0),
            ) + file_nodes(meta, direct_files(meta.files, 0), None);
            lemma_entry_nodes(nodes, i);
        },
        NodeView::UsageDir { meta, tree, dir_path } => {
            if i > 0 {
                lemma_usage_nodes(meta, tree, tree.list(dir_path), i - 1);
            }
        },
        _ => {},
    }
}

/// Only a directory of the usage view has a way up.
pub proof fn law_only_directories_have_a_way_up(n: NodeView, i: int)
    requires
        0 <= i < n.children().len(),
    ensures
        n.children()[i] is ParentDir ==> n is UsageDir,
{
    match n {
        NodeView::FilesOnDrive { meta, drive_uuid, listing, .. } => {
            let l = listed_files(listing);
            let nodes = directory_nodes(
                meta,
                Seq::empty(),
                Some(drive_uuid),
                subdirectories(l, 0),
            ) + file_nodes(meta, direct_files(l, 0), Some(drive_uuid)) + file_nodes(
                meta,
                unused_files(meta, drive_uuid, l),
                Some(drive_uuid),
            );
            lemma_entry_nodes(nodes, i);
        },
        NodeView::Directory { meta, dir_path, drive } => {
            let k = directory_prefix(dir_path).len() as int;
            let below = meta.files.filter(|f: FileView| is_below(meta, f, dir_path, drive));
            let nodes = directory_nodes(meta, dir_path, drive, subdirectories(below, k))
                + file_nodes(meta, direct_files(below, k), None);
            lemma_entry_nodes(nodes, i);
        },
        NodeView::AllFiles { meta } => {
            let nodes = directory_nodes(
                meta,
                Seq::empty(),
                None,
                subdirectories(meta.files, 0),
            ) + file_nodes(meta, direct_files(meta.files, 0), None);
            lemma_entry_nodes(nodes, i);
        },
        NodeView::UsageDir { meta, tree, dir_path } => {
            if i > 0 {
                lemma_usage_nodes(meta, tree, tree.list(dir_path), i - 1);
            }
        },
        _ => {},
    }
}

} // verus!
