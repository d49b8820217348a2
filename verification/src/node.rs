//! The tree that is browsed. Everything in it is a node.

use std::rc::Rc;
use vstd::prelude::*;
use crate::annex::{drive_name, directory_name, name_or, AnnexMetadata, AnnexedFile, FileView, MetaView, Remote, RemoteView, RepoSummary, SummaryView};
use crate::order::{arrange, arranged, key_less, law_sorted, lemma_order, sorted_by, Key, SortKey};
use crate::profile::{DriveProfile, ProfileView};
use crate::table::{pairs_of, Dup, StrMap};
use crate::tally::all_counts;
use crate::text::{count_text, decimal, decimal_of, join, join_of, labelled, no_rows, push_list, push_optional, push_row, same_text, string_of, text_less, with_list, with_optional, Text};
use crate::trust::{trust_letter, trust_word, TrustLevel};
use crate::usage::{TreeView, UsageTree};
use crate::util::{fmt_unix, short_uuid, short_uuid_text, unix_text};

verus! {

// ---------------------------------------------------------------------------------------
// Kinds of nodes

/// Top level: the repositories under the scanned directory.
pub struct RootNode {
    pub scan_root: String,
    pub summaries: Vec<RepoSummary>,
}

/// Shown while the metadata of a repository is loaded.
pub struct RepoLoadingNode {
    pub path: String,
}

/// A repository that may not be loaded yet.
pub struct RepoSummaryNode {
    pub summary: RepoSummary,
}

/// A loaded repository.
pub struct RepoNode {
    pub meta: Rc<AnnexMetadata>,
    /// How the drives of each name are set up across all repositories.
    pub drive_profiles: Rc<StrMap<DriveProfile>>,
}

/// The summary of a loaded repository.
pub struct RepoInfoNode {
    pub meta: Rc<AnnexMetadata>,
}

/// All drives of a repository.
pub struct DrivesNode {
    pub meta: Rc<AnnexMetadata>,
    pub drive_profiles: Rc<StrMap<DriveProfile>>,
}

/// A drive.
pub struct DriveNode {
    pub meta: Rc<AnnexMetadata>,
    pub remote: Remote,
    pub anomalous: bool,
}

/// The summary of a drive.
pub struct DriveInfoNode {
    pub remote: Remote,
}

/// The files whose content is on a drive.
pub struct FilesOnDriveNode {
    pub meta: Rc<AnnexMetadata>,
    pub drive_uuid: String,
    pub drive_name: String,
    /// The files of the working tree that git-annex lists as present on the drive, once it
    /// was asked.
    pub listing: Option<Vec<AnnexedFile>>,
}

/// An annexed file.
pub struct AnnexFileNode {
    pub meta: Rc<AnnexMetadata>,
    pub file: AnnexedFile,
    /// The drive on which it was come upon.
    pub highlight_drive: Option<String>,
}

/// A directory of the working tree, all of it or what is present on a drive.
pub struct DirectoryNode {
    pub meta: Rc<AnnexMetadata>,
    /// Such as `subdir/example`; the top is the empty text.
    pub dir_path: String,
    pub drive_uuid: Option<String>,
}

/// All annexed files of the working tree.
pub struct AllFilesNode {
    pub meta: Rc<AnnexMetadata>,
}

/// The way up from a directory of the usage view.
pub struct ParentDirNode {}

/// A directory of the usage view.
pub struct UsageDirNode {
    pub meta: Rc<AnnexMetadata>,
    pub tree: Rc<UsageTree>,
    /// Such as `subdir/example`; the top is the empty text.
    pub dir_path: String,
}

/// A file of the usage view.
pub struct UsageFileNode {
    pub meta: Rc<AnnexMetadata>,
    pub file: AnnexedFile,
    pub name: String,
    pub size: u64,
}

/// A node of the tree.
pub enum TreeNode {
    Root(RootNode),
    Loading(RepoLoadingNode),
    Summary(RepoSummaryNode),
    Repo(RepoNode),
    RepoInfo(RepoInfoNode),
    Drives(DrivesNode),
    Drive(DriveNode),
    DriveInfo(DriveInfoNode),
    FilesOnDrive(FilesOnDriveNode),
    File(AnnexFileNode),
    Directory(DirectoryNode),
    AllFiles(AllFilesNode),
    ParentDir(ParentDirNode),
    UsageDir(UsageDirNode),
    UsageFile(UsageFileNode),
}

/// A node as what it stands for.
pub ghost enum NodeView {
    Root { scan_root: Text, summaries: Seq<SummaryView> },
    Loading { path: Text },
    Summary { summary: SummaryView },
    Repo { meta: MetaView, profiles: Map<Text, ProfileView> },
    RepoInfo { meta: MetaView },
    Drives { meta: MetaView, profiles: Map<Text, ProfileView> },
    Drive { meta: MetaView, remote: RemoteView, anomalous: bool },
    DriveInfo { remote: RemoteView },
    FilesOnDrive {
        meta: MetaView,
        drive_uuid: Text,
        drive_name: Text,
        listing: Option<Seq<FileView>>,
    },
    File { meta: MetaView, file: FileView, highlight: Option<Text> },
    Directory { meta: MetaView, dir_path: Text, drive: Option<Text> },
    AllFiles { meta: MetaView },
    ParentDir,
    UsageDir { meta: MetaView, tree: TreeView, dir_path: Text },
    UsageFile { meta: MetaView, file: FileView, name: Text, size: u64 },
}

impl DeepView for RootNode {
    type V = NodeView;

    open spec fn deep_view(&self) -> NodeView {
        NodeView::Root { scan_root: self.scan_root@, summaries: self.summaries.deep_view() }
    }
}

impl DeepView for RepoLoadingNode {
    type V = NodeView;

    open spec fn deep_view(&self) -> NodeView {
        NodeView::Loading { path: self.path@ }
    }
}

impl DeepView for RepoSummaryNode {
    type V = NodeView;

    open spec fn deep_view(&self) -> NodeView {
        NodeView::Summary { summary: self.summary.deep_view() }
    }
}

impl DeepView for RepoNode {
    type V = NodeView;

    open spec fn deep_view(&self) -> NodeView {
        NodeView::Repo { meta: self.meta.deep_view(), profiles: self.drive_profiles.deep_view() }
    }
}

impl DeepView for RepoInfoNode {
    type V = NodeView;

    open spec fn deep_view(&self) -> NodeView {
        NodeView::RepoInfo { meta: self.meta.deep_view() }
    }
}

impl DeepView for DrivesNode {
    type V = NodeView;

    open spec fn deep_view(&self) -> NodeView {
        NodeView::Drives { meta: self.meta.deep_view(), profiles: self.drive_profiles.deep_view() }
    }
}

impl DeepView for DriveNode {
    type V = NodeView;

    open spec fn deep_view(&self) -> NodeView {
        NodeView::Drive {
            meta: self.meta.deep_view(),
            remote: self.remote.deep_view(),
            anomalous: self.anomalous,
        }
    }
}

impl DeepView for DriveInfoNode {
    type V = NodeView;

    open spec fn deep_view(&self) -> NodeView {
        NodeView::DriveInfo { remote: self.remote.deep_view() }
    }
}

impl DeepView for FilesOnDriveNode {
    type V = NodeView;

    open spec fn deep_view(&self) -> NodeView {
        NodeView::FilesOnDrive {
            meta: self.meta.deep_view(),
            drive_uuid: self.drive_uuid@,
            drive_name: self.drive_name@,
            listing: self.listing.deep_view(),
        }
    }
}

impl DeepView for AnnexFileNode {
    type V = NodeView;

    open spec fn deep_view(&self) -> NodeView {
        NodeView::File {
            meta: self.meta.deep_view(),
            file: self.file.deep_view(),
            highlight: self.highlight_drive.deep_view(),
        }
    }
}

impl DeepView for DirectoryNode {
    type V = NodeView;

    open spec fn deep_view(&self) -> NodeView {
        NodeView::Directory {
            meta: self.meta.deep_view(),
            dir_path: self.dir_path@,
            drive: self.drive_uuid.deep_view(),
        }
    }
}

impl DeepView for AllFilesNode {
    type V = NodeView;

    open spec fn deep_view(&self) -> NodeView {
        NodeView::AllFiles { meta: self.meta.deep_view() }
    }
}

impl DeepView for ParentDirNode {
    type V = NodeView;

    open spec fn deep_view(&self) -> NodeView {
        NodeView::ParentDir
    }
}

impl DeepView for UsageDirNode {
    type V = NodeView;

    open spec fn deep_view(&self) -> NodeView {
        NodeView::UsageDir {
            meta: self.meta.deep_view(),
            tree: self.tree.deep_view(),
            dir_path: self.dir_path@,
        }
    }
}

impl DeepView for UsageFileNode {
    type V = NodeView;

    open spec fn deep_view(&self) -> NodeView {
        NodeView::UsageFile {
            meta: self.meta.deep_view(),
            file: self.file.deep_view(),
            name: self.name@,
            size: self.size,
        }
    }
}

impl DeepView for TreeNode {
    type V = NodeView;

    open spec fn deep_view(&self) -> NodeView {
        match self {
            TreeNode::Root(n) => n.deep_view(),
            TreeNode::Loading(n) => n.deep_view(),
            TreeNode::Summary(n) => n.deep_view(),
            TreeNode::Repo(n) => n.deep_view(),
            TreeNode::RepoInfo(n) => n.deep_view(),
            TreeNode::Drives(n) => n.deep_view(),
            TreeNode::Drive(n) => n.deep_view(),
            TreeNode::DriveInfo(n) => n.deep_view(),
            TreeNode::FilesOnDrive(n) => n.deep_view(),
            TreeNode::File(n) => n.deep_view(),
            TreeNode::Directory(n) => n.deep_view(),
            TreeNode::AllFiles(n) => n.deep_view(),
            TreeNode::ParentDir(n) => n.deep_view(),
            TreeNode::UsageDir(n) => n.deep_view(),
            TreeNode::UsageFile(n) => n.deep_view(),
        }
    }
}

// ---------------------------------------------------------------------------------------
// The top, and repositories

impl RootNode {
    /// The top of a scan that came upon nothing yet.
    pub fn new(scan_root: String) -> (r: RootNode)
        ensures
            r.deep_view() == (NodeView::Root { scan_root: scan_root@, summaries: Seq::empty() }),
    {
        let summaries: Vec<RepoSummary> = Vec::new();
        assert(summaries.deep_view() =~= Seq::<SummaryView>::empty());
        RootNode { scan_root, summaries }
    }

    /// What the list shows of it.
    pub fn label(&self) -> (r: String)
        ensures
            r@ == "scan: "@ + self.scan_root@,
    {
        labelled("scan: ", self.scan_root.as_str())
    }

    /// The nodes below it.
    pub fn children(&self) -> (r: Vec<Rc<TreeNode>>)
        ensures
            r.deep_view() == root_children(self.summaries.deep_view()),
    {
        let ghost d = self.summaries.deep_view();
        let ghost node = |s: SummaryView| NodeView::Summary { summary: s };
        let mut kids: Vec<Rc<TreeNode>> = Vec::new();
        let mut i: usize = 0;
        assert(kids.deep_view() =~= d.take(0).map_values(node));
        while i < self.summaries.len()
            invariant
                i <= self.summaries@.len(),
                d == self.summaries.deep_view(),
                node == (|s: SummaryView| NodeView::Summary { summary: s }),
                kids.deep_view() == d.take(i as int).map_values(node),
            decreases self.summaries@.len() - i,
        {
            let ghost before = kids.deep_view();
            let kid = TreeNode::Summary(RepoSummaryNode { summary: self.summaries[i].dup() });
            kids.push(Rc::new(kid));
            assert(kids.deep_view() =~= before.push(node(d[i as int])));
            assert(d.take(i + 1).map_values(node) =~= d.take(i as int).map_values(node).push(
                node(d[i as int]),
            ));
            i += 1;
        }
        assert(d.take(i as int) =~= d);
        kids
    }

    /// What is known of it.
    pub fn details(&self) -> (r: Vec<String>)
        ensures
            r.deep_view() == root_details(self.scan_root@, self.summaries.deep_view()),
    {
        let mut d = no_rows();
        push_row(&mut d, labelled("root: ", self.scan_root.as_str()));
        push_row(
            &mut d,
            labelled("annex repos found: ", count_text(self.summaries.len()).as_str()),
        );
        push_row(
            &mut d,
            "Drives sorted by last fsck time. Use --scan to refresh cache.".to_string(),
        );
        d
    }
}

/// A node for each repository.
pub open spec fn root_children(summaries: Seq<SummaryView>) -> Seq<NodeView> {
    summaries.map_values(|s: SummaryView| NodeView::Summary { summary: s })
}

/// What is known of the top.
pub open spec fn root_details(scan_root: Text, summaries: Seq<SummaryView>) -> Seq<Text> {
    seq![
        "root: "@ + scan_root,
        "annex repos found: "@ + decimal(summaries.len()),
        "Drives sorted by last fsck time. Use --scan to refresh cache."@,
    ]
}

impl RepoLoadingNode {
    /// What the list shows of it.
    pub fn label(&self) -> (r: String)
        ensures
            r@ == self.path@ + " (loading...)"@,
    {
        labelled(self.path.as_str(), " (loading...)")
    }

    /// What is known of it.
    pub fn details(&self) -> (r: Vec<String>)
        ensures
            r.deep_view() == seq!["Loading git-annex metadata in background..."@],
    {
        let mut d = no_rows();
        push_row(&mut d, "Loading git-annex metadata in background...".to_string());
        d
    }
}

/// A description in brackets, where it says more than the name.
pub open spec fn in_brackets(description: Text, name: Text) -> Text {
    if description.len() > 0 && description != name {
        " ("@ + description + ")"@
    } else {
        Seq::empty()
    }
}

/// A description in brackets, where it says more than the name.
pub fn bracketed(description: &String, name: &String) -> (r: String)
    ensures
        r@ == in_brackets(description@, name@),
{
    if !description.as_str().is_empty() && *description != *name {
        labelled(" (", description.as_str()).concat(")")
    } else {
        let r = String::new();
        assert(r@ =~= Seq::<char>::empty());
        r
    }
}

/// What the list shows of a repository that may not be loaded yet.
pub open spec fn summary_label(s: SummaryView) -> Text {
    s.name + in_brackets(s.annex_description, s.name) + " — "@ + decimal(s.file_count as nat)
        + " files, "@ + decimal(s.remote_count as nat) + " drives"@
}

/// What is known of a repository that may not be loaded yet.
pub open spec fn summary_details(s: SummaryView) -> Seq<Text> {
    let path = seq!["path: "@ + s.root];
    let uuid = if s.uuid.len() > 0 {
        path.push("uuid: "@ + s.uuid)
    } else {
        path
    };
    let description = if s.annex_description.len() > 0 {
        uuid.push("annex description: "@ + s.annex_description)
    } else {
        uuid
    };
    description.push("files in working tree: "@ + decimal(s.file_count as nat)).push(
        "known remotes/drives: "@ + decimal(s.remote_count as nat),
    ).push("keys present here: "@ + decimal(s.here_present_count as nat)).push(
        "→ descend to see drives (sorted by last fsck), groups, wanted, numcopies etc."@,
    )
}

impl RepoSummaryNode {
    /// What the list shows of it.
    pub fn label(&self) -> (r: String)
        ensures
            r@ == summary_label(self.summary.deep_view()),
    {
        let s = &self.summary;
        let description = bracketed(&s.annex_description, &s.name);
        s.name.clone().concat(description.as_str()).concat(" — ").concat(
            count_text(s.file_count).as_str(),
        ).concat(" files, ").concat(count_text(s.remote_count).as_str()).concat(" drives")
    }

    /// What is known of it.
    pub fn details(&self) -> (r: Vec<String>)
        ensures
            r.deep_view() == summary_details(self.summary.deep_view()),
    {
        let s = &self.summary;
        let mut d = no_rows();
        push_row(&mut d, labelled("path: ", s.root.as_str()));
        if !s.uuid.as_str().is_empty() {
            push_row(&mut d, labelled("uuid: ", s.uuid.as_str()));
        }
        if !s.annex_description.as_str().is_empty() {
            push_row(&mut d, labelled("annex description: ", s.annex_description.as_str()));
        }
        push_row(&mut d, labelled("files in working tree: ", count_text(s.file_count).as_str()));
        push_row(&mut d, labelled("known remotes/drives: ", count_text(s.remote_count).as_str()));
        push_row(
            &mut d,
            labelled("keys present here: ", count_text(s.here_present_count).as_str()),
        );
        push_row(
            &mut d,
            "→ descend to see drives (sorted by last fsck), groups, wanted, numcopies etc.".to_string(),
        );
        d
    }
}

/// What the list shows of a loaded repository.
pub open spec fn repo_label(m: MetaView) -> Text {
    let name = name_or(m.root, m.description);
    if name != m.description && m.description.len() > 0 {
        name + " ("@ + m.description + ") ["@ + short_uuid_text(m.uuid) + "]"@
    } else {
        name + " ["@ + short_uuid_text(m.uuid) + "]"@
    }
}

/// The drives come first, then the summary, the files if there are any, and the files that
/// are present here.
pub open spec fn repo_children(m: MetaView, profiles: Map<Text, ProfileView>) -> Seq<NodeView> {
    let first = seq![NodeView::Drives { meta: m, profiles }, NodeView::RepoInfo { meta: m }];
    let files = if m.files.len() > 0 {
        first.push(NodeView::AllFiles { meta: m })
    } else {
        first
    };
    if m.remotes.contains_key(m.uuid) {
        files.push(
            NodeView::FilesOnDrive {
                meta: m,
                drive_uuid: m.uuid,
                drive_name: "here"@,
                listing: None,
            },
        )
    } else {
        files
    }
}

/// What is known of a loaded repository.
pub open spec fn repo_details(m: MetaView) -> Seq<Text> {
    let rows = seq![
        "path: "@ + m.root,
        "uuid: "@ + m.uuid,
        "description: "@ + m.description,
        "annexed files (working tree): "@ + decimal(m.files.len()),
        "known keys (locations): "@ + decimal(m.total_keys as nat),
        "known remotes/drives: "@ + decimal(m.remotes.len()),
    ];
    if m.remotes.contains_key(m.uuid) {
        rows.push(
            "here present: "@ + decimal(m.remotes[m.uuid].present_count as nat) + " keys"@,
        )
    } else {
        rows
    }
}

/// Adds a node.
pub(crate) fn push_node(kids: &mut Vec<Rc<TreeNode>>, node: TreeNode)
    ensures
        final(kids).deep_view() == old(kids).deep_view().push(node.deep_view()),
{
    let ghost before = kids.deep_view();
    kids.push(Rc::new(node));
    assert(kids.deep_view() =~= before.push(node.deep_view()));
}

/// No nodes.
pub(crate) fn no_nodes() -> (r: Vec<Rc<TreeNode>>)
    ensures
        r.deep_view() == Seq::<NodeView>::empty(),
{
    let r: Vec<Rc<TreeNode>> = Vec::new();
    assert(r.deep_view() =~= Seq::<NodeView>::empty());
    r
}

impl RepoNode {
    /// A loaded repository, held against no profiles.
    pub fn new(meta: Rc<AnnexMetadata>) -> (r: RepoNode)
        ensures
            r.deep_view() == (NodeView::Repo { meta: meta.deep_view(), profiles: Map::empty() }),
    {
        RepoNode { meta, drive_profiles: Rc::new(StrMap::new()) }
    }

    /// The repository, held against `profiles`.
    pub fn with_profiles(self, profiles: Rc<StrMap<DriveProfile>>) -> (r: RepoNode)
        ensures
            r.deep_view() == (NodeView::Repo {
                meta: self.meta.deep_view(),
                profiles: profiles.deep_view(),
            }),
    {
        RepoNode { meta: self.meta, drive_profiles: profiles }
    }

    /// What the list shows of it.
    pub fn label(&self) -> (r: String)
        ensures
            r@ == repo_label(self.meta.deep_view()),
    {
        let m = &*self.meta;
        let short = short_uuid(m.uuid.as_str());
        let name = directory_name(m.root.as_str(), &m.description);
        if name != m.description && !m.description.as_str().is_empty() {
            name.concat(" (").concat(m.description.as_str()).concat(") [").concat(
                short.as_str(),
            ).concat("]")
        } else {
            name.concat(" [").concat(short.as_str()).concat("]")
        }
    }

    /// The nodes below it.
    pub fn children(&self) -> (r: Vec<Rc<TreeNode>>)
        ensures
            r.deep_view() == repo_children(self.meta.deep_view(), self.drive_profiles.deep_view()),
    {
        let m = &*self.meta;
        let mut kids = no_nodes();
        push_node(
            &mut kids,
            TreeNode::Drives(
                DrivesNode { meta: self.meta.dup(), drive_profiles: self.drive_profiles.dup() },
            ),
        );
        push_node(&mut kids, TreeNode::RepoInfo(RepoInfoNode { meta: self.meta.dup() }));
        if m.files.len() > 0 {
            push_node(&mut kids, TreeNode::AllFiles(AllFilesNode { meta: self.meta.dup() }));
        }
        if m.remotes.contains_key(m.uuid.as_str()) {
            push_node(
                &mut kids,
                TreeNode::FilesOnDrive(
                    FilesOnDriveNode {
                        meta: self.meta.dup(),
                        drive_uuid: m.uuid.clone(),
                        drive_name: "here".to_string(),
                        listing: None,
                    },
                ),
            );
        }
        kids
    }

    /// What is known of it.
    pub fn details(&self) -> (r: Vec<String>)
        ensures
            r.deep_view() == repo_details(self.meta.deep_view()),
    {
        let m = &*self.meta;
        let mut d = no_rows();
        push_row(&mut d, labelled("path: ", m.root.as_str()));
        push_row(&mut d, labelled("uuid: ", m.uuid.as_str()));
        push_row(&mut d, labelled("description: ", m.description.as_str()));
        push_row(
            &mut d,
            labelled("annexed files (working tree): ", count_text(m.files.len()).as_str()),
        );
        push_row(&mut d, labelled("known keys (locations): ", count_text(m.total_keys).as_str()));
        push_row(&mut d, labelled("known remotes/drives: ", count_text(m.remotes.len()).as_str()));
        if let Some(h) = m.remotes.get(m.uuid.as_str()) {
            push_row(
                &mut d,
                labelled("here present: ", count_text(h.present_count).as_str()).concat(" keys"),
            );
        }
        d
    }
}

// ---------------------------------------------------------------------------------------
// Summaries

/// How many drives have the trust level.
pub open spec fn trusted_as(drives: Seq<(Text, RemoteView)>, t: TrustLevel) -> nat {
    drives.filter(|p: (Text, RemoteView)| p.1.trust == t).len()
}

/// How many drives have the trust level.
fn count_trusted(remotes: &StrMap<Remote>, t: TrustLevel) -> (r: usize)
    ensures
        r == trusted_as(pairs_of(remotes@), t),
{
    let n: usize = remotes.len();
    let ghost s = pairs_of(remotes@);
    let ghost is = |p: (Text, RemoteView)| p.1.trust == t;
    let mut count: usize = 0;
    let mut i: usize = 0;
    proof {
        reveal(Seq::filter);
        assert(s.take(0).filter(is).len() == 0);
    }
    while i < n
        invariant
            i <= n,
            n == s.len(),
            s == pairs_of(remotes@),
            is == (|p: (Text, RemoteView)| p.1.trust == t),
            count == s.take(i as int).filter(is).len(),
            count <= i,
        decreases n - i,
    {
        proof {
            reveal(Seq::filter);
            assert(s.take(i + 1).drop_last() =~= s.take(i as int));
            assert(s.take(i + 1).last() == s[i as int]);
        }
        if remotes.value_at(i).trust == t {
            count = count + 1;
        }
        i += 1;
    }
    assert(s.take(i as int) =~= s);
    count
}

/// What the settings say of a drive, where they say it.
pub open spec fn with_setup(d: Seq<Text>, r: RemoteView) -> Seq<Text> {
    with_optional(
        with_optional(with_list(d, "groups: "@, r.groups), "wanted: "@, r.wanted),
        "required: "@,
        r.required,
    )
}

fn push_setup(d: &mut Vec<String>, r: &Remote)
    ensures
        final(d).deep_view() == with_setup(old(d).deep_view(), r.deep_view()),
{
    push_list(d, "groups: ", &r.groups);
    push_optional(d, "wanted: ", &r.wanted);
    push_optional(d, "required: ", &r.required);
}

/// When a drive was last checked, where that is known.
pub open spec fn with_fsck(d: Seq<Text>, label: Text, ts: Option<i64>) -> Seq<Text> {
    match ts {
        Some(t) => d.push(label + unix_text(t)),
        None => d,
    }
}

fn push_fsck(d: &mut Vec<String>, label: &str, ts: Option<i64>)
    ensures
        final(d).deep_view() == with_fsck(old(d).deep_view(), label@, ts),
{
    if let Some(t) = ts {
        push_row(d, labelled(label, fmt_unix(t).as_str()));
    }
}

/// A row for each further setting, below a heading.
pub open spec fn with_configs(d: Seq<Text>, configs: Seq<Text>) -> Seq<Text> {
    if configs.len() > 0 {
        d.push("additional configs:"@) + configs.map_values(|c: Text| "  "@ + c)
    } else {
        d
    }
}

fn push_configs(d: &mut Vec<String>, configs: &Vec<String>)
    ensures
        final(d).deep_view() == with_configs(old(d).deep_view(), configs.deep_view()),
{
    if configs.len() > 0 {
        push_row(d, "additional configs:".to_string());
        let ghost start = d.deep_view();
        let ghost c = configs.deep_view();
        let ghost f = |t: Text| "  "@ + t;
        let mut i: usize = 0;
        assert(start + c.take(0).map_values(f) =~= start);
        while i < configs.len()
            invariant
                i <= configs@.len(),
                c == configs.deep_view(),
                f == (|t: Text| "  "@ + t),
                d.deep_view() == start + c.take(i as int).map_values(f),
            decreases configs@.len() - i,
        {
            push_row(d, labelled("  ", configs[i].as_str()));
            assert(start + c.take(i + 1).map_values(f) =~= (start + c.take(i as int).map_values(
                f,
            )).push(f(c[i as int])));
            i += 1;
        }
        assert(c.take(i as int) =~= c);
    }
}

/// The summary of a loaded repository.
pub open spec fn repo_info_details(m: MetaView) -> Seq<Text> {
    let name = name_or(m.root, m.description);
    let drives = pairs_of(m.remotes);
    let rows = seq![
        "repo path: "@ + m.root,
        "name: "@ + name + in_brackets(m.description, name),
        "local uuid: "@ + m.uuid,
        "working tree annexed files: "@ + decimal(m.files.len()),
        "unique keys tracked: "@ + decimal(m.total_keys as nat),
        "trust summary: "@ + decimal(trusted_as(drives, TrustLevel::Trusted)) + " trusted, "@
            + decimal(trusted_as(drives, TrustLevel::SemiTrusted)) + " semitrusted, "@ + decimal(
            trusted_as(drives, TrustLevel::UnTrusted),
        ) + " untrusted"@,
    ];
    let copies = match m.numcopies {
        Some(n) => rows.push("numcopies: "@ + decimal(n as nat)),
        None => rows,
    };
    let here = if m.remotes.contains_key(m.uuid) {
        let h = m.remotes[m.uuid];
        with_setup(with_fsck(copies, "last fsck (here): "@, h.last_fsck), h)
    } else {
        copies
    };
    with_configs(here, m.additional_configs)
}

impl RepoInfoNode {
    /// What is known of it.
    #[verifier::rlimit(30)]
    pub fn details(&self) -> (r: Vec<String>)
        ensures
            r.deep_view() == repo_info_details(self.meta.deep_view()),
    {
        let m = &*self.meta;
        let name = directory_name(m.root.as_str(), &m.description);
        let mut d = no_rows();
        push_row(&mut d, labelled("repo path: ", m.root.as_str()));
        push_row(
            &mut d,
            labelled("name: ", name.as_str()).concat(bracketed(&m.description, &name).as_str()),
        );
        push_row(&mut d, labelled("local uuid: ", m.uuid.as_str()));
        push_row(
            &mut d,
            labelled("working tree annexed files: ", count_text(m.files.len()).as_str()),
        );
        push_row(&mut d, labelled("unique keys tracked: ", count_text(m.total_keys).as_str()));
        let trusted = count_text(count_trusted(&m.remotes, TrustLevel::Trusted));
        let semi = count_text(count_trusted(&m.remotes, TrustLevel::SemiTrusted));
        let untrusted = count_text(count_trusted(&m.remotes, TrustLevel::UnTrusted));
        push_row(
            &mut d,
            labelled("trust summary: ", trusted.as_str()).concat(" trusted, ").concat(
                semi.as_str(),
            ).concat(" semitrusted, ").concat(untrusted.as_str()).concat(" untrusted"),
        );
        if let Some(n) = m.numcopies {
            push_row(&mut d, labelled("numcopies: ", decimal_of(n as u64).as_str()));
        }
        if let Some(h) = m.remotes.get(m.uuid.as_str()) {
            push_fsck(&mut d, "last fsck (here): ", h.last_fsck);
            push_setup(&mut d, h);
        }
        push_configs(&mut d, &m.additional_configs);
        d
    }
}

// ---------------------------------------------------------------------------------------
// Drives

/// The time of the last check by which drives are ordered.
pub open spec fn fsck_or_start(r: RemoteView) -> i64 {
    match r.last_fsck {
        Some(t) => t,
        None => 0,
    }
}

/// The place of a drive: the one that was checked last first, those of a time by name.
pub open spec fn fsck_key(p: (Text, RemoteView)) -> Key {
    (-(fsck_or_start(p.1) as int), p.1.name())
}

/// The drives, the one that was checked last first, those of a time by name.
pub open spec fn by_fsck(remotes: Map<Text, RemoteView>) -> Seq<(Text, RemoteView)> {
    sorted_by(pairs_of(remotes), |p: (Text, RemoteView)| fsck_key(p))
}

/// The drives, the one that was checked last first, those of a time by name.
pub fn drives_by_fsck(remotes: &StrMap<Remote>) -> (r: Vec<(String, Remote)>)
    ensures
        r.deep_view() == by_fsck(remotes@),
{
    let n: usize = remotes.len();
    let ghost p = pairs_of(remotes@);
    let ghost key = |q: (Text, RemoteView)| fsck_key(q);
    let mut list: Vec<(String, Remote)> = Vec::new();
    let mut keys: Vec<SortKey> = Vec::new();
    let mut i: usize = 0;
    assert(list.deep_view() =~= p.take(0));
    assert(keys.deep_view() =~= p.take(0).map_values(key));
    while i < n
        invariant
            i <= n,
            n == p.len(),
            p == pairs_of(remotes@),
            key == (|q: (Text, RemoteView)| fsck_key(q)),
            list@.len() == i,
            keys@.len() == i,
            list.deep_view() == p.take(i as int),
            keys.deep_view() == p.take(i as int).map_values(key),
        decreases n - i,
    {
        let ghost before = list.deep_view();
        let ghost before_keys = keys.deep_view();
        let r = remotes.value_at(i).dup();
        let ts: i64 = match r.last_fsck {
            Some(t) => t,
            None => 0,
        };
        keys.push(SortKey::new(-(ts as i128), r.name()));
        list.push((remotes.key_at(i).clone(), r));
        proof {
            assert(list.deep_view() =~= before.push(p[i as int]));
            assert(p.take(i + 1) =~= p.take(i as int).push(p[i as int]));
            assert(keys.deep_view() =~= before_keys.push(key(p[i as int])));
            assert(p.take(i + 1).map_values(key) =~= p.take(i as int).map_values(key).push(
                key(p[i as int]),
            ));
        }
        i += 1;
    }
    assert(p.take(i as int) =~= p);
    let out = arrange(list, &keys);
    proof {
        lemma_order(keys.deep_view());
        assert(out.deep_view() =~= arranged(p, keys.deep_view()));
    }
    out
}

/// Whether the drive is set up otherwise than most drives of its name, where these differ.
pub open spec fn is_anomalous(profiles: Map<Text, ProfileView>, r: RemoteView) -> bool {
    profiles.contains_key(r.name()) && profiles[r.name()].has_variation()
        && !profiles[r.name()].fits(r)
}

/// A node for each drive.
pub open spec fn drives_children(m: MetaView, profiles: Map<Text, ProfileView>) -> Seq<NodeView> {
    by_fsck(m.remotes).map_values(
        |p: (Text, RemoteView)|
            NodeView::Drive { meta: m, remote: p.1, anomalous: is_anomalous(profiles, p.1) },
    )
}

/// The drives with content, the one with the most first.
pub open spec fn with_content(remotes: Map<Text, RemoteView>) -> Seq<(Text, RemoteView)> {
    sorted_by(
        pairs_of(remotes).filter(|p: (Text, RemoteView)| p.1.present_count > 0),
        |p: (Text, RemoteView)| (-(p.1.present_count as int), Seq::empty()),
    )
}

/// A row for each of the first eight drives with content, below a heading.
pub open spec fn with_content_rows(d: Seq<Text>, drives: Seq<(Text, RemoteView)>) -> Seq<Text> {
    if drives.len() == 0 {
        d
    } else {
        let shown = if drives.len() > 8 {
            drives.take(8)
        } else {
            drives
        };
        let rows = d.push(Seq::empty()).push("disks with content from this repo:"@)
            + shown.map_values(
            |p: (Text, RemoteView)|
                "  "@ + p.1.name() + " : "@ + decimal(p.1.present_count as nat) + " keys"@,
        );
        if drives.len() > 8 {
            rows.push("  ... and "@ + decimal((drives.len() - 8) as nat) + " more"@)
        } else {
            rows
        }
    }
}

/// Whether some drive has the name.
pub open spec fn has_drive_named(drives: Seq<(Text, RemoteView)>, name: Text) -> bool {
    exists|i: int| 0 <= i < drives.len() && (#[trigger] drives[i]).1.name() == name
}

/// The names of drives that are common elsewhere, in differing setups, but not in this
/// repository.
pub open spec fn missing_drives(
    remotes: Map<Text, RemoteView>,
    profiles: Map<Text, ProfileView>,
) -> Seq<Text> {
    pairs_of(profiles).filter(
        |p: (Text, ProfileView)|
            !has_drive_named(pairs_of(remotes), p.0) && p.1.has_variation() && all_counts(
                p.1.trusts,
            ) >= 3,
    ).map_values(|p: (Text, ProfileView)| p.0)
}

/// What is known of the drives.
pub open spec fn drives_details(m: MetaView, profiles: Map<Text, ProfileView>) -> Seq<Text> {
    let rows = seq![
        "All known drives / remotes for this repo."@,
        "Sorted by last fsck time (most recent first). Descend (Enter) to browse files present on each."@,
    ];
    let content = with_content_rows(rows, with_content(m.remotes));
    let missing = missing_drives(m.remotes, profiles);
    if profiles.len() > 3 && missing.len() > 0 {
        content.push(Seq::empty()).push(
            "missing in this repo (but common elsewhere): "@ + join(missing, ", "@),
        )
    } else {
        content
    }
}

/// The drives with content, the one with the most first.
fn drives_with_content(remotes: &StrMap<Remote>) -> (r: Vec<(String, Remote)>)
    ensures
        r.deep_view() == with_content(remotes@),
{
    let n: usize = remotes.len();
    let ghost p = pairs_of(remotes@);
    let ghost keep = |q: (Text, RemoteView)| q.1.present_count > 0;
    let ghost key = |q: (Text, RemoteView)| (-(q.1.present_count as int), Seq::<char>::empty());
    let mut list: Vec<(String, Remote)> = Vec::new();
    let mut keys: Vec<SortKey> = Vec::new();
    let mut i: usize = 0;
    proof {
        reveal(Seq::filter);
        assert(p.take(0).filter(keep) =~= Seq::<(Text, RemoteView)>::empty());
    }
    assert(list.deep_view() =~= p.take(0).filter(keep));
    assert(keys.deep_view() =~= p.take(0).filter(keep).map_values(key));
    while i < n
        invariant
            i <= n,
            n == p.len(),
            p == pairs_of(remotes@),
            keep == (|q: (Text, RemoteView)| q.1.present_count > 0),
            key == (|q: (Text, RemoteView)|
                (-(q.1.present_count as int), Seq::<char>::empty())),
            keys@.len() == list@.len(),
            list.deep_view() == p.take(i as int).filter(keep),
            keys.deep_view() == p.take(i as int).filter(keep).map_values(key),
        decreases n - i,
    {
        let ghost before = list.deep_view();
        let ghost before_keys = keys.deep_view();
        proof {
            reveal(Seq::filter);
            assert(p.take(i + 1).drop_last() =~= p.take(i as int));
            assert(p.take(i + 1).last() == p[i as int]);
        }
        let r = remotes.value_at(i);
        if r.present_count > 0 {
            let empty = SortKey::new(-(r.present_count as i128), "");
            proof {
                reveal_strlit("");
                assert(""@ =~= Seq::<char>::empty());
            }
            keys.push(empty);
            list.push((remotes.key_at(i).clone(), r.dup()));
            proof {
                assert(list.deep_view() =~= before.push(p[i as int]));
                assert(keys.deep_view() =~= before_keys.push(key(p[i as int])));
                assert(before.push(p[i as int]).map_values(key) =~= before_keys.push(
                    key(p[i as int]),
                ));
            }
        }
        i += 1;
    }
    assert(p.take(i as int) =~= p);
    let out = arrange(list, &keys);
    proof {
        lemma_order(keys.deep_view());
        assert(out.deep_view() =~= arranged(p.filter(keep), keys.deep_view()));
    }
    out
}

fn push_content_rows(d: &mut Vec<String>, drives: &Vec<(String, Remote)>)
    ensures
        final(d).deep_view() == with_content_rows(old(d).deep_view(), drives.deep_view()),
{
    if drives.len() == 0 {
        return;
    }
    let ghost w = drives.deep_view();
    let ghost row = |p: (Text, RemoteView)|
        "  "@ + p.1.name() + " : "@ + decimal(p.1.present_count as nat) + " keys"@;
    let empty = String::new();
    assert(empty@ =~= Seq::<char>::empty());
    push_row(d, empty);
    push_row(d, "disks with content from this repo:".to_string());
    let shown: usize = if drives.len() > 8 {
        8
    } else {
        drives.len()
    };
    let ghost start = d.deep_view();
    let mut i: usize = 0;
    assert(start + w.take(0).map_values(row) =~= start);
    while i < shown
        invariant
            i <= shown <= drives@.len(),
            w == drives.deep_view(),
            row == (|p: (Text, RemoteView)|
                "  "@ + p.1.name() + " : "@ + decimal(p.1.present_count as nat) + " keys"@),
            d.deep_view() == start + w.take(i as int).map_values(row),
        decreases shown - i,
    {
        let r = &drives[i].1;
        assert(w[i as int].1 == r.deep_view());
        push_row(
            d,
            labelled("  ", r.name()).concat(" : ").concat(count_text(r.present_count).as_str()).concat(
                " keys",
            ),
        );
        assert(start + w.take(i + 1).map_values(row) =~= (start + w.take(i as int).map_values(
            row,
        )).push(row(w[i as int])));
        i += 1;
    }
    assert(w.take(shown as int) =~= (if w.len() > 8 {
        w.take(8)
    } else {
        w
    }));
    if drives.len() > 8 {
        push_row(
            d,
            labelled("  ... and ", count_text(drives.len() - 8).as_str()).concat(" more"),
        );
    }
}

fn names_drive(remotes: &StrMap<Remote>, name: &str) -> (r: bool)
    ensures
        r == has_drive_named(pairs_of(remotes@), name@),
{
    let n: usize = remotes.len();
    let ghost p = pairs_of(remotes@);
    let mut i: usize = 0;
    while i < n
        invariant
            i <= n,
            n == p.len(),
            p == pairs_of(remotes@),
            forall|j: int| 0 <= j < i ==> (#[trigger] p[j]).1.name() != name@,
        decreases n - i,
    {
        let r = remotes.value_at(i);
        assert(p[i as int].1 == r.deep_view());
        if same_text(r.name(), name) {
            return true;
        }
        i += 1;
    }
    false
}

fn missing_names(remotes: &StrMap<Remote>, profiles: &StrMap<DriveProfile>) -> (r: Vec<String>)
    ensures
        r.deep_view() == missing_drives(remotes@, profiles@),
{
    let n: usize = profiles.len();
    let ghost p = pairs_of(profiles@);
    let ghost keep = |q: (Text, ProfileView)|
        !has_drive_named(pairs_of(remotes@), q.0) && q.1.has_variation() && all_counts(
            q.1.trusts,
        ) >= 3;
    let ghost name = |q: (Text, ProfileView)| q.0;
    let mut out: Vec<String> = Vec::new();
    let mut i: usize = 0;
    proof {
        reveal(Seq::filter);
        assert(p.take(0).filter(keep) =~= Seq::<(Text, ProfileView)>::empty());
    }
    assert(out.deep_view() =~= p.take(0).filter(keep).map_values(name));
    while i < n
        invariant
            i <= n,
            n == p.len(),
            p == pairs_of(profiles@),
            keep == (|q: (Text, ProfileView)|
                !has_drive_named(pairs_of(remotes@), q.0) && q.1.has_variation() && all_counts(
                    q.1.trusts,
                ) >= 3),
            name == (|q: (Text, ProfileView)| q.0),
            out.deep_view() == p.take(i as int).filter(keep).map_values(name),
        decreases n - i,
    {
        let ghost before = out.deep_view();
        proof {
            reveal(Seq::filter);
            assert(p.take(i + 1).drop_last() =~= p.take(i as int));
            assert(p.take(i + 1).last() == p[i as int]);
        }
        let k = profiles.key_at(i);
        let profile = profiles.value_at(i);
        if !names_drive(remotes, k.as_str()) && profile.has_variation()
            && profile.trusts.counts_reach(3) {
            out.push(k.clone());
            proof {
                assert(out.deep_view() =~= before.push(name(p[i as int])));
                assert(p.take(i + 1).filter(keep) == p.take(i as int).filter(keep).push(
                    p[i as int],
                ));
                assert(p.take(i + 1).filter(keep).map_values(name) =~= before.push(
                    name(p[i as int]),
                ));
            }
        }
        i += 1;
    }
    assert(p.take(i as int) =~= p);
    out
}

impl DrivesNode {
    /// What the list shows of it.
    pub fn label(&self) -> (r: String)
        ensures
            r@ == "drives / remotes ("@ + decimal(self.meta.deep_view().remotes.len()) + ")"@,
    {
        labelled("drives / remotes (", count_text(self.meta.remotes.len()).as_str()).concat(")")
    }

    /// The nodes below it.
    pub fn children(&self) -> (r: Vec<Rc<TreeNode>>)
        ensures
            r.deep_view() == drives_children(
                self.meta.deep_view(),
                self.drive_profiles.deep_view(),
            ),
    {
        let list = drives_by_fsck(&self.meta.remotes);
        let ghost w = list.deep_view();
        let ghost m = self.meta.deep_view();
        let ghost profiles = self.drive_profiles.deep_view();
        let ghost node = |p: (Text, RemoteView)|
            NodeView::Drive { meta: m, remote: p.1, anomalous: is_anomalous(profiles, p.1) };
        let mut kids = no_nodes();
        let mut i: usize = 0;
        assert(kids.deep_view() =~= w.take(0).map_values(node));
        while i < list.len()
            invariant
                i <= list@.len(),
                w == list.deep_view(),
                m == self.meta.deep_view(),
                profiles == self.drive_profiles.deep_view(),
                node == (|p: (Text, RemoteView)|
                    NodeView::Drive {
                        meta: m,
                        remote: p.1,
                        anomalous: is_anomalous(profiles, p.1),
                    }),
                kids.deep_view() == w.take(i as int).map_values(node),
            decreases list@.len() - i,
        {
            let ghost before = kids.deep_view();
            let r = &list[i].1;
            assert(w[i as int].1 == r.deep_view());
            let anomalous: bool = match self.drive_profiles.get(r.name()) {
                Some(p) => p.has_variation() && !p.matches_common(r),
                None => false,
            };
            push_node(
                &mut kids,
                TreeNode::Drive(DriveNode { meta: self.meta.dup(), remote: r.dup(), anomalous }),
            );
            assert(kids.deep_view() =~= before.push(node(w[i as int])));
            assert(w.take(i + 1).map_values(node) =~= w.take(i as int).map_values(node).push(
                node(w[i as int]),
            ));
            i += 1;
        }
        assert(w.take(i as int) =~= w);
        kids
    }

    /// What is known of it.
    pub fn details(&self) -> (r: Vec<String>)
        ensures
            r.deep_view() == drives_details(
                self.meta.deep_view(),
                self.drive_profiles.deep_view(),
            ),
    {
        let mut d = no_rows();
        push_row(&mut d, "All known drives / remotes for this repo.".to_string());
        push_row(
            &mut d,
            "Sorted by last fsck time (most recent first). Descend (Enter) to browse files present on each.".to_string(),
        );
        let content = drives_with_content(&self.meta.remotes);
        push_content_rows(&mut d, &content);
        if self.drive_profiles.len() > 3 {
            let missing = missing_names(&self.meta.remotes, &*self.drive_profiles);
            if missing.len() > 0 {
                let empty = String::new();
                assert(empty@ =~= Seq::<char>::empty());
                push_row(&mut d, empty);
                push_row(
                    &mut d,
                    labelled(
                        "missing in this repo (but common elsewhere): ",
                        join_of(&missing, ", ").as_str(),
                    ),
                );
            }
        }
        d
    }
}

/// What the list shows of a drive.
pub open spec fn drive_label(m: MetaView, r: RemoteView) -> Text {
    let special = if r.is_special() {
        " ("@ + r.rtype() + ")"@
    } else {
        Seq::empty()
    };
    let marker = if r.uuid == m.uuid {
        " [here]"@
    } else {
        Seq::empty()
    };
    r.name() + special + marker + " "@ + decimal(r.present_count as nat) + " keys"@
}

/// What a drive is: the repository itself, a special remote, or another repository.
pub open spec fn drive_kind(m: MetaView, r: RemoteView) -> Text {
    if r.uuid == m.uuid {
        "here"@
    } else if r.is_special() {
        "drive"@
    } else {
        "repo"@
    }
}

/// The summary of the drive, and its files where it has any.
pub open spec fn drive_children(m: MetaView, r: RemoteView) -> Seq<NodeView> {
    let info = seq![NodeView::DriveInfo { remote: r }];
    if r.present_count > 0 {
        info.push(
            NodeView::FilesOnDrive {
                meta: m,
                drive_uuid: r.uuid,
                drive_name: r.name(),
                listing: None,
            },
        )
    } else {
        info
    }
}

/// A row for each setting but the name and the type.
pub open spec fn setting_rows(config: Map<Text, Text>) -> Seq<Text> {
    pairs_of(config).filter(|p: (Text, Text)| p.0 != "name"@ && p.0 != "type"@).map_values(
        |p: (Text, Text)| p.0 + ": "@ + p.1,
    )
}

/// What is known of a drive.
pub open spec fn drive_details(r: RemoteView) -> Seq<Text> {
    let rows = seq![
        "name: "@ + r.name(),
        "uuid: "@ + r.uuid,
        "type: "@ + r.rtype(),
        "trust: "@ + trust_word(r.trust) + " ("@ + seq![trust_letter(r.trust)] + ")"@,
        "present keys: "@ + decimal(r.present_count as nat),
    ];
    with_setup(with_fsck(rows, "last fsck: "@, r.last_fsck), r) + setting_rows(r.config)
}

fn push_settings(d: &mut Vec<String>, config: &StrMap<String>)
    ensures
        final(d).deep_view() == old(d).deep_view() + setting_rows(config@),
{
    let n: usize = config.len();
    let ghost p = pairs_of(config@);
    let ghost start = d.deep_view();
    let ghost keep = |q: (Text, Text)| q.0 != "name"@ && q.0 != "type"@;
    let ghost row = |q: (Text, Text)| q.0 + ": "@ + q.1;
    let mut i: usize = 0;
    proof {
        reveal(Seq::filter);
        assert(p.take(0).filter(keep) =~= Seq::<(Text, Text)>::empty());
        assert(start + p.take(0).filter(keep).map_values(row) =~= start);
    }
    while i < n
        invariant
            i <= n,
            n == p.len(),
            p == pairs_of(config@),
            keep == (|q: (Text, Text)| q.0 != "name"@ && q.0 != "type"@),
            row == (|q: (Text, Text)| q.0 + ": "@ + q.1),
            d.deep_view() == start + p.take(i as int).filter(keep).map_values(row),
        decreases n - i,
    {
        proof {
            reveal(Seq::filter);
            assert(p.take(i + 1).drop_last() =~= p.take(i as int));
            assert(p.take(i + 1).last() == p[i as int]);
        }
        let k = config.key_at(i);
        let v = config.value_at(i);
        let ghost before = d.deep_view();
        let ghost kept = p.take(i as int).filter(keep);
        if !same_text(k.as_str(), "name") && !same_text(k.as_str(), "type") {
            push_row(d, k.clone().concat(": ").concat(v.as_str()));
            proof {
                assert(p.take(i + 1).filter(keep) == kept.push(p[i as int]));
                assert(kept.push(p[i as int]).map_values(row) =~= kept.map_values(row).push(
                    row(p[i as int]),
                ));
                assert(start + kept.push(p[i as int]).map_values(row) =~= before.push(
                    row(p[i as int]),
                ));
            }
        }
        i += 1;
    }
    assert(p.take(i as int) =~= p);
}

/// A text of one character.
fn letter(c: char) -> (r: String)
    ensures
        r@ == seq![c],
{
    let mut v: Vec<char> = Vec::new();
    v.push(c);
    assert(v@ =~= seq![c]);
    string_of(v.as_slice())
}

impl DriveNode {
    /// What the list shows of it.
    pub fn label(&self) -> (r: String)
        ensures
            r@ == drive_label(self.meta.deep_view(), self.remote.deep_view()),
    {
        let r = &self.remote;
        let empty = String::new();
        assert(empty@ =~= Seq::<char>::empty());
        let special = if r.is_special() {
            labelled(" (", r.rtype()).concat(")")
        } else {
            empty.clone()
        };
        let marker = if r.uuid == self.meta.uuid {
            " [here]".to_string()
        } else {
            empty
        };
        labelled(r.name(), special.as_str()).concat(marker.as_str()).concat(" ").concat(
            count_text(r.present_count).as_str(),
        ).concat(" keys")
    }

    /// What it is.
    pub fn kind(&self) -> (r: &'static str)
        ensures
            r@ == drive_kind(self.meta.deep_view(), self.remote.deep_view()),
    {
        if self.remote.uuid == self.meta.uuid {
            "here"
        } else if self.remote.is_special() {
            "drive"
        } else {
            "repo"
        }
    }

    /// The nodes below it.
    pub fn children(&self) -> (r: Vec<Rc<TreeNode>>)
        ensures
            r.deep_view() == drive_children(self.meta.deep_view(), self.remote.deep_view()),
    {
        let mut kids = no_nodes();
        push_node(&mut kids, TreeNode::DriveInfo(DriveInfoNode { remote: self.remote.dup() }));
        if self.remote.present_count > 0 {
            push_node(
                &mut kids,
                TreeNode::FilesOnDrive(
                    FilesOnDriveNode {
                        meta: self.meta.dup(),
                        drive_uuid: self.remote.uuid.clone(),
                        drive_name: self.remote.name().to_string(),
                        listing: None,
                    },
                ),
            );
        }
        kids
    }

    /// What is known of it.
    pub fn details(&self) -> (r: Vec<String>)
        ensures
            r.deep_view() == drive_details(self.remote.deep_view()),
    {
        let r = &self.remote;
        let mut d = no_rows();
        push_row(&mut d, labelled("name: ", r.name()));
        push_row(&mut d, labelled("uuid: ", r.uuid.as_str()));
        push_row(&mut d, labelled("type: ", r.rtype()));
        push_row(
            &mut d,
            labelled("trust: ", r.trust.as_str()).concat(" (").concat(
                letter(r.trust.short()).as_str(),
            ).concat(")"),
        );
        push_row(&mut d, labelled("present keys: ", count_text(r.present_count).as_str()));
        push_fsck(&mut d, "last fsck: ", r.last_fsck);
        push_setup(&mut d, r);
        push_settings(&mut d, &r.config);
        d
    }
}

/// The summary of a drive.
pub open spec fn drive_info_details(r: RemoteView) -> Seq<Text> {
    let rows = seq![
        "UUID: "@ + r.uuid,
        "Description / name: "@ + r.description,
        "Type: "@ + r.rtype(),
        "Trust level: "@ + trust_word(r.trust),
    ];
    let counted = with_fsck(rows, "Last fsck recorded: "@, r.last_fsck).push(
        "Keys present on this: "@ + decimal(r.present_count as nat),
    );
    let setup = with_setup(counted, r);
    if r.config.contains_key("directory"@) {
        setup.push("directory: "@ + r.config["directory"@])
    } else {
        setup
    }
}

impl DriveInfoNode {
    /// What is known of it.
    pub fn details(&self) -> (r: Vec<String>)
        ensures
            r.deep_view() == drive_info_details(self.remote.deep_view()),
    {
        let r = &self.remote;
        let mut d = no_rows();
        push_row(&mut d, labelled("UUID: ", r.uuid.as_str()));
        push_row(&mut d, labelled("Description / name: ", r.description.as_str()));
        push_row(&mut d, labelled("Type: ", r.rtype()));
        push_row(&mut d, labelled("Trust level: ", r.trust.as_str()));
        push_fsck(&mut d, "Last fsck recorded: ", r.last_fsck);
        push_row(&mut d, labelled("Keys present on this: ", count_text(r.present_count).as_str()));
        push_setup(&mut d, r);
        if let Some(path) = r.config.get("directory") {
            push_row(&mut d, labelled("directory: ", path.as_str()));
        }
        d
    }
}

// ---------------------------------------------------------------------------------------
// Laws

/// The drives come with the one that was checked last first, those of a time by name, and
/// each drive of the repository comes.
pub proof fn law_drives_by_fsck(remotes: Map<Text, RemoteView>)
    ensures
        by_fsck(remotes).len() == pairs_of(remotes).len(),
        forall|p: (Text, RemoteView)| #[trigger]
            by_fsck(remotes).contains(p) <==> pairs_of(remotes).contains(p),
        forall|i: int, j: int|
            0 <= i < j < by_fsck(remotes).len() ==> {
                let a = (#[trigger] by_fsck(remotes)[i]).1;
                let b = (#[trigger] by_fsck(remotes)[j]).1;
                fsck_or_start(a) > fsck_or_start(b) || (fsck_or_start(a) == fsck_or_start(b)
                    && !text_less(b.name(), a.name()))
            },
{
    let key = |p: (Text, RemoteView)| fsck_key(p);
    let s = pairs_of(remotes);
    law_sorted(s, key);
    let t = by_fsck(remotes);
    assert forall|i: int, j: int| 0 <= i < j < t.len() implies {
        let a = (#[trigger] t[i]).1;
        let b = (#[trigger] t[j]).1;
        fsck_or_start(a) > fsck_or_start(b) || (fsck_or_start(a) == fsck_or_start(b) && !text_less(
            b.name(),
            a.name(),
        ))
    } by {
        assert(!key_less(key(sorted_by(s, key)[j]), key(sorted_by(s, key)[i])));
    }
}

} // verus!
