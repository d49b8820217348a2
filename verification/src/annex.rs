//! What is known of a repository: its drives, its files, and where their content is.

use vstd::prelude::*;
use crate::logs::{key_size, parse_size_from_key};
use crate::paths::{file_name, file_name_of};
use crate::table::{lemma_count_pairs, lemma_pairs_of_finite, lemma_pairs_set, pairs_of, Dup, StrMap, StrSet};
use crate::text::{same_text, Text};
use crate::trust::TrustLevel;
use crate::util::{byte_prefix, first_bytes};

verus! {

// ---------------------------------------------------------------------------------------
// Drives

/// A drive: a repository or a special remote that may hold content.
#[derive(Debug)]
pub struct Remote {
    pub uuid: String,
    pub description: String,
    /// Its settings: type, name, encryption, directory and so on.
    pub config: StrMap<String>,
    pub trust: TrustLevel,
    /// When it was last checked, in unix seconds.
    pub last_fsck: Option<i64>,
    /// How many keys are present on it.
    pub present_count: usize,
    /// Free bytes of the file system it is on, where that is known.
    pub available_space: Option<u64>,
    pub groups: Vec<String>,
    pub wanted: Option<String>,
    pub required: Option<String>,
}

/// What a [`Remote`] stands for.
#[verifier::ext_equal]
pub ghost struct RemoteView {
    pub uuid: Text,
    pub description: Text,
    pub config: Map<Text, Text>,
    pub trust: TrustLevel,
    pub last_fsck: Option<i64>,
    pub present_count: usize,
    pub available_space: Option<u64>,
    pub groups: Seq<Text>,
    pub wanted: Option<Text>,
    pub required: Option<Text>,
}

impl DeepView for Remote {
    type V = RemoteView;

    open spec fn deep_view(&self) -> RemoteView {
        RemoteView {
            uuid: self.uuid@,
            description: self.description@,
            config: self.config@,
            trust: self.trust,
            last_fsck: self.last_fsck,
            present_count: self.present_count,
            available_space: self.available_space,
            groups: self.groups.deep_view(),
            wanted: self.wanted.deep_view(),
            required: self.required.deep_view(),
        }
    }
}

impl Dup for Remote {
    fn dup(&self) -> (r: Self) {
        Remote {
            uuid: self.uuid.dup(),
            description: self.description.dup(),
            config: self.config.dup(),
            trust: self.trust,
            last_fsck: self.last_fsck,
            present_count: self.present_count,
            available_space: self.available_space,
            groups: self.groups.dup(),
            wanted: self.wanted.dup(),
            required: self.required.dup(),
        }
    }
}

impl RemoteView {
    /// The name that the drive was given, else its description.
    pub open spec fn name(self) -> Text {
        if self.config.contains_key("name"@) {
            self.config["name"@]
        } else {
            self.description
        }
    }

    /// The type of a special remote; a plain repository is a `repo`.
    pub open spec fn rtype(self) -> Text {
        if self.config.contains_key("type"@) {
            self.config["type"@]
        } else {
            "repo"@
        }
    }

    /// Whether it is a special remote.
    pub open spec fn is_special(self) -> bool {
        self.config.contains_key("type"@)
    }
}

impl Remote {
    /// The name that the drive was given, else its description.
    pub fn name(&self) -> (r: &str)
        ensures
            r@ == self.deep_view().name(),
    {
        match self.config.get("name") {
            Some(s) => s.as_str(),
            None => self.description.as_str(),
        }
    }

    /// The type of a special remote; a plain repository is a `repo`.
    pub fn rtype(&self) -> (r: &str)
        ensures
            r@ == self.deep_view().rtype(),
    {
        match self.config.get("type") {
            Some(s) => s.as_str(),
            None => "repo",
        }
    }

    /// Whether it is a special remote.
    pub fn is_special(&self) -> (r: bool)
        ensures
            r == self.deep_view().is_special(),
    {
        self.config.contains_key("type")
    }
}

// ---------------------------------------------------------------------------------------
// Files

/// An annexed file.
#[derive(Debug)]
pub struct AnnexedFile {
    pub path: String,
    pub key: String,
    /// The size that its key records.
    pub size: Option<u64>,
}

/// What a [`AnnexedFile`] stands for.
#[verifier::ext_equal]
pub ghost struct FileView {
    pub path: Text,
    pub key: Text,
    pub size: Option<u64>,
}

impl DeepView for AnnexedFile {
    type V = FileView;

    open spec fn deep_view(&self) -> FileView {
        FileView { path: self.path@, key: self.key@, size: self.size }
    }
}

impl Dup for AnnexedFile {
    fn dup(&self) -> (r: Self) {
        AnnexedFile { path: self.path.dup(), key: self.key.dup(), size: self.size }
    }
}

// ---------------------------------------------------------------------------------------
// Metadata

/// All that is known of a repository.
#[derive(Debug)]
pub struct AnnexMetadata {
    pub root: String,
    pub uuid: String,
    pub description: String,
    pub version: Option<u32>,
    /// How many copies there are to be of a file.
    pub numcopies: Option<u32>,
    /// Further settings, a line each.
    pub additional_configs: Vec<String>,
    /// The drives, by uuid.
    pub remotes: StrMap<Remote>,
    /// For each key the uuids of the drives that have its content.
    pub locations: StrMap<StrSet>,
    /// The annexed files of the working tree.
    pub files: Vec<AnnexedFile>,
    /// How many keys are known from the location logs.
    pub total_keys: usize,
    /// The sizes of all keys, each counted once.
    pub unique_size: u64,
    /// The sizes of all keys, each counted once for every drive that has it.
    pub consumed_size: u64,
}

/// What a [`AnnexMetadata`] stands for.
#[verifier::ext_equal]
pub ghost struct MetaView {
    pub root: Text,
    pub uuid: Text,
    pub description: Text,
    pub version: Option<u32>,
    pub numcopies: Option<u32>,
    pub additional_configs: Seq<Text>,
    pub remotes: Map<Text, RemoteView>,
    pub locations: Map<Text, Set<Text>>,
    pub files: Seq<FileView>,
    pub total_keys: usize,
    pub unique_size: u64,
    pub consumed_size: u64,
}

impl DeepView for AnnexMetadata {
    type V = MetaView;

    open spec fn deep_view(&self) -> MetaView {
        MetaView {
            root: self.root@,
            uuid: self.uuid@,
            description: self.description@,
            version: self.version,
            numcopies: self.numcopies,
            additional_configs: self.additional_configs.deep_view(),
            remotes: self.remotes@,
            locations: self.locations@,
            files: self.files.deep_view(),
            total_keys: self.total_keys,
            unique_size: self.unique_size,
            consumed_size: self.consumed_size,
        }
    }
}

impl Dup for AnnexMetadata {
    fn dup(&self) -> (r: Self) {
        AnnexMetadata {
            root: self.root.dup(),
            uuid: self.uuid.dup(),
            description: self.description.dup(),
            version: self.version,
            numcopies: self.numcopies,
            additional_configs: self.additional_configs.dup(),
            remotes: self.remotes.dup(),
            locations: self.locations.dup(),
            files: self.files.dup(),
            total_keys: self.total_keys,
            unique_size: self.unique_size,
            consumed_size: self.consumed_size,
        }
    }
}

/// The name of the directory `root`, or `other` where it has none.
pub open spec fn name_or(root: Text, other: Text) -> Text {
    match file_name(root) {
        Some(n) => n,
        None => other,
    }
}

/// The name of the directory `root`, or `other` where it has none.
pub fn directory_name(root: &str, other: &String) -> (r: String)
    ensures
        r@ == name_or(root@, other@),
{
    match file_name_of(root) {
        Some(n) => n,
        None => other.clone(),
    }
}

// ---------------------------------------------------------------------------------------
// Sizes

/// The sizes that the files give for their keys; of two files with a key the later counts.
pub open spec fn file_sizes(files: Seq<FileView>) -> Map<Text, u64>
    decreases files.len(),
{
    if files.len() == 0 {
        Map::empty()
    } else {
        let m = file_sizes(files.drop_last());
        match files.last().size {
            Some(n) => m.insert(files.last().key, n),
            None => m,
        }
    }
}

/// The size of a key: what a file gives for it, else what the key itself records.
pub open spec fn size_of(sizes: Map<Text, u64>, key: Text) -> Option<u64> {
    if sizes.contains_key(key) {
        Some(sizes[key])
    } else {
        key_size(key)
    }
}

/// The bytes of the content of `key`, with `copies` copies of it. A key without a known size
/// counts nothing.
pub open spec fn stored(sizes: Map<Text, u64>, key: Text, copies: nat) -> nat {
    match size_of(sizes, key) {
        Some(n) => (n * copies) as nat,
        None => 0,
    }
}

/// The bytes of all keys of `s`, each counted once.
pub open spec fn unique_bytes(sizes: Map<Text, u64>, s: Seq<(Text, Set<Text>)>) -> nat
    decreases s.len(),
{
    if s.len() == 0 {
        0
    } else {
        unique_bytes(sizes, s.drop_last()) + stored(sizes, s.last().0, 1)
    }
}

/// The bytes of all keys of `s`, each counted once for every drive that has it.
pub open spec fn consumed_bytes(sizes: Map<Text, u64>, s: Seq<(Text, Set<Text>)>) -> nat
    decreases s.len(),
{
    if s.len() == 0 {
        0
    } else {
        consumed_bytes(sizes, s.drop_last()) + stored(sizes, s.last().0, s.last().1.len())
    }
}

/// The bytes of all keys, each counted once.
pub open spec fn total_unique(files: Seq<FileView>, locations: Map<Text, Set<Text>>) -> nat {
    unique_bytes(file_sizes(files), pairs_of(locations))
}

/// The bytes of all keys, each counted once for every drive that has it.
pub open spec fn total_consumed(files: Seq<FileView>, locations: Map<Text, Set<Text>>) -> nat {
    consumed_bytes(file_sizes(files), pairs_of(locations))
}

/// Whether both totals can be counted.
pub open spec fn sizes_fit(files: Seq<FileView>, locations: Map<Text, Set<Text>>) -> bool {
    total_unique(files, locations) <= u64::MAX && total_consumed(files, locations) <= u64::MAX
}

fn file_sizes_of(files: &Vec<AnnexedFile>) -> (r: StrMap<u64>)
    ensures
        r@ == file_sizes(files.deep_view()),
{
    let ghost d = files.deep_view();
    let mut m: StrMap<u64> = StrMap::new();
    let mut i: usize = 0;
    while i < files.len()
        invariant
            i <= files@.len(),
            d == files.deep_view(),
            m@ == file_sizes(d.take(i as int)),
        decreases files@.len() - i,
    {
        proof {
            assert(d.take(i + 1).drop_last() =~= d.take(i as int));
            assert(d.take(i + 1).last() == d[i as int]);
        }
        if let Some(n) = files[i].size {
            m.insert(files[i].key.clone(), n);
        }
        i += 1;
    }
    assert(d.take(i as int) =~= d);
    m
}

fn size_of_key(sizes: &StrMap<u64>, key: &str) -> (r: Option<u64>)
    ensures
        r == size_of(sizes@, key@),
{
    match sizes.get(key) {
        Some(n) => Some(*n),
        None => parse_size_from_key(key),
    }
}

proof fn lemma_totals_grow(sizes: Map<Text, u64>, s: Seq<(Text, Set<Text>)>, i: int)
    requires
        0 <= i <= s.len(),
    ensures
        unique_bytes(sizes, s.take(i)) <= unique_bytes(sizes, s),
        consumed_bytes(sizes, s.take(i)) <= consumed_bytes(sizes, s),
    decreases s.len() - i,
{
    if i < s.len() {
        lemma_totals_grow(sizes, s, i + 1);
        assert(s.take(i + 1).drop_last() =~= s.take(i));
    } else {
        assert(s.take(i) =~= s);
    }
}

/// Both totals, or nothing where one cannot be counted.
pub fn total_sizes(files: &Vec<AnnexedFile>, locations: &StrMap<StrSet>) -> (r: Option<(u64, u64)>)
    ensures
        r is Some == sizes_fit(files.deep_view(), locations@),
        r matches Some(t) ==> t.0 == total_unique(files.deep_view(), locations@) && t.1
            == total_consumed(files.deep_view(), locations@),
{
    let sizes = file_sizes_of(files);
    let n: usize = locations.len();
    let ghost s = pairs_of(locations@);
    let mut unique: u64 = 0;
    let mut consumed: u64 = 0;
    let mut i: usize = 0;
    while i < n
        invariant
            i <= n,
            n == s.len(),
            s == pairs_of(locations@),
            sizes@ == file_sizes(files.deep_view()),
            unique == unique_bytes(sizes@, s.take(i as int)),
            consumed == consumed_bytes(sizes@, s.take(i as int)),
        decreases n - i,
    {
        proof {
            assert(s.take(i + 1).drop_last() =~= s.take(i as int));
            assert(s.take(i + 1).last() == s[i as int]);
            lemma_totals_grow(sizes@, s, i + 1);
        }
        if let Some(size) = size_of_key(&sizes, locations.key_at(i).as_str()) {
            let copies: usize = locations.value_at(i).len();
            if size > u64::MAX - unique {
                return None;
            }
            assert(0 <= size * copies <= 0xffff_ffff_ffff_ffff * 0xffff_ffff_ffff_ffff)
                by (nonlinear_arith)
                requires
                    0 <= size <= 0xffff_ffff_ffff_ffff,
                    0 <= copies <= 0xffff_ffff_ffff_ffff,
            ;
            let all: u128 = size as u128 * copies as u128;
            if all > (u64::MAX - consumed) as u128 {
                return None;
            }
            unique = unique + size;
            consumed = consumed + all as u64;
        }
        i += 1;
    }
    assert(s.take(i as int) =~= s);
    Some((unique, consumed))
}

// ---------------------------------------------------------------------------------------
// Summaries

/// How much of a repository a drive holds.
#[derive(Debug)]
pub struct RemoteUsage {
    pub uuid: String,
    pub name: String,
    pub present_size: u64,
    pub present_count: usize,
    /// Whether the drive only passes content on.
    pub transfer: bool,
}

/// What a [`RemoteUsage`] stands for.
#[verifier::ext_equal]
pub ghost struct UsageView {
    pub uuid: Text,
    pub name: Text,
    pub present_size: u64,
    pub present_count: usize,
    pub transfer: bool,
}

impl DeepView for RemoteUsage {
    type V = UsageView;

    open spec fn deep_view(&self) -> UsageView {
        UsageView {
            uuid: self.uuid@,
            name: self.name@,
            present_size: self.present_size,
            present_count: self.present_count,
            transfer: self.transfer,
        }
    }
}

impl Dup for RemoteUsage {
    fn dup(&self) -> (r: Self) {
        RemoteUsage {
            uuid: self.uuid.dup(),
            name: self.name.dup(),
            present_size: self.present_size,
            present_count: self.present_count,
            transfer: self.transfer,
        }
    }
}

impl RemoteUsage {
    /// Whether the drive only passes content on.
    pub fn is_transfer_remote(&self) -> (r: bool)
        ensures
            r == self.deep_view().transfer,
    {
        self.transfer
    }
}

/// What the list of repositories shows of one.
#[derive(Debug)]
pub struct RepoSummary {
    pub root: String,
    pub uuid: String,
    /// The name that is shown, by preference that of the directory.
    pub name: String,
    /// The description that git-annex has of it.
    pub annex_description: String,
    pub file_count: usize,
    pub remote_count: usize,
    pub here_present_count: usize,
    pub here_available_space: Option<u64>,
    /// The sizes of all keys, each counted once.
    pub unique_size: u64,
    /// The sizes of all keys, each counted once for every drive that has it.
    pub consumed_size: u64,
    pub remote_usage: Vec<RemoteUsage>,
    pub numcopies: Option<u32>,
    /// How many keys are held against the number of copies, and how many have too few, the
    /// right number, or more.
    pub keys_tracked: usize,
    pub keys_under: usize,
    pub keys_ok: usize,
    pub keys_over: usize,
}

/// What a [`RepoSummary`] stands for.
#[verifier::ext_equal]
pub ghost struct SummaryView {
    pub root: Text,
    pub uuid: Text,
    pub name: Text,
    pub annex_description: Text,
    pub file_count: usize,
    pub remote_count: usize,
    pub here_present_count: usize,
    pub here_available_space: Option<u64>,
    pub unique_size: u64,
    pub consumed_size: u64,
    pub remote_usage: Seq<UsageView>,
    pub numcopies: Option<u32>,
    pub keys_tracked: usize,
    pub keys_under: usize,
    pub keys_ok: usize,
    pub keys_over: usize,
}

impl DeepView for RepoSummary {
    type V = SummaryView;

    open spec fn deep_view(&self) -> SummaryView {
        SummaryView {
            root: self.root@,
            uuid: self.uuid@,
            name: self.name@,
            annex_description: self.annex_description@,
            file_count: self.file_count,
            remote_count: self.remote_count,
            here_present_count: self.here_present_count,
            here_available_space: self.here_available_space,
            unique_size: self.unique_size,
            consumed_size: self.consumed_size,
            remote_usage: self.remote_usage.deep_view(),
            numcopies: self.numcopies,
            keys_tracked: self.keys_tracked,
            keys_under: self.keys_under,
            keys_ok: self.keys_ok,
            keys_over: self.keys_over,
        }
    }
}

impl Dup for RepoSummary {
    fn dup(&self) -> (r: Self) {
        RepoSummary {
            root: self.root.dup(),
            uuid: self.uuid.dup(),
            name: self.name.dup(),
            annex_description: self.annex_description.dup(),
            file_count: self.file_count,
            remote_count: self.remote_count,
            here_present_count: self.here_present_count,
            here_available_space: self.here_available_space,
            unique_size: self.unique_size,
            consumed_size: self.consumed_size,
            remote_usage: self.remote_usage.dup(),
            numcopies: self.numcopies,
            keys_tracked: self.keys_tracked,
            keys_under: self.keys_under,
            keys_ok: self.keys_ok,
            keys_over: self.keys_over,
        }
    }
}

/// The summary of a repository.
pub open spec fn summary_of(m: MetaView) -> SummaryView {
    SummaryView {
        root: m.root,
        uuid: m.uuid,
        name: name_or(m.root, m.description),
        annex_description: m.description,
        file_count: m.files.len() as usize,
        remote_count: m.remotes.len() as usize,
        here_present_count: if m.remotes.contains_key(m.uuid) {
            m.remotes[m.uuid].present_count
        } else {
            0
        },
        here_available_space: None,
        unique_size: m.unique_size,
        consumed_size: m.consumed_size,
        remote_usage: Seq::empty(),
        numcopies: None,
        keys_tracked: 0,
        keys_under: 0,
        keys_ok: 0,
        keys_over: 0,
    }
}

/// A summary with a name that can be shown.
pub open spec fn named(s: SummaryView) -> SummaryView {
    if s.name.len() == 0 {
        SummaryView { name: name_or(s.root, s.annex_description), ..s }
    } else {
        s
    }
}

/// The summary of a repository of which only the directory is known yet.
pub open spec fn bare_summary(root: Text) -> SummaryView {
    named(
        SummaryView {
            root,
            uuid: Seq::empty(),
            name: name_or(root, Seq::empty()),
            annex_description: Seq::empty(),
            file_count: 0,
            remote_count: 0,
            here_present_count: 0,
            here_available_space: None,
            unique_size: 0,
            consumed_size: 0,
            remote_usage: Seq::empty(),
            numcopies: None,
            keys_tracked: 0,
            keys_under: 0,
            keys_ok: 0,
            keys_over: 0,
        },
    )
}

/// Whether the sizes are still to be counted: metadata that was stored before they were
/// kept has none.
pub open spec fn lacks_sizes(m: MetaView) -> bool {
    m.unique_size == 0 && m.consumed_size == 0 && m.locations.len() > 0
}

/// Metadata with its sizes.
pub open spec fn sized(m: MetaView) -> MetaView {
    if lacks_sizes(m) {
        MetaView {
            unique_size: total_unique(m.files, m.locations) as u64,
            consumed_size: total_consumed(m.files, m.locations) as u64,
            ..m
        }
    } else {
        m
    }
}

/// Whether the sizes are there or can be counted.
pub open spec fn can_size(m: MetaView) -> bool {
    lacks_sizes(m) ==> sizes_fit(m.files, m.locations)
}

impl AnnexMetadata {
    /// The summary of the repository.
    pub fn to_summary(&self) -> (r: RepoSummary)
        ensures
            r.deep_view() == summary_of(self.deep_view()),
    {
        let here: usize = match self.remotes.get(self.uuid.as_str()) {
            Some(r) => r.present_count,
            None => 0,
        };
        let r = RepoSummary {
            root: self.root.clone(),
            uuid: self.uuid.clone(),
            name: directory_name(self.root.as_str(), &self.description),
            annex_description: self.description.clone(),
            file_count: self.files.len(),
            remote_count: self.remotes.len(),
            here_present_count: here,
            here_available_space: None,
            unique_size: self.unique_size,
            consumed_size: self.consumed_size,
            remote_usage: Vec::new(),
            numcopies: None,
            keys_tracked: 0,
            keys_under: 0,
            keys_ok: 0,
            keys_over: 0,
        };
        assert(r.deep_view() =~= summary_of(self.deep_view()));
        r
    }

    /// Whether the sizes are there or can be counted.
    pub fn can_ensure_sizes(&self) -> (r: bool)
        ensures
            r == can_size(self.deep_view()),
    {
        self.unique_size != 0 || self.consumed_size != 0 || self.locations.is_empty()
            || total_sizes(&self.files, &self.locations).is_some()
    }

    /// Counts the sizes where they are still to be counted.
    pub fn ensure_sizes(&mut self)
        requires
            can_size(old(self).deep_view()),
        ensures
            final(self).deep_view() == sized(old(self).deep_view()),
    {
        if self.unique_size == 0 && self.consumed_size == 0 && !self.locations.is_empty() {
            if let Some((unique, consumed)) = total_sizes(&self.files, &self.locations) {
                self.unique_size = unique;
                self.consumed_size = consumed;
            }
        }
    }
}

impl RepoSummary {
    /// Sees to it that there is a name that can be shown.
    pub fn ensure_name(&mut self)
        ensures
            final(self).deep_view() == named(old(self).deep_view()),
    {
        if self.name.as_str().is_empty() {
            self.name = directory_name(self.root.as_str(), &self.annex_description);
        }
    }

    /// The summary of a repository of which only the directory is known yet.
    pub fn bare(root: &String) -> (r: RepoSummary)
        ensures
            r.deep_view() == bare_summary(root@),
    {
        let empty = String::new();
        let mut s = RepoSummary {
            root: root.clone(),
            uuid: String::new(),
            name: directory_name(root.as_str(), &empty),
            annex_description: String::new(),
            file_count: 0,
            remote_count: 0,
            here_present_count: 0,
            here_available_space: None,
            unique_size: 0,
            consumed_size: 0,
            remote_usage: Vec::new(),
            numcopies: None,
            keys_tracked: 0,
            keys_under: 0,
            keys_ok: 0,
            keys_over: 0,
        };
        assert(s.uuid@ =~= Seq::empty());
        assert(s.remote_usage.deep_view() =~= Seq::empty());
        s.ensure_name();
        s
    }
}

// ---------------------------------------------------------------------------------------
// Names of drives

/// The name by which the drive `uuid` is shown in the repository `m`.
pub open spec fn drive_name(m: MetaView, uuid: Text) -> Text {
    if uuid == m.uuid {
        "here"@
    } else if m.remotes.contains_key(uuid) {
        let r = m.remotes[uuid];
        if r.name() != r.uuid {
            r.name()
        } else {
            r.description
        }
    } else {
        byte_prefix(uuid, 8)
    }
}

/// A short name for a drive: its name or its description, or the first eight bytes of a uuid
/// of which nothing is known, in whole characters.
pub fn short_name(meta: &AnnexMetadata, uuid: &str) -> (r: String)
    ensures
        r@ == drive_name(meta.deep_view(), uuid@),
{
    if same_text(uuid, meta.uuid.as_str()) {
        return "here".to_string();
    }
    match meta.remotes.get(uuid) {
        Some(r) => {
            if !same_text(r.name(), r.uuid.as_str()) {
                r.name().to_string()
            } else {
                r.description.clone()
            }
        },
        None => first_bytes(uuid, 8),
    }
}

/// How many keys are present on the drive `uuid`.
pub open spec fn keys_on(locations: Seq<(Text, Set<Text>)>, uuid: Text) -> nat {
    locations.filter(|p: (Text, Set<Text>)| p.1.contains(uuid)).len()
}

/// How many keys are present on the drive `uuid`.
pub fn count_keys_on(locations: &StrMap<StrSet>, uuid: &str) -> (r: usize)
    ensures
        r == keys_on(pairs_of(locations@), uuid@),
{
    let n: usize = locations.len();
    let ghost s = pairs_of(locations@);
    let ghost on = |p: (Text, Set<Text>)| p.1.contains(uuid@);
    let mut count: usize = 0;
    let mut i: usize = 0;
    proof {
        reveal(Seq::filter);
        assert(s.take(0).filter(on).len() == 0);
    }
    while i < n
        invariant
            i <= n,
            n == s.len(),
            s == pairs_of(locations@),
            on == (|p: (Text, Set<Text>)| p.1.contains(uuid@)),
            count == s.take(i as int).filter(on).len(),
            count <= i,
        decreases n - i,
    {
        proof {
            reveal(Seq::filter);
            assert(s.take(i + 1).drop_last() =~= s.take(i as int));
            assert(s.take(i + 1).last() == s[i as int]);
        }
        if locations.value_at(i).contains(uuid) {
            count = count + 1;
        }
        i += 1;
    }
    assert(s.take(i as int) =~= s);
    count
}

// ---------------------------------------------------------------------------------------
// Laws

/// Where every key is somewhere, all copies together take at least what one copy of each
/// takes.
pub proof fn law_unique_at_most_consumed(
    files: Seq<FileView>,
    locations: Map<Text, Set<Text>>,
)
    requires
        forall|i: int|
            0 <= i < pairs_of(locations).len() ==> (#[trigger] pairs_of(locations)[i]).1.len() > 0,
    ensures
        total_unique(files, locations) <= total_consumed(files, locations),
{
    lemma_unique_at_most_consumed(file_sizes(files), pairs_of(locations));
}

proof fn lemma_unique_at_most_consumed(sizes: Map<Text, u64>, s: Seq<(Text, Set<Text>)>)
    requires
        forall|i: int| 0 <= i < s.len() ==> (#[trigger] s[i]).1.len() > 0,
    ensures
        unique_bytes(sizes, s) <= consumed_bytes(sizes, s),
    decreases s.len(),
{
    if s.len() > 0 {
        let rest = s.drop_last();
        assert forall|i: int| 0 <= i < rest.len() implies (#[trigger] rest[i]).1.len() > 0 by {
            assert(rest[i] == s[i]);
        }
        lemma_unique_at_most_consumed(sizes, rest);
        let copies = s[s.len() - 1].1.len();
        assert(copies > 0);
        if let Some(n) = size_of(sizes, s.last().0) {
            assert(n * 1 <= n * copies) by (nonlinear_arith)
                requires
                    copies > 0,
                    n >= 0,
            ;
        }
    }
}

/// To count the sizes twice is to count them once.
pub proof fn law_sized_twice(m: MetaView)
    ensures
        sized(sized(m)) == sized(m),
{
}

/// To see to a name twice is to see to it once.
pub proof fn law_named_twice(s: SummaryView)
    ensures
        named(named(s)) == named(s),
{
}

/// A summary has the name of the directory, and the description only where that has none.
pub proof fn law_summary_is_named(m: MetaView)
    ensures
        file_name(m.root) matches Some(n) ==> summary_of(m).name == n,
        file_name(m.root) is None ==> summary_of(m).name == m.description,
{
}

/// Whether the file at `i` is the last that gives a size for `key`, and gives `n`.
pub open spec fn gives_size(files: Seq<FileView>, i: int, key: Text, n: u64) -> bool {
    &&& 0 <= i < files.len()
    &&& files[i].key == key
    &&& files[i].size == Some(n)
    &&& forall|j: int| i < j < files.len() && (#[trigger] files[j]).key == key ==> files[j].size is None
}

/// Whether no file gives a size for `key`.
pub open spec fn gives_none(files: Seq<FileView>, key: Text) -> bool {
    forall|j: int| 0 <= j < files.len() && (#[trigger] files[j]).key == key ==> files[j].size is None
}

/// Whether the content of `key` has `n` bytes: as the last file says that says anything of it,
/// else as the key itself records.
pub open spec fn has_size(files: Seq<FileView>, key: Text, n: u64) -> bool {
    (exists|i: int| gives_size(files, i, key, n)) || (gives_none(files, key) && key_size(key) == Some(
        n,
    ))
}

proof fn lemma_size_given(files: Seq<FileView>, key: Text)
    ensures
        gives_none(files, key) ==> !file_sizes(files).contains_key(key),
        forall|i: int, n: u64| #[trigger]
            gives_size(files, i, key, n) ==> file_sizes(files).contains_key(key) && file_sizes(
                files,
            )[key] == n,
    decreases files.len(),
{
    if files.len() > 0 {
        let rest = files.drop_last();
        lemma_size_given(rest, key);
        let last = files[files.len() - 1];
        if gives_none(files, key) {
            assert forall|j: int| 0 <= j < rest.len() && (#[trigger] rest[j]).key
                == key implies rest[j].size is None by {
                assert(files[j].key == key);
            }
            assert(gives_none(rest, key));
            assert(last.key == key ==> last.size is None);
        }
        assert forall|i: int, n: u64| #[trigger] gives_size(files, i, key, n) implies file_sizes(
            files,
        ).contains_key(key) && file_sizes(files)[key] == n by {
            if i < files.len() - 1 {
                assert(last.key == key ==> last.size is None);
                assert forall|j: int| i < j < rest.len() && (#[trigger] rest[j]).key
                    == key implies rest[j].size is None by {
                    assert(files[j].key == key);
                }
                assert(rest[i] == files[i]);
                assert(gives_size(rest, i, key, n));
            }
        }
    }
}

/// A key counts with the size that the last file gives for it that gives one, else with the
/// size that it records itself.
proof fn lemma_has_size(files: Seq<FileView>, key: Text, n: u64)
    requires
        has_size(files, key, n),
    ensures
        size_of(file_sizes(files), key) == Some(n),
{
    lemma_size_given(files, key);
    if exists|i: int| gives_size(files, i, key, n) {
        let i = choose|i: int| gives_size(files, i, key, n);
        assert(gives_size(files, i, key, n));
    }
}

proof fn lemma_bytes_insert(
    sizes: Map<Text, u64>,
    s: Seq<(Text, Set<Text>)>,
    i: int,
    x: (Text, Set<Text>),
)
    requires
        0 <= i <= s.len(),
    ensures
        unique_bytes(sizes, s.insert(i, x)) == unique_bytes(sizes, s) + stored(sizes, x.0, 1),
        consumed_bytes(sizes, s.insert(i, x)) == consumed_bytes(sizes, s) + stored(
            sizes,
            x.0,
            x.1.len(),
        ),
    decreases s.len(),
{
    let t = s.insert(i, x);
    if i == s.len() {
        assert(t.drop_last() =~= s);
    } else {
        lemma_bytes_insert(sizes, s.drop_last(), i, x);
        assert(t.drop_last() =~= s.drop_last().insert(i, x));
        assert(t.last() == s.last());
    }
}

/// How both totals change when a key gets other locations.
proof fn lemma_totals_set(
    files: Seq<FileView>,
    locations: Map<Text, Set<Text>>,
    key: Text,
    drives: Set<Text>,
)
    requires
        locations.dom().finite(),
    ensures
        ({
            let sizes = file_sizes(files);
            let rest = locations.remove(key);
            &&& total_unique(files, locations.insert(key, drives)) == total_unique(files, rest)
                + stored(sizes, key, 1)
            &&& total_consumed(files, locations.insert(key, drives)) == total_consumed(files, rest)
                + stored(sizes, key, drives.len())
            &&& locations.contains_key(key) ==> {
                &&& total_unique(files, locations) == total_unique(files, rest) + stored(
                    sizes,
                    key,
                    1,
                )
                &&& total_consumed(files, locations) == total_consumed(files, rest) + stored(
                    sizes,
                    key,
                    locations[key].len(),
                )
            }
        }),
{
    let sizes = file_sizes(files);
    let rest = locations.remove(key);
    let i = lemma_pairs_set(locations, key, drives);
    lemma_bytes_insert(sizes, pairs_of(rest), i, (key, drives));
    if locations.contains_key(key) {
        lemma_bytes_insert(sizes, pairs_of(rest), i, (key, locations[key]));
    }
}

/// A repository of which no location is known takes nothing.
pub proof fn law_nothing_stored(files: Seq<FileView>)
    ensures
        total_unique(files, Map::empty()) == 0,
        total_consumed(files, Map::empty()) == 0,
{
    let none = Map::<Text, Set<Text>>::empty();
    lemma_pairs_of_finite(none);
    assert(pairs_of(none).len() == 0);
}

/// One more copy of a key takes as many bytes more as the key has, however many copies there
/// are already; each key still counts once among the unique bytes.
pub proof fn law_one_more_copy(
    files: Seq<FileView>,
    locations: Map<Text, Set<Text>>,
    key: Text,
    drive: Text,
    n: u64,
)
    requires
        locations.dom().finite(),
        locations.contains_key(key),
        locations[key].finite(),
        !locations[key].contains(drive),
        has_size(files, key, n),
    ensures
        ({
            let more = locations.insert(key, locations[key].insert(drive));
            &&& total_consumed(files, more) == total_consumed(files, locations) + n
            &&& total_unique(files, more) == total_unique(files, locations)
        }),
{
    lemma_has_size(files, key, n);
    lemma_totals_set(files, locations, key, locations[key].insert(drive));
    let c = locations[key].len();
    assert(n * (c + 1) == n * c + n) by (nonlinear_arith);
}

/// A key that is new counts once among the unique bytes, and once for every drive that has it
/// among those that are taken.
pub proof fn law_one_more_key(
    files: Seq<FileView>,
    locations: Map<Text, Set<Text>>,
    key: Text,
    drives: Set<Text>,
    n: u64,
)
    requires
        locations.dom().finite(),
        !locations.contains_key(key),
        has_size(files, key, n),
    ensures
        total_unique(files, locations.insert(key, drives)) == total_unique(files, locations) + n,
        total_consumed(files, locations.insert(key, drives)) == total_consumed(files, locations)
            + n * drives.len(),
{
    lemma_has_size(files, key, n);
    lemma_totals_set(files, locations, key, drives);
    assert(locations.remove(key) =~= locations);
    assert(n * 1 == n) by (nonlinear_arith);
}

/// A key of which no size is known counts nothing, wherever it is.
pub proof fn law_unknown_size_counts_nothing(
    files: Seq<FileView>,
    locations: Map<Text, Set<Text>>,
    key: Text,
    drives: Set<Text>,
)
    requires
        locations.dom().finite(),
        gives_none(files, key),
        key_size(key) is None,
    ensures
        total_unique(files, locations.insert(key, drives)) == total_unique(files, locations),
        total_consumed(files, locations.insert(key, drives)) == total_consumed(files, locations),
{
    lemma_size_given(files, key);
    lemma_totals_set(files, locations, key, drives);
    if !locations.contains_key(key) {
        assert(locations.remove(key) =~= locations);
    }
}

/// The keys on a drive are those that have it among their locations.
pub proof fn law_keys_on_a_drive(locations: Map<Text, Set<Text>>, u: Text)
    requires
        locations.dom().finite(),
    ensures
        keys_on(pairs_of(locations), u) == locations.dom().filter(
            |k: Text| locations[k].contains(u),
        ).len(),
{
    let on = |d: Set<Text>| d.contains(u);
    lemma_count_pairs(locations, on);
    assert((|q: (Text, Set<Text>)| on(q.1)) =~= (|p: (Text, Set<Text>)| p.1.contains(u)));
    assert(locations.dom().filter(|k: Text| on(locations[k])) =~= locations.dom().filter(
        |k: Text| locations[k].contains(u),
    ));
}

/// A summary tells of the repository that it is of.
pub proof fn law_summary_tells_of_repository(m: MetaView)
    requires
        m.files.len() <= usize::MAX,
        m.remotes.len() <= usize::MAX,
    ensures
        summary_of(m).root == m.root,
        summary_of(m).uuid == m.uuid,
        summary_of(m).annex_description == m.description,
        summary_of(m).file_count == m.files.len(),
        summary_of(m).remote_count == m.remotes.len(),
        m.remotes.contains_key(m.uuid) ==> summary_of(m).here_present_count
            == m.remotes[m.uuid].present_count,
        !m.remotes.contains_key(m.uuid) ==> summary_of(m).here_present_count == 0,
        summary_of(m).unique_size == m.unique_size,
        summary_of(m).consumed_size == m.consumed_size,
{
}

/// Metadata without sizes gets those of its files and locations; sizes that are there stay, and
/// so does everything else.
pub proof fn law_sizes_are_filled_in(m: MetaView)
    requires
        can_size(m),
    ensures
        m.unique_size == 0 && m.consumed_size == 0 && m.locations.len() > 0 ==> sized(m).unique_size
            == total_unique(m.files, m.locations) && sized(m).consumed_size == total_consumed(
            m.files,
            m.locations,
        ),
        m.unique_size > 0 || m.consumed_size > 0 ==> sized(m) == m,
        sized(m).root == m.root,
        sized(m).uuid == m.uuid,
        sized(m).description == m.description,
        sized(m).version == m.version,
        sized(m).numcopies == m.numcopies,
        sized(m).additional_configs == m.additional_configs,
        sized(m).remotes == m.remotes,
        sized(m).locations == m.locations,
        sized(m).files == m.files,
        sized(m).total_keys == m.total_keys,
{
}

/// How a drive is called: `here` is the repository itself; another goes by the name it was
/// given, and by its description where it has no name or is named like its uuid; of a drive of
/// which nothing is known the uuid is cut to eight bytes.
pub proof fn law_drive_is_called(m: MetaView, u: Text)
    ensures
        u == m.uuid ==> drive_name(m, u) == "here"@,
        u != m.uuid && !m.remotes.contains_key(u) ==> drive_name(m, u) == byte_prefix(u, 8),
        u != m.uuid && m.remotes.contains_key(u) ==> {
            let r = m.remotes[u];
            let given = r.config.contains_key("name"@);
            &&& given && r.config["name"@] != r.uuid ==> drive_name(m, u) == r.config["name"@]
            &&& given && r.config["name"@] == r.uuid ==> drive_name(m, u) == r.description
            &&& !given ==> drive_name(m, u) == r.description
        },
{
}

/// What kind of drive it is: of the type that its settings give, or a plain repository.
pub proof fn law_drive_type(r: RemoteView)
    ensures
        r.is_special() <==> r.config.contains_key("type"@),
        r.is_special() ==> r.rtype() == r.config["type"@],
        !r.is_special() ==> r.rtype() == "repo"@,
        r.config.contains_key("name"@) ==> r.name() == r.config["name"@],
        !r.config.contains_key("name"@) ==> r.name() == r.description,
{
}

/// A summary that has a name keeps it; one that has none gets that of its directory, or the
/// description where that has none. Nothing else changes.
pub proof fn law_summary_gets_a_name(s: SummaryView)
    ensures
        s.name.len() > 0 ==> named(s) == s,
        s.name.len() == 0 && file_name(s.root) is Some ==> named(s).name == file_name(s.root)->0,
        s.name.len() == 0 && file_name(s.root) is None ==> named(s).name == s.annex_description,
        named(s) == (SummaryView { name: named(s).name, ..s }),
{
}

/// Of a repository that is only found, the path and the name of its directory are known, and
/// nothing is counted.
pub proof fn law_found_repository(root: Text)
    ensures
        ({
            let s = bare_summary(root);
            &&& s.root == root
            &&& file_name(root) matches Some(n) ==> s.name == n
            &&& file_name(root) is None ==> s.name.len() == 0
            &&& s.uuid.len() == 0 && s.annex_description.len() == 0
            &&& s.file_count == 0 && s.remote_count == 0 && s.here_present_count == 0
            &&& s.unique_size == 0 && s.consumed_size == 0 && s.remote_usage.len() == 0
            &&& s.numcopies is None && s.keys_tracked == 0
        }),
{
}

/// The sizes can be counted where both totals fit, and only there.
pub proof fn law_sizes_fit(files: Seq<FileView>, locations: Map<Text, Set<Text>>)
    ensures
        sizes_fit(files, locations) <==> total_unique(files, locations) <= u64::MAX
            && total_consumed(files, locations) <= u64::MAX,
{
}

} // verus!
