//! How the drives of a name are set up across all repositories.

use vstd::prelude::*;
use crate::annex::{MetaView, Remote, RemoteView, AnnexMetadata};
use crate::logs::sort_strings;
use crate::order::sorted_texts;
use crate::table::{pairs_of, Dup, StrMap};
use crate::tally::{law_counting_keeps_places, law_top_row_is_largest, most_counted, most_counted_text, top_row, with_count, Tally};
use crate::text::{same_list, same_optional, Text};
use crate::trust::TrustLevel;

verus! {

/// How often the drives of a name have each setup.
#[derive(Debug)]
pub struct DriveProfile {
    pub trusts: Tally<TrustLevel>,
    pub group_sets: Tally<Vec<String>>,
    pub wanteds: Tally<Option<String>>,
    pub requireds: Tally<Option<String>>,
}

/// What a [`DriveProfile`] stands for.
#[verifier::ext_equal]
pub ghost struct ProfileView {
    pub trusts: Seq<(TrustLevel, usize)>,
    pub group_sets: Seq<(Seq<Text>, usize)>,
    pub wanteds: Seq<(Option<Text>, usize)>,
    pub requireds: Seq<(Option<Text>, usize)>,
}

impl DeepView for DriveProfile {
    type V = ProfileView;

    open spec fn deep_view(&self) -> ProfileView {
        ProfileView {
            trusts: self.trusts@,
            group_sets: self.group_sets@,
            wanteds: self.wanteds@,
            requireds: self.requireds@,
        }
    }
}

impl Dup for DriveProfile {
    fn dup(&self) -> (r: Self) {
        DriveProfile {
            trusts: self.trusts.dup(),
            group_sets: self.group_sets.dup(),
            wanteds: self.wanteds.dup(),
            requireds: self.requireds.dup(),
        }
    }
}

impl ProfileView {
    /// The profile of no drives.
    pub open spec fn none() -> ProfileView {
        ProfileView {
            trusts: Seq::empty(),
            group_sets: Seq::empty(),
            wanteds: Seq::empty(),
            requireds: Seq::empty(),
        }
    }

    /// The profile with one drive more.
    pub open spec fn with_drive(self, r: RemoteView) -> ProfileView {
        ProfileView {
            trusts: with_count(self.trusts, r.trust),
            group_sets: with_count(self.group_sets, sorted_texts(r.groups)),
            wanteds: with_count(self.wanteds, r.wanted),
            requireds: with_count(self.requireds, r.required),
        }
    }

    /// Whether not all drives of the name have the same setup.
    pub open spec fn has_variation(self) -> bool {
        self.trusts.len() > 1 || self.group_sets.len() > 1 || self.wanteds.len() > 1
            || self.requireds.len() > 1
    }

    /// Whether the drive has the common setup.
    pub open spec fn fits(self, r: RemoteView) -> bool {
        &&& (most_counted(self.trusts) matches Some(t) ==> r.trust == t)
        &&& (most_counted(self.group_sets) matches Some(g) ==> sorted_texts(r.groups) == g)
        &&& (most_counted_text(self.wanteds) matches Some(w) ==> r.wanted == Some(w))
        &&& (most_counted_text(self.requireds) matches Some(q) ==> r.required == Some(q))
    }
}

impl Default for DriveProfile {
    fn default() -> (r: Self)
        ensures
            r.deep_view() == ProfileView::none(),
    {
        DriveProfile {
            trusts: Tally::new(),
            group_sets: Tally::new(),
            wanteds: Tally::new(),
            requireds: Tally::new(),
        }
    }
}

impl DriveProfile {
    /// The trust level that most drives of the name have.
    pub fn most_common_trust(&self) -> (r: Option<TrustLevel>)
        ensures
            r == most_counted(self.deep_view().trusts),
    {
        match self.trusts.most_counted() {
            Some(t) => Some(*t),
            None => None,
        }
    }

    /// The groups that most drives of the name are in.
    pub fn most_common_groups(&self) -> (r: Option<Vec<String>>)
        ensures
            r.deep_view() == most_counted(self.deep_view().group_sets),
    {
        match self.group_sets.most_counted() {
            Some(g) => Some(g.dup()),
            None => None,
        }
    }

    /// The expression for wanted content that most drives of the name with one have.
    pub fn most_common_wanted(&self) -> (r: Option<String>)
        ensures
            r.deep_view() == most_counted_text(self.deep_view().wanteds),
    {
        self.wanteds.most_counted_text()
    }

    /// The expression for required content that most drives of the name with one have.
    pub fn most_common_required(&self) -> (r: Option<String>)
        ensures
            r.deep_view() == most_counted_text(self.deep_view().requireds),
    {
        self.requireds.most_counted_text()
    }

    /// Whether not all drives of the name have the same setup.
    pub fn has_variation(&self) -> (r: bool)
        ensures
            r == self.deep_view().has_variation(),
    {
        self.trusts.len() > 1 || self.group_sets.len() > 1 || self.wanteds.len() > 1
            || self.requireds.len() > 1
    }

    /// Whether the drive has the common setup.
    pub fn matches_common(&self, r: &Remote) -> (b: bool)
        ensures
            b == self.deep_view().fits(r.deep_view()),
    {
        if let Some(t) = self.most_common_trust() {
            if r.trust != t {
                return false;
            }
        }
        if let Some(g) = self.most_common_groups() {
            let mine = sort_strings(r.groups.dup());
            if !same_list(&mine, &g) {
                return false;
            }
        }
        let wanted = self.most_common_wanted();
        if wanted.is_some() && !same_optional(&r.wanted, &wanted) {
            return false;
        }
        let required = self.most_common_required();
        if required.is_some() && !same_optional(&r.required, &required) {
            return false;
        }
        true
    }

    /// Counts one drive more.
    pub fn count_drive(&mut self, r: &Remote)
        ensures
            final(self).deep_view() == old(self).deep_view().with_drive(r.deep_view()),
    {
        self.trusts.add(r.trust);
        self.group_sets.add(sort_strings(r.groups.dup()));
        self.wanteds.add(r.wanted.dup());
        self.requireds.add(r.required.dup());
    }
}

/// The profile of a name.
pub open spec fn profile_or_none(m: Map<Text, ProfileView>, name: Text) -> ProfileView {
    if m.contains_key(name) {
        m[name]
    } else {
        ProfileView::none()
    }
}

/// The profiles with the drives of one repository more.
pub open spec fn with_drives(
    m: Map<Text, ProfileView>,
    drives: Seq<(Text, RemoteView)>,
) -> Map<Text, ProfileView>
    decreases drives.len(),
{
    if drives.len() == 0 {
        m
    } else {
        let before = with_drives(m, drives.drop_last());
        let r = drives.last().1;
        before.insert(r.name(), profile_or_none(before, r.name()).with_drive(r))
    }
}

/// The profiles of the drives of all repositories, by name.
pub open spec fn profiles_of(repos: Seq<(Text, MetaView)>) -> Map<Text, ProfileView>
    decreases repos.len(),
{
    if repos.len() == 0 {
        Map::empty()
    } else {
        with_drives(profiles_of(repos.drop_last()), pairs_of(repos.last().1.remotes))
    }
}

/// Counts the drives of one repository more.
pub fn count_drives(profiles: &mut StrMap<DriveProfile>, meta: &AnnexMetadata)
    ensures
        final(profiles)@ == with_drives(old(profiles)@, pairs_of(meta.deep_view().remotes)),
{
    let ghost start = profiles@;
    let n: usize = meta.remotes.len();
    let ghost p = pairs_of(meta.remotes@);
    let mut i: usize = 0;
    while i < n
        invariant
            i <= n,
            n == p.len(),
            p == pairs_of(meta.remotes@),
            profiles@ == with_drives(start, p.take(i as int)),
        decreases n - i,
    {
        proof {
            assert(p.take(i + 1).drop_last() =~= p.take(i as int));
            assert(p.take(i + 1).last() == p[i as int]);
        }
        let ghost before = profiles@;
        let r = meta.remotes.value_at(i);
        let name = r.name().to_string();
        let mut profile = match profiles.remove(name.as_str()) {
            Some(d) => d,
            None => DriveProfile::default(),
        };
        profile.count_drive(r);
        profiles.insert(name, profile);
        assert(profiles@ =~= before.insert(
            r.deep_view().name(),
            profile_or_none(before, r.deep_view().name()).with_drive(r.deep_view()),
        ));
        i += 1;
    }
    assert(p.take(i as int) =~= p);
}

/// A name has a profile exactly when some repository has a drive of that name.
pub proof fn law_profiles_cover_drives(repos: Seq<(Text, MetaView)>, name: Text)
    ensures
        profiles_of(repos).contains_key(name) <==> exists|i: int, j: int|
            0 <= i < repos.len() && 0 <= j < pairs_of((#[trigger] repos[i]).1.remotes).len() && (
            #[trigger] pairs_of(repos[i].1.remotes)[j]).1.name() == name,
    decreases repos.len(),
{
    if repos.len() > 0 {
        let rest = repos.drop_last();
        let last = pairs_of(repos.last().1.remotes);
        law_profiles_cover_drives(rest, name);
        lemma_with_drives(profiles_of(rest), last, name);
        assert(repos[repos.len() - 1] == repos.last());
        if profiles_of(rest).contains_key(name) {
            let (i, j) = choose|i: int, j: int|
                0 <= i < rest.len() && 0 <= j < pairs_of((#[trigger] rest[i]).1.remotes).len() && (
                #[trigger] pairs_of(rest[i].1.remotes)[j]).1.name() == name;
            assert(repos[i] == rest[i]);
            assert(pairs_of(repos[i].1.remotes)[j].1.name() == name);
        }
        if exists|j: int| 0 <= j < last.len() && (#[trigger] last[j]).1.name() == name {
            let j = choose|j: int| 0 <= j < last.len() && (#[trigger] last[j]).1.name() == name;
            assert(pairs_of(repos[repos.len() - 1].1.remotes)[j].1.name() == name);
        }
        if exists|i: int, j: int|
            0 <= i < repos.len() && 0 <= j < pairs_of((#[trigger] repos[i]).1.remotes).len() && (
            #[trigger] pairs_of(repos[i].1.remotes)[j]).1.name() == name {
            let (i, j) = choose|i: int, j: int|
                0 <= i < repos.len() && 0 <= j < pairs_of((#[trigger] repos[i]).1.remotes).len() && (
                #[trigger] pairs_of(repos[i].1.remotes)[j]).1.name() == name;
            if i < rest.len() {
                assert(repos[i] == rest[i]);
                assert(pairs_of(rest[i].1.remotes)[j].1.name() == name);
            } else {
                assert(last[j].1.name() == name);
            }
        }
    }
}

proof fn lemma_with_drives(m: Map<Text, ProfileView>, drives: Seq<(Text, RemoteView)>, name: Text)
    ensures
        with_drives(m, drives).contains_key(name) <==> m.contains_key(name) || exists|j: int|
            0 <= j < drives.len() && (#[trigger] drives[j]).1.name() == name,
    decreases drives.len(),
{
    if drives.len() > 0 {
        let rest = drives.drop_last();
        lemma_with_drives(m, rest, name);
        assert(drives[drives.len() - 1] == drives.last());
        if exists|j: int| 0 <= j < rest.len() && (#[trigger] rest[j]).1.name() == name {
            let j = choose|j: int| 0 <= j < rest.len() && (#[trigger] rest[j]).1.name() == name;
            assert(drives[j].1.name() == name);
        }
        if exists|j: int| 0 <= j < drives.len() && (#[trigger] drives[j]).1.name() == name {
            let j = choose|j: int| 0 <= j < drives.len() && (#[trigger] drives[j]).1.name() == name;
            if j < rest.len() {
                assert(rest[j].1.name() == name);
            }
        }
    }
}

/// A drive is counted in the profile of its name, once for each way in which it is set up; the
/// profiles of other names stay as they are.
pub proof fn law_drive_is_counted(
    m: Map<Text, ProfileView>,
    drives: Seq<(Text, RemoteView)>,
    u: Text,
    r: RemoteView,
    name: Text,
)
    ensures
        ({
            let before = with_drives(m, drives);
            let after = with_drives(m, drives.push((u, r)));
            &&& after.contains_key(r.name())
            &&& name != r.name() ==> (after.contains_key(name) <==> before.contains_key(name))
            &&& name != r.name() && before.contains_key(name) ==> after[name] == before[name]
            &&& before.contains_key(r.name()) ==> {
                let p = before[r.name()];
                let q = after[r.name()];
                &&& q.trusts == with_count(p.trusts, r.trust)
                &&& q.group_sets == with_count(p.group_sets, sorted_texts(r.groups))
                &&& q.wanteds == with_count(p.wanteds, r.wanted)
                &&& q.requireds == with_count(p.requireds, r.required)
            }
            &&& !before.contains_key(r.name()) ==> {
                let q = after[r.name()];
                &&& q.trusts == seq![(r.trust, 1usize)]
                &&& q.group_sets == seq![(sorted_texts(r.groups), 1usize)]
                &&& q.wanteds == seq![(r.wanted, 1usize)]
                &&& q.requireds == seq![(r.required, 1usize)]
            }
        }),
        with_drives(m, Seq::empty()) == m,
{
    assert(drives.push((u, r)).drop_last() =~= drives);
}

/// The profiles of some repositories are those of all of their drives.
pub proof fn law_repository_is_counted(repos: Seq<(Text, MetaView)>, path: Text, m: MetaView)
    ensures
        profiles_of(repos.push((path, m))) == with_drives(profiles_of(repos), pairs_of(m.remotes)),
        profiles_of(Seq::empty()) == Map::<Text, ProfileView>::empty(),
{
    assert(repos.push((path, m)).drop_last() =~= repos);
}

/// Two drives of a name vary where they are trusted differently, or are in different groups, or
/// are to hold different content.
pub proof fn law_two_drives_vary(r: RemoteView, s: RemoteView)
    ensures
        ProfileView::none().with_drive(r).with_drive(s).has_variation() <==> r.trust != s.trust
            || sorted_texts(r.groups) != sorted_texts(s.groups) || r.wanted != s.wanted
            || r.required != s.required,
{
    let p = ProfileView::none().with_drive(r);
    law_counting_keeps_places(p.trusts, s.trust);
    law_counting_keeps_places(p.group_sets, sorted_texts(s.groups));
    law_counting_keeps_places(p.wanteds, s.wanted);
    law_counting_keeps_places(p.requireds, s.required);
    assert(p.trusts[0].0 == r.trust);
    assert(p.group_sets[0].0 == sorted_texts(r.groups));
    assert(p.wanteds[0].0 == r.wanted);
    assert(p.requireds[0].0 == r.required);
}

/// A drive that fits is set up like those that are counted most: no trust and no groups are
/// counted more often than its own, and no wanted or required content that is set more often.
#[verifier::rlimit(40)]
pub proof fn law_fitting_drive(p: ProfileView, r: RemoteView)
    requires
        p.fits(r),
    ensures
        p.trusts.len() > 0 ==> exists|k: int|
            0 <= k < p.trusts.len() && (#[trigger] p.trusts[k]).0 == r.trust && forall|i: int|
                0 <= i < p.trusts.len() ==> (#[trigger] p.trusts[i]).1 <= p.trusts[k].1,
        p.group_sets.len() > 0 ==> exists|k: int|
            0 <= k < p.group_sets.len() && (#[trigger] p.group_sets[k]).0 == sorted_texts(r.groups)
                && forall|i: int|
                0 <= i < p.group_sets.len() ==> (#[trigger] p.group_sets[i]).1
                    <= p.group_sets[k].1,
        forall|i: int|
            0 <= i < p.wanteds.len() && (#[trigger] p.wanteds[i]).0 is Some ==> r.wanted is Some
                && is_top_setting(p.wanteds, r.wanted),
        forall|i: int|
            0 <= i < p.requireds.len() && (#[trigger] p.requireds[i]).0 is Some ==> r.required is Some
                && is_top_setting(p.requireds, r.required),
{
    let any = |t: TrustLevel| true;
    law_top_row_is_largest(p.trusts, any);
    if p.trusts.len() > 0 {
        assert(any(p.trusts[0].0));
        let b = top_row(p.trusts, any)->0;
        let k = choose|k: int| 0 <= k < p.trusts.len() && p.trusts[k] == b;
        assert(p.trusts[k].0 == r.trust);
        assert forall|i: int| 0 <= i < p.trusts.len() implies (#[trigger] p.trusts[i]).1
            <= p.trusts[k].1 by {
            assert(any(p.trusts[i].0));
        }
    }
    let every = |g: Seq<Text>| true;
    law_top_row_is_largest(p.group_sets, every);
    if p.group_sets.len() > 0 {
        assert(every(p.group_sets[0].0));
        let b = top_row(p.group_sets, every)->0;
        let k = choose|k: int| 0 <= k < p.group_sets.len() && p.group_sets[k] == b;
        assert(p.group_sets[k].0 == sorted_texts(r.groups));
        assert forall|i: int| 0 <= i < p.group_sets.len() implies (#[trigger] p.group_sets[i]).1
            <= p.group_sets[k].1 by {
            assert(every(p.group_sets[i].0));
        }
    }
    lemma_top_setting(p.wanteds, r.wanted);
    lemma_top_setting(p.requireds, r.required);
}

/// Whether no text is counted more often than the given one.
pub open spec fn is_top_setting(rows: Seq<(Option<Text>, usize)>, v: Option<Text>) -> bool {
    exists|k: int|
        0 <= k < rows.len() && (#[trigger] rows[k]).0 == v && forall|i: int|
            0 <= i < rows.len() && (#[trigger] rows[i]).0 is Some ==> rows[i].1 <= rows[k].1
}

proof fn lemma_top_setting(rows: Seq<(Option<Text>, usize)>, v: Option<Text>)
    requires
        most_counted_text(rows) matches Some(w) ==> v == Some(w),
    ensures
        forall|i: int|
            0 <= i < rows.len() && (#[trigger] rows[i]).0 is Some ==> v is Some && is_top_setting(
                rows,
                v,
            ),
{
    let pick = |k: Option<Text>| k is Some;
    law_top_row_is_largest(rows, pick);
    assert forall|i: int| 0 <= i < rows.len() && (#[trigger] rows[i]).0 is Some implies v is Some
        && is_top_setting(rows, v) by {
        assert(pick(rows[i].0));
        let b = top_row(rows, pick)->0;
        let k = choose|k: int| 0 <= k < rows.len() && rows[k] == b;
        assert(rows[k].0 == v);
        assert forall|j: int| 0 <= j < rows.len() && (#[trigger] rows[j]).0 is Some implies rows[j].1
            <= rows[k].1 by {
            assert(pick(rows[j].0));
        }
    }
}

/// A drive that is set up like more drives than any other way is, fits.
#[verifier::rlimit(40)]
pub proof fn law_most_common_drive_fits(p: ProfileView, r: RemoteView)
    requires
        forall|i: int|
            0 <= i < p.trusts.len() && (#[trigger] p.trusts[i]).0 != r.trust ==> exists|k: int|
                0 <= k < p.trusts.len() && (#[trigger] p.trusts[k]).0 == r.trust && p.trusts[i].1
                    < p.trusts[k].1,
        forall|i: int|
            0 <= i < p.group_sets.len() && (#[trigger] p.group_sets[i]).0 != sorted_texts(r.groups)
                ==> exists|k: int|
                0 <= k < p.group_sets.len() && (#[trigger] p.group_sets[k]).0 == sorted_texts(
                    r.groups,
                ) && p.group_sets[i].1 < p.group_sets[k].1,
        forall|i: int|
            0 <= i < p.wanteds.len() && (#[trigger] p.wanteds[i]).0 is Some ==> p.wanteds[i].0
                == r.wanted,
        forall|i: int|
            0 <= i < p.requireds.len() && (#[trigger] p.requireds[i]).0 is Some
                ==> p.requireds[i].0 == r.required,
    ensures
        p.fits(r),
{
    let any = |t: TrustLevel| true;
    law_top_row_is_largest(p.trusts, any);
    if let Some(b) = top_row(p.trusts, any) {
        let i = choose|i: int| 0 <= i < p.trusts.len() && p.trusts[i] == b;
        if p.trusts[i].0 != r.trust {
            let k = choose|k: int|
                0 <= k < p.trusts.len() && (#[trigger] p.trusts[k]).0 == r.trust && p.trusts[i].1
                    < p.trusts[k].1;
            assert(any(p.trusts[k].0));
        }
    }
    let every = |g: Seq<Text>| true;
    law_top_row_is_largest(p.group_sets, every);
    if let Some(b) = top_row(p.group_sets, every) {
        let i = choose|i: int| 0 <= i < p.group_sets.len() && p.group_sets[i] == b;
        if p.group_sets[i].0 != sorted_texts(r.groups) {
            let k = choose|k: int|
                0 <= k < p.group_sets.len() && (#[trigger] p.group_sets[k]).0 == sorted_texts(
                    r.groups,
                ) && p.group_sets[i].1 < p.group_sets[k].1;
            assert(every(p.group_sets[k].0));
        }
    }
    let pick = |k: Option<Text>| k is Some;
    law_top_row_is_largest(p.wanteds, pick);
    if let Some(b) = top_row(p.wanteds, pick) {
        let i = choose|i: int| 0 <= i < p.wanteds.len() && p.wanteds[i] == b;
        assert(pick(p.wanteds[i].0));
    }
    law_top_row_is_largest(p.requireds, pick);
    if let Some(b) = top_row(p.requireds, pick) {
        let i = choose|i: int| 0 <= i < p.requireds.len() && p.requireds[i] == b;
        assert(pick(p.requireds[i].0));
    }
}

} // verus!
