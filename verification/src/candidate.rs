//! What is decided of a single package: whether it is aligned, passed over, or to be updated.

use vstd::prelude::*;

use crate::package::{
    best_match, display_package_version, displayed, find_old_package,
    has_package_with_matching_source, law_aligned_with_a_compatible_entry, law_highest_entry_wins,
    lower_numbers, matching_source_exists, old_views, source_matches, NewPackage, NewPackageView,
    OldPackage, OldPackageView, PackageKey, PackageKeyView, ResolvedKeyView, ResolvedPackageKey,
};
use crate::tables::KeySet;
use crate::text::{clone_opt, opt_same, opt_view, pad_right, padded};
use crate::version::{same_line, version_text, Version, VersionView};

verus! {

/// A package that is to be updated, and what to.
#[derive(Debug)]
pub struct Candidate {
    pub package_id: String,
    pub resolved_key: ResolvedPackageKey,
    pub new_version: Version,
    pub old_version: Version,
    pub new_precise: Option<String>,
    pub old_precise: Option<String>,
    pub target_precise: String,
}

#[verifier::ext_equal]
pub struct CandidateView {
    pub package_id: Seq<char>,
    pub resolved_key: ResolvedKeyView,
    pub new_version: VersionView,
    pub old_version: VersionView,
    pub new_precise: Option<Seq<char>>,
    pub old_precise: Option<Seq<char>>,
    pub target_precise: Seq<char>,
}

impl View for Candidate {
    type V = CandidateView;

    open spec fn view(&self) -> CandidateView {
        CandidateView {
            package_id: self.package_id@,
            resolved_key: self.resolved_key@,
            new_version: self.new_version@,
            old_version: self.old_version@,
            new_precise: opt_view(self.new_precise),
            old_precise: opt_view(self.old_precise),
            target_precise: self.target_precise@,
        }
    }
}

impl Candidate {
    /// The version the package has now, as it is shown.
    pub fn current_display(&self) -> (r: String)
        ensures
            r@ == displayed(self@.new_version, self@.new_precise),
    {
        display_optional(&self.new_version, &self.new_precise)
    }

    /// The version the package is to have, as it is shown.
    pub fn target_display(&self) -> (r: String)
        ensures
            r@ == displayed(self@.old_version, self@.old_precise),
    {
        display_optional(&self.old_version, &self.old_precise)
    }
}

fn display_optional(version: &Version, precise: &Option<String>) -> (r: String)
    ensures
        r@ == displayed(version@, opt_view(*precise)),
{
    match precise {
        Some(text) => display_package_version(version, Some(text.as_str())),
        None => display_package_version(version, None),
    }
}

/// What was found of a package that is not to be updated.
#[derive(Debug, Clone, Copy, PartialEq, Eq, Structural)]
pub enum Finding {
    /// The package is already as the old lock file has it.
    Aligned,
    /// The old lock file has the package, but no version on its compatibility line.
    NoCompatibleVersion,
    /// The old lock file does not have the package.
    NotFound,
}

/// What is said of a package that is not to be updated.
#[derive(Debug)]
pub struct Report {
    pub finding: Finding,
    pub name: String,
    pub shown: String,
}

#[verifier::ext_equal]
pub struct ReportView {
    pub finding: Finding,
    pub name: Seq<char>,
    pub shown: Seq<char>,
}

impl View for Report {
    type V = ReportView;

    open spec fn view(&self) -> ReportView {
        ReportView { finding: self.finding, name: self.name@, shown: self.shown@ }
    }
}

/// The line in which a report is shown, the name padded to thirty characters.
pub open spec fn report_line(report: ReportView) -> Seq<char> {
    match report.finding {
        Finding::Aligned => "  OK   "@ + padded(report.name, 30) + " "@ + report.shown,
        Finding::NoCompatibleVersion => "  SKIP "@ + padded(report.name, 30) + " new="@
            + report.shown + " (no compatible version in old lock)"@,
        Finding::NotFound => "  SKIP "@ + padded(report.name, 30) + " new="@ + report.shown
            + " (not found in old lock)"@,
    }
}

impl Report {
    /// The line in which the report is shown.
    pub fn line(&self) -> (r: String)
        ensures
            r@ == report_line(self@),
    {
        let mut text = String::new();
        match self.finding {
            Finding::Aligned => {
                text.append("  OK   ");
                text.append(pad_right(self.name.as_str(), 30).as_str());
                text.append(" ");
                text.append(self.shown.as_str());
            },
            Finding::NoCompatibleVersion => {
                text.append("  SKIP ");
                text.append(pad_right(self.name.as_str(), 30).as_str());
                text.append(" new=");
                text.append(self.shown.as_str());
                text.append(" (no compatible version in old lock)");
            },
            Finding::NotFound => {
                text.append("  SKIP ");
                text.append(pad_right(self.name.as_str(), 30).as_str());
                text.append(" new=");
                text.append(self.shown.as_str());
                text.append(" (not found in old lock)");
            },
        }
        assert(text@ =~= report_line(self@));
        text
    }
}

/// The decision on one package.
#[derive(Debug)]
pub enum Verdict {
    /// A local package, which is not aligned itself.
    Local,
    /// Found aligned in an earlier pass.
    AlreadyAligned,
    /// Passed over in an earlier pass.
    AlreadySkipped,
    /// Has nothing to be aligned with.
    Unmatched(Report),
    /// Is as the old lock file has it.
    Matched(Report),
    /// Is to be updated.
    Differs(Candidate),
}

pub enum VerdictView {
    Local,
    AlreadyAligned,
    AlreadySkipped,
    Unmatched(ReportView),
    Matched(ReportView),
    Differs(CandidateView),
}

impl View for Verdict {
    type V = VerdictView;

    open spec fn view(&self) -> VerdictView {
        match self {
            Verdict::Local => VerdictView::Local,
            Verdict::AlreadyAligned => VerdictView::AlreadyAligned,
            Verdict::AlreadySkipped => VerdictView::AlreadySkipped,
            Verdict::Unmatched(report) => VerdictView::Unmatched(report@),
            Verdict::Matched(report) => VerdictView::Matched(report@),
            Verdict::Differs(candidate) => VerdictView::Differs(candidate@),
        }
    }
}

/// The revision that a package has now: the one in the current lock file, or else the one that
/// Cargo reports.
pub open spec fn current_precise(
    new_lock: Seq<OldPackageView>,
    package: NewPackageView,
) -> Option<Seq<char>> {
    match best_match(new_lock, package.key(), package.version) {
        Some(locked) => if locked.precise is Some {
            locked.precise
        } else {
            package.precise
        },
        None => package.precise,
    }
}

/// The update that makes a package as the old lock file has it. Its target is the old revision,
/// or the old version where there is no revision.
pub open spec fn update_of(
    package: NewPackageView,
    old_package: OldPackageView,
    precise: Option<Seq<char>>,
) -> CandidateView {
    CandidateView {
        package_id: package.id,
        resolved_key: package.resolved_key(),
        new_version: package.version,
        old_version: old_package.version,
        new_precise: precise,
        old_precise: old_package.precise,
        target_precise: match old_package.precise {
            Some(p) => p,
            None => version_text(old_package.version),
        },
    }
}

/// A package is as an entry of the old lock file has it.
pub open spec fn as_locked(package: NewPackageView, old_package: OldPackageView) -> bool {
    old_package.version == package.version && old_package.precise == package.precise
}

/// What is decided of a package, given which packages earlier passes found aligned and which they
/// passed over.
pub open spec fn verdict(
    package: NewPackageView,
    aligned: Set<ResolvedKeyView>,
    skipped: Set<ResolvedKeyView>,
    new_lock: Seq<OldPackageView>,
    old_lock: Seq<OldPackageView>,
) -> VerdictView {
    let precise = current_precise(new_lock, package);
    let shown = displayed(package.version, precise);
    if package.source is None {
        VerdictView::Local
    } else if aligned.contains(package.resolved_key()) {
        VerdictView::AlreadyAligned
    } else if skipped.contains(package.resolved_key()) {
        VerdictView::AlreadySkipped
    } else {
        match best_match(old_lock, package.key(), package.version) {
            None => VerdictView::Unmatched(
                ReportView {
                    finding: if matching_source_exists(old_lock, package.key()) {
                        Finding::NoCompatibleVersion
                    } else {
                        Finding::NotFound
                    },
                    name: package.name,
                    shown,
                },
            ),
            Some(old_package) => if as_locked(package, old_package) {
                VerdictView::Matched(
                    ReportView { finding: Finding::Aligned, name: package.name, shown },
                )
            } else {
                VerdictView::Differs(update_of(package, old_package, precise))
            },
        }
    }
}

/// The package at the version it has.
pub fn resolved_key_of(package: &NewPackage) -> (r: ResolvedPackageKey)
    ensures
        r@ == package@.resolved_key(),
{
    ResolvedPackageKey {
        package: PackageKey { name: package.name.clone(), source: clone_opt(&package.source) },
        version: package.version.clone(),
    }
}

/// Decides on a package.
pub fn judge(
    package: &NewPackage,
    aligned: &KeySet,
    skipped: &KeySet,
    new_lock_packages: &[OldPackage],
    old_packages: &[OldPackage],
) -> (r: Verdict)
    ensures
        r@ == verdict(
            package@,
            aligned@,
            skipped@,
            old_views(new_lock_packages@),
            old_views(old_packages@),
        ),
{
    let resolved_key = resolved_key_of(package);
    if package.source.is_none() {
        return Verdict::Local;
    }
    if aligned.contains(&resolved_key) {
        return Verdict::AlreadyAligned;
    }
    if skipped.contains(&resolved_key) {
        return Verdict::AlreadySkipped;
    }
    let new_precise = match find_old_package(
        new_lock_packages,
        &resolved_key.package,
        &package.version,
    ) {
        Some(locked) => if locked.precise.is_some() {
            clone_opt(&locked.precise)
        } else {
            clone_opt(&package.precise)
        },
        None => clone_opt(&package.precise),
    };
    assert(opt_view(new_precise) == current_precise(old_views(new_lock_packages@), package@));
    match find_old_package(old_packages, &resolved_key.package, &package.version) {
        None => {
            let finding = if has_package_with_matching_source(old_packages, &resolved_key.package) {
                Finding::NoCompatibleVersion
            } else {
                Finding::NotFound
            };
            let shown = display_optional(&package.version, &new_precise);
            Verdict::Unmatched(Report { finding, name: package.name.clone(), shown })
        },
        Some(old_package) => {
            if old_package.version.same(&package.version) && opt_same(
                &old_package.precise,
                &package.precise,
            ) {
                let shown = display_optional(&package.version, &new_precise);
                Verdict::Matched(
                    Report { finding: Finding::Aligned, name: package.name.clone(), shown },
                )
            } else {
                let target_precise = match &old_package.precise {
                    Some(text) => text.clone(),
                    None => old_package.version.to_text(),
                };
                Verdict::Differs(
                    Candidate {
                        package_id: package.id.clone(),
                        resolved_key,
                        new_version: package.version.clone(),
                        old_version: old_package.version.clone(),
                        new_precise,
                        old_precise: clone_opt(&old_package.precise),
                        target_precise,
                    },
                )
            }
        },
    }
}

/// An entry of a lock file stands for a package, with a version on its compatibility line.
pub open spec fn stands_for(entry: OldPackageView, package: NewPackageView) -> bool {
    &&& source_matches(entry.key, PackageKeyView { name: package.name, source: package.source })
    &&& same_line(entry.version, package.version)
}

/// The entry at place `i` stands for a package and has higher numbers than all others that do.
pub open spec fn stands_out(lock: Seq<OldPackageView>, package: NewPackageView, i: int) -> bool {
    &&& 0 <= i < lock.len()
    &&& stands_for(lock[i], package)
    &&& forall|j: int|
        0 <= j < lock.len() && j != i && stands_for(#[trigger] lock[j], package) ==> lower_numbers(
            lock[j].version,
            lock[i].version,
        )
}

proof fn lemma_standing_out_is_best(lock: Seq<OldPackageView>, package: NewPackageView, i: int)
    requires
        stands_out(lock, package, i),
    ensures
        best_match(lock, package.key(), package.version) == Some(lock[i]),
{
    assert forall|j: int|
        0 <= j < lock.len() && j != i && source_matches((#[trigger] lock[j]).key, package.key())
            && same_line(lock[j].version, package.version) implies lower_numbers(
        lock[j].version,
        lock[i].version,
    ) by {
        assert(stands_for(lock[j], package));
    }
    law_highest_entry_wins(lock, package.key(), package.version, i);
}

proof fn lemma_none_standing(lock: Seq<OldPackageView>, package: NewPackageView)
    ensures
        best_match(lock, package.key(), package.version) is Some <==> exists|i: int|
            0 <= i < lock.len() && stands_for(#[trigger] lock[i], package),
        best_match(lock, package.key(), package.version) matches Some(entry) ==> lock.contains(entry)
            && stands_for(entry, package),
{
    law_aligned_with_a_compatible_entry(lock, package.key(), package.version);
    if best_match(lock, package.key(), package.version) is Some {
        let i = lock.index_of(best_match(lock, package.key(), package.version)->0);
        assert(stands_for(lock[i], package));
    } else {
        assert forall|i: int|
            0 <= i < lock.len() && stands_for(#[trigger] lock[i], package) implies false by {
            assert(source_matches(lock[i].key, package.key()));
        }
    }
}

/// Local packages are never aligned, and what an earlier pass found of a version stands, whatever
/// the lock files say: that it is aligned before that it is passed over.
pub proof fn law_earlier_findings_stand(
    package: NewPackageView,
    aligned: Set<ResolvedKeyView>,
    skipped: Set<ResolvedKeyView>,
    new_lock: Seq<OldPackageView>,
    old_lock: Seq<OldPackageView>,
)
    ensures
        ({
            let decision = verdict(package, aligned, skipped, new_lock, old_lock);
            let known = aligned.contains(package.resolved_key());
            let left_out = skipped.contains(package.resolved_key());
            &&& decision is Local <==> package.source is None
            &&& decision is AlreadyAligned <==> package.source is Some && known
            &&& decision is AlreadySkipped <==> package.source is Some && !known && left_out
        }),
{
}

/// A package on which no pass decided yet is passed over exactly when the old lock file has no
/// entry that stands for it on its compatibility line. The report tells whether the file has one
/// at another version.
pub proof fn law_passed_over_without_compatible_entry(
    package: NewPackageView,
    aligned: Set<ResolvedKeyView>,
    skipped: Set<ResolvedKeyView>,
    new_lock: Seq<OldPackageView>,
    old_lock: Seq<OldPackageView>,
)
    requires
        package.source is Some,
        !aligned.contains(package.resolved_key()),
        !skipped.contains(package.resolved_key()),
    ensures
        ({
            let decision = verdict(package, aligned, skipped, new_lock, old_lock);
            &&& decision is Unmatched <==> forall|i: int|
                0 <= i < old_lock.len() ==> !stands_for(#[trigger] old_lock[i], package)
            &&& decision matches VerdictView::Unmatched(report) ==> {
                &&& report.name == package.name
                &&& report.shown == displayed(package.version, current_precise(new_lock, package))
                &&& report.finding == Finding::NoCompatibleVersion || report.finding
                    == Finding::NotFound
                &&& report.finding == Finding::NoCompatibleVersion <==> exists|i: int|
                    0 <= i < old_lock.len() && source_matches(
                        (#[trigger] old_lock[i]).key,
                        PackageKeyView { name: package.name, source: package.source },
                    )
            }
        }),
{
    lemma_none_standing(old_lock, package);
}

/// A package on which no pass decided yet counts as aligned only where an entry that stands for it
/// has the same version and the same revision. Where it is to be updated, it is to such an entry
/// as it is not: the target is that entry's revision, or its version where it has none.
pub proof fn law_compared_with_an_entry(
    package: NewPackageView,
    aligned: Set<ResolvedKeyView>,
    skipped: Set<ResolvedKeyView>,
    new_lock: Seq<OldPackageView>,
    old_lock: Seq<OldPackageView>,
)
    ensures
        verdict(package, aligned, skipped, new_lock, old_lock) matches VerdictView::Matched(report)
            ==> {
            &&& report.finding == Finding::Aligned
            &&& report.name == package.name
            &&& report.shown == displayed(package.version, current_precise(new_lock, package))
            &&& exists|i: int|
                {
                    &&& 0 <= i < old_lock.len()
                    &&& stands_for(#[trigger] old_lock[i], package)
                    &&& old_lock[i].version == package.version
                    &&& old_lock[i].precise == package.precise
                }
        },
        verdict(package, aligned, skipped, new_lock, old_lock) matches VerdictView::Differs(c)
            ==> {
            &&& c.package_id == package.id
            &&& c.resolved_key == package.resolved_key()
            &&& c.new_version == package.version
            &&& c.new_precise == current_precise(new_lock, package)
            &&& c.old_version != package.version || c.old_precise != package.precise
            &&& c.old_precise matches Some(precise) ==> c.target_precise == precise
            &&& c.old_precise is None ==> c.target_precise == version_text(c.old_version)
            &&& exists|i: int|
                {
                    &&& 0 <= i < old_lock.len()
                    &&& stands_for(#[trigger] old_lock[i], package)
                    &&& old_lock[i].version == c.old_version
                    &&& old_lock[i].precise == c.old_precise
                }
        },
{
    lemma_none_standing(old_lock, package);
    let best = best_match(old_lock, package.key(), package.version);
    if best is Some {
        let i = old_lock.index_of(best->0);
        assert(stands_for(old_lock[i], package));
    }
}

/// Where an entry stands out, a package on which no pass decided yet is compared with that entry:
/// it is aligned exactly when it has the entry's version and revision, and else is updated to it.
pub proof fn law_highest_entry_decides(
    package: NewPackageView,
    aligned: Set<ResolvedKeyView>,
    skipped: Set<ResolvedKeyView>,
    new_lock: Seq<OldPackageView>,
    old_lock: Seq<OldPackageView>,
    i: int,
)
    requires
        package.source is Some,
        !aligned.contains(package.resolved_key()),
        !skipped.contains(package.resolved_key()),
        stands_out(old_lock, package, i),
    ensures
        ({
            let decision = verdict(package, aligned, skipped, new_lock, old_lock);
            let same = old_lock[i].version == package.version && old_lock[i].precise
                == package.precise;
            &&& decision is Matched <==> same
            &&& decision is Differs <==> !same
            &&& decision matches VerdictView::Differs(c) ==> c.old_version == old_lock[i].version
                && c.old_precise == old_lock[i].precise
        }),
{
    lemma_standing_out_is_best(old_lock, package, i);
}

/// The revision that is shown is that of the current lock file's entry for the package, where it
/// has one with a revision, and else the one that Cargo reports.
pub proof fn law_shown_revision(new_lock: Seq<OldPackageView>, package: NewPackageView, i: int)
    ensures
        (forall|j: int| 0 <= j < new_lock.len() ==> !stands_for(#[trigger] new_lock[j], package))
            ==> current_precise(new_lock, package) == package.precise,
        stands_out(new_lock, package, i) ==> current_precise(new_lock, package) == if new_lock[i].precise is Some {
            new_lock[i].precise
        } else {
            package.precise
        },
{
    lemma_none_standing(new_lock, package);
    if stands_out(new_lock, package, i) {
        lemma_standing_out_is_best(new_lock, package, i);
    }
}

/// A report line says `OK` or `SKIP`, then the name in a column of thirty characters, then the
/// version, and for a package that is passed over why it is.
pub proof fn law_report_lines(name: Seq<char>, shown: Seq<char>)
    ensures
        report_line(ReportView { finding: Finding::Aligned, name, shown }) == "  OK   "@ + padded(
            name,
            30,
        ) + " "@ + shown,
        report_line(ReportView { finding: Finding::NoCompatibleVersion, name, shown })
            == "  SKIP "@ + padded(name, 30) + " new="@ + shown
            + " (no compatible version in old lock)"@,
        report_line(ReportView { finding: Finding::NotFound, name, shown }) == "  SKIP "@ + padded(
            name,
            30,
        ) + " new="@ + shown + " (not found in old lock)"@,
{
}

/// What is said of an update or of a report is said of all its parts.
pub proof fn law_candidate_views(candidate: Candidate, report: Report)
    ensures
        candidate@.package_id == candidate.package_id@,
        candidate@.resolved_key == candidate.resolved_key@,
        candidate@.new_version == candidate.new_version@,
        candidate@.old_version == candidate.old_version@,
        candidate@.new_precise == opt_view(candidate.new_precise),
        candidate@.old_precise == opt_view(candidate.old_precise),
        candidate@.target_precise == candidate.target_precise@,
        report@.finding == report.finding,
        report@.name == report.name@,
        report@.shown == report.shown@,
{
}

} // verus!
