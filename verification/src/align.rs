//! The course of a run: pass after pass one package is updated, until nothing is left to align.

use vstd::prelude::*;

use crate::candidate::{Candidate, CandidateView, Report};
use crate::collect::{
    collect_candidates, finished, first_walk, report_views, world_of, WalkView, WorldView,
};
use crate::graph::{roots, texts, Args, Metadata, MetadataView, Resolve, ResolveView};
use crate::order::{in_update_order, order_candidates, ordered_views};
use crate::package::{
    displayed, old_views, package_spec, package_spec_for_current_version, OldPackage,
    OldPackageView, PackageKey, PackageKeyView, ResolvedKeyView,
};
use crate::tables::{build_new_package_map, packages_by_id, KeySet};
use crate::version::{version_text, Version, VersionView};

verus! {

/// How many updates a run may make before it is given up.
pub const MAX_PASSES: usize = 500;

/// Why a run is given up.
#[derive(Debug)]
pub enum AlignError {
    /// Cargo reported no dependency graph.
    NoResolveGraph,
    /// Cargo refused an update.
    UpdateFailed { name: String, precise: String },
    /// There were too many updates.
    TooManyPasses,
}

pub enum AlignFault {
    NoResolveGraph,
    UpdateFailed { name: Seq<char>, precise: Seq<char> },
    TooManyPasses,
}

impl View for AlignError {
    type V = AlignFault;

    open spec fn view(&self) -> AlignFault {
        match self {
            AlignError::NoResolveGraph => AlignFault::NoResolveGraph,
            AlignError::UpdateFailed { name, precise } => AlignFault::UpdateFailed {
                name: name@,
                precise: precise@,
            },
            AlignError::TooManyPasses => AlignFault::TooManyPasses,
        }
    }
}

/// What is said of a run that is given up.
pub open spec fn align_message(fault: AlignFault) -> Seq<char> {
    match fault {
        AlignFault::NoResolveGraph => "cargo metadata did not return a dependency resolve graph"@,
        AlignFault::UpdateFailed { name, precise } => "cargo update failed for "@ + name + " -> "@
            + precise,
        AlignFault::TooManyPasses => "Dependency alignment exceeded 500 update passes"@,
    }
}

impl AlignError {
    /// What is said of a run that is given up.
    pub fn message(&self) -> (r: String)
        ensures
            r@ == align_message(self@),
    {
        match self {
            AlignError::NoResolveGraph => {
                "cargo metadata did not return a dependency resolve graph".to_owned()
            },
            AlignError::UpdateFailed { name, precise } => {
                "cargo update failed for ".to_owned().concat(name.as_str()).concat(" -> ").concat(
                    precise.as_str(),
                )
            },
            AlignError::TooManyPasses => {
                "Dependency alignment exceeded 500 update passes".to_owned()
            },
        }
    }
}

/// An update that Cargo is asked to make: of which package, and to what.
#[derive(Debug)]
pub struct UpdateCommand {
    pub name: String,
    pub package_spec: String,
    pub precise: String,
}

#[verifier::ext_equal]
pub struct UpdateCommandView {
    pub name: Seq<char>,
    pub package_spec: Seq<char>,
    pub precise: Seq<char>,
}

impl View for UpdateCommand {
    type V = UpdateCommandView;

    open spec fn view(&self) -> UpdateCommandView {
        UpdateCommandView {
            name: self.name@,
            package_spec: self.package_spec@,
            precise: self.precise@,
        }
    }
}

/// The update of a package from the version it has now.
pub open spec fn update_command(
    key: PackageKeyView,
    current: VersionView,
    target: Seq<char>,
) -> UpdateCommandView {
    UpdateCommandView {
        name: key.name,
        package_spec: package_spec(key, current),
        precise: target,
    }
}

/// The update of a package from the version it has now.
pub fn cargo_update_precise(
    key: &PackageKey,
    current_version: &Version,
    target_precise: &String,
) -> (r: UpdateCommand)
    ensures
        r@ == update_command(key@, current_version@, target_precise@),
{
    UpdateCommand {
        name: key.name.clone(),
        package_spec: package_spec_for_current_version(key, current_version),
        precise: target_precise.clone(),
    }
}

impl UpdateCommand {
    /// The arguments for Cargo in front of the path of the manifest.
    pub fn arguments_before_path(&self) -> (r: Vec<String>)
        ensures
            texts(r@) == seq!["update"@, "--manifest-path"@],
    {
        let mut arguments: Vec<String> = Vec::new();
        arguments.push("update".to_owned());
        arguments.push("--manifest-path".to_owned());
        assert(texts(arguments@) =~= seq!["update"@, "--manifest-path"@]);
        arguments
    }

    /// The arguments for Cargo behind the path of the manifest.
    pub fn arguments_after_path(&self) -> (r: Vec<String>)
        ensures
            texts(r@) == seq!["-p"@, self@.package_spec, "--precise"@, self@.precise],
    {
        let mut arguments: Vec<String> = Vec::new();
        arguments.push("-p".to_owned());
        arguments.push(self.package_spec.clone());
        arguments.push("--precise".to_owned());
        arguments.push(self.precise.clone());
        assert(texts(arguments@) =~= seq!["-p"@, self@.package_spec, "--precise"@, self@.precise]);
        arguments
    }

    /// What is said when Cargo could not be started.
    pub fn launch_message(&self) -> (r: String)
        ensures
            r@ == "failed to execute cargo update for "@ + self@.name,
    {
        "failed to execute cargo update for ".to_owned().concat(self.name.as_str())
    }
}

/// The name of a package with the version it has and the version it is to have.
pub open spec fn change_text(candidate: CandidateView) -> Seq<char> {
    candidate.resolved_key.package.name + " "@ + displayed(
        candidate.new_version,
        candidate.new_precise,
    ) + " -> "@ + displayed(candidate.old_version, candidate.old_precise)
}

/// The name of a package with the version it has and the version it is to have.
pub fn describe_change(candidate: &Candidate) -> (r: String)
    ensures
        r@ == change_text(candidate@),
{
    candidate.resolved_key.package.name.clone().concat(" ").concat(
        candidate.current_display().as_str(),
    ).concat(" -> ").concat(candidate.target_display().as_str())
}

/// What is to be done next.
#[derive(Debug)]
pub enum Step {
    /// Nothing is left to align.
    Finished,
    /// The updates are only to be shown.
    Preview,
    /// Cargo is to be asked for an update, which is described by the text.
    Pin(UpdateCommand, String),
}

pub enum StepView {
    Finished,
    Preview,
    Pin(UpdateCommandView, Seq<char>),
}

impl View for Step {
    type V = StepView;

    open spec fn view(&self) -> StepView {
        match self {
            Step::Finished => StepView::Finished,
            Step::Preview => StepView::Preview,
            Step::Pin(command, change) => StepView::Pin(command@, change@),
        }
    }
}

/// What is done with the updates of a pass, given in the order in which they are made: only the
/// first one is made, and none in a dry run.
pub open spec fn next_step(ordered: Seq<CandidateView>, dry_run: bool) -> StepView {
    if ordered.len() == 0 {
        StepView::Finished
    } else if dry_run {
        StepView::Preview
    } else {
        StepView::Pin(
            update_command(
                ordered[0].resolved_key.package,
                ordered[0].new_version,
                ordered[0].target_precise,
            ),
            change_text(ordered[0]),
        )
    }
}

/// Decides what is done with the updates of a pass.
pub fn decide(ordered: &Vec<&Candidate>, dry_run: bool) -> (r: Step)
    ensures
        r@ == next_step(ordered_views(ordered@), dry_run),
{
    if ordered.len() == 0 {
        return Step::Finished;
    }
    if dry_run {
        return Step::Preview;
    }
    let candidate = ordered[0];
    assert(ordered_views(ordered@)[0] == candidate@);
    let command = cargo_update_precise(
        &candidate.resolved_key.package,
        &candidate.new_version,
        &candidate.target_precise,
    );
    let change = describe_change(candidate);
    Step::Pin(command, change)
}

/// A dry run never updates anything.
pub proof fn law_dry_run_updates_nothing(ordered: Seq<CandidateView>)
    ensures
        !(next_step(ordered, true) is Pin),
{
}

/// What a pass found and what is to be done next.
#[derive(Debug)]
pub struct Pass {
    pub reports: Vec<Report>,
    pub plan: Vec<String>,
    pub step: Step,
}

/// The dependency graph that Cargo reported.
pub fn resolve_graph(metadata: &Metadata) -> (r: Result<&Resolve, AlignError>)
    ensures
        match r {
            Ok(resolve) => metadata@.resolve == Some(resolve@),
            Err(error) => metadata@.resolve is None && error@ == AlignFault::NoResolveGraph,
        },
{
    match &metadata.resolve {
        Some(resolve) => Ok(resolve),
        None => Err(AlignError::NoResolveGraph),
    }
}

/// What a run carries from pass to pass: how many updates were made, which packages were found
/// aligned, and which were passed over.
#[derive(Debug)]
pub struct Session {
    pub pass: usize,
    pub aligned: KeySet,
    pub skipped: KeySet,
}

#[verifier::ext_equal]
pub struct SessionView {
    pub pass: nat,
    pub aligned: Set<ResolvedKeyView>,
    pub skipped: Set<ResolvedKeyView>,
}

impl View for Session {
    type V = SessionView;

    open spec fn view(&self) -> SessionView {
        SessionView {
            pass: self.pass as nat,
            aligned: self.aligned@,
            skipped: self.skipped@,
        }
    }
}

/// What a pass over a project reads.
pub open spec fn pass_world(
    metadata: MetadataView,
    resolve: ResolveView,
    new_lock: Seq<OldPackageView>,
    old_lock: Seq<OldPackageView>,
    args: Args,
) -> WorldView {
    world_of(resolve, packages_by_id(metadata.packages), new_lock, old_lock, args)
}

/// The walk of a pass, at its end.
pub open spec fn pass_walk(
    metadata: MetadataView,
    resolve: ResolveView,
    new_lock: Seq<OldPackageView>,
    old_lock: Seq<OldPackageView>,
    args: Args,
    session: SessionView,
) -> WalkView {
    let world = pass_world(metadata, resolve, new_lock, old_lock, args);
    finished(world, first_walk(world, roots(metadata), session.aligned, session.skipped))
}

impl Session {
    /// The state before the first pass.
    pub fn new() -> (r: Session)
        ensures
            r@ == (SessionView { pass: 0, aligned: Set::empty(), skipped: Set::empty() }),
    {
        Session { pass: 0, aligned: KeySet::new(), skipped: KeySet::new() }
    }

    /// One pass: walks over the dependency graph, orders the updates that it finds, and decides
    /// what is to be done.
    pub fn run_pass(
        &mut self,
        metadata: &Metadata,
        resolve: &Resolve,
        new_lock_packages: &[OldPackage],
        old_packages: &[OldPackage],
        args: &Args,
    ) -> (r: Pass)
        ensures
            ({
                let walk = pass_walk(
                    metadata@,
                    resolve@,
                    old_views(new_lock_packages@),
                    old_views(old_packages@),
                    *args,
                    old(self)@,
                );
                &&& final(self)@ == (SessionView {
                    pass: old(self)@.pass,
                    aligned: walk.aligned,
                    skipped: walk.skipped,
                })
                &&& report_views(r.reports@) == walk.reports
                &&& exists|ordered: Seq<CandidateView>|
                    {
                        &&& #[trigger] in_update_order(walk.candidates, resolve@, *args, ordered)
                        &&& texts(r.plan@) == ordered.map_values(
                            |c: CandidateView| change_text(c),
                        )
                        &&& r.step@ == next_step(ordered, args.dry_run)
                    }
            }),
    {
        let ghost walk = pass_walk(
            metadata@,
            resolve@,
            old_views(new_lock_packages@),
            old_views(old_packages@),
            *args,
            self@,
        );
        let package_map = build_new_package_map(metadata);
        let collected = collect_candidates(
            metadata,
            resolve,
            &package_map,
            new_lock_packages,
            old_packages,
            &mut self.aligned,
            &mut self.skipped,
            args,
        );
        let ordered = order_candidates(&collected.candidates, resolve, args);
        let ghost views = ordered_views(ordered@);
        let ghost changes = views.map_values(|c: CandidateView| change_text(c));
        let mut plan: Vec<String> = Vec::new();
        let mut i: usize = 0;
        while i < ordered.len()
            invariant
                i <= ordered@.len(),
                views == ordered_views(ordered@),
                changes == views.map_values(|c: CandidateView| change_text(c)),
                texts(plan@) == changes.take(i as int),
            decreases ordered@.len() - i,
        {
            let ghost before = texts(plan@);
            plan.push(describe_change(ordered[i]));
            proof {
                assert(views[i as int] == ordered@[i as int]@);
                assert(texts(plan@) == before.push(changes[i as int]));
                assert(changes.take(i + 1) == changes.take(i as int).push(changes[i as int]));
            }
            i = i + 1;
        }
        assert(changes.take(changes.len() as int) == changes);
        let step = decide(&ordered, args.dry_run);
        proof {
            assert(collected.candidates@ == walk.candidates);
            assert(self@.aligned == walk.aligned);
            assert(texts(plan@) == changes);
            assert(in_update_order(walk.candidates, resolve@, *args, views));
        }
        Pass { reports: collected.reports, plan, step }
    }

    /// Records the outcome of an update. The run is given up where Cargo refused it, or where
    /// there were too many.
    pub fn updated(&mut self, command: &UpdateCommand, success: bool) -> (r: Result<
        (),
        AlignError,
    >)
        ensures
            match r {
                Ok(_) => success && old(self)@.pass < MAX_PASSES && final(self)@ == (SessionView {
                    pass: old(self)@.pass + 1,
                    ..old(self)@
                }),
                Err(error) => final(self)@ == old(self)@ && if success {
                    old(self)@.pass >= MAX_PASSES && error@ == AlignFault::TooManyPasses
                } else {
                    error@ == AlignFault::UpdateFailed {
                        name: command@.name,
                        precise: command@.precise,
                    }
                },
            },
    {
        if !success {
            return Err(
                AlignError::UpdateFailed {
                    name: command.name.clone(),
                    precise: command.precise.clone(),
                },
            );
        }
        if self.pass >= MAX_PASSES {
            return Err(AlignError::TooManyPasses);
        }
        self.pass = self.pass + 1;
        Ok(())
    }
}

/// Whatever the source of a package, Cargo is asked to move it from the version that it has now,
/// which is the one in its current lock file, to the target.
pub proof fn law_update_names_current_version_and_target(
    key: PackageKeyView,
    current: VersionView,
    target: Seq<char>,
)
    ensures
        update_command(key, current, target).name == key.name,
        update_command(key, current, target).package_spec == key.name + seq!['@'] + version_text(
            current,
        ),
        update_command(key, current, target).precise == target,
{
}

/// A change is shown as the name, the version and revision that the package has, and those that it
/// is to have.
pub proof fn law_change_shows_both_versions(c: CandidateView)
    ensures
        change_text(c) == c.resolved_key.package.name + " "@ + displayed(
            c.new_version,
            c.new_precise,
        ) + " -> "@ + displayed(c.old_version, c.old_precise),
{
}

/// A run is finished exactly when no updates are left. Else a dry run shows them, and another one
/// makes the first, and no other: it asks Cargo to move that package from the version that it has
/// to the target.
pub proof fn law_one_update_at_a_time(ordered: Seq<CandidateView>, dry_run: bool)
    ensures
        next_step(ordered, dry_run) is Finished <==> ordered.len() == 0,
        next_step(ordered, dry_run) is Preview <==> ordered.len() > 0 && dry_run,
        next_step(ordered, dry_run) is Pin <==> ordered.len() > 0 && !dry_run,
        next_step(ordered, dry_run) matches StepView::Pin(command, change) ==> {
            let first = ordered[0];
            let name = first.resolved_key.package.name;
            &&& command.name == name
            &&& command.package_spec == name + seq!['@'] + version_text(first.new_version)
            &&& command.precise == first.target_precise
            &&& change == name + " "@ + displayed(first.new_version, first.new_precise) + " -> "@
                + displayed(first.old_version, first.old_precise)
        },
{
}

/// A run makes no more than five hundred updates.
pub proof fn law_update_limit()
    ensures
        MAX_PASSES == 500,
{
}

/// What is said of a run that is given up names the package and the target of a refused update.
pub proof fn law_align_messages(name: Seq<char>, precise: Seq<char>)
    ensures
        align_message(AlignFault::NoResolveGraph)
            == "cargo metadata did not return a dependency resolve graph"@,
        align_message(AlignFault::UpdateFailed { name, precise }) == "cargo update failed for "@
            + name + " -> "@ + precise,
        align_message(AlignFault::TooManyPasses)
            == "Dependency alignment exceeded 500 update passes"@,
{
}

/// What is said of a command for Cargo, or of what a run carries along, is said of all its parts.
pub proof fn law_run_views(command: UpdateCommand, session: Session)
    ensures
        command@.name == command.name@,
        command@.package_spec == command.package_spec@,
        command@.precise == command.precise@,
        session@.pass == session.pass,
        session@.aligned == session.aligned@,
        session@.skipped == session.skipped@,
{
}

} // verus!
