//! Packages of lock files and of the dependency graph, and which of them belong together.

use vstd::prelude::*;

use crate::source::{is_git, is_registry, is_registry_source, short_precise, shortened};
use crate::text::{clone_opt, opt_same, opt_view};
use crate::version::{
    law_numbers_rank_first, same_line, same_semver_compatibility_line, version_le, version_text, Rank, Version, VersionView,
};

verus! {

/// What identifies a package apart from its version: its name and its comparable source.
#[derive(Debug)]
pub struct PackageKey {
    pub name: String,
    pub source: Option<String>,
}

#[verifier::ext_equal]
pub struct PackageKeyView {
    pub name: Seq<char>,
    pub source: Option<Seq<char>>,
}

impl View for PackageKey {
    type V = PackageKeyView;

    open spec fn view(&self) -> PackageKeyView {
        PackageKeyView { name: self.name@, source: opt_view(self.source) }
    }
}

impl Clone for PackageKey {
    fn clone(&self) -> (r: PackageKey)
        ensures
            r@ == self@,
    {
        PackageKey { name: self.name.clone(), source: clone_opt(&self.source) }
    }
}

/// A package at one version.
#[derive(Debug)]
pub struct ResolvedPackageKey {
    pub package: PackageKey,
    pub version: Version,
}

#[verifier::ext_equal]
pub struct ResolvedKeyView {
    pub package: PackageKeyView,
    pub version: VersionView,
}

impl View for ResolvedPackageKey {
    type V = ResolvedKeyView;

    open spec fn view(&self) -> ResolvedKeyView {
        ResolvedKeyView { package: self.package@, version: self.version@ }
    }
}

impl Clone for ResolvedPackageKey {
    fn clone(&self) -> (r: ResolvedPackageKey)
        ensures
            r@ == self@,
    {
        ResolvedPackageKey { package: self.package.clone(), version: self.version.clone() }
    }
}

impl ResolvedPackageKey {
    /// Whether two keys name the same package at the same version.
    pub fn same(&self, other: &ResolvedPackageKey) -> (r: bool)
        ensures
            r == (self@ == other@),
    {
        self.package.name == other.package.name && opt_same(
            &self.package.source,
            &other.package.source,
        ) && self.version.same(&other.version)
    }
}

/// An entry of a lock file.
#[derive(Debug)]
pub struct OldPackage {
    pub key: PackageKey,
    pub version: Version,
    pub precise: Option<String>,
}

#[verifier::ext_equal]
pub struct OldPackageView {
    pub key: PackageKeyView,
    pub version: VersionView,
    pub precise: Option<Seq<char>>,
}

impl View for OldPackage {
    type V = OldPackageView;

    open spec fn view(&self) -> OldPackageView {
        OldPackageView { key: self.key@, version: self.version@, precise: opt_view(self.precise) }
    }
}

/// The contents of a list of lock file entries.
pub open spec fn old_views(packages: Seq<OldPackage>) -> Seq<OldPackageView> {
    packages.map_values(|p: OldPackage| p@)
}

/// A package of the dependency graph that is to be aligned.
#[derive(Debug)]
pub struct NewPackage {
    pub id: String,
    pub name: String,
    pub version: Version,
    pub source: Option<String>,
    pub precise: Option<String>,
}

#[verifier::ext_equal]
pub struct NewPackageView {
    pub id: Seq<char>,
    pub name: Seq<char>,
    pub version: VersionView,
    pub source: Option<Seq<char>>,
    pub precise: Option<Seq<char>>,
}

impl NewPackageView {
    pub open spec fn key(self) -> PackageKeyView {
        PackageKeyView { name: self.name, source: self.source }
    }

    pub open spec fn resolved_key(self) -> ResolvedKeyView {
        ResolvedKeyView { package: self.key(), version: self.version }
    }
}

impl View for NewPackage {
    type V = NewPackageView;

    open spec fn view(&self) -> NewPackageView {
        NewPackageView {
            id: self.id@,
            name: self.name@,
            version: self.version@,
            source: opt_view(self.source),
            precise: opt_view(self.precise),
        }
    }
}

/// An entry of the old lock file stands for a package when the names agree and either the sources
/// agree, or the entry has none and the package comes from a registry: a registry package that
/// was patched with a local path is locked without a source.
pub open spec fn source_matches(old_key: PackageKeyView, new_key: PackageKeyView) -> bool {
    &&& old_key.name == new_key.name
    &&& old_key.source == new_key.source || (old_key.source is None
        && new_key.source is Some && is_registry(new_key.source->0))
}

/// Whether an entry of the old lock file stands for a package.
pub fn package_source_matches(old_key: &PackageKey, new_key: &PackageKey) -> (r: bool)
    ensures
        r == source_matches(old_key@, new_key@),
{
    if !(old_key.name == new_key.name) {
        return false;
    }
    if opt_same(&old_key.source, &new_key.source) {
        return true;
    }
    match (&old_key.source, &new_key.source) {
        (None, Some(source)) => is_registry_source(source.as_str()),
        _ => false,
    }
}

/// Every entry of the old lock file that stands for a git package carries that package's source:
/// one without a source is never taken for it.
pub proof fn law_git_package_needs_source(old_key: PackageKeyView, new_key: PackageKeyView)
    requires
        new_key.source matches Some(source) && is_git(source),
        source_matches(old_key, new_key),
    ensures
        old_key.source == new_key.source,
{
    reveal_strlit("git+");
    reveal_strlit("registry+");
    let source = new_key.source->0;
    if is_registry(source) {
        assert(source.take(4)[0] == 'g');
        assert(source.take(9)[0] == 'r');
    }
}

/// The entry stands for the package, on the compatibility line of its version.
pub open spec fn eligible(
    package: OldPackageView,
    key: PackageKeyView,
    version: VersionView,
) -> bool {
    source_matches(package.key, key) && same_line(package.version, version)
}

/// The eligible entry at `i` ranks no lower than any other, and higher than those behind it.
pub open spec fn is_best(
    packages: Seq<OldPackageView>,
    key: PackageKeyView,
    version: VersionView,
    i: int,
) -> bool {
    &&& 0 <= i < packages.len()
    &&& eligible(packages[i], key, version)
    &&& forall|j: int|
        0 <= j < packages.len() && j != i && eligible(#[trigger] packages[j], key, version)
            ==> version_le(packages[j].version, packages[i].version)
    &&& forall|j: int|
        i < j < packages.len() && eligible(#[trigger] packages[j], key, version) ==> !version_le(
            packages[i].version,
            packages[j].version,
        )
}

/// No entry is eligible.
pub open spec fn none_eligible(
    packages: Seq<OldPackageView>,
    key: PackageKeyView,
    version: VersionView,
) -> bool {
    forall|i: int| 0 <= i < packages.len() ==> !eligible(#[trigger] packages[i], key, version)
}

/// The eligible entry with the highest version, the last of them where several share it; `None`
/// where no entry is eligible. Among entries whose versions are in total order one is always
/// best.
pub open spec fn best_match(
    packages: Seq<OldPackageView>,
    key: PackageKeyView,
    version: VersionView,
) -> Option<OldPackageView> {
    if exists|i: int| is_best(packages, key, version, i) {
        Some(packages[choose|i: int| is_best(packages, key, version, i)])
    } else if none_eligible(packages, key, version) {
        None
    } else {
        Some(
            packages[choose|i: int|
                0 <= i < packages.len() && eligible(#[trigger] packages[i], key, version)],
        )
    }
}

proof fn lemma_best_unique(
    packages: Seq<OldPackageView>,
    key: PackageKeyView,
    version: VersionView,
    i: int,
    j: int,
)
    requires
        is_best(packages, key, version, i),
        is_best(packages, key, version, j),
    ensures
        i == j,
{
    assert(eligible(packages[i], key, version));
    assert(eligible(packages[j], key, version));
}

/// The entry that a package is aligned with stands for it and is on its compatibility line, and
/// there is one wherever the lock file has any such entry.
pub proof fn law_best_match_is_eligible(
    packages: Seq<OldPackageView>,
    key: PackageKeyView,
    version: VersionView,
)
    ensures
        match best_match(packages, key, version) {
            Some(package) => eligible(package, key, version) && packages.contains(package),
            None => none_eligible(packages, key, version),
        },
{
}

/// The entry of a lock file that a package is aligned with.
pub fn find_old_package<'a>(
    packages: &'a [OldPackage],
    key: &PackageKey,
    current_version: &Version,
) -> (r: Option<&'a OldPackage>)
    ensures
        match r {
            Some(package) => best_match(old_views(packages@), key@, current_version@) == Some(
                package@,
            ) && exists|i: int|
                #[trigger] is_best(old_views(packages@), key@, current_version@, i)
                    && old_views(packages@)[i] == package@,
            None => best_match(old_views(packages@), key@, current_version@) is None
                && none_eligible(old_views(packages@), key@, current_version@),
        },
{
    let ghost views = old_views(packages@);
    let mut best: Option<usize> = None;
    let mut i: usize = 0;
    while i < packages.len()
        invariant
            views == old_views(packages@),
            i <= packages@.len(),
            match best {
                Some(b) => {
                    &&& b < i
                    &&& eligible(views[b as int], key@, current_version@)
                    &&& views[b as int].version.valid()
                    &&& forall|j: int|
                        0 <= j < i && eligible(#[trigger] views[j], key@, current_version@) ==> {
                            &&& views[j].version.valid()
                            &&& j != b ==> version_le(views[j].version, views[b as int].version)
                            &&& b < j ==> !version_le(views[b as int].version, views[j].version)
                        }
                },
                None => forall|j: int|
                    0 <= j < i ==> !eligible(#[trigger] views[j], key@, current_version@),
            },
        decreases packages@.len() - i,
    {
        let package = &packages[i];
        assert(views[i as int] == package@);
        if package_source_matches(&package.key, key) && same_semver_compatibility_line(
            &package.version,
            current_version,
        ) {
            let version = &package.version;
            proof {
                use_type_invariant(version);
            }
            let keep = match best {
                Some(b) => {
                    assert(views[b as int] == packages@[b as int]@);
                    packages[b].version.rank(version) == Rank::Higher
                },
                None => false,
            };
            if !keep {
                best = Some(i);
            }
        }
        i = i + 1;
    }
    match best {
        Some(b) => {
            proof {
                assert(is_best(views, key@, current_version@, b as int));
                let c = choose|c: int| is_best(views, key@, current_version@, c);
                lemma_best_unique(views, key@, current_version@, b as int, c);
            }
            Some(&packages[b])
        },
        None => None,
    }
}

/// Whether a lock file has an entry that stands for a package, at whatever version.
pub fn has_package_with_matching_source(packages: &[OldPackage], key: &PackageKey) -> (r: bool)
    ensures
        r == matching_source_exists(old_views(packages@), key@),
{
    let ghost views = old_views(packages@);
    let mut i: usize = 0;
    while i < packages.len()
        invariant
            views == old_views(packages@),
            i <= packages@.len(),
            forall|j: int| 0 <= j < i ==> !source_matches((#[trigger] views[j]).key, key@),
        decreases packages@.len() - i,
    {
        if package_source_matches(&packages[i].key, key) {
            assert(source_matches(views[i as int].key, key@));
            return true;
        }
        i = i + 1;
    }
    false
}

pub open spec fn matching_source_exists(
    packages: Seq<OldPackageView>,
    key: PackageKeyView,
) -> bool {
    exists|i: int| 0 <= i < packages.len() && source_matches((#[trigger] packages[i]).key, key)
}

/// A version as it is shown: with the short form of the revision after a `#` where there is one.
pub open spec fn displayed(version: VersionView, precise: Option<Seq<char>>) -> Seq<char> {
    match precise {
        Some(p) => version_text(version) + seq!['#'] + shortened(p),
        None => version_text(version),
    }
}

/// A version as it is shown.
pub fn display_package_version(version: &Version, precise: Option<&str>) -> (r: String)
    ensures
        r@ == displayed(
            version@,
            match precise {
                Some(p) => Some(p@),
                None => None,
            },
        ),
{
    let mut text = version.to_text();
    if let Some(p) = precise {
        text.push('#');
        text.append(short_precise(p));
        assert(text@ == version_text(version@) + seq!['#'] + shortened(p@));
    }
    text
}

/// The way Cargo is told which package to update: the name and the version it has now.
pub open spec fn package_spec(key: PackageKeyView, version: VersionView) -> Seq<char> {
    key.name + seq!['@'] + version_text(version)
}

/// The way Cargo is told which package to update.
pub fn package_spec_for_current_version(key: &PackageKey, current_version: &Version) -> (r: String)
    ensures
        r@ == package_spec(key@, current_version@),
{
    let mut text = key.name.clone();
    text.push('@');
    text.append(current_version.to_text().as_str());
    assert(text@ == package_spec(key@, current_version@));
    text
}

/// Which entries stand for a package: those of the same name and source, and for a registry
/// package those of the same name without a source. No others do.
pub proof fn law_entries_that_stand_for_a_package(old_key: PackageKeyView, new_key: PackageKeyView)
    ensures
        old_key.name != new_key.name ==> !source_matches(old_key, new_key),
        old_key.name == new_key.name && old_key.source == new_key.source ==> source_matches(
            old_key,
            new_key,
        ),
        old_key.name == new_key.name && old_key.source is None && new_key.source is Some ==> (
        source_matches(old_key, new_key) <==> "registry+"@.is_prefix_of(new_key.source->0)),
        old_key.source is Some && old_key.source != new_key.source ==> !source_matches(
            old_key,
            new_key,
        ),
{
}

/// The lock file has an entry for a package exactly when one of its entries stands for it.
pub proof fn law_matching_source_exists(packages: Seq<OldPackageView>, key: PackageKeyView, i: int)
    ensures
        0 <= i < packages.len() && source_matches(packages[i].key, key) ==> matching_source_exists(
            packages,
            key,
        ),
        (forall|j: int| 0 <= j < packages.len() ==> !source_matches(#[trigger] packages[j].key, key))
            ==> !matching_source_exists(packages, key),
{
}

/// One version has lower numbers than another.
pub open spec fn lower_numbers(a: VersionView, b: VersionView) -> bool {
    a.major < b.major || (a.major == b.major && (a.minor < b.minor || (a.minor == b.minor && a.patch
        < b.patch)))
}

/// A package is aligned with some entry exactly when the lock file has one that stands for it, with
/// a version on the same compatibility line; and the entry is such a one.
pub proof fn law_aligned_with_a_compatible_entry(
    packages: Seq<OldPackageView>,
    key: PackageKeyView,
    version: VersionView,
)
    ensures
        best_match(packages, key, version) is Some <==> exists|i: int|
            0 <= i < packages.len() && source_matches((#[trigger] packages[i]).key, key)
                && same_line(packages[i].version, version),
        best_match(packages, key, version) matches Some(package) ==> {
            &&& packages.contains(package)
            &&& source_matches(package.key, key)
            &&& same_line(package.version, version)
        },
{
    law_best_match_is_eligible(packages, key, version);
    if best_match(packages, key, version) is Some {
        let i = packages.index_of(best_match(packages, key, version)->0);
        assert(source_matches(packages[i].key, key) && same_line(packages[i].version, version));
    } else {
        assert forall|i: int|
            0 <= i < packages.len() && source_matches((#[trigger] packages[i]).key, key)
                && same_line(packages[i].version, version) implies false by {
            assert(!eligible(packages[i], key, version));
        }
    }
}

/// Of the entries that stand for a package on its compatibility line the one with the highest
/// version is taken, whatever the version that the package has; of several with the same version
/// the last.
pub proof fn law_highest_entry_wins(
    packages: Seq<OldPackageView>,
    key: PackageKeyView,
    version: VersionView,
    i: int,
)
    requires
        0 <= i < packages.len(),
        source_matches(packages[i].key, key),
        same_line(packages[i].version, version),
        forall|j: int|
            0 <= j < packages.len() && j != i && source_matches((#[trigger] packages[j]).key, key)
                && same_line(packages[j].version, version) ==> lower_numbers(
                packages[j].version,
                packages[i].version,
            ) || (version_le(packages[j].version, packages[i].version) && !version_le(
                packages[i].version,
                packages[j].version,
            )) || (j < i && packages[j].version == packages[i].version && version_le(
                packages[i].version,
                packages[i].version,
            )),
    ensures
        best_match(packages, key, version) == Some(packages[i]),
{
    assert(is_best(packages, key, version, i)) by {
        assert forall|j: int|
            0 <= j < packages.len() && j != i && eligible(
                #[trigger] packages[j],
                key,
                version,
            ) implies version_le(packages[j].version, packages[i].version) by {
            assert(source_matches(packages[j].key, key));
            law_numbers_rank_first(packages[j].version, packages[i].version);
        }
        assert forall|j: int|
            i < j < packages.len() && eligible(
                #[trigger] packages[j],
                key,
                version,
            ) implies !version_le(packages[i].version, packages[j].version) by {
            assert(source_matches(packages[j].key, key));
            law_numbers_rank_first(packages[j].version, packages[i].version);
        }
    }
    let c = choose|c: int| is_best(packages, key, version, c);
    lemma_best_unique(packages, key, version, i, c);
}

/// A version is shown as it is written; with a revision, a `#` and the short form of the revision
/// follow.
pub proof fn law_displayed_versions(version: VersionView, precise: Seq<char>)
    ensures
        displayed(version, None) == version_text(version),
        displayed(version, Some(precise)) == version_text(version) + seq!['#'] + shortened(precise),
{
}

/// Cargo is told to update the package of this name at the version that it has now.
pub proof fn law_package_spec_names_the_current_version(key: PackageKeyView, version: VersionView)
    ensures
        package_spec(key, version) == key.name + seq!['@'] + version_text(version),
{
}

/// A package of the graph is known by its name, its comparable source and its version, and by
/// nothing else: neither the name in the graph nor the revision counts.
pub proof fn law_package_known_by_name_source_and_version(a: NewPackageView, b: NewPackageView)
    ensures
        a.key() == b.key() <==> a.name == b.name && a.source == b.source,
        a.resolved_key() == b.resolved_key() <==> a.name == b.name && a.source == b.source
            && a.version == b.version,
        a.key().name == a.name && a.key().source == a.source,
        a.resolved_key().package == a.key() && a.resolved_key().version == a.version,
{
}

/// What is said of packages is said of all their parts, and of a list of entries of every entry,
/// in their order.
pub proof fn law_package_views(
    key: PackageKey,
    resolved: ResolvedPackageKey,
    old_package: OldPackage,
    new_package: NewPackage,
    entries: Seq<OldPackage>,
)
    ensures
        key@.name == key.name@ && key@.source == opt_view(key.source),
        resolved@.package == resolved.package@ && resolved@.version == resolved.version@,
        old_package@.key == old_package.key@ && old_package@.version == old_package.version@
            && old_package@.precise == opt_view(old_package.precise),
        new_package@.id == new_package.id@ && new_package@.name == new_package.name@
            && new_package@.version == new_package.version@ && new_package@.source == opt_view(
            new_package.source,
        ) && new_package@.precise == opt_view(new_package.precise),
        old_views(entries).len() == entries.len(),
        forall|i: int| 0 <= i < entries.len() ==> #[trigger] old_views(entries)[i] == entries[i]@,
{
}

} // verus!
