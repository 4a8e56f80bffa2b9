//! The tables of a run: packages by name, their distances, and sets of packages at a version.

use vstd::prelude::*;

use crate::graph::{Metadata, MetadataPackageView};
use crate::package::{NewPackage, NewPackageView, ResolvedKeyView, ResolvedPackageKey};
use crate::source::{normalize_source_for_key, normalized, precise_of, source_precise};

verus! {

/// The packages of the dependency graph, found by their names in the graph.
#[derive(Debug)]
pub struct PackageMap {
    packages: Vec<NewPackage>,
}

spec fn ids_of(packages: Seq<NewPackage>) -> Seq<Seq<char>> {
    packages.map_values(|p: NewPackage| p.id@)
}

spec fn map_of(packages: Seq<NewPackage>) -> Map<Seq<char>, NewPackageView> {
    Map::new(
        |id: Seq<char>| ids_of(packages).contains(id),
        |id: Seq<char>| packages[choose|i: int| 0 <= i < packages.len() && packages[i].id@ == id]@,
    )
}

proof fn lemma_map_of(packages: Seq<NewPackage>, i: int)
    requires
        ids_of(packages).no_duplicates(),
        0 <= i < packages.len(),
    ensures
        map_of(packages).contains_key(packages[i].id@),
        map_of(packages)[packages[i].id@] == packages[i]@,
{
    let ids = ids_of(packages);
    assert(ids[i] == packages[i].id@);
    assert(ids.contains(packages[i].id@));
    let c = choose|c: int| 0 <= c < packages.len() && packages[c].id@ == packages[i].id@;
    assert(ids[c] == ids[i]);
}

impl View for PackageMap {
    type V = Map<Seq<char>, NewPackageView>;

    closed spec fn view(&self) -> Map<Seq<char>, NewPackageView> {
        map_of(self.packages@)
    }
}

/// Every package is kept under its own name, and there are finitely many.
pub open spec fn keyed_by_id(packages: Map<Seq<char>, NewPackageView>) -> bool {
    &&& packages.dom().finite()
    &&& forall|id: Seq<char>| #[trigger] packages.contains_key(id) ==> packages[id].id == id
}

impl PackageMap {
    #[verifier::type_invariant]
    spec fn well_formed(self) -> bool {
        ids_of(self.packages@).no_duplicates()
    }

    /// A table without packages.
    pub fn new() -> (r: PackageMap)
        ensures
            r@ == Map::<Seq<char>, NewPackageView>::empty(),
    {
        let packages: Vec<NewPackage> = Vec::new();
        assert(map_of(packages@) == Map::<Seq<char>, NewPackageView>::empty());
        PackageMap { packages }
    }

    /// Adds a package, in place of one with the same name.
    pub fn insert(&mut self, package: NewPackage)
        ensures
            final(self)@ == old(self)@.insert(package.id@, package@),
    {
        proof {
            use_type_invariant(&*self);
        }
        let mut packages: Vec<NewPackage> = Vec::new();
        std::mem::swap(&mut packages, &mut self.packages);
        let ghost before = packages@;
        let ghost id = package.id@;
        let ghost added = package@;
        let mut i: usize = 0;
        while i < packages.len() && !(packages[i].id == package.id)
            invariant
                packages@ == before,
                i <= packages@.len(),
                id == package.id@,
                forall|j: int| 0 <= j < i ==> (#[trigger] packages@[j]).id@ != id,
            decreases packages@.len() - i,
        {
            i = i + 1;
        }
        if i < packages.len() {
            packages.set(i, package);
            assert(ids_of(packages@) == ids_of(before));
        } else {
            packages.push(package);
            assert(ids_of(packages@) == ids_of(before).push(id));
            assert(!ids_of(before).contains(id));
        }
        proof {
            assert(packages@[i as int]@ == added);
            lemma_map_of(packages@, i as int);
            assert forall|k: Seq<char>| #[trigger]
                map_of(packages@).contains_key(k) == map_of(before).insert(id, added).contains_key(
                    k,
                ) by {
                if ids_of(packages@).contains(k) {
                    let c = ids_of(packages@).index_of(k);
                    if c != i {
                        assert(ids_of(before)[c] == k);
                    }
                }
                if ids_of(before).contains(k) {
                    let c = ids_of(before).index_of(k);
                    assert(ids_of(packages@)[c] == k);
                }
            }
            assert forall|k: Seq<char>| #[trigger]
                map_of(packages@).contains_key(k) implies map_of(packages@)[k] == map_of(
                before,
            ).insert(id, added)[k] by {
                let c = ids_of(packages@).index_of(k);
                assert(packages@[c].id@ == k);
                lemma_map_of(packages@, c);
                if c != i {
                    assert(ids_of(packages@)[i as int] == id);
                    assert(before[c] == packages@[c]);
                    lemma_map_of(before, c);
                }
            }
            assert(map_of(packages@) =~= map_of(before).insert(id, added));
        }
        self.packages = packages;
    }

    /// The package with this name.
    pub fn get(&self, id: &String) -> (r: Option<&NewPackage>)
        ensures
            keyed_by_id(self@),
            match r {
                Some(package) => self@.contains_key(id@) && self@[id@] == package@,
                None => !self@.contains_key(id@),
            },
    {
        proof {
            use_type_invariant(self);
            lemma_keyed_by_id(self.packages@);
        }
        let mut i: usize = 0;
        while i < self.packages.len()
            invariant
                i <= self.packages@.len(),
                ids_of(self.packages@).no_duplicates(),
                keyed_by_id(self@),
                forall|j: int| 0 <= j < i ==> (#[trigger] self.packages@[j]).id@ != id@,
            decreases self.packages@.len() - i,
        {
            if self.packages[i].id == *id {
                proof {
                    lemma_map_of(self.packages@, i as int);
                }
                return Some(&self.packages[i]);
            }
            i = i + 1;
        }
        None
    }

    /// How many packages there are.
    pub fn len(&self) -> (r: usize)
        ensures
            keyed_by_id(self@),
            r == self@.dom().len(),
    {
        proof {
            use_type_invariant(self);
            lemma_keyed_by_id(self.packages@);
            let ids = ids_of(self.packages@);
            ids.unique_seq_to_set();
            assert(map_of(self.packages@).dom() =~= ids.to_set());
        }
        self.packages.len()
    }
}

proof fn lemma_keyed_by_id(packages: Seq<NewPackage>)
    requires
        ids_of(packages).no_duplicates(),
    ensures
        keyed_by_id(map_of(packages)),
{
    let ids = ids_of(packages);
    vstd::seq_lib::seq_to_set_is_finite(ids);
    assert(map_of(packages).dom() =~= ids.to_set());
    assert forall|id: Seq<char>| #[trigger]
        map_of(packages).contains_key(id) implies map_of(packages)[id].id == id by {
        let c = ids.index_of(id);
        assert(packages[c].id@ == id);
        lemma_map_of(packages, c);
    }
}

/// A package as it is aligned: its source in comparable form, and the revision apart.
pub open spec fn new_package(package: MetadataPackageView) -> NewPackageView {
    NewPackageView {
        id: package.id,
        name: package.name,
        version: package.version,
        source: match package.source {
            Some(source) => Some(normalized(source)),
            None => None,
        },
        precise: match package.source {
            Some(source) => precise_of(source),
            None => None,
        },
    }
}

/// The packages by name; of two with one name the later one.
pub open spec fn packages_by_id(packages: Seq<MetadataPackageView>) -> Map<
    Seq<char>,
    NewPackageView,
>
    decreases packages.len(),
{
    if packages.len() == 0 {
        Map::empty()
    } else {
        packages_by_id(packages.drop_last()).insert(
            packages.last().id,
            new_package(packages.last()),
        )
    }
}

/// The packages of the project, by name.
pub fn build_new_package_map(metadata: &Metadata) -> (r: PackageMap)
    ensures
        r@ == packages_by_id(metadata@.packages),
{
    let mut map = PackageMap::new();
    let ghost all = metadata@.packages;
    let mut i: usize = 0;
    while i < metadata.packages.len()
        invariant
            i <= metadata.packages@.len(),
            all == metadata@.packages,
            map@ == packages_by_id(all.take(i as int)),
        decreases metadata.packages@.len() - i,
    {
        let package = &metadata.packages[i];
        let (source, precise) = match &package.source {
            Some(text) => (
                Some(normalize_source_for_key(text.as_str())),
                source_precise(text.as_str()),
            ),
            None => (None, None),
        };
        let added = NewPackage {
            id: package.id.clone(),
            name: package.name.clone(),
            version: package.version.clone(),
            source,
            precise,
        };
        proof {
            assert(all[i as int] == package@);
            assert(added@ == new_package(package@));
            assert(all.take(i + 1).drop_last() == all.take(i as int));
            assert(all.take(i + 1).last() == package@);
        }
        map.insert(added);
        i = i + 1;
    }
    assert(all.take(all.len() as int) == all);
    map
}

/// How far away packages are, by their names in the graph.
#[derive(Debug)]
pub struct Distances {
    entries: Vec<(String, usize)>,
}

/// The distances that are set one after the other, a later one in place of an earlier one.
spec fn distances_of(entries: Seq<(String, usize)>) -> Map<Seq<char>, nat>
    decreases entries.len(),
{
    if entries.len() == 0 {
        Map::empty()
    } else {
        distances_of(entries.drop_last()).insert(entries.last().0@, entries.last().1 as nat)
    }
}

impl View for Distances {
    type V = Map<Seq<char>, nat>;

    closed spec fn view(&self) -> Map<Seq<char>, nat> {
        distances_of(self.entries@)
    }
}

impl Distances {
    /// A table without distances.
    pub fn new() -> (r: Distances)
        ensures
            r@ == Map::<Seq<char>, nat>::empty(),
    {
        Distances { entries: Vec::new() }
    }

    /// The distance of a package.
    pub fn get(&self, id: &String) -> (r: Option<usize>)
        ensures
            match r {
                Some(distance) => self@.contains_key(id@) && self@[id@] == distance,
                None => !self@.contains_key(id@),
            },
    {
        let ghost all = self.entries@;
        let mut i: usize = self.entries.len();
        assert(all.take(i as int) == all);
        while i > 0
            invariant
                all == self.entries@,
                i <= all.len(),
                distances_of(all).contains_key(id@) == distances_of(
                    all.take(i as int),
                ).contains_key(id@),
                distances_of(all).contains_key(id@) ==> distances_of(all)[id@] == distances_of(
                    all.take(i as int),
                )[id@],
            decreases i,
        {
            i = i - 1;
            assert(all.take(i + 1).drop_last() == all.take(i as int));
            assert(all.take(i + 1).last() == all[i as int]);
            if self.entries[i].0 == *id {
                return Some(self.entries[i].1);
            }
        }
        None
    }

    /// Sets the distance of a package.
    pub fn insert(&mut self, id: String, distance: usize)
        ensures
            final(self)@ == old(self)@.insert(id@, distance as nat),
    {
        let ghost before = self.entries@;
        self.entries.push((id, distance));
        assert(self.entries@.drop_last() == before);
    }
}

/// A set of packages at a version.
#[derive(Debug)]
pub struct KeySet {
    keys: Vec<ResolvedPackageKey>,
}

spec fn key_views(keys: Seq<ResolvedPackageKey>) -> Seq<ResolvedKeyView> {
    keys.map_values(|k: ResolvedPackageKey| k@)
}

impl View for KeySet {
    type V = Set<ResolvedKeyView>;

    closed spec fn view(&self) -> Set<ResolvedKeyView> {
        key_views(self.keys@).to_set()
    }
}

impl KeySet {
    #[verifier::type_invariant]
    spec fn well_formed(self) -> bool {
        key_views(self.keys@).no_duplicates()
    }

    /// The empty set.
    pub fn new() -> (r: KeySet)
        ensures
            r@ == Set::<ResolvedKeyView>::empty(),
    {
        let keys: Vec<ResolvedPackageKey> = Vec::new();
        assert(key_views(keys@).to_set() =~= Set::<ResolvedKeyView>::empty());
        KeySet { keys }
    }

    /// How many packages are in the set.
    pub fn len(&self) -> (r: usize)
        ensures
            self@.finite(),
            r == self@.len(),
    {
        proof {
            use_type_invariant(self);
            key_views(self.keys@).unique_seq_to_set();
            vstd::seq_lib::seq_to_set_is_finite(key_views(self.keys@));
        }
        self.keys.len()
    }

    /// Whether a package is in the set.
    pub fn contains(&self, key: &ResolvedPackageKey) -> (r: bool)
        ensures
            r == self@.contains(key@),
    {
        let mut i: usize = 0;
        while i < self.keys.len()
            invariant
                i <= self.keys@.len(),
                forall|j: int| 0 <= j < i ==> #[trigger] key_views(self.keys@)[j] != key@,
            decreases self.keys@.len() - i,
        {
            if self.keys[i].same(key) {
                assert(key_views(self.keys@)[i as int] == key@);
                return true;
            }
            i = i + 1;
        }
        false
    }

    /// Adds a package to the set. The result says whether it was not in it before.
    pub fn insert(&mut self, key: ResolvedPackageKey) -> (r: bool)
        ensures
            final(self)@ == old(self)@.insert(key@),
            r == !old(self)@.contains(key@),
    {
        proof {
            use_type_invariant(&*self);
        }
        if self.contains(&key) {
            assert(self@.insert(key@) =~= self@);
            return false;
        }
        let ghost added = key@;
        let mut keys: Vec<ResolvedPackageKey> = Vec::new();
        std::mem::swap(&mut keys, &mut self.keys);
        let ghost before = key_views(keys@);
        keys.push(key);
        proof {
            let after = key_views(keys@);
            assert(after == before.push(added));
            assert(!before.contains(added));
            assert forall|k: ResolvedKeyView| after.to_set().contains(k) == before.to_set().insert(
                added,
            ).contains(k) by {
                if before.contains(k) {
                    let c = before.index_of(k);
                    assert(after[c] == k);
                }
                if k == added {
                    assert(after[before.len() as int] == k);
                }
                if after.contains(k) && k != added {
                    let c = after.index_of(k);
                    assert(before[c] == k);
                }
            }
            assert(after.to_set() =~= before.to_set().insert(added));
        }
        self.keys = keys;
        true
    }
}

/// The table of a project holds the packages that Cargo describes, and no others: each with its
/// name and version as they are, its source in comparable form and the revision apart. Of two with
/// one name in the graph it holds the later one.
pub proof fn law_table_holds_the_packages(packages: Seq<MetadataPackageView>, i: int)
    requires
        0 <= i < packages.len(),
        forall|j: int| i < j < packages.len() ==> (#[trigger] packages[j]).id != packages[i].id,
    ensures
        packages_by_id(packages).contains_key(packages[i].id),
        ({
            let held = packages_by_id(packages)[packages[i].id];
            &&& held.id == packages[i].id
            &&& held.name == packages[i].name
            &&& held.version == packages[i].version
            &&& packages[i].source is None ==> held.source is None && held.precise is None
            &&& packages[i].source is Some ==> held.source == Some(
                normalized(packages[i].source->0),
            ) && held.precise == precise_of(packages[i].source->0)
        }),
    decreases packages.len(),
{
    if i < packages.len() - 1 {
        let front = packages.drop_last();
        assert(packages[packages.len() - 1].id != packages[i].id);
        assert forall|j: int| i < j < front.len() implies (#[trigger] front[j]).id
            != front[i].id by {
            assert(front[j] == packages[j]);
        }
        law_table_holds_the_packages(front, i);
    }
}

/// Whatever the table of a project holds is a package that Cargo describes.
pub proof fn law_table_holds_nothing_else(packages: Seq<MetadataPackageView>, id: Seq<char>)
    requires
        packages_by_id(packages).contains_key(id),
    ensures
        exists|i: int| 0 <= i < packages.len() && (#[trigger] packages[i]).id == id,
    decreases packages.len(),
{
    if packages.last().id == id {
        assert(packages[packages.len() - 1].id == id);
    } else {
        law_table_holds_nothing_else(packages.drop_last(), id);
        let i = choose|i: int|
            0 <= i < packages.drop_last().len() && (#[trigger] packages.drop_last()[i]).id == id;
        assert(packages[i].id == id);
    }
}

} // verus!
