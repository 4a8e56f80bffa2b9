//! Reading the entries of a lock file.

use vstd::prelude::*;

use crate::package::{old_views, OldPackage, OldPackageView, PackageKey, PackageKeyView};
use crate::source::{normalize_source_for_key, normalized, precise_of, source_precise};
use crate::text::opt_view;
use crate::version::{
    law_read_version_writes_back, law_written_version_reads_back, parsed_version, version_text,
    Version, VersionView,
};

verus! {

/// A value of the `toml` crate.
#[verifier::external_type_specification]
#[verifier::external_body]
pub struct ExTomlValue(toml::Value);

/// The error of the `toml` crate for a text that is no document.
#[verifier::external_type_specification]
#[verifier::external_body]
pub struct ExTomlError(toml::de::Error);

/// The contents of a TOML value, as far as lock files use them.
pub enum TomlTree {
    Text(Seq<char>),
    Items(Seq<TomlTree>),
    Table(Map<Seq<char>, TomlTree>),
    Other,
}

/// What a value of the `toml` crate holds.
pub uninterp spec fn toml_tree(value: toml::Value) -> TomlTree;

/// The table that a text is read as when it is read as a TOML document; `None` for a text that is
/// no document.
pub uninterp spec fn toml_document(text: Seq<char>) -> Option<TomlTree>;

/// `toml::from_str` reads a text as a document. What it reads depends on the text alone; the
/// grammar of TOML, and what the error says, are not stated.
#[verifier::external_body]
fn parse_document(text: &str) -> (r: Result<toml::Value, toml::de::Error>)
    ensures
        match r {
            Ok(value) => toml_document(text@) == Some(toml_tree(value)),
            Err(_) => toml_document(text@) is None,
        },
{
    toml::from_str::<toml::Value>(text)
}

/// `toml::Value::get` with a string finds the value under that key of a table, and nothing in a
/// value that is no table.
#[verifier::external_body]
fn value_at<'a>(value: &'a toml::Value, key: &str) -> (r: Option<&'a toml::Value>)
    ensures
        match r {
            Some(found) => toml_tree(*value) is Table && toml_tree(*value)->Table_0.contains_key(
                key@,
            ) && toml_tree(*value)->Table_0[key@] == toml_tree(*found),
            None => !(toml_tree(*value) is Table && toml_tree(*value)->Table_0.contains_key(key@)),
        },
{
    value.get(key)
}

/// `toml::Value::as_array` gives the items of an array, in their order, and nothing for another
/// value.
pub assume_specification[ toml::Value::as_array ](value: &toml::Value) -> (r: Option<
    &Vec<toml::Value>,
>)
    ensures
        match r {
            Some(items) => toml_tree(*value) == TomlTree::Items(
                items@.map_values(|item: toml::Value| toml_tree(item)),
            ),
            None => !(toml_tree(*value) is Items),
        },
;

/// `toml::Value::is_table` tells whether a value is a table.
pub assume_specification[ toml::Value::is_table ](value: &toml::Value) -> (r: bool)
    ensures
        r == (toml_tree(*value) is Table),
;

/// `toml::Value::as_str` gives the characters of a string, and nothing for another value.
pub assume_specification[ toml::Value::as_str ](value: &toml::Value) -> (r: Option<&str>)
    ensures
        match r {
            Some(text) => toml_tree(*value) == TomlTree::Text(text@),
            None => !(toml_tree(*value) is Text),
        },
;

/// The texts of a `[[package]]` table that are read.
#[derive(Debug)]
pub struct LockEntry {
    pub name: Option<String>,
    pub version: Option<String>,
    pub source: Option<String>,
}

#[verifier::ext_equal]
pub struct LockEntryView {
    pub name: Option<Seq<char>>,
    pub version: Option<Seq<char>>,
    pub source: Option<Seq<char>>,
}

impl View for LockEntry {
    type V = LockEntryView;

    open spec fn view(&self) -> LockEntryView {
        LockEntryView {
            name: opt_view(self.name),
            version: opt_view(self.version),
            source: opt_view(self.source),
        }
    }
}

/// An entry that may be no table.
pub open spec fn entry_view(entry: Option<LockEntry>) -> Option<LockEntryView> {
    match entry {
        Some(e) => Some(e@),
        None => None,
    }
}

pub open spec fn entry_views(entries: Seq<Option<LockEntry>>) -> Seq<Option<LockEntryView>> {
    entries.map_values(|e: Option<LockEntry>| entry_view(e))
}

/// The text under a key of a table.
pub open spec fn text_under(tree: TomlTree, key: Seq<char>) -> Option<Seq<char>> {
    match tree {
        TomlTree::Table(table) => if table.contains_key(key) {
            match table[key] {
                TomlTree::Text(text) => Some(text),
                _ => None,
            }
        } else {
            None
        },
        _ => None,
    }
}

/// What is read of an item of the package list; `None` for one that is no table.
pub open spec fn entry_of(tree: TomlTree) -> Option<LockEntryView> {
    if tree is Table {
        Some(
            LockEntryView {
                name: text_under(tree, "name"@),
                version: text_under(tree, "version"@),
                source: text_under(tree, "source"@),
            },
        )
    } else {
        None
    }
}

/// The package list of a document; `None` where it has none.
pub open spec fn entries_of(tree: TomlTree) -> Option<Seq<Option<LockEntryView>>> {
    match tree {
        TomlTree::Table(table) => if table.contains_key("package"@) {
            match table["package"@] {
                TomlTree::Items(items) => Some(items.map_values(|item: TomlTree| entry_of(item))),
                _ => None,
            }
        } else {
            None
        },
        _ => None,
    }
}

/// Why a lock file could not be read.
#[derive(Debug)]
pub enum LockError {
    /// The text is no TOML document.
    Syntax(toml::de::Error),
    /// The document has no list of packages.
    NoPackageEntries,
    /// An item of the list is no table.
    InvalidEntry,
    /// A package has no name.
    NameMissing,
    /// A package has no version.
    VersionMissing,
    /// The version of a package is none.
    InvalidVersion(String, semver::Error),
}

pub enum LockFault {
    Syntax,
    NoPackageEntries,
    InvalidEntry,
    NameMissing,
    VersionMissing,
    InvalidVersion(Seq<char>),
}

impl View for LockError {
    type V = LockFault;

    open spec fn view(&self) -> LockFault {
        match self {
            LockError::Syntax(_) => LockFault::Syntax,
            LockError::NoPackageEntries => LockFault::NoPackageEntries,
            LockError::InvalidEntry => LockFault::InvalidEntry,
            LockError::NameMissing => LockFault::NameMissing,
            LockError::VersionMissing => LockFault::VersionMissing,
            LockError::InvalidVersion(text, _) => LockFault::InvalidVersion(text@),
        }
    }
}

/// What is said of a lock file at a path that could not be read.
pub open spec fn fault_message(fault: LockFault, path: Seq<char>) -> Seq<char> {
    match fault {
        LockFault::Syntax => "failed to parse "@ + path,
        LockFault::NoPackageEntries => "old Cargo.lock has no [[package]] entries"@,
        LockFault::InvalidEntry => "invalid [[package]] entry"@,
        LockFault::NameMissing => "package.name missing"@,
        LockFault::VersionMissing => "package.version missing"@,
        LockFault::InvalidVersion(text) => "invalid version "@ + text,
    }
}

impl LockError {
    /// What is said of a lock file at a path that could not be read.
    pub fn message(&self, path: &str) -> (r: String)
        ensures
            r@ == fault_message(self@, path@),
    {
        match self {
            LockError::Syntax(_) => "failed to parse ".to_owned().concat(path),
            LockError::NoPackageEntries => "old Cargo.lock has no [[package]] entries".to_owned(),
            LockError::InvalidEntry => "invalid [[package]] entry".to_owned(),
            LockError::NameMissing => "package.name missing".to_owned(),
            LockError::VersionMissing => "package.version missing".to_owned(),
            LockError::InvalidVersion(text, _) => "invalid version ".to_owned().concat(
                text.as_str(),
            ),
        }
    }
}

/// The package that an entry locks, or what is wrong with the entry.
pub open spec fn package_of(entry: Option<LockEntryView>) -> Result<OldPackageView, LockFault> {
    match entry {
        None => Err(LockFault::InvalidEntry),
        Some(e) => match e.name {
            None => Err(LockFault::NameMissing),
            Some(name) => match e.version {
                None => Err(LockFault::VersionMissing),
                Some(text) => match parsed_version(text) {
                    None => Err(LockFault::InvalidVersion(text)),
                    Some(version) => Ok(
                        OldPackageView {
                            key: PackageKeyView {
                                name,
                                source: match e.source {
                                    Some(source) => Some(normalized(source)),
                                    None => None,
                                },
                            },
                            version,
                            precise: match e.source {
                                Some(source) => precise_of(source),
                                None => None,
                            },
                        },
                    ),
                },
            },
        },
    }
}

/// The packages that the entries lock, in their order, or what is wrong with the first entry that
/// locks none.
pub open spec fn packages_of(entries: Seq<Option<LockEntryView>>) -> Result<
    Seq<OldPackageView>,
    LockFault,
>
    decreases entries.len(),
{
    if entries.len() == 0 {
        Ok(Seq::empty())
    } else {
        match packages_of(entries.drop_last()) {
            Err(fault) => Err(fault),
            Ok(packages) => match package_of(entries.last()) {
                Err(fault) => Err(fault),
                Ok(package) => Ok(packages.push(package)),
            },
        }
    }
}

/// The packages that a document locks.
pub open spec fn locked_packages(document: Option<TomlTree>) -> Result<
    Seq<OldPackageView>,
    LockFault,
> {
    match document {
        None => Err(LockFault::Syntax),
        Some(tree) => match entries_of(tree) {
            None => Err(LockFault::NoPackageEntries),
            Some(entries) => packages_of(entries),
        },
    }
}

/// Reading a lock file loses no entry: there is one package for each, in their order.
pub proof fn law_every_entry_is_locked(entries: Seq<Option<LockEntryView>>)
    ensures
        packages_of(entries) matches Ok(packages) ==> packages.len() == entries.len() && forall|
            i: int,
        |
            0 <= i < entries.len() ==> package_of(#[trigger] entries[i]) == Ok::<
                OldPackageView,
                LockFault,
            >(packages[i]),
    decreases entries.len(),
{
    if entries.len() > 0 {
        law_every_entry_is_locked(entries.drop_last());
        if packages_of(entries) is Ok {
            let packages = packages_of(entries)->Ok_0;
            assert forall|i: int| 0 <= i < entries.len() implies package_of(#[trigger] entries[i])
                == Ok::<OldPackageView, LockFault>(packages[i]) by {
                if i < entries.len() - 1 {
                    assert(entries.drop_last()[i] == entries[i]);
                }
            }
        }
    }
}

/// A lock file is read exactly when every entry is, and else fails with what is wrong with the
/// first entry that is not.
pub proof fn law_first_fault_wins(entries: Seq<Option<LockEntryView>>, n: int)
    requires
        0 <= n < entries.len(),
        forall|i: int| 0 <= i < n ==> package_of(#[trigger] entries[i]) is Ok,
        package_of(entries[n]) is Err,
    ensures
        packages_of(entries) == Err::<Seq<OldPackageView>, LockFault>(package_of(entries[n])->Err_0),
    decreases entries.len(),
{
    let front = entries.drop_last();
    if n < entries.len() - 1 {
        assert(front[n] == entries[n]);
        assert forall|i: int| 0 <= i < n implies package_of(#[trigger] front[i]) is Ok by {
            assert(front[i] == entries[i]);
        }
        law_first_fault_wins(front, n);
    } else {
        lemma_all_read(front, entries);
    }
}

proof fn lemma_all_read(front: Seq<Option<LockEntryView>>, entries: Seq<Option<LockEntryView>>)
    requires
        front.len() <= entries.len(),
        forall|i: int| 0 <= i < front.len() ==> #[trigger] front[i] == entries[i],
        forall|i: int| 0 <= i < front.len() ==> package_of(#[trigger] entries[i]) is Ok,
    ensures
        packages_of(front) is Ok,
    decreases front.len(),
{
    if front.len() > 0 {
        assert forall|i: int| 0 <= i < front.len() - 1 implies #[trigger] front.drop_last()[i]
            == entries[i] by {
            assert(front[i] == entries[i]);
        }
        lemma_all_read(front.drop_last(), entries);
        assert(front[front.len() - 1] == entries[front.len() - 1]);
    }
}

fn owned_text(value: &toml::Value, key: &str) -> (r: Option<String>)
    ensures
        opt_view(r) == text_under(toml_tree(*value), key@),
{
    match value_at(value, key) {
        Some(found) => match found.as_str() {
            Some(text) => Some(text.to_owned()),
            None => None,
        },
        None => None,
    }
}

/// The package list of a document.
pub fn read_entries(root: &toml::Value) -> (r: Option<Vec<Option<LockEntry>>>)
    ensures
        match r {
            Some(entries) => entries_of(toml_tree(*root)) == Some(entry_views(entries@)),
            None => entries_of(toml_tree(*root)) is None,
        },
{
    let list = match value_at(root, "package") {
        Some(list) => list,
        None => {
            return None;
        },
    };
    let items = match list.as_array() {
        Some(items) => items,
        None => {
            return None;
        },
    };
    let ghost trees = items@.map_values(|item: toml::Value| toml_tree(item));
    let ghost all = trees.map_values(|item: TomlTree| entry_of(item));
    let mut entries: Vec<Option<LockEntry>> = Vec::new();
    let mut i: usize = 0;
    while i < items.len()
        invariant
            i <= items@.len(),
            trees == items@.map_values(|item: toml::Value| toml_tree(item)),
            all == trees.map_values(|item: TomlTree| entry_of(item)),
            entry_views(entries@) == all.take(i as int),
        decreases items@.len() - i,
    {
        let item = &items[i];
        let ghost before = entry_views(entries@);
        assert(trees[i as int] == toml_tree(*item));
        if item.is_table() {
            let entry = LockEntry {
                name: owned_text(item, "name"),
                version: owned_text(item, "version"),
                source: owned_text(item, "source"),
            };
            assert(entry_of(trees[i as int]) == Some(entry@));
            entries.push(Some(entry));
        } else {
            entries.push(None);
        }
        assert(entry_views(entries@) == before.push(all[i as int]));
        assert(all.take(i + 1) == all.take(i as int).push(all[i as int]));
        i = i + 1;
    }
    assert(all.take(all.len() as int) == all);
    Some(entries)
}

/// The package that an entry locks.
pub fn read_package(entry: &Option<LockEntry>) -> (r: Result<OldPackage, LockError>)
    ensures
        match r {
            Ok(package) => package_of(entry_view(*entry)) == Ok::<OldPackageView, LockFault>(
                package@,
            ),
            Err(error) => package_of(entry_view(*entry)) == Err::<OldPackageView, LockFault>(
                error@,
            ),
        },
{
    let entry = match entry {
        Some(entry) => entry,
        None => {
            return Err(LockError::InvalidEntry);
        },
    };
    let name = match &entry.name {
        Some(name) => name.clone(),
        None => {
            return Err(LockError::NameMissing);
        },
    };
    let text = match &entry.version {
        Some(text) => text,
        None => {
            return Err(LockError::VersionMissing);
        },
    };
    let version = match Version::parse(text.as_str()) {
        Ok(version) => version,
        Err(error) => {
            return Err(LockError::InvalidVersion(text.clone(), error));
        },
    };
    let (source, precise) = match &entry.source {
        Some(source) => (
            Some(normalize_source_for_key(source.as_str())),
            source_precise(source.as_str()),
        ),
        None => (None, None),
    };
    Ok(OldPackage { key: PackageKey { name, source }, version, precise })
}

/// The packages that the entries lock.
pub fn read_packages(entries: &Vec<Option<LockEntry>>) -> (r: Result<Vec<OldPackage>, LockError>)
    ensures
        match r {
            Ok(packages) => packages_of(entry_views(entries@)) == Ok::<
                Seq<OldPackageView>,
                LockFault,
            >(old_views(packages@)),
            Err(error) => packages_of(entry_views(entries@)) == Err::<
                Seq<OldPackageView>,
                LockFault,
            >(error@),
        },
{
    let ghost all = entry_views(entries@);
    let mut packages: Vec<OldPackage> = Vec::new();
    let mut i: usize = 0;
    assert(old_views(packages@) == Seq::<OldPackageView>::empty());
    while i < entries.len()
        invariant
            i <= entries@.len(),
            all == entry_views(entries@),
            packages_of(all.take(i as int)) == Ok::<Seq<OldPackageView>, LockFault>(
                old_views(packages@),
            ),
        decreases entries@.len() - i,
    {
        proof {
            assert(all.take(i + 1).drop_last() == all.take(i as int));
            assert(all.take(i + 1).last() == entry_view(entries@[i as int]));
        }
        match read_package(&entries[i]) {
            Ok(package) => {
                let ghost before = old_views(packages@);
                packages.push(package);
                assert(old_views(packages@) == before.push(package@));
            },
            Err(error) => {
                proof {
                    lemma_fault_kept(all, i + 1);
                }
                return Err(error);
            },
        }
        i = i + 1;
    }
    assert(all.take(all.len() as int) == all);
    Ok(packages)
}

proof fn lemma_fault_kept(entries: Seq<Option<LockEntryView>>, n: int)
    requires
        0 <= n <= entries.len(),
        packages_of(entries.take(n)) is Err,
    ensures
        packages_of(entries) == packages_of(entries.take(n)),
    decreases entries.len(),
{
    if n == entries.len() {
        assert(entries.take(n) == entries);
    } else {
        assert(entries.drop_last().take(n) == entries.take(n));
        lemma_fault_kept(entries.drop_last(), n);
    }
}

/// Reads the text of a lock file.
pub fn load_old_lock(text: &str) -> (r: Result<Vec<OldPackage>, LockError>)
    ensures
        match r {
            Ok(packages) => locked_packages(toml_document(text@)) == Ok::<
                Seq<OldPackageView>,
                LockFault,
            >(old_views(packages@)),
            Err(error) => locked_packages(toml_document(text@)) == Err::<
                Seq<OldPackageView>,
                LockFault,
            >(error@),
        },
{
    let root = match parse_document(text) {
        Ok(root) => root,
        Err(error) => {
            return Err(LockError::Syntax(error));
        },
    };
    match read_entries(&root) {
        Some(entries) => read_packages(&entries),
        None => Err(LockError::NoPackageEntries),
    }
}

/// A package that is read from an entry is the one that the entry names: its name and its version,
/// written out, are the texts of the entry, and its source and revision are those of the entry's
/// source, or none where the entry has none.
pub proof fn law_read_package_is_the_entry(entry: Option<LockEntryView>)
    ensures
        package_of(entry) matches Ok(package) ==> {
            &&& entry is Some
            &&& entry->0.name == Some(package.key.name)
            &&& entry->0.version == Some(version_text(package.version))
            &&& package.version.valid()
            &&& entry->0.source is None ==> package.key.source is None && package.precise is None
            &&& entry->0.source is Some ==> package.key.source == Some(
                normalized(entry->0.source->0),
            ) && package.precise == precise_of(entry->0.source->0)
        },
{
    if package_of(entry) is Ok {
        law_read_version_writes_back(entry->0.version->0);
    }
}

/// Every version of every package can be locked: an entry with a name and the writing of a version
/// is read, whatever its source.
pub proof fn law_entry_with_name_and_version_is_read(
    name: Seq<char>,
    version: VersionView,
    source: Option<Seq<char>>,
)
    requires
        version.valid(),
    ensures
        package_of(
            Some(LockEntryView { name: Some(name), version: Some(version_text(version)), source }),
        ) matches Ok(package) && package.key.name == name && package.version == version,
{
    law_written_version_reads_back(version);
}

/// What is wrong with an entry that is not read: it is no table, or else has no name, or else no
/// version, or else what it has for a version is the writing of none.
pub proof fn law_faults_of_an_entry(entry: Option<LockEntryView>)
    ensures
        package_of(entry) == Err::<OldPackageView, LockFault>(LockFault::InvalidEntry)
            <==> entry is None,
        package_of(entry) == Err::<OldPackageView, LockFault>(LockFault::NameMissing)
            <==> entry is Some && entry->0.name is None,
        package_of(entry) == Err::<OldPackageView, LockFault>(LockFault::VersionMissing)
            <==> entry is Some && entry->0.name is Some && entry->0.version is None,
        package_of(entry) matches Err(LockFault::InvalidVersion(text)) ==> entry is Some
            && entry->0.version == Some(text) && forall|v: VersionView|
            v.valid() ==> #[trigger] version_text(v) != text,
        !(package_of(entry) matches Err(LockFault::Syntax)),
        !(package_of(entry) matches Err(LockFault::NoPackageEntries)),
{
    if entry is Some && entry->0.version is Some {
        let text = entry->0.version->0;
        assert forall|v: VersionView| v.valid() && #[trigger] version_text(v) == text implies
            parsed_version(text) is Some by {
            law_written_version_reads_back(v);
        }
    }
}

/// Of an item of the package list the texts under `name`, `version` and `source` are read, each
/// where there is one; an item that is no table is read as none.
pub proof fn law_texts_of_an_item(tree: TomlTree)
    ensures
        entry_of(tree) is Some <==> tree is Table,
        tree matches TomlTree::Table(table) ==> {
            let entry = entry_of(tree)->0;
            &&& forall|text: Seq<char>|
                entry.name == Some(text) <==> #[trigger] table_has_text(table, "name"@, text)
            &&& forall|text: Seq<char>|
                entry.version == Some(text) <==> #[trigger] table_has_text(
                    table,
                    "version"@,
                    text,
                )
            &&& forall|text: Seq<char>|
                entry.source == Some(text) <==> #[trigger] table_has_text(table, "source"@, text)
        },
{
}

/// A table has this text under a key.
pub open spec fn table_has_text(
    table: Map<Seq<char>, TomlTree>,
    key: Seq<char>,
    text: Seq<char>,
) -> bool {
    table.contains_key(key) && table[key] == TomlTree::Text(text)
}

/// The package list of a document is the array under `package`, item by item; a document without
/// such an array has none.
pub proof fn law_package_list_of_a_document(tree: TomlTree, table: Map<Seq<char>, TomlTree>)
    ensures
        !(tree is Table) ==> entries_of(tree) is None,
        entries_of(TomlTree::Table(table)) is Some <==> table.contains_key("package"@)
            && table["package"@] is Items,
        entries_of(TomlTree::Table(table)) matches Some(entries) ==> {
            let items = table["package"@]->Items_0;
            &&& entries.len() == items.len()
            &&& forall|i: int| 0 <= i < items.len() ==> #[trigger] entries[i] == entry_of(items[i])
        },
{
}

/// A lock file that is read is read whole: it is a document with an array of tables under
/// `package`, and there is a package for each of them, in their order, with the name that the
/// table has, the version that is written there, and the source and revision of its source.
pub proof fn law_lock_file_is_read_whole(document: Option<TomlTree>)
    ensures
        locked_packages(document) matches Ok(packages) ==> {
            &&& document is Some && document->0 is Table
            &&& document->0->Table_0.contains_key("package"@)
            &&& document->0->Table_0["package"@] is Items
            &&& packages.len() == document->0->Table_0["package"@]->Items_0.len()
            &&& forall|i: int|
                0 <= i < packages.len() ==> is_locked_as(
                    document->0->Table_0["package"@]->Items_0[i],
                    #[trigger] packages[i],
                )
        },
{
    if locked_packages(document) is Ok {
        let packages = locked_packages(document)->Ok_0;
        let items = document->0->Table_0["package"@]->Items_0;
        let entries = entries_of(document->0)->0;
        law_every_entry_is_locked(entries);
        assert forall|i: int| 0 <= i < packages.len() implies is_locked_as(
            items[i],
            #[trigger] packages[i],
        ) by {
            assert(entries[i] == entry_of(items[i]));
            assert(package_of(entries[i]) == Ok::<OldPackageView, LockFault>(packages[i]));
            law_read_package_is_the_entry(entries[i]);
            law_texts_of_an_item(items[i]);
            let table = items[i]->Table_0;
            assert(table_has_text(table, "name"@, packages[i].key.name));
            assert(table_has_text(table, "version"@, version_text(packages[i].version)));
            let entry = entries[i]->0;
            if entry.source is Some {
                assert(table_has_text(table, "source"@, entry.source->0));
            }
            assert forall|source: Seq<char>| #[trigger]
                table_has_text(table, "source"@, source) implies entry.source == Some(source) by {}
        }
    }
}

/// A table of the package list locks this package.
pub open spec fn is_locked_as(item: TomlTree, package: OldPackageView) -> bool {
    &&& item is Table
    &&& table_has_text(item->Table_0, "name"@, package.key.name)
    &&& table_has_text(item->Table_0, "version"@, version_text(package.version))
    &&& package.version.valid()
    &&& forall|source: Seq<char>| #[trigger]
        table_has_text(item->Table_0, "source"@, source) ==> package.key.source == Some(
            normalized(source),
        ) && package.precise == precise_of(source)
    &&& (forall|source: Seq<char>| !#[trigger] table_has_text(item->Table_0, "source"@, source))
        ==> package.key.source is None && package.precise is None
}

/// A lock file with a list of packages is read when all entries are, and is not read for want of a
/// document or of the list exactly where that is missing.
pub proof fn law_lock_file_is_read_when_entries_are(document: Option<TomlTree>)
    ensures
        document is None <==> locked_packages(document) == Err::<Seq<OldPackageView>, LockFault>(
            LockFault::Syntax,
        ),
        document is Some && entries_of(document->0) is None <==> locked_packages(document) == Err::<
            Seq<OldPackageView>,
            LockFault,
        >(LockFault::NoPackageEntries),
        document is Some && entries_of(document->0) is Some && (forall|i: int|
            0 <= i < entries_of(document->0)->0.len() ==> package_of(
                #[trigger] entries_of(document->0)->0[i],
            ) is Ok) ==> locked_packages(document) is Ok,
{
    if document is Some && entries_of(document->0) is Some {
        let entries = entries_of(document->0)->0;
        lemma_fault_is_an_entrys(entries);
        if forall|i: int| 0 <= i < entries.len() ==> package_of(#[trigger] entries[i]) is Ok {
            lemma_all_read(entries, entries);
        }
    }
}

proof fn lemma_fault_is_an_entrys(entries: Seq<Option<LockEntryView>>)
    ensures
        packages_of(entries) matches Err(fault) ==> fault != LockFault::Syntax && fault
            != LockFault::NoPackageEntries,
    decreases entries.len(),
{
    if entries.len() > 0 {
        lemma_fault_is_an_entrys(entries.drop_last());
        law_faults_of_an_entry(entries.last());
    }
}

/// What is said of a lock file that could not be read names the path where it is no document, and
/// the text where it is no version.
pub proof fn law_fault_messages(path: Seq<char>, text: Seq<char>)
    ensures
        fault_message(LockFault::Syntax, path) == "failed to parse "@ + path,
        fault_message(LockFault::NoPackageEntries, path)
            == "old Cargo.lock has no [[package]] entries"@,
        fault_message(LockFault::InvalidEntry, path) == "invalid [[package]] entry"@,
        fault_message(LockFault::NameMissing, path) == "package.name missing"@,
        fault_message(LockFault::VersionMissing, path) == "package.version missing"@,
        fault_message(LockFault::InvalidVersion(text), path) == "invalid version "@ + text,
{
}

/// What is said of the entries of a lock file is said of all that is read of them, in their order.
pub proof fn law_entry_views(entry: LockEntry, entries: Seq<Option<LockEntry>>)
    ensures
        entry@.name == opt_view(entry.name),
        entry@.version == opt_view(entry.version),
        entry@.source == opt_view(entry.source),
        entry_views(entries).len() == entries.len(),
        forall|i: int|
            0 <= i < entries.len() ==> (#[trigger] entry_views(entries)[i] is Some
                <==> entries[i] is Some),
        forall|i: int|
            0 <= i < entries.len() && entries[i] is Some ==> #[trigger] entry_views(entries)[i]
                == Some(entries[i]->0@),
{
}

} // verus!
