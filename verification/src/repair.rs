//! Repairing the catalog: bringing the registered partitions in line with the directories.

use vstd::hash_set::StringHashSet;
use vstd::prelude::*;

use crate::collect::{all_ok, lemma_all_ok_settled, lemma_all_ok_step};
use crate::dialect::{FormatTablePartitionPaths, PartitionDialect, PartitionPathsView};
use crate::error::{Error, ErrorView};
use crate::model::{partition_views, CatalogPartition, CatalogPartitionView, TextMap};
use crate::order::{lemma_text_lt_irreflexive, lemma_text_lt_total, lemma_text_lt_transitive};
use crate::order::{text_before, text_lt};
use crate::text::same_text;

verus! {

/// What a repair may change.
#[derive(Debug, Clone, Copy, PartialEq, Eq, Structural)]
pub enum RepairMode {
    /// Registers what has a directory.
    Add,
    /// Unregisters what has none.
    Drop,
    /// Both.
    Sync,
}

impl RepairMode {
    pub open spec fn registers(self) -> bool {
        self is Add || self is Sync
    }

    pub open spec fn unregisters(self) -> bool {
        self is Drop || self is Sync
    }

    /// Whether partitions may be registered.
    pub fn may_register(self) -> (r: bool)
        ensures
            r == self.registers(),
    {
        self == RepairMode::Add || self == RepairMode::Sync
    }

    /// Whether partitions may be unregistered.
    pub fn may_unregister(self) -> (r: bool)
        ensures
            r == self.unregisters(),
    {
        self == RepairMode::Drop || self == RepairMode::Sync
    }
}

/// What a specification holds.
pub open spec fn spec_views(specs: Seq<TextMap>) -> Seq<Map<Seq<char>, Seq<char>>> {
    specs.map_values(|s: TextMap| s@)
}

/// Whether each name stands before the next.
pub open spec fn strictly_ascending(names: Seq<Seq<char>>) -> bool {
    forall|i: int, j: int| 0 <= i < j < names.len() ==> text_lt(#[trigger] names[i], #[trigger] names[j])
}

/// Whether `specs` are those of `wanted`, in the order of their names.
pub open spec fn in_name_order(
    specs: Seq<Map<Seq<char>, Seq<char>>>,
    wanted: Map<Seq<char>, Map<Seq<char>, Seq<char>>>,
) -> bool {
    exists|names: Seq<Seq<char>>| #[trigger]
        strictly_ascending(names) && names.to_set() == wanted.dom() && specs == names.map_values(
            |name: Seq<char>| wanted[name],
        )
}

/// The names of partitions.
pub open spec fn partition_names<D: PartitionDialect>(
    dialect: D,
    paths: PartitionPathsView,
    specs: Seq<Map<Seq<char>, Seq<char>>>,
) -> Seq<Result<Seq<char>, ErrorView>> {
    specs.map_values(|spec: Map<Seq<char>, Seq<char>>| dialect.catalog_name(paths, spec))
}

/// The specifications by name. Of several with one name the last one counts.
pub open spec fn by_name(
    names: Seq<Seq<char>>,
    specs: Seq<Map<Seq<char>, Seq<char>>>,
) -> Map<Seq<char>, Map<Seq<char>, Seq<char>>>
    decreases names.len(),
{
    if names.len() == 0 {
        Map::empty()
    } else {
        by_name(names.drop_last(), specs).insert(names.last(), specs[names.len() - 1])
    }
}

/// Specifications of partitions by name, in the order of the names.
#[derive(Debug)]
pub struct PartitionIndex {
    pub entries: Vec<(String, TextMap)>,
}

/// The names in an index.
pub open spec fn entry_names(entries: Seq<(String, TextMap)>) -> Seq<Seq<char>> {
    entries.map_values(|e: (String, TextMap)| e.0@)
}

/// The specifications in an index.
pub open spec fn entry_specs(entries: Seq<(String, TextMap)>) -> Seq<Map<Seq<char>, Seq<char>>> {
    entries.map_values(|e: (String, TextMap)| e.1@)
}

impl PartitionIndex {
    /// The names ascend.
    pub open spec fn wf(self) -> bool {
        strictly_ascending(entry_names(self.entries@))
    }

    pub open spec fn view(self) -> Map<Seq<char>, Map<Seq<char>, Seq<char>>> {
        by_name(entry_names(self.entries@), entry_specs(self.entries@))
    }

    /// The index of nothing.
    fn new() -> (r: PartitionIndex)
        ensures
            r.wf(),
            r@ == Map::<Seq<char>, Map<Seq<char>, Seq<char>>>::empty(),
    {
        let r = PartitionIndex { entries: Vec::new() };
        assert(r@ =~= Map::<Seq<char>, Map<Seq<char>, Seq<char>>>::empty());
        r
    }

    /// Where a name stands, or would stand.
    fn position(&self, name: &str) -> (r: usize)
        requires
            self.wf(),
        ensures
            r <= self.entries@.len(),
            forall|i: int| 0 <= i < r ==> text_lt(#[trigger] self.entries@[i].0@, name@),
            forall|i: int|
                r <= i < self.entries@.len() ==> !text_lt(#[trigger] self.entries@[i].0@, name@),
    {
        let mut from: usize = 0;
        let mut to: usize = self.entries.len();
        while from < to
            invariant
                0 <= from <= to <= self.entries@.len(),
                self.wf(),
                forall|i: int| 0 <= i < from ==> text_lt(#[trigger] self.entries@[i].0@, name@),
                forall|i: int|
                    to <= i < self.entries@.len() ==> !text_lt(
                        #[trigger] self.entries@[i].0@,
                        name@,
                    ),
            decreases to - from,
        {
            let middle = from + (to - from) / 2;
            proof {
                let names = entry_names(self.entries@);
                let m = middle as int;
                assert forall|i: int| 0 <= i < m && text_lt(names[m], name@) implies text_lt(
                    #[trigger] self.entries@[i].0@,
                    name@,
                ) by {
                    assert(text_lt(names[i], names[m]));
                    lemma_text_lt_transitive(names[i], names[m], name@);
                }
                assert forall|i: int|
                    m < i < self.entries@.len() && !text_lt(names[m], name@) implies !text_lt(
                    #[trigger] self.entries@[i].0@,
                    name@,
                ) by {
                    assert(text_lt(names[m], names[i]));
                    if text_lt(names[i], name@) {
                        lemma_text_lt_transitive(names[m], names[i], name@);
                    }
                }
            }
            if text_before(self.entries[middle].0.as_str(), name) {
                from = middle + 1;
            } else {
                to = middle;
            }
        }
        from
    }

    /// Whether there is a specification of this name.
    pub fn contains_key(&self, name: &str) -> (r: bool)
        requires
            self.wf(),
        ensures
            r == self@.contains_key(name@),
    {
        let at = self.position(name);
        proof {
            lemma_by_name(entry_names(self.entries@), entry_specs(self.entries@));
            let names = entry_names(self.entries@);
            if self@.contains_key(name@) {
                let i = choose|i: int| 0 <= i < names.len() && names[i] == name@;
                lemma_text_lt_irreflexive(name@);
                assert(!text_lt(self.entries@[i].0@, name@));
                if i > at {
                    assert(text_lt(names[at as int], names[i]));
                    assert(!text_lt(self.entries@[at as int].0@, name@));
                }
            }
            if at < self.entries@.len() {
                assert(names[at as int] == self.entries@[at as int].0@);
            }
        }
        at < self.entries.len() && same_text(self.entries[at].0.as_str(), name)
    }

    /// Sets the specification of a name.
    fn insert(&mut self, name: String, spec: TextMap)
        requires
            old(self).wf(),
        ensures
            final(self).wf(),
            final(self)@ == old(self)@.insert(name@, spec@),
    {
        let at = self.position(name.as_str());
        let ghost given = name@;
        let ghost added = spec@;
        let ghost names = entry_names(self.entries@);
        let ghost specs = entry_specs(self.entries@);
        let replaces = at < self.entries.len() && same_text(
            self.entries[at].0.as_str(),
            name.as_str(),
        );
        if replaces {
            self.entries.set(at, (name, spec));
            proof {
                assert(entry_names(self.entries@) =~= names);
                assert(entry_specs(self.entries@) =~= specs.update(at as int, added));
            }
        } else {
            self.entries.insert(at, (name, spec));
            proof {
                assert(entry_names(self.entries@) =~= names.insert(at as int, given));
                assert(entry_specs(self.entries@) =~= specs.insert(at as int, added));
                assert forall|i: int| 0 <= i < at implies text_lt(#[trigger] names[i], given) by {
                    assert(text_lt(old(self).entries@[i].0@, given));
                }
                assert forall|i: int| at <= i < names.len() implies text_lt(
                    given,
                    #[trigger] names[i],
                ) by {
                    assert(!text_lt(old(self).entries@[i].0@, given));
                    lemma_text_lt_total(names[i], given);
                    if names[i] == given {
                        if i > at {
                            assert(text_lt(names[at as int], names[i]));
                            assert(!text_lt(old(self).entries@[at as int].0@, given));
                        }
                        assert(false);
                    }
                }
                let now = names.insert(at as int, given);
                assert forall|i: int, j: int| 0 <= i < j < now.len() implies text_lt(
                    #[trigger] now[i],
                    #[trigger] now[j],
                ) by {
                    let a = if i < at { i } else { i - 1 };
                    let b = if j < at { j } else { j - 1 };
                    if i != at && j != at {
                        assert(text_lt(names[a], names[b]));
                    }
                }
            }
        }
        proof {
            let now = entry_names(self.entries@);
            let now_specs = entry_specs(self.entries@);
            lemma_by_name(names, specs);
            lemma_by_name(now, now_specs);
            let before = by_name(names, specs);
            assert forall|k: Seq<char>| self@.contains_key(k) == before.insert(
                given,
                added,
            ).contains_key(k) by {
                if k == given {
                    assert(now[at as int] == given);
                } else {
                    if self@.contains_key(k) {
                        let i = choose|i: int| 0 <= i < now.len() && now[i] == k;
                        let a = if replaces || i < at { i } else { i - 1 };
                        assert(names[a] == k);
                    }
                    if before.contains_key(k) {
                        let i = choose|i: int| 0 <= i < names.len() && names[i] == k;
                        let a = if replaces || i < at { i } else { i + 1 };
                        assert(now[a] == k);
                    }
                }
            }
            assert forall|k: Seq<char>| self@.contains_key(k) implies self@[k] == before.insert(
                given,
                added,
            )[k] by {
                let i = choose|i: int| 0 <= i < now.len() && now[i] == k;
                assert(self@[now[i]] == now_specs[i]);
                if i != at {
                    let a = if replaces || i < at { i } else { i - 1 };
                    assert(names[a] == k);
                    assert(before[names[a]] == specs[a]);
                    if k == given {
                        assert(now[at as int] == given);
                        lemma_text_lt_irreflexive(given);
                    }
                }
            }
            assert(self@ =~= before.insert(given, added));
        }
    }
}

/// Where the names ascend, each name has the specification beside it.
proof fn lemma_by_name(names: Seq<Seq<char>>, specs: Seq<Map<Seq<char>, Seq<char>>>)
    requires
        strictly_ascending(names),
        names.len() == specs.len(),
    ensures
        forall|i: int|
            0 <= i < names.len() ==> by_name(names, specs).contains_key(#[trigger] names[i])
                && by_name(names, specs)[names[i]] == specs[i],
        forall|k: Seq<char>| #[trigger]
            by_name(names, specs).contains_key(k) ==> exists|i: int|
                0 <= i < names.len() && names[i] == k,
    decreases names.len(),
{
    lemma_by_name_of(names, specs, names.len() as int);
}

proof fn lemma_by_name_of(
    names: Seq<Seq<char>>,
    specs: Seq<Map<Seq<char>, Seq<char>>>,
    upto: int,
)
    requires
        strictly_ascending(names),
        names.len() == specs.len(),
        0 <= upto <= names.len(),
    ensures
        forall|i: int|
            0 <= i < upto ==> by_name(names.take(upto), specs).contains_key(#[trigger] names[i])
                && by_name(names.take(upto), specs)[names[i]] == specs[i],
        forall|k: Seq<char>| #[trigger]
            by_name(names.take(upto), specs).contains_key(k) ==> exists|i: int|
                0 <= i < upto && names[i] == k,
        by_name(names.take(names.len() as int), specs) == by_name(names, specs),
    decreases upto,
{
    assert(names.take(names.len() as int) =~= names);
    if upto > 0 {
        lemma_by_name_of(names, specs, upto - 1);
        assert(names.take(upto).drop_last() =~= names.take(upto - 1));
        let last = names[upto - 1];
        lemma_text_lt_irreflexive(last);
        assert forall|i: int| 0 <= i < upto implies by_name(
            names.take(upto),
            specs,
        ).contains_key(#[trigger] names[i]) && by_name(names.take(upto), specs)[names[i]]
            == specs[i] by {
            if i < upto - 1 {
                assert(text_lt(names[i], last));
            }
        }
        assert forall|k: Seq<char>| #[trigger]
            by_name(names.take(upto), specs).contains_key(k) implies exists|i: int|
            0 <= i < upto && names[i] == k by {
            if k == last {
                assert(names[upto - 1] == k);
            } else {
                assert(by_name(names.take(upto - 1), specs).contains_key(k));
                let i = choose|i: int| 0 <= i < upto - 1 && names[i] == k;
                assert(names[i] == k);
            }
        }
    }
}

/// The specifications by name. Of several with one name the last one counts. A specification
/// without a name is an error.
pub fn index_specs_by_name<D: PartitionDialect>(
    dialect: &D,
    partition_paths: &FormatTablePartitionPaths,
    specs: Vec<TextMap>,
) -> (r: Result<PartitionIndex, Error>)
    ensures
        match (r, all_ok(partition_names(*dialect, partition_paths@, spec_views(specs@)))) {
            (Ok(index), Ok(names)) => index.wf() && index@ == by_name(names, spec_views(specs@)),
            (Err(error), Err(first)) => error@ == first,
            _ => false,
        },
{
    let ghost views = spec_views(specs@);
    let ghost outcomes = partition_names(*dialect, partition_paths@, views);
    let ghost mut names: Seq<Seq<char>> = Seq::empty();
    let mut index = PartitionIndex::new();
    let mut i: usize = 0;
    assert(outcomes.take(0) =~= Seq::empty());
    while i < specs.len()
        invariant
            0 <= i <= specs@.len(),
            views == spec_views(specs@),
            outcomes == partition_names(*dialect, partition_paths@, views),
            names.len() == i,
            all_ok(outcomes.take(i as int)) == Ok::<Seq<Seq<char>>, ErrorView>(names),
            index.wf(),
            index@ == by_name(names, views),
        decreases specs@.len() - i,
    {
        proof {
            assert(views[i as int] == specs@[i as int]@);
            lemma_all_ok_step(outcomes, i as int);
        }
        match dialect.partition_name(partition_paths, &specs[i]) {
            Err(error) => {
                proof {
                    lemma_all_ok_settled(outcomes, i + 1);
                }
                return Err(error);
            },
            Ok(name) => {
                proof {
                    let before = names;
                    names = names.push(name@);
                    assert(names.drop_last() =~= before);
                }
                index.insert(name, specs[i].copy());
            },
        }
        i = i + 1;
    }
    assert(outcomes.take(i as int) =~= outcomes);
    Ok(index)
}

/// What a repair is to do.
#[derive(Debug)]
pub struct RepairActions {
    /// The partitions to create in the catalog.
    pub to_register: Vec<TextMap>,
    /// The partitions to drop from the catalog.
    pub to_unregister: Vec<TextMap>,
}

/// A change of the catalog.
#[derive(Debug)]
pub enum RepairWrite {
    /// Create partitions. Whether one that is there already is passed over, or is an error, is
    /// said with it.
    Register { specs: Vec<TextMap>, ignore_if_exists: bool },
    /// Drop partitions.
    Unregister { specs: Vec<TextMap> },
}

/// What a [`RepairWrite`] says.
pub enum RepairWriteView {
    Register { specs: Seq<Map<Seq<char>, Seq<char>>>, ignore_if_exists: bool },
    Unregister { specs: Seq<Map<Seq<char>, Seq<char>>> },
}

impl RepairWrite {
    pub open spec fn view(self) -> RepairWriteView {
        match self {
            RepairWrite::Register { specs, ignore_if_exists } => RepairWriteView::Register {
                specs: spec_views(specs@),
                ignore_if_exists,
            },
            RepairWrite::Unregister { specs } => RepairWriteView::Unregister {
                specs: spec_views(specs@),
            },
        }
    }
}

impl RepairActions {
    /// The changes of the catalog that carry the actions out: first what is to be registered, of
    /// which some may be there already, then what is to be unregistered. For nothing there is no
    /// change.
    pub open spec fn writes(self) -> Seq<RepairWriteView> {
        let register = if self.to_register@.len() > 0 {
            seq![
                RepairWriteView::Register {
                    specs: spec_views(self.to_register@),
                    ignore_if_exists: true,
                },
            ]
        } else {
            Seq::empty()
        };
        let unregister = if self.to_unregister@.len() > 0 {
            seq![RepairWriteView::Unregister { specs: spec_views(self.to_unregister@) }]
        } else {
            Seq::empty()
        };
        register + unregister
    }

    /// The next change of the catalog, and the actions that are left behind it; `None` where all
    /// is done. Behind a change that failed there is none: the failure is the result.
    pub fn next_write(self, last: Result<(), Error>) -> (r: Result<
        Option<(RepairWrite, RepairActions)>,
        Error,
    >)
        ensures
            match last {
                Err(error) => r == Err::<Option<(RepairWrite, RepairActions)>, Error>(error),
                Ok(()) => match r {
                    Ok(Some(step)) => self.writes().len() > 0 && step.0@ == self.writes()[0]
                        && step.1.writes() == self.writes().drop_first(),
                    Ok(None) => self.writes().len() == 0,
                    Err(_) => false,
                },
            },
    {
        if let Err(error) = last {
            return Err(error);
        }
        if self.to_register.len() > 0 {
            let write = RepairWrite::Register { specs: self.to_register, ignore_if_exists: true };
            let left = RepairActions {
                to_register: Vec::new(),
                to_unregister: self.to_unregister,
            };
            assert(left.writes() =~= self.writes().drop_first());
            return Ok(Some((write, left)));
        }
        if self.to_unregister.len() > 0 {
            let write = RepairWrite::Unregister { specs: self.to_unregister };
            let left = RepairActions { to_register: Vec::new(), to_unregister: Vec::new() };
            assert(left.writes() =~= self.writes().drop_first());
            return Ok(Some((write, left)));
        }
        Ok(None)
    }
}

/// Nothing is unregistered before everything is registered that is to be, so that a failure to
/// register leaves every registration in place.
pub proof fn law_registering_comes_first(actions: RepairActions, i: int, j: int)
    requires
        0 <= i < actions.writes().len(),
        0 <= j < actions.writes().len(),
        actions.writes()[i] is Register,
        actions.writes()[j] is Unregister,
    ensures
        i < j,
{
}

/// The specifications of the partitions that live at a location of their own.
pub open spec fn custom_specs(registered: Seq<CatalogPartitionView>) -> Seq<
    Map<Seq<char>, Seq<char>>,
> {
    registered.filter(|p: CatalogPartitionView| p.has_custom_location()).map_values(
        |p: CatalogPartitionView| p.spec,
    )
}

/// The specifications of the partitions.
pub open spec fn registered_specs(registered: Seq<CatalogPartitionView>) -> Seq<
    Map<Seq<char>, Seq<char>>,
> {
    registered.map_values(|p: CatalogPartitionView| p.spec)
}

/// What a repair decides by: the partitions that have a directory and those that are registered,
/// by name, and the names of those that live at a location of their own.
pub struct RepairInput {
    pub discovered: Map<Seq<char>, Map<Seq<char>, Seq<char>>>,
    pub registered: Map<Seq<char>, Map<Seq<char>, Seq<char>>>,
    pub custom_located: Set<Seq<char>>,
}

impl RepairInput {
    /// The partitions that have a directory and are not registered.
    pub open spec fn unregistered(self) -> Map<Seq<char>, Map<Seq<char>, Seq<char>>> {
        self.discovered.remove_keys(self.registered.dom())
    }

    /// The partitions that are registered, should have a directory below the table, and have none.
    pub open spec fn missing(self) -> Map<Seq<char>, Map<Seq<char>, Seq<char>>> {
        self.registered.remove_keys(self.discovered.dom().union(self.custom_located))
    }

    /// What is registered once the repair is carried out.
    pub open spec fn after(self, mode: RepairMode) -> Map<Seq<char>, Map<Seq<char>, Seq<char>>> {
        let kept = if mode.unregisters() {
            self.registered.remove_keys(self.missing().dom())
        } else {
            self.registered
        };
        if mode.registers() {
            kept.union_prefer_right(self.unregistered())
        } else {
            kept
        }
    }
}

/// What a repair decides by, or the first error. Where partitions may be unregistered, the table
/// directory itself has to be there: a missing one would read as no partition at all.
pub open spec fn repair_input<D: PartitionDialect>(
    dialect: D,
    paths: PartitionPathsView,
    mode: RepairMode,
    table_directory: Result<(), Error>,
    discovered: Result<Vec<TextMap>, Error>,
    registered: Result<Vec<CatalogPartition>, Error>,
) -> Result<RepairInput, ErrorView> {
    match (table_directory, discovered, registered) {
        (Err(error), _, _) if mode.unregisters() => Err(error@),
        (_, Err(error), _) => Err(error@),
        (_, _, Err(error)) => Err(error@),
        (_, Ok(specs), Ok(partitions)) => {
            let found = spec_views(specs@);
            let views = partition_views(partitions@);
            match (
                all_ok(partition_names(dialect, paths, custom_specs(views))),
                all_ok(partition_names(dialect, paths, found)),
                all_ok(partition_names(dialect, paths, registered_specs(views))),
            ) {
                (Err(error), _, _) => Err(error),
                (_, Err(error), _) => Err(error),
                (_, _, Err(error)) => Err(error),
                (Ok(custom), Ok(found_names), Ok(registered_names)) => Ok(
                    RepairInput {
                        discovered: by_name(found_names, found),
                        registered: by_name(registered_names, registered_specs(views)),
                        custom_located: custom.to_set(),
                    },
                ),
            }
        },
    }
}

/// The names of the partitions that live at a location of their own.
fn custom_located_names<D: PartitionDialect>(
    dialect: &D,
    partition_paths: &FormatTablePartitionPaths,
    partitions: &Vec<CatalogPartition>,
) -> (r: Result<StringHashSet, Error>)
    ensures
        match (
            r,
            all_ok(
                partition_names(
                    *dialect,
                    partition_paths@,
                    custom_specs(partition_views(partitions@)),
                ),
            ),
        ) {
            (Ok(names), Ok(expected)) => names@ == expected.to_set(),
            (Err(error), Err(first)) => error@ == first,
            _ => false,
        },
{
    let ghost views = partition_views(partitions@);
    let ghost custom = |p: CatalogPartitionView| p.has_custom_location();
    let ghost specs = custom_specs(views);
    let ghost outcomes = partition_names(*dialect, partition_paths@, specs);
    let ghost mut found: Seq<Seq<char>> = Seq::empty();
    let mut names = StringHashSet::new();
    let mut i: usize = 0;
    let ghost mut k: int = 0;
    proof {
        assert(outcomes.take(0) =~= Seq::empty());
        assert(names@ =~= found.to_set());
        assert(views.take(0).filter(custom) =~= Seq::empty()) by {
            reveal(Seq::filter);
        }
    }
    while i < partitions.len()
        invariant
            0 <= i <= partitions@.len(),
            views == partition_views(partitions@),
            custom == (|p: CatalogPartitionView| p.has_custom_location()),
            specs == custom_specs(views),
            outcomes == partition_names(*dialect, partition_paths@, specs),
            k == views.take(i as int).filter(custom).len(),
            0 <= k <= outcomes.len(),
            found.len() == k,
            all_ok(outcomes.take(k)) == Ok::<Seq<Seq<char>>, ErrorView>(found),
            names@ == found.to_set(),
        decreases partitions@.len() - i,
    {
        proof {
            assert(views[i as int] == partitions@[i as int]@);
            lemma_filter_at(views, custom, i as int);
        }
        if partitions[i].has_custom_location() {
            proof {
                assert(custom(views[i as int]));
                assert(specs[k] == partitions@[i as int].spec@);
                lemma_all_ok_step(outcomes, k);
            }
            match dialect.partition_name(partition_paths, &partitions[i].spec) {
                Err(error) => {
                    proof {
                        lemma_all_ok_settled(outcomes, k + 1);
                    }
                    return Err(error);
                },
                Ok(name) => {
                    proof {
                        lemma_to_set_push(found, name@);
                        found = found.push(name@);
                        k = k + 1;
                    }
                    names.insert(name);
                },
            }
        }
        i = i + 1;
    }
    proof {
        assert(views.take(i as int) =~= views);
        assert(outcomes.take(k) =~= outcomes);
    }
    Ok(names)
}

proof fn lemma_to_set_push(names: Seq<Seq<char>>, name: Seq<char>)
    ensures
        names.push(name).to_set() == names.to_set().insert(name),
{
    let pushed = names.push(name);
    assert forall|n: Seq<char>| pushed.to_set().contains(n) == names.to_set().insert(
        name,
    ).contains(n) by {
        if names.contains(n) {
            let i = choose|i: int| 0 <= i < names.len() && names[i] == n;
            assert(pushed[i] == n);
        }
        if n == name {
            assert(pushed[names.len() as int] == n);
        }
        if pushed.contains(n) && n != name {
            let i = choose|i: int| 0 <= i < pushed.len() && pushed[i] == n;
            assert(names[i] == n);
        }
    }
    assert(pushed.to_set() =~= names.to_set().insert(name));
}

/// What is kept of a sequence up to a place is a beginning of what is kept of all of it.
pub(crate) proof fn lemma_filter_at<T>(s: Seq<T>, keep: spec_fn(T) -> bool, at: int)
    requires
        0 <= at < s.len(),
    ensures
        s.take(at).filter(keep).len() <= s.filter(keep).len(),
        s.take(at + 1).filter(keep) == if keep(s[at]) {
            s.take(at).filter(keep).push(s[at])
        } else {
            s.take(at).filter(keep)
        },
        s.take(at + 1).filter(keep).len() <= s.filter(keep).len(),
        keep(s[at]) ==> s.filter(keep)[s.take(at).filter(keep).len() as int] == s[at],
    decreases s.len(),
{
    reveal(Seq::filter);
    assert(s.take(at + 1).drop_last() =~= s.take(at));
    if at + 1 < s.len() {
        let rest = s.drop_last();
        lemma_filter_at(rest, keep, at);
        assert(rest.take(at) =~= s.take(at));
        assert(rest.take(at + 1) =~= s.take(at + 1));
    } else {
        assert(s.take(at + 1) =~= s);
    }
}

/// The specifications whose names are in neither of the others, in the order of their names.
fn specs_not_in(index: &PartitionIndex, other: &PartitionIndex, kept: &StringHashSet) -> (r: Vec<
    TextMap,
>)
    requires
        index.wf(),
        other.wf(),
    ensures
        in_name_order(spec_views(r@), index@.remove_keys(other@.dom().union(kept@))),
{
    let ghost names = entry_names(index.entries@);
    let ghost specs = entry_specs(index.entries@);
    let ghost excluded = other@.dom().union(kept@);
    let ghost wanted = index@.remove_keys(excluded);
    let ghost mut found: Seq<Seq<char>> = Seq::empty();
    let ghost mut places: Seq<int> = Seq::empty();
    let mut r: Vec<TextMap> = Vec::new();
    let mut i: usize = 0;
    proof {
        lemma_by_name(names, specs);
    }
    while i < index.entries.len()
        invariant
            0 <= i <= index.entries@.len(),
            index.wf(),
            other.wf(),
            names == entry_names(index.entries@),
            specs == entry_specs(index.entries@),
            excluded == other@.dom().union(kept@),
            found.len() == r@.len(),
            places.len() == r@.len(),
            forall|j: int| 0 <= j < places.len() ==> 0 <= #[trigger] places[j] < i,
            forall|j: int|
                0 <= j < places.len() ==> found[j] == names[#[trigger] places[j]]
                    && !excluded.contains(found[j]) && r@[j]@ == specs[places[j]],
            forall|a: int, b: int|
                0 <= a < b < places.len() ==> #[trigger] places[a] < #[trigger] places[b],
            forall|j: int|
                0 <= j < i && !excluded.contains(#[trigger] names[j]) ==> exists|a: int|
                    0 <= a < places.len() && places[a] == j,
        decreases index.entries@.len() - i,
    {
        let name = index.entries[i].0.as_str();
        assert(names[i as int] == name@);
        let ghost before = places;
        if !other.contains_key(name) && !kept.contains(name) {
            assert(!excluded.contains(names[i as int]));
            r.push(index.entries[i].1.copy());
            assert(r@[r@.len() - 1]@ == specs[i as int]);
            proof {
                let before_found = found;
                found = found.push(names[i as int]);
                places = places.push(i as int);
                assert(places[before.len() as int] == i);
                assert forall|j: int| 0 <= j < places.len() implies found[j] == names[
                #[trigger] places[j]] && !excluded.contains(found[j]) && r@[j]@
                    == specs[places[j]] by {
                    if j < before.len() {
                        assert(places[j] == before[j]);
                        assert(found[j] == before_found[j]);
                    }
                }
            }
        }
        proof {
            assert forall|j: int|
                0 <= j < i + 1 && !excluded.contains(#[trigger] names[j]) implies exists|a: int|
                0 <= a < places.len() && places[a] == j by {
                if j < i {
                    let a = choose|a: int| 0 <= a < before.len() && before[a] == j;
                    assert(places[a] == j);
                }
            }
        }
        i = i + 1;
    }
    proof {
        assert(strictly_ascending(found)) by {
            assert forall|a: int, b: int| 0 <= a < b < found.len() implies text_lt(
                #[trigger] found[a],
                #[trigger] found[b],
            ) by {
                assert(places[a] < places[b]);
                assert(text_lt(names[places[a]], names[places[b]]));
            }
        }
        assert forall|n: Seq<char>| found.to_set().contains(n) == wanted.dom().contains(n) by {
            if found.contains(n) {
                let j = choose|j: int| 0 <= j < found.len() && found[j] == n;
                assert(0 <= places[j] < names.len());
                assert(index@.contains_key(names[places[j]]));
            }
            if wanted.dom().contains(n) {
                let j = choose|j: int| 0 <= j < names.len() && names[j] == n;
                assert(!excluded.contains(names[j]));
                let a = choose|a: int| 0 <= a < places.len() && places[a] == j;
                assert(found[a] == names[places[a]]);
                assert(found.contains(n));
            }
        }
        assert(found.to_set() =~= wanted.dom());
        let listed = found.map_values(|name: Seq<char>| wanted[name]);
        assert forall|j: int| 0 <= j < r@.len() implies spec_views(r@)[j] == listed[j] by {
            assert(0 <= places[j] < names.len());
            assert(index@.contains_key(names[places[j]]));
        }
        assert(spec_views(r@) =~= listed);
    }
    r
}

/// Whether `r` is the decision on a repair: what is unregistered and has a directory is to be
/// registered, and what is missing is to be unregistered, each where the mode allows it and in the
/// order of the names; or the error that keeps it from being decided.
pub open spec fn is_repair<D: PartitionDialect>(
    r: Result<RepairActions, Error>,
    dialect: D,
    paths: PartitionPathsView,
    mode: RepairMode,
    table_directory: Result<(), Error>,
    discovered: Result<Vec<TextMap>, Error>,
    registered: Result<Vec<CatalogPartition>, Error>,
) -> bool {
    match (
        r,
        repair_input(
            dialect,
            paths,
            mode,
            table_directory,
            discovered,
            registered,
        ),
    ) {
        (Ok(actions), Ok(input)) => {
            &&& if mode.registers() {
                in_name_order(spec_views(actions.to_register@), input.unregistered())
            } else {
                actions.to_register@.len() == 0
            }
            &&& if mode.unregisters() {
                in_name_order(spec_views(actions.to_unregister@), input.missing())
            } else {
                actions.to_unregister@.len() == 0
            }
        },
        (Err(error), Err(first)) => error@ == first,
        _ => false,
    }
}

/// Decides how to repair the catalog.
///
/// What is handed in is what listing the table directory, looking for partition directories, and
/// listing the partitions of the catalog gave, in this order. All of it has to be there before
/// anything is decided, so that a failed listing changes nothing. Whether the table directory
/// could be listed counts only where partitions may be unregistered.
///
/// A partition that is registered at a location of its own does not lie below the table
/// directory. That no directory was found for it does not mean that it is gone, and it stays
/// registered.
pub fn repair<D: PartitionDialect>(
    dialect: &D,
    partition_paths: &FormatTablePartitionPaths,
    mode: RepairMode,
    table_directory: Result<(), Error>,
    discovered: Result<Vec<TextMap>, Error>,
    registered: Result<Vec<CatalogPartition>, Error>,
) -> (r: Result<RepairActions, Error>)
    ensures
        is_repair(
            r,
            *dialect,
            partition_paths@,
            mode,
            table_directory,
            discovered,
            registered,
        ),
{
    if mode.may_unregister() {
        if let Err(error) = table_directory {
            return Err(error);
        }
    }
    let discovered_specs = match discovered {
        Ok(specs) => specs,
        Err(error) => {
            return Err(error);
        },
    };
    let partitions = match registered {
        Ok(partitions) => partitions,
        Err(error) => {
            return Err(error);
        },
    };
    let custom_located = match custom_located_names(dialect, partition_paths, &partitions) {
        Ok(names) => names,
        Err(error) => {
            return Err(error);
        },
    };
    let discovered_by_name = match index_specs_by_name(dialect, partition_paths, discovered_specs) {
        Ok(index) => index,
        Err(error) => {
            return Err(error);
        },
    };
    let specs = specs_of(&partitions);
    let registered_by_name = match index_specs_by_name(dialect, partition_paths, specs) {
        Ok(index) => index,
        Err(error) => {
            return Err(error);
        },
    };
    let to_register = if mode.may_register() {
        let none = StringHashSet::new();
        assert(registered_by_name@.dom().union(none@) =~= registered_by_name@.dom());
        specs_not_in(&discovered_by_name, &registered_by_name, &none)
    } else {
        Vec::new()
    };
    let to_unregister = if mode.may_unregister() {
        specs_not_in(&registered_by_name, &discovered_by_name, &custom_located)
    } else {
        Vec::new()
    };
    Ok(RepairActions { to_register, to_unregister })
}

/// The specifications of the partitions.
fn specs_of(partitions: &Vec<CatalogPartition>) -> (r: Vec<TextMap>)
    ensures
        spec_views(r@) == registered_specs(partition_views(partitions@)),
{
    let ghost expected = registered_specs(partition_views(partitions@));
    let mut r: Vec<TextMap> = Vec::new();
    let mut i: usize = 0;
    while i < partitions.len()
        invariant
            0 <= i <= partitions@.len(),
            expected == registered_specs(partition_views(partitions@)),
            r@.len() == i,
            forall|j: int| 0 <= j < i ==> (#[trigger] r@[j])@ == expected[j],
        decreases partitions@.len() - i,
    {
        r.push(partitions[i].spec.copy());
        i = i + 1;
    }
    assert(spec_views(r@) =~= expected);
    r
}

/// The last of the specifications with one name counts, and there is one for each name.
pub proof fn law_last_specification_counts(
    names: Seq<Seq<char>>,
    specs: Seq<Map<Seq<char>, Seq<char>>>,
    i: int,
)
    requires
        names.len() == specs.len(),
        0 <= i < names.len(),
        forall|j: int| i < j < names.len() ==> #[trigger] names[j] != names[i],
    ensures
        by_name(names, specs).dom() == names.to_set(),
        by_name(names, specs)[names[i]] == specs[i],
    decreases names.len(),
{
    let front = names.drop_last();
    let last = names.len() - 1;
    lemma_by_name_dom(names, specs);
    if i < last {
        assert(names[last] != names[i]);
        assert forall|j: int| i < j < front.len() implies #[trigger] front[j] != front[i] by {
            assert(names[j] != names[i]);
        }
        lemma_by_name_same(front, specs, specs.take(last));
        law_last_specification_counts(front, specs.take(last), i);
    }
}

pub(crate) proof fn lemma_by_name_dom(names: Seq<Seq<char>>, specs: Seq<Map<Seq<char>, Seq<char>>>)
    ensures
        by_name(names, specs).dom() == names.to_set(),
    decreases names.len(),
{
    if names.len() > 0 {
        lemma_by_name_dom(names.drop_last(), specs);
        assert(names.drop_last().push(names.last()) =~= names);
        lemma_to_set_push(names.drop_last(), names.last());
        assert(by_name(names, specs).dom() =~= names.to_set());
    } else {
        assert(by_name(names, specs).dom() =~= names.to_set());
    }
}

/// Only the specifications beside the names count.
proof fn lemma_by_name_same(
    names: Seq<Seq<char>>,
    a: Seq<Map<Seq<char>, Seq<char>>>,
    b: Seq<Map<Seq<char>, Seq<char>>>,
)
    requires
        forall|i: int| 0 <= i < names.len() ==> a[i] == b[i],
    ensures
        by_name(names, a) == by_name(names, b),
    decreases names.len(),
{
    if names.len() > 0 {
        lemma_by_name_same(names.drop_last(), a, b);
    }
}

/// What is registered after a repair. Adding keeps what is registered and adds what has a
/// directory. Dropping keeps what has a directory or a location of its own. Doing both leaves
/// what has a directory, and what is registered at a location of its own. A registration that
/// stays is not changed.
pub proof fn law_repair_leaves(input: RepairInput, mode: RepairMode)
    ensures
        mode is Add ==> input.after(mode).dom() == input.registered.dom().union(
            input.discovered.dom(),
        ),
        mode is Drop ==> input.after(mode).dom() == input.registered.dom().intersect(
            input.discovered.dom().union(input.custom_located),
        ),
        mode is Sync ==> input.after(mode).dom() == input.discovered.dom().union(
            input.registered.dom().intersect(input.custom_located),
        ),
        forall|name: Seq<char>|
            input.registered.contains_key(name) && #[trigger] input.after(mode).contains_key(name)
                ==> input.after(mode)[name] == input.registered[name],
{
    let after = input.after(mode).dom();
    match mode {
        RepairMode::Add => {
            assert(after =~= input.registered.dom().union(input.discovered.dom()));
        },
        RepairMode::Drop => {
            assert(after =~= input.registered.dom().intersect(
                input.discovered.dom().union(input.custom_located),
            ));
        },
        RepairMode::Sync => {
            assert(after =~= input.discovered.dom().union(
                input.registered.dom().intersect(input.custom_located),
            ));
        },
    }
}

/// A partition that is registered at a location of its own stays registered, as it is.
pub proof fn law_repair_keeps_custom_locations(
    input: RepairInput,
    mode: RepairMode,
    name: Seq<char>,
)
    requires
        input.registered.contains_key(name),
        input.custom_located.contains(name),
    ensures
        input.after(mode).contains_key(name),
        input.after(mode)[name] == input.registered[name],
{
}

/// A second repair in the same mode finds nothing to do.
pub proof fn law_repair_is_idempotent(input: RepairInput, mode: RepairMode)
    ensures
        ({
            let again = RepairInput { registered: input.after(mode), ..input };
            &&& mode.registers() ==> again.unregistered().dom() == Set::<Seq<char>>::empty()
            &&& mode.unregisters() ==> again.missing().dom() == Set::<Seq<char>>::empty()
            &&& again.after(mode) == input.after(mode)
        }),
{
    let again = RepairInput { registered: input.after(mode), ..input };
    if mode.registers() {
        assert(again.unregistered().dom() =~= Set::<Seq<char>>::empty());
    }
    if mode.unregisters() {
        assert(again.missing().dom() =~= Set::<Seq<char>>::empty());
    }
    assert(again.after(mode) =~= input.after(mode));
}

proof fn lemma_ascending_names_agree(a: Seq<Seq<char>>, b: Seq<Seq<char>>, upto: int)
    requires
        strictly_ascending(a),
        strictly_ascending(b),
        a.to_set() == b.to_set(),
        0 <= upto <= a.len(),
    ensures
        upto <= b.len(),
        a.take(upto) == b.take(upto),
    decreases upto,
{
    if upto > 0 {
        let i = upto - 1;
        lemma_ascending_names_agree(a, b, i);
        assert forall|k: int| 0 <= k < i implies a[k] == b[k] by {
            assert(a.take(i)[k] == b.take(i)[k]);
        }
        assert(a.contains(a[i]));
        assert(b.to_set().contains(a[i]));
        let j = choose|j: int| 0 <= j < b.len() && b[j] == a[i];
        lemma_text_lt_irreflexive(a[i]);
        assert(j >= i) by {
            if j < i {
                assert(text_lt(a[j], a[i]));
            }
        }
        assert(b.contains(b[i]));
        assert(a.to_set().contains(b[i]));
        let k = choose|k: int| 0 <= k < a.len() && a[k] == b[i];
        lemma_text_lt_irreflexive(b[i]);
        assert(k >= i) by {
            if k < i {
                assert(text_lt(b[k], b[i]));
            }
        }
        if j > i {
            assert(text_lt(b[i], b[j]));
            if k > i {
                assert(text_lt(a[i], a[k]));
                lemma_text_lt_transitive(a[i], b[i], a[i]);
            }
        }
        assert(a[i] == b[i]);
        assert(a.take(upto) =~= b.take(upto));
    }
}

/// There is one order in which the actions of a repair are listed.
pub proof fn law_repair_has_one_order(
    a: Seq<Map<Seq<char>, Seq<char>>>,
    b: Seq<Map<Seq<char>, Seq<char>>>,
    wanted: Map<Seq<char>, Map<Seq<char>, Seq<char>>>,
)
    requires
        in_name_order(a, wanted),
        in_name_order(b, wanted),
    ensures
        a == b,
{
    let p = choose|names: Seq<Seq<char>>| #[trigger]
        strictly_ascending(names) && names.to_set() == wanted.dom() && a == names.map_values(
            |name: Seq<char>| wanted[name],
        );
    let q = choose|names: Seq<Seq<char>>| #[trigger]
        strictly_ascending(names) && names.to_set() == wanted.dom() && b == names.map_values(
            |name: Seq<char>| wanted[name],
        );
    lemma_ascending_names_agree(p, q, p.len() as int);
    lemma_ascending_names_agree(q, p, q.len() as int);
    assert(p.take(p.len() as int) =~= p);
    assert(q.take(q.len() as int) =~= q);
}

} // verus!
