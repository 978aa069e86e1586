//! What a plan holds, said of the listed files themselves.

use vstd::prelude::*;

use crate::collect::{lemma_present_ok_places, present_ok};
use crate::dialect::PartitionDialect;
use crate::error::ErrorView;
use crate::files::{all_files, in_hidden_directory, is_partition_segment, planned_file};
use crate::files::{planned_files, settled_status, sorted_splits};
use crate::model::{field_views, Table};
use crate::order::{ascending, law_pair_order, law_sorting_keeps_everything, law_sorting_orders};
use crate::order::{lemma_text_lt_irreflexive, picked, text_lt};
use crate::partition::{named_segments, relative_to, row_in_path, segment_value};
use crate::path::{is_hidden_name, lies_in, path_below};
use crate::path_laws::{lemma_repeated_slash, lemma_repeated_slash_pieces};
use crate::predicate::PartitionFilter;
use crate::round_trip::{escapes_cleanly, lemma_filter_all, lemma_joined_ends};
use crate::round_trip::{lemma_relative_to_below, lemma_segment_value, lemma_split_joined};
use crate::scan::{values_only, ListedFile, RootListing};
use crate::split::{file_keys, splits_of, total_file_bytes, DataFileMeta, DataSplit, PlannedFile};
use crate::text::{ascii_lower, first_position, has_prefix, has_suffix, joined};
use crate::text::{lemma_first_position, lemma_last_position, lemma_split_on_whole, split_on, texts};
use crate::text::{trim_end, trim_start};

verus! {

/// Whether a place in the listings is that of a file: the file at `place.1` of the directory at
/// `place.0`.
pub open spec fn is_listed_at(listings: Seq<RootListing>, place: (int, int)) -> bool {
    0 <= place.0 < listings.len() && listings[place.0].files is Ok && 0 <= place.1
        < listings[place.0].files->Ok_0@.len()
}

/// What becomes of the file at a place in the listings.
pub open spec fn outcome_at<D: PartitionDialect>(
    dialect: D,
    table: Table,
    filter: Option<PartitionFilter>,
    table_path: Seq<char>,
    format_extension: Seq<char>,
    listings: Seq<RootListing>,
    place: (int, int),
) -> Result<Option<PlannedFile>, ErrorView> {
    planned_file(
        dialect,
        table,
        filter,
        table_path,
        format_extension,
        listings[place.0].root.partition@,
        listings[place.0].files->Ok_0@[place.1],
    )
}

/// Whether `origins` are the places of all planned files, one place for each file.
pub open spec fn are_origins<D: PartitionDialect>(
    dialect: D,
    table: Table,
    filter: Option<PartitionFilter>,
    table_path: Seq<char>,
    format_extension: Seq<char>,
    listings: Seq<RootListing>,
    files: Seq<PlannedFile>,
    origins: Seq<(int, int)>,
) -> bool {
    &&& origins.len() == files.len()
    &&& origins.no_duplicates()
    &&& forall|n: int|
        0 <= n < origins.len() ==> is_listed_at(listings, #[trigger] origins[n]) && outcome_at(
            dialect,
            table,
            filter,
            table_path,
            format_extension,
            listings,
            origins[n],
        ) == Ok::<Option<PlannedFile>, ErrorView>(Some(files[n]))
    &&& forall|place: (int, int)|
        is_listed_at(listings, place) && !(#[trigger] origins.contains(place)) ==> outcome_at(
            dialect,
            table,
            filter,
            table_path,
            format_extension,
            listings,
            place,
        ) == Ok::<Option<PlannedFile>, ErrorView>(None)
}

/// The files of a plan come from all listed directories: every listed file that is planned is
/// there, once, and no other.
pub proof fn law_files_come_from_all_listings<D: PartitionDialect>(
    dialect: D,
    table: Table,
    filter: Option<PartitionFilter>,
    table_path: Seq<char>,
    format_extension: Seq<char>,
    listings: Seq<RootListing>,
    files: Seq<PlannedFile>,
) -> (origins: Seq<(int, int)>)
    requires
        all_files(dialect, table, filter, table_path, format_extension, listings) == Ok::<
            Seq<PlannedFile>,
            ErrorView,
        >(files),
    ensures
        forall|i: int| 0 <= i < listings.len() ==> (#[trigger] listings[i]).files is Ok,
        are_origins(
            dialect,
            table,
            filter,
            table_path,
            format_extension,
            listings,
            files,
            origins,
        ),
    decreases listings.len(),
{
    if listings.len() == 0 {
        Seq::empty()
    } else {
        let front = listings.drop_last();
        let at = listings.len() - 1;
        let last = listings[at];
        let before = all_files(
            dialect,
            table,
            filter,
            table_path,
            format_extension,
            front,
        )->Ok_0;
        let first = law_files_come_from_all_listings(
            dialect,
            table,
            filter,
            table_path,
            format_extension,
            front,
            before,
        );
        let listed = last.files->Ok_0@;
        let outcomes = planned_files(
            dialect,
            table,
            filter,
            table_path,
            format_extension,
            last.root.partition@,
            listed,
        );
        let added = present_ok(outcomes)->Ok_0;
        let indices = lemma_present_ok_places(outcomes, added);
        let second = indices.map_values(|k: int| (at, k));
        let origins = first + second;
        assert(files == before + added);
        assert forall|i: int| 0 <= i < listings.len() implies (#[trigger] listings[i]).files
            is Ok by {
            if i < at {
                assert(front[i] == listings[i]);
            }
        }
        assert forall|n: int| 0 <= n < origins.len() implies is_listed_at(
            listings,
            #[trigger] origins[n],
        ) && outcome_at(
            dialect,
            table,
            filter,
            table_path,
            format_extension,
            listings,
            origins[n],
        ) == Ok::<Option<PlannedFile>, ErrorView>(Some(files[n])) by {
            if n < first.len() {
                assert(origins[n] == first[n]);
                assert(is_listed_at(front, first[n]));
                assert(front[first[n].0] == listings[first[n].0]);
            } else {
                let m = n - first.len();
                assert(origins[n] == second[m]);
                assert(0 <= indices[m] < outcomes.len());
                assert(outcomes[indices[m]] == Ok::<Option<PlannedFile>, ErrorView>(
                    Some(added[m]),
                ));
            }
        }
        assert(origins.no_duplicates()) by {
            assert forall|m: int, n: int| 0 <= m < n < origins.len() implies origins[m]
                != origins[n] by {
                if n < first.len() {
                    assert(first[m] != first[n]);
                } else if m < first.len() {
                    assert(is_listed_at(front, first[m]));
                } else {
                    assert(indices[m - first.len()] < indices[n - first.len()]);
                }
            }
        }
        assert forall|place: (int, int)|
            is_listed_at(listings, place) && !(#[trigger] origins.contains(
                place,
            )) implies outcome_at(
            dialect,
            table,
            filter,
            table_path,
            format_extension,
            listings,
            place,
        ) == Ok::<Option<PlannedFile>, ErrorView>(None) by {
            if place.0 < at {
                assert(front[place.0] == listings[place.0]);
                assert(is_listed_at(front, place));
                if first.contains(place) {
                    let n = choose|n: int| 0 <= n < first.len() && first[n] == place;
                    assert(origins[n] == place);
                }
            } else {
                if indices.contains(place.1) {
                    let m = choose|m: int| 0 <= m < indices.len() && indices[m] == place.1;
                    assert(second[m] == place);
                    assert(origins[first.len() + m] == place);
                }
                assert(outcomes[place.1] == Ok::<Option<PlannedFile>, ErrorView>(None));
            }
        }
        origins
    }
}

/// A plan has a split for every listed file that is planned, from whichever of the directories,
/// one for each, and no other split.
pub proof fn law_plan_has_a_split_for_every_file<D: PartitionDialect>(
    dialect: D,
    table: Table,
    filter: Option<PartitionFilter>,
    table_path: Seq<char>,
    format_extension: Seq<char>,
    listings: Seq<RootListing>,
    files: Seq<PlannedFile>,
    splits: Seq<DataSplit>,
) -> (origins: Seq<(int, int)>)
    requires
        all_files(dialect, table, filter, table_path, format_extension, listings) == Ok::<
            Seq<PlannedFile>,
            ErrorView,
        >(files),
        sorted_splits(splits, files),
    ensures
        origins.len() == splits.len(),
        origins.no_duplicates(),
        forall|n: int|
            0 <= n < splits.len() ==> is_listed_at(listings, #[trigger] origins[n]) && (outcome_at(
                dialect,
                table,
                filter,
                table_path,
                format_extension,
                listings,
                origins[n],
            ) matches Ok(Some(planned)) && splits[n].is_of(planned)),
        forall|place: (int, int)| #[trigger]
            is_listed_at(listings, place) && !(outcome_at(
                dialect,
                table,
                filter,
                table_path,
                format_extension,
                listings,
                place,
            ) == Ok::<Option<PlannedFile>, ErrorView>(None)) ==> origins.contains(place),
{
    let unsorted = law_files_come_from_all_listings(
        dialect,
        table,
        filter,
        table_path,
        format_extension,
        listings,
        files,
    );
    let keys = file_keys(files);
    let positions = choose|positions: Seq<int>|
        #[trigger] ascending(positions, keys) && splits_of(splits, picked(files, positions));
    law_sorting_keeps_everything(positions, keys);
    let origins = picked(unsorted, positions);
    assert forall|n: int| 0 <= n < splits.len() implies is_listed_at(
        listings,
        #[trigger] origins[n],
    ) && (outcome_at(
        dialect,
        table,
        filter,
        table_path,
        format_extension,
        listings,
        origins[n],
    ) matches Ok(Some(planned)) && splits[n].is_of(planned)) by {
        assert(0 <= positions[n] < files.len());
        assert(origins[n] == unsorted[positions[n]]);
        assert(splits[n].is_of(picked(files, positions)[n]));
    }
    assert(origins.no_duplicates()) by {
        assert forall|m: int, n: int| 0 <= m < n < origins.len() implies origins[m]
            != origins[n] by {
            assert(positions[m] != positions[n]);
            assert(0 <= positions[m] < files.len());
            assert(0 <= positions[n] < files.len());
            assert(unsorted[positions[m]] != unsorted[positions[n]]);
        }
    }
    assert forall|place: (int, int)| #[trigger]
        is_listed_at(listings, place) && !(outcome_at(
            dialect,
            table,
            filter,
            table_path,
            format_extension,
            listings,
            place,
        ) == Ok::<Option<PlannedFile>, ErrorView>(None)) implies origins.contains(place) by {
        assert(unsorted.contains(place));
        let k = choose|k: int| 0 <= k < unsorted.len() && unsorted[k] == place;
        assert(positions.contains(k));
        let n = choose|n: int| 0 <= n < positions.len() && positions[n] == k;
        assert(origins[n] == place);
    }
    origins
}

proof fn lemma_first_error<T, E>(outcomes: Seq<Result<Option<T>, E>>) -> (at: int)
    requires
        present_ok(outcomes) is Err,
    ensures
        0 <= at < outcomes.len(),
        outcomes[at] matches Err(error) && present_ok(outcomes) == Err::<Seq<T>, E>(error),
        forall|k: int| 0 <= k < at ==> (#[trigger] outcomes[k]) is Ok,
    decreases outcomes.len(),
{
    let front = outcomes.drop_last();
    if present_ok(front) is Err {
        let at = lemma_first_error(front);
        assert forall|k: int| 0 <= k < at implies (#[trigger] outcomes[k]) is Ok by {
            assert(front[k] == outcomes[k]);
        }
        at
    } else {
        let values = present_ok(front)->Ok_0;
        let indices = lemma_present_ok_places(front, values);
        assert forall|k: int| 0 <= k < outcomes.len() - 1 implies (#[trigger] outcomes[k]) is Ok by {
            assert(front[k] == outcomes[k]);
            if indices.contains(k) {
                let j = choose|j: int| 0 <= j < indices.len() && indices[j] == k;
                assert(front[indices[j]] is Ok);
            }
        }
        outcomes.len() - 1
    }
}

/// A plan fails with the first failure, and with no other: that of a directory that could not be
/// listed, or that of a file, whichever comes first in the order of the listings.
pub proof fn law_plan_fails_with_the_first_failure<D: PartitionDialect>(
    dialect: D,
    table: Table,
    filter: Option<PartitionFilter>,
    table_path: Seq<char>,
    format_extension: Seq<char>,
    listings: Seq<RootListing>,
    error: ErrorView,
) -> (place: (int, int))
    requires
        all_files(dialect, table, filter, table_path, format_extension, listings) == Err::<
            Seq<PlannedFile>,
            ErrorView,
        >(error),
    ensures
        0 <= place.0 < listings.len(),
        match listings[place.0].files {
            Err(failed) => error == failed@,
            Ok(_) => is_listed_at(listings, place) && outcome_at(
                dialect,
                table,
                filter,
                table_path,
                format_extension,
                listings,
                place,
            ) == Err::<Option<PlannedFile>, ErrorView>(error),
        },
        forall|i: int| 0 <= i < place.0 ==> (#[trigger] listings[i]).files is Ok,
        forall|other: (int, int)| #[trigger]
            is_listed_at(listings, other) && (other.0 < place.0 || other.0 == place.0 && other.1
                < place.1) ==> outcome_at(
                dialect,
                table,
                filter,
                table_path,
                format_extension,
                listings,
                other,
            ) is Ok,
    decreases listings.len(),
{
    let front = listings.drop_last();
    let at = listings.len() - 1;
    let before = all_files(dialect, table, filter, table_path, format_extension, front);
    if before is Err {
        let place = law_plan_fails_with_the_first_failure(
            dialect,
            table,
            filter,
            table_path,
            format_extension,
            front,
            error,
        );
        assert(front[place.0] == listings[place.0]);
        assert forall|i: int| 0 <= i < place.0 implies (#[trigger] listings[i]).files is Ok by {
            assert(front[i] == listings[i]);
        }
        assert forall|other: (int, int)| #[trigger]
            is_listed_at(listings, other) && (other.0 < place.0 || other.0 == place.0 && other.1
                < place.1) implies outcome_at(
            dialect,
            table,
            filter,
            table_path,
            format_extension,
            listings,
            other,
        ) is Ok by {
            assert(front[other.0] == listings[other.0]);
            assert(is_listed_at(front, other));
        }
        place
    } else {
        let last = listings[at];
        let origins = law_files_come_from_all_listings(
            dialect,
            table,
            filter,
            table_path,
            format_extension,
            front,
            before->Ok_0,
        );
        assert forall|i: int| 0 <= i < at implies (#[trigger] listings[i]).files is Ok by {
            assert(front[i] == listings[i]);
        }
        assert forall|other: (int, int)| #[trigger]
            is_listed_at(listings, other) && other.0 < at implies outcome_at(
            dialect,
            table,
            filter,
            table_path,
            format_extension,
            listings,
            other,
        ) is Ok by {
            assert(front[other.0] == listings[other.0]);
            assert(is_listed_at(front, other));
            if origins.contains(other) {
                let n = choose|n: int| 0 <= n < origins.len() && origins[n] == other;
                assert(is_listed_at(front, origins[n]));
            }
        }
        if last.files is Err {
            (at, 0int)
        } else {
            let outcomes = planned_files(
                dialect,
                table,
                filter,
                table_path,
                format_extension,
                last.root.partition@,
                last.files->Ok_0@,
            );
            let k = lemma_first_error(outcomes);
            assert forall|other: (int, int)| #[trigger]
                is_listed_at(listings, other) && other.0 == at && other.1 < k implies outcome_at(
                dialect,
                table,
                filter,
                table_path,
                format_extension,
                listings,
                other,
            ) is Ok by {
                assert(outcomes[other.1] is Ok);
            }
            (at, k)
        }
    }
}

/// Whether a character of an extension, which is in lower case, is that of a name.
pub open spec fn is_lower_of(lower: char, c: char) -> bool {
    if 'A' <= c <= 'Z' {
        lower as int == c as int + 32
    } else {
        lower == c
    }
}

/// Whether a name ends with an extension, upper-case ASCII letters of the name taken as lower-case
/// ones.
pub open spec fn ends_in(name: Seq<char>, extension: Seq<char>) -> bool {
    extension.len() <= name.len() && forall|i: int|
        0 <= i < extension.len() ==> is_lower_of(
            #[trigger] extension[i],
            name[name.len() - extension.len() + i],
        )
}

proof fn lemma_lower_char(c: char)
    ensures
        'A' <= c <= 'Z' ==> crate::text::ascii_lower_char(c) as int == c as int + 32,
{
}

proof fn lemma_ends_in(name: Seq<char>, extension: Seq<char>)
    ensures
        has_suffix(ascii_lower(name), extension) <==> ends_in(name, extension),
{
    let lowered = ascii_lower(name);
    assert forall|k: int|
        0 <= k < name.len() && 'A' <= #[trigger] name[k] <= 'Z' implies lowered[k] as int
        == name[k] as int + 32 by {
        lemma_lower_char(name[k]);
    }
    if extension.len() <= name.len() {
        let at = name.len() - extension.len();
        let end = lowered.skip(at);
        if ends_in(name, extension) {
            assert forall|i: int| 0 <= i < extension.len() implies end[i] == extension[i] by {
                assert(is_lower_of(extension[i], name[at + i]));
                assert(end[i] == lowered[at + i]);
            }
            assert(end =~= extension);
        }
        if has_suffix(lowered, extension) {
            assert forall|i: int| 0 <= i < extension.len() implies is_lower_of(
                #[trigger] extension[i],
                name[at + i],
            ) by {
                assert(end[i] == lowered[at + i]);
                assert(end[i] == extension[i]);
                assert('A' <= name[at + i] <= 'Z' ==> lowered[at + i] as int == name[at + i] as int
                    + 32);
            }
        }
    }
}

/// Whether a file is planned with a partition: the one that its directory is known to belong to,
/// where it has a value for each partition column; or else the one that the path of its directory
/// tells, where the scan asks for it. In a table without partition columns it has no values.
pub open spec fn is_partition_of<D: PartitionDialect>(
    dialect: D,
    table: Table,
    filter: Option<PartitionFilter>,
    table_path: Seq<char>,
    parent: Seq<char>,
    known_partition: Seq<Option<Seq<char>>>,
    row: Seq<Option<Seq<char>>>,
) -> bool {
    let columns = table.schema.partition_fields@.len();
    ||| columns == 0 && row.len() == 0
    ||| columns > 0 && known_partition.len() == columns && row == known_partition
    ||| columns > 0 && known_partition.len() != columns && row_in_path(
        dialect,
        table_path,
        parent,
        field_views(table.schema.partition_fields@),
        texts(table.schema.partition_keys@),
        table.options.partition_default_name@,
        table.options.only_value_in_path,
    ) == Some(row) && (filter is None || dialect.entry_matches(filter->0, row) == Ok::<
        bool,
        ErrorView,
    >(true))
}

/// The size that a file is planned with: the listed one, or, where the listing gave none, the one
/// that the storage says of the file alone.
pub open spec fn is_size_of(file: ListedFile, size: u64) -> bool {
    if file.status.size != 0 {
        size == file.status.size
    } else {
        file.current matches Ok(status) && size == status.size
    }
}

/// Every data file is planned. It is one where its name is not empty, starts with neither a dot nor
/// an underscore and ends with the extension of the format, whatever stands between, and where it
/// lies in no hidden directory; it is planned wherever the scan asks for its partition.
pub proof fn law_every_data_file_is_planned<D: PartitionDialect>(
    dialect: D,
    table: Table,
    filter: Option<PartitionFilter>,
    table_path: Seq<char>,
    format_extension: Seq<char>,
    known_partition: Seq<Option<Seq<char>>>,
    file: ListedFile,
    parent: Seq<char>,
    name: Seq<char>,
    size: u64,
    row: Seq<Option<Seq<char>>>,
)
    requires
        file.status.path@ == parent + seq!['/'] + name,
        name.len() > 0,
        forall|i: int| 0 <= i < name.len() ==> name[i] != '/',
        name[0] != '.',
        name[0] != '_',
        ends_in(name, format_extension),
        !in_hidden_directory(
            dialect,
            table_path,
            parent,
            texts(table.schema.partition_keys@),
            values_only(table),
        ),
        is_size_of(file, size),
        size <= i64::MAX,
        is_partition_of(dialect, table, filter, table_path, parent, known_partition, row),
    ensures
        planned_file(
            dialect,
            table,
            filter,
            table_path,
            format_extension,
            known_partition,
            file,
        ) matches Ok(Some(planned)) && planned.partition == row && planned.bucket_path == parent
            && planned.file_name == name && planned.file_size == size && planned.schema_id
            == table.schema.id,
{
    let path = file.status.path@;
    assert(path.last() == name[name.len() - 1]);
    assert(trim_end(path, '/') == path);
    let slash = parent.len() as int;
    assert(path[slash] == '/');
    assert forall|i: int| slash < i < path.len() implies path[i] != '/' by {
        assert(path[i] == name[i - slash - 1]);
    }
    lemma_last_position(path, '/');
    assert(path.take(slash) =~= parent);
    assert(path.skip(slash + 1) =~= name);
    lemma_ends_in(name, format_extension);
    if row.len() == 0 {
        assert(row =~= Seq::empty());
    }
}

/// A data file fails the plan where its size does not fit, and where the storage has to be asked
/// for it and fails.
pub proof fn law_data_files_fail_the_plan<D: PartitionDialect>(
    dialect: D,
    table: Table,
    filter: Option<PartitionFilter>,
    table_path: Seq<char>,
    format_extension: Seq<char>,
    known_partition: Seq<Option<Seq<char>>>,
    file: ListedFile,
    parent: Seq<char>,
    name: Seq<char>,
)
    requires
        file.status.path@ == parent + seq!['/'] + name,
        name.len() > 0,
        forall|i: int| 0 <= i < name.len() ==> name[i] != '/',
        name[0] != '.',
        name[0] != '_',
        ends_in(name, format_extension),
        !in_hidden_directory(
            dialect,
            table_path,
            parent,
            texts(table.schema.partition_keys@),
            values_only(table),
        ),
    ensures
        ({
            let outcome = planned_file(
                dialect,
                table,
                filter,
                table_path,
                format_extension,
                known_partition,
                file,
            );
            &&& (forall|size: u64| #[trigger]
                is_size_of(file, size) && size > i64::MAX ==> (outcome matches Err(
                    ErrorView::DataInvalid { .. },
                )))
            &&& (file.status.size == 0 && file.current is Err ==> outcome == Err::<
                Option<PlannedFile>,
                ErrorView,
            >(file.current->Err_0@))
            &&& (outcome is Ok ==> exists|size: u64| #[trigger]
                is_size_of(file, size) && size <= i64::MAX)
        }),
{
    let path = file.status.path@;
    assert(path.last() == name[name.len() - 1]);
    assert(trim_end(path, '/') == path);
    let slash = parent.len() as int;
    assert(path[slash] == '/');
    assert forall|i: int| slash < i < path.len() implies path[i] != '/' by {
        assert(path[i] == name[i - slash - 1]);
    }
    lemma_last_position(path, '/');
    assert(path.take(slash) =~= parent);
    assert(path.skip(slash + 1) =~= name);
    lemma_ends_in(name, format_extension);
    if let Ok(settled) = settled_status(file) {
        assert(is_size_of(file, settled.1));
    }
}

/// Nothing but data files is planned.
pub proof fn law_nothing_else_is_planned<D: PartitionDialect>(
    dialect: D,
    table: Table,
    filter: Option<PartitionFilter>,
    table_path: Seq<char>,
    format_extension: Seq<char>,
    known_partition: Seq<Option<Seq<char>>>,
    file: ListedFile,
    planned: PlannedFile,
)
    requires
        planned_file(
            dialect,
            table,
            filter,
            table_path,
            format_extension,
            known_partition,
            file,
        ) == Ok::<Option<PlannedFile>, ErrorView>(Some(planned)),
    ensures
        trim_end(file.status.path@, '/') == planned.bucket_path + seq!['/'] + planned.file_name,
        planned.file_name.len() > 0,
        !planned.file_name.contains('/'),
        planned.file_name[0] != '.',
        planned.file_name[0] != '_',
        ends_in(planned.file_name, format_extension),
        !in_hidden_directory(
            dialect,
            table_path,
            planned.bucket_path,
            texts(table.schema.partition_keys@),
            values_only(table),
        ),
        planned.file_size >= 0,
        is_size_of(file, planned.file_size as u64),
        planned.schema_id == table.schema.id,
        is_partition_of(
            dialect,
            table,
            filter,
            table_path,
            planned.bucket_path,
            known_partition,
            planned.partition,
        ),
{
    crate::path::law_split_path_is_the_path(file.status.path@);
    lemma_ends_in(planned.file_name, format_extension);
}

/// The splits of a plan come in the order of their directories, and in one directory in the order
/// of the names of their files.
pub proof fn law_plan_is_in_order(
    splits: Seq<DataSplit>,
    files: Seq<PlannedFile>,
    i: int,
    j: int,
)
    requires
        sorted_splits(splits, files),
        0 <= i < j < splits.len(),
    ensures
        splits[i].data_files@.len() == 1,
        !text_lt(splits[j].bucket_path@, splits[i].bucket_path@),
        splits[i].bucket_path@ == splits[j].bucket_path@ ==> !text_lt(
            splits[j].data_files@[0].file_name@,
            splits[i].data_files@[0].file_name@,
        ),
{
    let keys = file_keys(files);
    let positions = choose|positions: Seq<int>|
        #[trigger] ascending(positions, keys) && splits_of(splits, picked(files, positions));
    assert(splits[i].is_of(picked(files, positions)[i]));
    assert(splits[j].is_of(picked(files, positions)[j]));
    law_sorting_orders(files, positions, keys, i, j);
    assert(0 <= positions[j] < files.len());
    law_pair_order(keys[positions[j]], keys[positions[i]]);
    lemma_text_lt_irreflexive(splits[i].bucket_path@);
}

/// The segments of a directory below a table directory.
proof fn lemma_directory_segments(table_path: Seq<char>, segments: Seq<Seq<char>>)
    requires
        table_path.len() == 0 || table_path.last() != '/',
        segments.len() > 0,
        forall|i: int|
            0 <= i < segments.len() ==> (#[trigger] segments[i]).len() > 0
                && !segments[i].contains('/'),
    ensures
        ({
            let directory = table_path + seq!['/'] + joined(segments, "/"@);
            &&& relative_to(table_path, directory) == Some(joined(segments, "/"@))
            &&& named_segments(joined(segments, "/"@)) == segments
            &&& lies_in(trim_end(directory, '/'), trim_end(table_path, '/'))
        }),
{
    let whole = joined(segments, "/"@);
    let directory = table_path + seq!['/'] + whole;
    lemma_joined_ends(segments);
    lemma_split_joined(segments);
    lemma_filter_all(segments);
    assert(trim_end(table_path, '/') == table_path);
    assert(trim_start(whole, '/') == whole);
    assert(trim_end(whole, '/') == whole);
    assert(path_below(table_path, whole) == directory);
    lemma_relative_to_below(table_path, whole);
    assert(directory.take((table_path.len() + 1) as int) =~= table_path + seq!['/']);
}

/// A directory is not hidden where no segment below the table directory starts with a dot or an
/// underscore.
pub proof fn law_plain_directories_are_not_hidden<D: PartitionDialect>(
    dialect: D,
    table_path: Seq<char>,
    segments: Seq<Seq<char>>,
    keys: Seq<Seq<char>>,
    only_value_in_path: bool,
)
    requires
        table_path.len() == 0 || table_path.last() != '/',
        forall|i: int|
            0 <= i < segments.len() ==> (#[trigger] segments[i]).len() > 0
                && !segments[i].contains('/') && segments[i][0] != '.' && segments[i][0] != '_',
    ensures
        segments.len() > 0 ==> !in_hidden_directory(
            dialect,
            table_path,
            table_path + seq!['/'] + joined(segments, "/"@),
            keys,
            only_value_in_path,
        ),
        !in_hidden_directory(dialect, table_path, table_path, keys, only_value_in_path),
{
    if segments.len() > 0 {
        lemma_directory_segments(table_path, segments);
    }
    let none = Seq::<char>::empty();
    assert(trim_end(table_path, '/') == table_path);
    assert(table_path.take(table_path.len() as int) =~= table_path);
    assert(table_path.skip(table_path.len() as int) =~= none);
    assert(relative_to(table_path, table_path) == Some(none));
    lemma_split_on_whole(none, '/');
    let named = named_segments(none);
    assert(named =~= Seq::empty()) by {
        reveal(Seq::filter);
        assert(split_on(none, '/') =~= seq![none]);
        assert(split_on(none, '/').drop_last() =~= Seq::<Seq<char>>::empty());
        let keep = |s: Seq<char>| s.len() > 0;
        assert(split_on(none, '/').drop_last().filter(keep) =~= Seq::empty());
        assert(!keep(split_on(none, '/').last()));
    }
}

/// A directory is hidden where a segment below the table directory starts with a dot or an
/// underscore and cannot be one of a partition value: where values alone name directories, because
/// there are as many segments above it as partition columns; otherwise because it has no equals
/// sign.
pub proof fn law_staging_directories_are_hidden<D: PartitionDialect>(
    dialect: D,
    table_path: Seq<char>,
    segments: Seq<Seq<char>>,
    keys: Seq<Seq<char>>,
    only_value_in_path: bool,
    at: int,
)
    requires
        table_path.len() == 0 || table_path.last() != '/',
        forall|i: int|
            0 <= i < segments.len() ==> (#[trigger] segments[i]).len() > 0
                && !segments[i].contains('/'),
        0 <= at < segments.len(),
        segments[at][0] == '.' || segments[at][0] == '_',
        if only_value_in_path {
            at >= keys.len()
        } else {
            !segments[at].contains('=')
        },
    ensures
        in_hidden_directory(
            dialect,
            table_path,
            table_path + seq!['/'] + joined(segments, "/"@),
            keys,
            only_value_in_path,
        ),
{
    lemma_directory_segments(table_path, segments);
    let segment = segments[at];
    if !only_value_in_path {
        assert forall|k: int| 0 <= k < keys.len() implies segment_value(
            dialect,
            segment,
            #[trigger] keys[k],
        ) is None by {
            lemma_first_position(segment, '=');
            let p = first_position(segment, '=') as int;
            if p < segment.len() {
                assert(segment.contains(segment[p]));
            }
        }
    }
    let directory = table_path + seq!['/'] + joined(segments, "/"@);
    assert(named_segments(relative_to(table_path, directory)->0)[at] == segment);
}

/// The directory of a partition value is not hidden, whatever the value is: where values alone name
/// directories, the first segments are such; otherwise a segment is one that names a key and has
/// an escaped value behind the equals sign.
pub proof fn law_partition_values_do_not_hide<D: PartitionDialect>(
    dialect: D,
    table_path: Seq<char>,
    segments: Seq<Seq<char>>,
    keys: Seq<Seq<char>>,
    only_value_in_path: bool,
)
    requires
        escapes_cleanly(dialect),
        table_path.len() == 0 || table_path.last() != '/',
        segments.len() > 0,
        forall|i: int|
            0 <= i < segments.len() ==> (#[trigger] segments[i]).len() > 0
                && !segments[i].contains('/') && (segments[i][0] != '.' && segments[i][0] != '_' || (
            if only_value_in_path {
                i < keys.len()
            } else {
                exists|k: int, value: Seq<char>|
                    #![trigger keys[k], dialect.escaped(value)]
                    0 <= k < keys.len() && segments[i] == dialect.escaped(keys[k]) + seq!['=']
                        + dialect.escaped(value)
            })),
    ensures
        !in_hidden_directory(
            dialect,
            table_path,
            table_path + seq!['/'] + joined(segments, "/"@),
            keys,
            only_value_in_path,
        ),
{
    lemma_directory_segments(table_path, segments);
    assert forall|i: int| 0 <= i < segments.len() && is_hidden_name(#[trigger] segments[i]) implies
        is_partition_segment(dialect, segments[i], i, keys, only_value_in_path) by {
        if !only_value_in_path {
            let (k, value) = choose|k: int, value: Seq<char>|
                #![trigger keys[k], dialect.escaped(value)]
                0 <= k < keys.len() && segments[i] == dialect.escaped(keys[k]) + seq!['=']
                    + dialect.escaped(value);
            lemma_segment_value(dialect, keys[k], value, keys[k]);
            assert(segment_value(dialect, segments[i], keys[k]) is Some);
        }
    }
}

/// A directory that is neither the table directory nor below it is not hidden.
pub proof fn law_other_directories_are_not_hidden<D: PartitionDialect>(
    dialect: D,
    table_path: Seq<char>,
    directory: Seq<char>,
    keys: Seq<Seq<char>>,
    only_value_in_path: bool,
)
    requires
        table_path.len() == 0 || table_path.last() != '/',
        directory.len() == 0 || directory.last() != '/',
        directory != table_path,
        forall|rest: Seq<char>| directory != #[trigger] (table_path + seq!['/'] + rest),
    ensures
        !in_hidden_directory(dialect, table_path, directory, keys, only_value_in_path),
{
    assert(trim_end(table_path, '/') == table_path);
    assert(trim_end(directory, '/') == directory);
    let below = table_path + seq!['/'];
    if has_prefix(directory, below) {
        let rest = directory.skip(below.len() as int);
        assert(directory =~= table_path + seq!['/'] + rest);
    }
}

/// A file is planned with what the listing said of it, or, where the listing gave no size, with
/// what the storage says of the file alone.
pub proof fn law_listed_sizes_count(file: ListedFile)
    ensures
        file.status.size > 0 ==> settled_status(file) == Ok::<(Seq<char>, u64), ErrorView>(
            (file.status.path@, file.status.size),
        ),
        file.status.size == 0 ==> (file.current matches Ok(status) ==> settled_status(file) == Ok::<
            (Seq<char>, u64),
            ErrorView,
        >((status.path@, status.size))),
        file.status.size == 0 ==> (file.current matches Err(error) ==> settled_status(file)
            == Err::<(Seq<char>, u64), ErrorView>(error@)),
{
}

/// What is known of a planned file is its name, its size and its schema, and that none of its rows
/// is deleted; the number of its rows is not known, and there are no statistics.
pub proof fn law_a_plain_file_says_nothing_more(
    meta: DataFileMeta,
    file_name: Seq<char>,
    file_size: i64,
    schema_id: i64,
)
    requires
        meta.is_plain(file_name, file_size, schema_id),
    ensures
        meta.file_name@ == file_name,
        meta.file_size == file_size,
        meta.schema_id == schema_id,
        meta.row_count is None,
        meta.delete_row_count == Some(0i64),
        meta.min_key@.len() == 0,
        meta.max_key@.len() == 0,
        meta.key_stats.min_values@.len() == 0,
        meta.key_stats.max_values@.len() == 0,
        meta.key_stats.null_counts@.len() == 0,
        meta.value_stats.min_values@.len() == 0,
        meta.value_stats.max_values@.len() == 0,
        meta.value_stats.null_counts@.len() == 0,
        meta.min_sequence_number == 0,
        meta.max_sequence_number == 0,
        meta.level == 0,
        meta.extra_files@.len() == 0,
        meta.creation_time is None,
        meta.embedded_index is None,
        meta.file_source is None,
        meta.value_stats_cols is None,
        meta.external_path is None,
        meta.first_row_id is None,
        meta.write_cols is None,
        meta.column_max_sequence_numbers is None,
{
}

/// The split of a file holds that file alone, with its directory and its partition.
pub proof fn law_a_split_holds_its_file(split: DataSplit, file: PlannedFile)
    requires
        split.is_of(file),
    ensures
        split.data_files@.len() == 1,
        split.data_files@[0].file_name@ == file.file_name,
        split.data_files@[0].file_size == file.file_size,
        split.data_files@[0].schema_id == file.schema_id,
        split.data_files@[0].row_count is None,
        split.bucket_path@ == file.bucket_path,
        split.partition@ == file.partition,
        split.raw_convertible,
        split.snapshot_id == 0,
        split.bucket == 0,
        split.total_buckets == 1,
{
}

/// The bytes of two plans together are those of the one and those of the other, and the bytes of
/// one split are those of its file.
pub proof fn law_bytes_add_up(a: Seq<DataSplit>, b: Seq<DataSplit>, split: DataSplit)
    ensures
        total_file_bytes(a + b) == total_file_bytes(a) + total_file_bytes(b),
        total_file_bytes(seq![split]) == split.data_files@[0].file_size,
        total_file_bytes(Seq::empty()) == 0,
    decreases b.len(),
{
    assert(seq![split].drop_last() =~= Seq::empty());
    assert(total_file_bytes(seq![split].drop_last()) == 0);
    if b.len() > 0 {
        law_bytes_add_up(a, b.drop_last(), split);
        assert((a + b).drop_last() =~= a + b.drop_last());
    } else {
        assert(a + b =~= a);
    }
}

/// A slash that is repeated below the table directory hides no directory, and shows none.
pub proof fn law_repeated_slashes_hide_nothing<D: PartitionDialect>(
    dialect: D,
    table_path: Seq<char>,
    before: Seq<char>,
    after: Seq<char>,
    keys: Seq<Seq<char>>,
    only_value_in_path: bool,
)
    ensures
        in_hidden_directory(
            dialect,
            table_path,
            trim_end(table_path, '/') + before + seq!['/', '/'] + after,
            keys,
            only_value_in_path,
        ) == in_hidden_directory(
            dialect,
            table_path,
            trim_end(table_path, '/') + before + seq!['/'] + after,
            keys,
            only_value_in_path,
        ),
{
    let table = trim_end(table_path, '/');
    let twice = table + before + seq!['/', '/'] + after;
    let once = table + before + seq!['/'] + after;
    let (a, b) = lemma_repeated_slash(table_path, before, after);
    if trim_end(twice, '/') == trim_end(once, '/') {
        assert(relative_to(table_path, twice) == relative_to(table_path, once));
    } else {
        let end = trim_end(after, '/');
        let x = table + before + seq!['/', '/'] + end;
        let y = table + before + seq!['/'] + end;
        let below = table + seq!['/'];
        assert(x.len() > table.len() && y.len() > table.len());
        assert(x[table.len() as int] == y[table.len() as int]);
        assert(x.take(below.len() as int) =~= y.take(below.len() as int));
        assert(lies_in(x, table) == lies_in(y, table));
        lemma_repeated_slash_pieces(a, b);
        let left = relative_to(table_path, twice)->0;
        let right = relative_to(table_path, once)->0;
        assert(named_segments(left) == named_segments(right));
        assert(in_hidden_directory(dialect, table_path, twice, keys, only_value_in_path)
            == in_hidden_directory(dialect, table_path, once, keys, only_value_in_path));
    }
}

} // verus!
