//! What errors say, and of what.

use vstd::prelude::*;

use crate::error::ErrorView;
use crate::format::mentions;
use crate::hive::unknown_column;
use crate::model::{DataTypeView, Table};
use crate::partition::{invalid_value, missing_column, unsupported_type};
use crate::scan::{custom_location, file_too_large, invalid_metadata, row_ranges_unsupported};

verus! {

proof fn lemma_mentioned(text: Seq<char>, before: Seq<char>, word: Seq<char>, after: Seq<char>)
    requires
        text =~= before + word + after,
    ensures
        mentions(text, word),
{
}

/// A partition column that a catalog partition lacks, or that is no column of the table, is named.
pub proof fn law_missing_columns_are_named(key: Seq<char>)
    ensures
        missing_column(key) is DataInvalid,
        missing_column(key)->source is None,
        mentions(missing_column(key).message(), seq!['\''] + key + seq!['\'']),
        unknown_column(key) is DataInvalid,
        unknown_column(key)->source is None,
        mentions(unknown_column(key).message(), seq!['\''] + key + seq!['\'']),
{
    let named = seq!['\''] + key + seq!['\''];
    reveal_strlit("Catalog partition is missing column '");
    reveal_strlit("'");
    lemma_mentioned(
        missing_column(key).message(),
        "Catalog partition is missing column '"@.drop_last(),
        named,
        Seq::empty(),
    );
    reveal_strlit("Partition column '");
    reveal_strlit("' is not a column of the table");
    lemma_mentioned(
        unknown_column(key).message(),
        "Partition column '"@.drop_last(),
        named,
        "' is not a column of the table"@.drop_first(),
    );
}

/// A value that is not one of its column is told, with the column and its type.
pub proof fn law_invalid_values_are_told(
    quoted_value: Seq<char>,
    key: Seq<char>,
    type_shown: Seq<char>,
)
    ensures
        invalid_value(quoted_value, key, type_shown) is DataInvalid,
        invalid_value(quoted_value, key, type_shown)->source is None,
        mentions(invalid_value(quoted_value, key, type_shown).message(), quoted_value),
        mentions(
            invalid_value(quoted_value, key, type_shown).message(),
            seq!['\''] + key + seq!['\''],
        ),
        mentions(invalid_value(quoted_value, key, type_shown).message(), type_shown),
{
    let message = invalid_value(quoted_value, key, type_shown).message();
    let head = "Invalid catalog partition value "@;
    let column = " for column '"@;
    let of_type = "' with type "@;
    reveal_strlit(" for column '");
    reveal_strlit("' with type ");
    lemma_mentioned(message, head, quoted_value, column + key + of_type + type_shown);
    lemma_mentioned(
        message,
        head + quoted_value + column.drop_last(),
        seq!['\''] + key + seq!['\''],
        of_type.drop_first() + type_shown,
    );
    lemma_mentioned(
        message,
        head + quoted_value + column + key + of_type,
        type_shown,
        Seq::empty(),
    );
}

/// A type that has no spelling in a path is named.
pub proof fn law_unsupported_types_are_named(data_type: DataTypeView)
    ensures
        unsupported_type(data_type) is Unsupported,
        mentions(
            unsupported_type(data_type).message(),
            seq!['\''] + data_type.name + seq!['\''],
        ),
{
    reveal_strlit("Format table partition path generation does not support type '");
    reveal_strlit("'");
    lemma_mentioned(
        unsupported_type(data_type).message(),
        "Format table partition path generation does not support type '"@.drop_last(),
        seq!['\''] + data_type.name + seq!['\''],
        Seq::empty(),
    );
}

/// Partitions of the catalog that a scan cannot take are told by the table, and why: what is wrong
/// with the specification, or that the partition has a location of its own.
pub proof fn law_partitions_that_are_refused(table: Table, source: ErrorView, path: Seq<char>)
    ensures
        invalid_metadata(table, source) is DataInvalid,
        invalid_metadata(table, source)->source == Some(Box::new(source)),
        mentions(invalid_metadata(table, source).message(), table.full_name@),
        custom_location(table, path) is Unsupported,
        mentions(custom_location(table, path).message(), table.full_name@),
        mentions(custom_location(table, path).message(), seq!['\''] + path + seq!['\'']),
        mentions(custom_location(table, path).message(), "custom location"@),
{
    lemma_mentioned(
        invalid_metadata(table, source).message(),
        "Catalog returned invalid partition metadata for Format Table "@,
        table.full_name@,
        Seq::empty(),
    );
    let message = custom_location(table, path).message();
    let of_table = "' of Format Table "@;
    let rest = " has a custom location, which a scan does not read"@;
    reveal_strlit("Partition '");
    reveal_strlit("' of Format Table ");
    reveal_strlit(" has a custom location, which a scan does not read");
    reveal_strlit("custom location");
    lemma_mentioned(message, "Partition '"@ + path + of_table, table.full_name@, rest);
    lemma_mentioned(
        message,
        "Partition '"@.drop_last(),
        seq!['\''] + path + seq!['\''],
        of_table.drop_first() + table.full_name@ + rest,
    );
    lemma_mentioned(
        message,
        "Partition '"@ + path + of_table + table.full_name@ + rest.take(7),
        "custom location"@,
        rest.skip(22),
    );
}

/// A file that is too large is named, and row ranges are refused by their name.
pub proof fn law_files_and_ranges_that_are_refused(path: Seq<char>)
    ensures
        file_too_large(path) is DataInvalid,
        file_too_large(path)->source is None,
        mentions(file_too_large(path).message(), seq!['\''] + path + seq!['\'']),
        row_ranges_unsupported() is Unsupported,
        mentions(row_ranges_unsupported().message(), "Row ranges"@),
{
    reveal_strlit("Format table file '");
    reveal_strlit("' is too large to fit in i64 metadata");
    lemma_mentioned(
        file_too_large(path).message(),
        "Format table file '"@.drop_last(),
        seq!['\''] + path + seq!['\''],
        "' is too large to fit in i64 metadata"@.drop_first(),
    );
    reveal_strlit("Row ranges are not supported for format tables");
    reveal_strlit("Row ranges");
    lemma_mentioned(
        row_ranges_unsupported().message(),
        Seq::empty(),
        "Row ranges"@,
        "Row ranges are not supported for format tables"@.skip(10),
    );
}

} // verus!
