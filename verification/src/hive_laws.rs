//! What the Hive dialect makes of names, values and filters, said of the characters themselves.

use vstd::prelude::*;

use crate::collect::{all_ok, lemma_all_ok_is, lemma_all_ok_values};
use crate::dialect::{PartitionComputerView, PartitionDialect, PartitionPathsView};
use crate::error::ErrorView;
use crate::evaluate::truth;
use crate::hive::{column_named, columns_named, escaped_name, hive_path, hive_segment, key_values};
use crate::hive::HiveDialect;
use crate::integer::{decimal, integer_of};
use crate::listing::{are_registered, lemma_hive_segment};
use crate::model::{BinaryRow, DataFieldView, DataTypeView, TypeKind};
use crate::partition::{field_names, spec_values};
use crate::predicate::{PartitionFilter, Predicate};
use crate::repair_laws::is_complete;
use crate::round_trip::lemma_split_joined;
use crate::text::{ascii_lower, split_on};

verus! {

/// An enumeration asks for every row that it holds, and for no other.
pub proof fn law_hive_enumeration_asks_for_its_rows(
    partitions: Vec<BinaryRow>,
    row: Seq<Option<Seq<char>>>,
)
    ensures
        forall|i: int|
            0 <= i < partitions@.len() ==> HiveDialect.entry_matches(
                PartitionFilter::PartitionSet { partitions },
                (#[trigger] partitions@[i])@,
            ) == Ok::<bool, ErrorView>(true),
        (forall|i: int| 0 <= i < partitions@.len() ==> (#[trigger] partitions@[i])@ != row)
            ==> HiveDialect.entry_matches(PartitionFilter::PartitionSet { partitions }, row)
            == Ok::<bool, ErrorView>(false),
{
    assert forall|i: int| 0 <= i < partitions@.len() implies HiveDialect.entry_matches(
        PartitionFilter::PartitionSet { partitions },
        (#[trigger] partitions@[i])@,
    ) == Ok::<bool, ErrorView>(true) by {
        lemma_enumerated(partitions, i, partitions@[i]@);
    }
}

proof fn lemma_enumerated(
    partitions: Vec<BinaryRow>,
    i: int,
    row: Seq<Option<Seq<char>>>,
)
    requires
        0 <= i < partitions@.len(),
        partitions@[i]@ == row,
    ensures
        HiveDialect.entry_matches(PartitionFilter::PartitionSet { partitions }, row) == Ok::<
            bool,
            ErrorView,
        >(true),
{
    let filter = PartitionFilter::PartitionSet { partitions };
    let found = HiveDialect.entry_matches(filter, row);
    match filter {
        PartitionFilter::PartitionSet { partitions: listed } => {
            assert(listed@[i]@ == row);
            assert(found == Ok::<bool, ErrorView>(
                exists|k: int| 0 <= k < listed@.len() && (#[trigger] listed@[k])@ == row,
            ));
        },
        _ => {},
    }
}

/// A predicate asks for the rows of which it holds. One of which it is neither true nor false is
/// not asked for.
pub proof fn law_hive_predicate_asks_for_what_it_holds_of(
    predicate: Predicate,
    row: Seq<Option<Seq<char>>>,
)
    ensures
        truth(predicate, row) == Some(true) ==> HiveDialect.entry_matches(
            PartitionFilter::Predicate(predicate),
            row,
        ) == Ok::<bool, ErrorView>(true),
        truth(predicate, row) != Some(true) ==> HiveDialect.entry_matches(
            PartitionFilter::Predicate(predicate),
            row,
        ) == Ok::<bool, ErrorView>(false),
{
}

/// Names are escaped character by character.
pub proof fn law_escaping_goes_by_characters(a: Seq<char>, b: Seq<char>)
    ensures
        HiveDialect.escaped(a + b) == HiveDialect.escaped(a) + HiveDialect.escaped(b),
        HiveDialect.escaped(Seq::empty()) == Seq::<char>::empty(),
    decreases a.len(),
{
    if a.len() == 0 {
        assert(a + b =~= b);
        assert(escaped_name(a) + escaped_name(b) =~= escaped_name(b));
    } else {
        let rest = a.drop_first();
        law_escaping_goes_by_characters(rest, b);
        assert((a + b).drop_first() =~= rest + b);
        assert((a + b)[0] == a[0]);
        let first = crate::hive::escaped_char(a[0]);
        assert(first + (escaped_name(rest) + escaped_name(b)) =~= first + escaped_name(rest)
            + escaped_name(b));
    }
}

/// Control characters, and those that mean something in paths or file systems, become a percent
/// sign and the two hexadecimal digits of their code; every other character stands for itself.
pub proof fn law_escaped_characters(c: char)
    ensures
        ({
            let code = c as int;
            let special = code < 32 || code == 127 || "\"#%'*/:=?\\{[]^"@.contains(c);
            HiveDialect.escaped(seq![c]) == if special {
                seq!['%', "0123456789ABCDEF"@[code / 16], "0123456789ABCDEF"@[code % 16]]
            } else {
                seq![c]
            }
        }),
{
    reveal_strlit("\"#%'*/:=?\\{[]^");
    reveal_strlit("0123456789ABCDEF");
    let listed = "\"#%'*/:=?\\{[]^"@;
    assert(seq![c].drop_first() =~= Seq::empty());
    assert(escaped_name(seq![c].drop_first()) =~= Seq::empty());
    assert(escaped_name(seq![c]) =~= crate::hive::escaped_char(c));
    let code = c as int;
    assert(listed.contains(c) ==> crate::hive::is_escaped(c)) by {
        if listed.contains(c) {
            let i = choose|i: int| 0 <= i < listed.len() && listed[i] == c;
        }
    }
    if crate::hive::is_escaped(c) && !(code < 32 || code == 127) {
        assert(listed[0] == '"' && listed[1] == '#' && listed[2] == '%' && listed[3] == '\''
            && listed[4] == '*' && listed[5] == '/' && listed[6] == ':' && listed[7] == '='
            && listed[8] == '?' && listed[9] == '\\' && listed[10] == '{' && listed[11] == '['
            && listed[12] == ']' && listed[13] == '^');
        assert(listed.contains(c));
    }
    if crate::hive::is_escaped(c) {
        lemma_hex(code / 16);
        lemma_hex(code % 16);
        assert(c as u8 as int == code);
        assert(escaped_name(seq![c]) =~= seq![
            '%',
            "0123456789ABCDEF"@[code / 16],
            "0123456789ABCDEF"@[code % 16],
        ]);
    }
}

proof fn lemma_hex(n: int)
    requires
        0 <= n < 16,
    ensures
        "0123456789ABCDEF"@[n] == crate::hive::hex_digit(n as u8),
        crate::hive::hex_value("0123456789ABCDEF"@[n]) == Some(n as u8),
        crate::hive::hex_value("0123456789abcdef"@[n]) == Some(n as u8),
{
    reveal_strlit("0123456789ABCDEF");
    reveal_strlit("0123456789abcdef");
    let upper = "0123456789ABCDEF"@;
    let lower = "0123456789abcdef"@;
    assert(n == 0 || n == 1 || n == 2 || n == 3 || n == 4 || n == 5 || n == 6 || n == 7 || n == 8
        || n == 9 || n == 10 || n == 11 || n == 12 || n == 13 || n == 14 || n == 15);
    if n < 10 {
        assert(upper[n] as int == 48 + n);
        assert(lower[n] as int == 48 + n);
    } else {
        assert(upper[n] as int == 55 + n);
        assert(lower[n] as int == 87 + n);
    }
}

/// What stands in front of a text that was read.
pub open spec fn with_first(c: char, rest: Option<Seq<char>>) -> Option<Seq<char>> {
    if rest is Some {
        Some(seq![c] + rest->0)
    } else {
        None
    }
}

/// A segment is read character by character; a percent sign with two hexadecimal digits, in either
/// case, stands for the character of that code.
pub proof fn law_unescaping_goes_by_characters(c: char, high: int, low: int, rest: Seq<char>)
    requires
        c != '%',
        0 <= high < 16,
        0 <= low < 16,
    ensures
        HiveDialect.unescaped(Seq::empty()) == Some(Seq::<char>::empty()),
        HiveDialect.unescaped(seq![c] + rest) == with_first(c, HiveDialect.unescaped(rest)),
        HiveDialect.unescaped(
            seq!['%', "0123456789ABCDEF"@[high], "0123456789ABCDEF"@[low]] + rest,
        ) == with_first((16 * high + low) as u8 as char, HiveDialect.unescaped(rest)),
        HiveDialect.unescaped(
            seq!['%', "0123456789abcdef"@[high], "0123456789abcdef"@[low]] + rest,
        ) == with_first((16 * high + low) as u8 as char, HiveDialect.unescaped(rest)),
{
    lemma_hex(high);
    lemma_hex(low);
    assert((seq![c] + rest).drop_first() =~= rest);
    assert((seq!['%', "0123456789ABCDEF"@[high], "0123456789ABCDEF"@[low]] + rest).skip(3)
        =~= rest);
    assert((seq!['%', "0123456789abcdef"@[high], "0123456789abcdef"@[low]] + rest).skip(3)
        =~= rest);
}

/// A percent sign that two hexadecimal digits do not follow stands for nothing.
pub proof fn law_malformed_escapes(before: Seq<char>, behind: Seq<char>, at: int)
    requires
        0 <= at < 2,
        at < behind.len() ==> !("0123456789ABCDEF"@.contains(behind[at])
            || "0123456789abcdef"@.contains(behind[at])),
        at >= behind.len() || at == 0 || behind.len() >= 2,
        forall|i: int| 0 <= i < before.len() ==> before[i] != '%',
    ensures
        HiveDialect.unescaped(before + seq!['%'] + behind) is None,
    decreases before.len(),
{
    let whole = before + seq!['%'] + behind;
    if before.len() > 0 {
        let rest = before.drop_first();
        law_malformed_escapes(rest, behind, at);
        assert(whole.drop_first() =~= rest + seq!['%'] + behind);
    } else if at < behind.len() && whole.len() >= 3 {
        assert(whole[1 + at] == behind[at]);
        lemma_not_hex(behind[at]);
    }
}

proof fn lemma_not_hex(c: char)
    requires
        !("0123456789ABCDEF"@.contains(c) || "0123456789abcdef"@.contains(c)),
    ensures
        crate::hive::hex_value(c) is None,
{
    reveal_strlit("0123456789ABCDEF");
    reveal_strlit("0123456789abcdef");
    let upper = "0123456789ABCDEF"@;
    let lower = "0123456789abcdef"@;
    if '0' <= c <= '9' {
        let n = c as int - 48;
        lemma_hex_char(n);
        assert(upper[n] == c);
        assert(upper.contains(c));
    } else if 'A' <= c <= 'F' {
        let n = c as int - 55;
        lemma_hex_char(n);
        assert(upper[n] == c);
        assert(upper.contains(c));
    } else if 'a' <= c <= 'f' {
        let n = c as int - 87;
        lemma_hex_char(n);
        assert(lower[n] == c);
        assert(lower.contains(c));
    }
}

proof fn lemma_hex_char(n: int)
    requires
        0 <= n < 16,
    ensures
        "0123456789ABCDEF"@.len() == 16,
        "0123456789abcdef"@.len() == 16,
        "0123456789ABCDEF"@[n] as int == if n < 10 {
            48 + n
        } else {
            55 + n
        },
        "0123456789abcdef"@[n] as int == if n < 10 {
            48 + n
        } else {
            87 + n
        },
{
    reveal_strlit("0123456789ABCDEF");
    reveal_strlit("0123456789abcdef");
    assert(n == 0 || n == 1 || n == 2 || n == 3 || n == 4 || n == 5 || n == 6 || n == 7 || n == 8
        || n == 9 || n == 10 || n == 11 || n == 12 || n == 13 || n == 14 || n == 15);
}

/// The directory and the name of a partition have one segment for each key, in the order of the
/// keys: the key, an equals sign and the value, or, in a directory named by the value alone, the
/// value; all escaped, with slashes between them.
pub proof fn law_hive_names_and_directories(
    paths: PartitionPathsView,
    spec: Map<Seq<char>, Seq<char>>,
)
    requires
        paths.partition_keys.len() > 0,
        is_complete(spec, paths.partition_keys),
    ensures
        ({
            let keys = paths.partition_keys;
            &&& HiveDialect.catalog_name(paths, spec) matches Ok(name)
            &&& split_on(name, '/').len() == keys.len()
            &&& forall|k: int|
                0 <= k < keys.len() ==> #[trigger] split_on(name, '/')[k] == HiveDialect.escaped(
                    keys[k],
                ) + seq!['='] + HiveDialect.escaped(spec[keys[k]])
        }),
        ({
            let keys = paths.partition_keys;
            &&& HiveDialect.catalog_path(paths, spec) matches Ok(path)
            &&& split_on(path, '/').len() == keys.len()
            &&& forall|k: int|
                0 <= k < keys.len() ==> #[trigger] split_on(path, '/')[k]
                    == if paths.only_value_in_path {
                    HiveDialect.escaped(spec[keys[k]])
                } else {
                    HiveDialect.escaped(keys[k]) + seq!['='] + HiveDialect.escaped(spec[keys[k]])
                }
        }),
{
    let keys = paths.partition_keys;
    lemma_spec_values(keys, spec);
    let values = keys.map_values(|key: Seq<char>| spec[key]);
    lemma_hive_path_pieces(keys, values, false);
    lemma_hive_path_pieces(keys, values, paths.only_value_in_path);
}

proof fn lemma_spec_values(keys: Seq<Seq<char>>, spec: Map<Seq<char>, Seq<char>>)
    requires
        is_complete(spec, keys),
    ensures
        all_ok(key_values(keys, spec)) == Ok::<Seq<Seq<char>>, ErrorView>(
            keys.map_values(|key: Seq<char>| spec[key]),
        ),
{
    let values = keys.map_values(|key: Seq<char>| spec[key]);
    let given = key_values(keys, spec);
    assert forall|k: int| 0 <= k < given.len() implies #[trigger] given[k] == Ok::<
        Seq<char>,
        ErrorView,
    >(values[k]) by {
        assert(spec.contains_key(keys[k]));
    }
    lemma_all_ok_is(given, values);
}

proof fn lemma_hive_path_pieces(
    keys: Seq<Seq<char>>,
    values: Seq<Seq<char>>,
    only_value_in_path: bool,
)
    requires
        0 < values.len() <= keys.len(),
    ensures
        split_on(hive_path(keys, values, only_value_in_path), '/') == Seq::new(
            values.len(),
            |i: int| hive_segment(keys[i], values[i], only_value_in_path),
        ),
{
    let pieces = Seq::new(
        values.len(),
        |i: int| hive_segment(keys[i], values[i], only_value_in_path),
    );
    assert forall|i: int| 0 <= i < pieces.len() implies !(#[trigger] pieces[i]).contains('/') by {
        lemma_hive_segment(keys[i], values[i], only_value_in_path);
    }
    lemma_split_joined(pieces);
}

/// The pattern of a value for each key is the name of the partition that has these values. The
/// pattern of fewer values is the name that the first keys would make, followed by `/%`. For no
/// value there is no pattern.
pub proof fn law_hive_patterns(
    paths: PartitionPathsView,
    spec: Map<Seq<char>, Seq<char>>,
    values: Seq<Seq<char>>,
)
    requires
        is_complete(spec, paths.partition_keys),
        are_registered(spec, paths.partition_keys, values),
    ensures
        values.len() == 0 ==> HiveDialect.name_pattern(paths, values) is None,
        0 < values.len() && values.len() == paths.partition_keys.len() ==> HiveDialect.catalog_name(
            paths,
            spec,
        ) == Ok::<Seq<char>, ErrorView>(HiveDialect.name_pattern(paths, values)->0)
            && HiveDialect.name_pattern(paths, values) is Some,
        0 < values.len() < paths.partition_keys.len() ==> {
            let first = PartitionPathsView {
                partition_keys: paths.partition_keys.take(values.len() as int),
                only_value_in_path: paths.only_value_in_path,
            };
            HiveDialect.catalog_name(first, spec) matches Ok(name) && HiveDialect.name_pattern(
                paths,
                values,
            ) == Some(name + seq!['/', '%'])
        },
{
    reveal_strlit("/%");
    let keys = paths.partition_keys;
    lemma_spec_values(keys, spec);
    let all = keys.map_values(|key: Seq<char>| spec[key]);
    assert forall|i: int| 0 <= i < values.len() implies #[trigger] values[i] == all[i] by {
        assert(spec.contains_key(keys[i]));
    }
    if values.len() == keys.len() {
        assert(values =~= all);
        assert(values.take(keys.len() as int) =~= values);
    } else if values.len() > 0 {
        let first = keys.take(values.len() as int);
        assert(is_complete(spec, first)) by {
            assert forall|k: int| 0 <= k < first.len() implies spec.contains_key(
                #[trigger] first[k],
            ) by {
                assert(first[k] == keys[k]);
            }
        }
        lemma_spec_values(first, spec);
        assert(first.map_values(|key: Seq<char>| spec[key]) =~= values);
        assert(Seq::new(values.len(), |i: int| hive_segment(keys[i], values[i], false))
            =~= Seq::new(values.len(), |i: int| hive_segment(first[i], values[i], false)));
        assert("/%"@ =~= seq!['/', '%']);
    }
}

/// What a value is read from. A character string stands for itself; a number for itself in decimal
/// text, where it lies within the bounds of its type; a truth value for itself in lower case.
pub proof fn law_hive_values(text: Seq<char>, data_type: DataTypeView)
    ensures
        data_type.kind is Character ==> HiveDialect.parsed(text, data_type) == Some(text),
        data_type.kind matches TypeKind::Integer { min, max } ==> match integer_of(text) {
            Some(value) => if min <= value <= max {
                HiveDialect.parsed(text, data_type) == Some(decimal(value))
            } else {
                HiveDialect.parsed(text, data_type) is None
            },
            None => HiveDialect.parsed(text, data_type) is None,
        },
        data_type.kind is Boolean ==> if ascii_lower(text) == seq!['t', 'r', 'u', 'e']
            || ascii_lower(text) == seq!['f', 'a', 'l', 's', 'e'] {
            HiveDialect.parsed(text, data_type) == Some(ascii_lower(text))
        } else {
            HiveDialect.parsed(text, data_type) is None
        },
        data_type.kind is Other ==> HiveDialect.parsed(text, data_type) is None,
{
    reveal_strlit("true");
    reveal_strlit("false");
    assert("true"@ =~= seq!['t', 'r', 'u', 'e']);
    assert("false"@ =~= seq!['f', 'a', 'l', 's', 'e']);
}

/// Every value of a type that has spellings is spelled by its own text, in paths and names alike.
pub proof fn law_hive_spellings(
    datum: Seq<char>,
    data_type: DataTypeView,
    default_partition_name: Seq<char>,
    legacy_partition_name: bool,
)
    ensures
        HiveDialect.formatted(datum, data_type, default_partition_name, legacy_partition_name)
            == if data_type.kind is Other {
            None
        } else {
            Some(datum)
        },
{
}

/// The row that a registration gives has, for each column, a null where the default name is
/// registered, and otherwise what the registered text is read as; there is one exactly where every
/// column has a text that can be read.
pub proof fn law_hive_registered_rows(
    spec: Map<Seq<char>, Seq<char>>,
    fields: Seq<DataFieldView>,
    default_partition_name: Seq<char>,
)
    ensures
        ({
            let outcome = all_ok(
                spec_values(HiveDialect, spec, fields, field_names(fields), default_partition_name),
            );
            &&& outcome is Ok <==> forall|i: int|
                0 <= i < fields.len() ==> spec.contains_key((#[trigger] fields[i]).name) && (
                spec[fields[i].name] == default_partition_name || HiveDialect.parsed(
                    spec[fields[i].name],
                    fields[i].data_type,
                ) is Some)
            &&& outcome is Ok ==> outcome->Ok_0.len() == fields.len() && forall|i: int|
                0 <= i < fields.len() ==> #[trigger] outcome->Ok_0[i] == if spec[fields[i].name]
                    == default_partition_name {
                    None
                } else {
                    HiveDialect.parsed(spec[fields[i].name], fields[i].data_type)
                }
        }),
{
    let keys = field_names(fields);
    let outcomes = spec_values(HiveDialect, spec, fields, keys, default_partition_name);
    lemma_all_ok_values(outcomes);
    let outcome = all_ok(outcomes);
    assert forall|i: int| 0 <= i < fields.len() implies keys[i] == (#[trigger] fields[i]).name by {}
    if outcome is Ok {
        assert forall|i: int| 0 <= i < fields.len() implies spec.contains_key(
            (#[trigger] fields[i]).name,
        ) && (spec[fields[i].name] == default_partition_name || HiveDialect.parsed(
            spec[fields[i].name],
            fields[i].data_type,
        ) is Some) by {
            assert(outcomes[i] is Ok);
        }
        assert forall|i: int| 0 <= i < fields.len() implies #[trigger] outcome->Ok_0[i]
            == if spec[fields[i].name] == default_partition_name {
            None
        } else {
            HiveDialect.parsed(spec[fields[i].name], fields[i].data_type)
        } by {
            assert(outcomes[i] == Ok::<Option<Seq<char>>, ErrorView>(outcome->Ok_0[i]));
        }
    } else if forall|i: int|
        0 <= i < fields.len() ==> spec.contains_key((#[trigger] fields[i]).name) && (
        spec[fields[i].name] == default_partition_name || HiveDialect.parsed(
            spec[fields[i].name],
            fields[i].data_type,
        ) is Some) {
        let row = Seq::new(
            fields.len(),
            |i: int|
                if spec[fields[i].name] == default_partition_name {
                    None
                } else {
                    HiveDialect.parsed(spec[fields[i].name], fields[i].data_type)
                },
        );
        assert forall|i: int| 0 <= i < outcomes.len() implies #[trigger] outcomes[i] == Ok::<
            Option<Seq<char>>,
            ErrorView,
        >(row[i]) by {
            assert(spec.contains_key(fields[i].name));
        }
        lemma_all_ok_is(outcomes, row);
    }
}

/// Paths of rows can be computed exactly where every partition key is the name of a column; each
/// then goes by the first column of that name.
pub proof fn law_hive_columns(computer: PartitionComputerView)
    ensures
        ({
            let columns = all_ok(columns_named(computer.fields, computer.partition_keys));
            &&& (HiveDialect.computer_check(computer) is Ok <==> columns is Ok)
            &&& (columns is Ok <==> forall|k: int|
                0 <= k < computer.partition_keys.len() ==> is_column(
                    computer.fields,
                    #[trigger] computer.partition_keys[k],
                ))
            &&& (columns is Ok ==> columns->Ok_0.len() == computer.partition_keys.len() && forall|
                k: int,
            |
                0 <= k < computer.partition_keys.len() ==> is_first_column(
                    computer.fields,
                    computer.partition_keys[k],
                    #[trigger] columns->Ok_0[k],
                ))
        }),
{
    let keys = computer.partition_keys;
    let found = columns_named(computer.fields, keys);
    lemma_all_ok_values(found);
    assert forall|k: int| 0 <= k < keys.len() implies (found[k] is Ok <==> is_column(
        computer.fields,
        #[trigger] keys[k],
    )) && (found[k] is Ok ==> is_first_column(computer.fields, keys[k], found[k]->Ok_0)) by {
        lemma_column_named(computer.fields, keys[k]);
    }
    if all_ok(found) is Ok {
        assert forall|k: int| 0 <= k < keys.len() implies is_column(
            computer.fields,
            #[trigger] keys[k],
        ) by {
            assert(found[k] is Ok);
        }
        assert forall|k: int| 0 <= k < keys.len() implies is_first_column(
            computer.fields,
            keys[k],
            #[trigger] all_ok(found)->Ok_0[k],
        ) by {
            assert(found[k] == Ok::<DataFieldView, ErrorView>(all_ok(found)->Ok_0[k]));
        }
    } else if forall|k: int|
        0 <= k < keys.len() ==> is_column(computer.fields, #[trigger] keys[k]) {
        let columns = found.map_values(|c: Result<DataFieldView, ErrorView>| c->Ok_0);
        assert forall|k: int| 0 <= k < found.len() implies #[trigger] found[k] == Ok::<
            DataFieldView,
            ErrorView,
        >(columns[k]) by {
            assert(is_column(computer.fields, keys[k]));
        }
        lemma_all_ok_is(found, columns);
    }
}

/// Whether there is a column of a name.
pub open spec fn is_column(fields: Seq<DataFieldView>, key: Seq<char>) -> bool {
    exists|i: int| 0 <= i < fields.len() && (#[trigger] fields[i]).name == key
}

/// Whether a column is the first one of a name.
pub open spec fn is_first_column(
    fields: Seq<DataFieldView>,
    key: Seq<char>,
    column: DataFieldView,
) -> bool {
    exists|i: int|
        0 <= i < fields.len() && #[trigger] fields[i] == column && column.name == key && forall|
            j: int,
        |
            0 <= j < i ==> (#[trigger] fields[j]).name != key
}

proof fn lemma_column_named(fields: Seq<DataFieldView>, key: Seq<char>)
    ensures
        column_named(fields, key) is Ok <==> is_column(fields, key),
        column_named(fields, key) is Ok ==> is_first_column(
            fields,
            key,
            column_named(fields, key)->Ok_0,
        ),
    decreases fields.len(),
{
    if fields.len() > 0 {
        if fields[0].name == key {
            assert(is_column(fields, key));
            assert(is_first_column(fields, key, fields[0]));
        } else {
            let rest = fields.drop_first();
            lemma_column_named(rest, key);
            if is_column(rest, key) {
                let i = choose|i: int| 0 <= i < rest.len() && (#[trigger] rest[i]).name == key;
                assert(fields[i + 1] == rest[i]);
                let column = column_named(rest, key)->Ok_0;
                let k = choose|k: int|
                    0 <= k < rest.len() && #[trigger] rest[k] == column && column.name == key
                        && forall|j: int| 0 <= j < k ==> (#[trigger] rest[j]).name != key;
                assert(fields[k + 1] == column);
                assert forall|j: int| 0 <= j < k + 1 implies (#[trigger] fields[j]).name != key by {
                    if j > 0 {
                        assert(rest[j - 1].name != key);
                    }
                }
            }
            if is_column(fields, key) {
                let i = choose|i: int| 0 <= i < fields.len() && (#[trigger] fields[i]).name == key;
                assert(rest[i - 1].name == key);
            }
        }
    }
}

/// Values beyond those of the keys do not count in a pattern, and without keys there is none.
pub proof fn law_hive_patterns_stop_at_the_keys(paths: PartitionPathsView, values: Seq<Seq<char>>)
    requires
        values.len() >= paths.partition_keys.len(),
    ensures
        HiveDialect.name_pattern(paths, values) == HiveDialect.name_pattern(
            paths,
            values.take(paths.partition_keys.len() as int),
        ),
        HiveDialect.name_pattern(paths, values) is Some <==> paths.partition_keys.len() > 0,
{
    let taken = values.take(paths.partition_keys.len() as int);
    assert(taken.take(paths.partition_keys.len() as int) =~= taken);
}

} // verus!
