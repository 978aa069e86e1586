//! The spelling of partitions in the manner of Hive.

use vstd::prelude::*;
use vstd::string::*;

use crate::collect::{all_ok, lemma_all_ok_settled, lemma_all_ok_step, lemma_all_ok_values};
use crate::dialect::{text_option, text_result, FormatTablePartitionPaths, PartitionComputer};
use crate::dialect::{PartitionComputerView, PartitionDialect, PartitionPathsView};
use crate::error::{Error, ErrorView};
use crate::evaluate::{evaluate, truth};
use crate::integer::{decimal, integer_within, law_decimal_reads_back, read_integer, write_integer};
use crate::model::{extract_datum, extracted, field_views, row_views, BinaryRow, DataField};
use crate::model::{DataFieldView, DataType, DataTypeView, Datum, TextMap, TypeKind};
use crate::partition::{missing_column, unsupported_type};
use crate::predicate::{holds_row, PartitionFilter};
use crate::text::{ascii_lower, chars_of, join_texts, joined, same_text, texts, to_ascii_lower};

verus! {

/// Whether a character cannot stand for itself in a path segment: control characters, and those
/// that mean something in paths or file systems.
pub open spec fn is_escaped(c: char) -> bool {
    ||| c < ' '
    ||| c == '\u{7f}'
    ||| c == '"'
    ||| c == '#'
    ||| c == '%'
    ||| c == '\''
    ||| c == '*'
    ||| c == '/'
    ||| c == ':'
    ||| c == '='
    ||| c == '?'
    ||| c == '\\'
    ||| c == '{'
    ||| c == '['
    ||| c == ']'
    ||| c == '^'
}

/// The hexadecimal digit of a number below 16.
pub open spec fn hex_digit(n: u8) -> char {
    if n < 10 {
        (48 + n) as u8 as char
    } else {
        (55 + n) as u8 as char
    }
}

/// The number that a hexadecimal digit stands for.
pub open spec fn hex_value(c: char) -> Option<u8> {
    if '0' <= c <= '9' {
        Some((c as u8 - 48) as u8)
    } else if 'A' <= c <= 'F' {
        Some((c as u8 - 55) as u8)
    } else if 'a' <= c <= 'f' {
        Some((c as u8 - 87) as u8)
    } else {
        None
    }
}

/// A character as it stands in a path segment.
pub open spec fn escaped_char(c: char) -> Seq<char> {
    if is_escaped(c) {
        seq!['%', hex_digit((c as u8 / 16) as u8), hex_digit((c as u8 % 16) as u8)]
    } else {
        seq![c]
    }
}

/// A name as it stands in a path segment.
pub open spec fn escaped_name(name: Seq<char>) -> Seq<char>
    decreases name.len(),
{
    if name.len() == 0 {
        Seq::empty()
    } else {
        escaped_char(name[0]) + escaped_name(name.drop_first())
    }
}

/// The text that begins with a character, where the rest is there.
pub open spec fn preceded(c: char, rest: Option<Seq<char>>) -> Option<Seq<char>> {
    match rest {
        Some(rest) => Some(seq![c] + rest),
        None => None,
    }
}

/// The name that a path segment stands for; `None` where a percent sign is not followed by two
/// hexadecimal digits.
pub open spec fn unescaped_name(segment: Seq<char>) -> Option<Seq<char>>
    decreases segment.len(),
{
    if segment.len() == 0 {
        Some(Seq::empty())
    } else if segment[0] != '%' {
        preceded(segment[0], unescaped_name(segment.drop_first()))
    } else if segment.len() < 3 {
        None
    } else {
        match (hex_value(segment[1]), hex_value(segment[2])) {
            (Some(high), Some(low)) => preceded(
                (16 * high + low) as u8 as char,
                unescaped_name(segment.skip(3)),
            ),
            _ => None,
        }
    }
}

fn needs_escape(c: char) -> (r: bool)
    ensures
        r == is_escaped(c),
{
    c < ' ' || c == '\u{7f}' || c == '"' || c == '#' || c == '%' || c == '\'' || c == '*' || c
        == '/' || c == ':' || c == '=' || c == '?' || c == '\\' || c == '{' || c == '[' || c == ']'
        || c == '^'
}

fn digit(n: u8) -> (r: char)
    requires
        n < 16,
    ensures
        r == hex_digit(n),
{
    if n < 10 {
        (48 + n) as char
    } else {
        (55 + n) as char
    }
}

fn digit_value(c: char) -> (r: Option<u8>)
    ensures
        r == hex_value(c),
        r matches Some(n) ==> n < 16,
{
    if '0' <= c && c <= '9' {
        Some(c as u8 - 48)
    } else if 'A' <= c && c <= 'F' {
        Some(c as u8 - 55)
    } else if 'a' <= c && c <= 'f' {
        Some(c as u8 - 87)
    } else {
        None
    }
}

/// Writes a name as it stands in a path segment.
fn escape(name: &str) -> (r: String)
    ensures
        r@ == escaped_name(name@),
{
    let chars = chars_of(name);
    let mut r = String::new();
    let mut i: usize = 0;
    assert(r@ + escaped_name(name@.skip(0)) =~= escaped_name(name@)) by {
        assert(name@.skip(0) =~= name@);
    }
    while i < chars.len()
        invariant
            0 <= i <= chars@.len(),
            chars@ == name@,
            r@ + escaped_name(name@.skip(i as int)) == escaped_name(name@),
        decreases chars@.len() - i,
    {
        let c = chars[i];
        let ghost before = r@;
        if needs_escape(c) {
            let code = c as u8;
            r.push('%');
            r.push(digit(code / 16));
            r.push(digit(code % 16));
        } else {
            r.push(c);
        }
        proof {
            let rest = name@.skip(i as int);
            assert(rest[0] == c);
            assert(rest.drop_first() =~= name@.skip(i + 1));
            assert(r@ =~= before + escaped_char(c));
            assert((before + escaped_char(c)) + escaped_name(name@.skip(i + 1)) =~= before + (
            escaped_char(c) + escaped_name(name@.skip(i + 1))));
        }
        i = i + 1;
    }
    proof {
        assert(name@.skip(i as int) =~= Seq::empty());
        assert(r@ + Seq::<char>::empty() =~= r@);
    }
    r
}

/// What a text and what follows it make, where that is there.
spec fn extended(before: Seq<char>, rest: Option<Seq<char>>) -> Option<Seq<char>> {
    match rest {
        Some(rest) => Some(before + rest),
        None => None,
    }
}

proof fn lemma_extended(before: Seq<char>, c: char, rest: Option<Seq<char>>)
    ensures
        extended(before, preceded(c, rest)) == extended(before.push(c), rest),
{
    if rest is Some {
        assert(before + (seq![c] + rest->0) =~= before.push(c) + rest->0);
    }
}

/// Reads the name that a path segment stands for.
fn unescape(segment: &str) -> (r: Option<String>)
    ensures
        text_option(r) == unescaped_name(segment@),
{
    let chars = chars_of(segment);
    let mut r = String::new();
    let mut i: usize = 0;
    proof {
        assert(segment@.skip(0) =~= segment@);
        let all = unescaped_name(segment@);
        if all is Some {
            assert(r@ + all->0 =~= all->0);
        }
    }
    while i < chars.len()
        invariant
            0 <= i <= chars@.len(),
            chars@ == segment@,
            extended(r@, unescaped_name(segment@.skip(i as int))) == unescaped_name(segment@),
        decreases chars@.len() - i,
    {
        let c = chars[i];
        let ghost rest = segment@.skip(i as int);
        assert(rest[0] == c);
        if c != '%' {
            proof {
                assert(rest.drop_first() =~= segment@.skip(i + 1));
                lemma_extended(r@, c, unescaped_name(segment@.skip(i + 1)));
            }
            r.push(c);
            i = i + 1;
        } else {
            if chars.len() - i < 3 {
                return None;
            }
            assert(rest[1] == chars@[i + 1]);
            assert(rest[2] == chars@[i + 2]);
            match (digit_value(chars[i + 1]), digit_value(chars[i + 2])) {
                (Some(high), Some(low)) => {
                    let read = (16 * high + low) as char;
                    proof {
                        assert(rest.skip(3) =~= segment@.skip(i + 3));
                        lemma_extended(r@, read, unescaped_name(segment@.skip(i + 3)));
                    }
                    r.push(read);
                    i = i + 3;
                },
                _ => {
                    return None;
                },
            }
        }
    }
    proof {
        assert(segment@.skip(i as int) =~= Seq::empty());
        assert(r@ + Seq::<char>::empty() =~= r@);
    }
    Some(r)
}

/// The two digits of an escaped character give it back.
proof fn lemma_code(c: char)
    requires
        is_escaped(c),
    ensures
        c as u8 <= 127,
        16 * (c as u8 / 16) + c as u8 % 16 == c as u8,
        c as u8 as char == c,
{
}

/// What is escaped unescapes to itself, and neither slashes nor equals signs are left in it.
pub proof fn law_escaping_is_undone(name: Seq<char>)
    ensures
        unescaped_name(escaped_name(name)) == Some(name),
        !escaped_name(name).contains('/'),
        !escaped_name(name).contains('='),
        escaped_name(name).len() == 0 <==> name.len() == 0,
    decreases name.len(),
{
    let whole = escaped_name(name);
    if name.len() > 0 {
        let c = name[0];
        let rest = name.drop_first();
        law_escaping_is_undone(rest);
        let first = escaped_char(c);
        let tail = escaped_name(rest);
        assert(whole == first + tail);
        assert(seq![c] + rest =~= name);
        if is_escaped(c) {
            let code = c as u8;
            assert(first.len() == 3);
            assert(whole[0] == '%');
            assert(whole[1] == hex_digit((code / 16) as u8));
            assert(whole[2] == hex_digit((code % 16) as u8));
            assert(whole.skip(3) =~= tail);
            lemma_code(c);
        } else {
            assert(whole.drop_first() =~= tail);
        }
        assert forall|i: int| 0 <= i < whole.len() implies whole[i] != '/' && whole[i] != '=' by {
            if i >= first.len() {
                assert(whole[i] == tail[i - first.len()]);
                assert(tail.contains(tail[i - first.len()]));
            } else {
                assert(whole[i] == first[i]);
            }
        }
    }
}

/// A segment of a path.
pub open spec fn hive_segment(key: Seq<char>, value: Seq<char>, only_value_in_path: bool) -> Seq<
    char,
> {
    if only_value_in_path {
        escaped_name(value)
    } else {
        escaped_name(key) + seq!['='] + escaped_name(value)
    }
}

/// A path of a segment for each value.
pub open spec fn hive_path(
    keys: Seq<Seq<char>>,
    values: Seq<Seq<char>>,
    only_value_in_path: bool,
) -> Seq<char> {
    joined(
        Seq::new(values.len(), |i: int| hive_segment(keys[i], values[i], only_value_in_path)),
        "/"@,
    )
}

/// How a value is spelled: by its canonical text, where its type has one.
pub open spec fn hive_spelling(datum: Seq<char>, data_type: DataTypeView) -> Option<Seq<char>> {
    if data_type.kind is Other {
        None
    } else {
        Some(datum)
    }
}

/// The value that a spelling stands for. A character string stands for itself; a number may have
/// a sign or zeros in front; a truth value may be in either case.
pub open spec fn hive_value(text: Seq<char>, kind: TypeKind) -> Option<Seq<char>> {
    match kind {
        TypeKind::Character => Some(text),
        TypeKind::Integer { min, max } => match integer_within(text, min, max) {
            Some(value) => Some(decimal(value as int)),
            None => None,
        },
        TypeKind::Boolean => {
            let lowered = ascii_lower(text);
            if lowered == "true"@ || lowered == "false"@ {
                Some(lowered)
            } else {
                None
            }
        },
        TypeKind::Other => None,
    }
}

/// A value that was read stands for itself: its text is the canonical one.
pub proof fn law_values_are_canonical(text: Seq<char>, kind: TypeKind)
    ensures
        hive_value(text, kind) matches Some(datum) ==> hive_value(datum, kind) == Some(datum),
{
    match kind {
        TypeKind::Integer { min, max } => {
            if let Some(value) = integer_within(text, min, max) {
                law_decimal_reads_back(value as int);
            }
        },
        TypeKind::Boolean => {
            reveal_strlit("true");
            reveal_strlit("false");
            let lowered = ascii_lower(text);
            if lowered == "true"@ || lowered == "false"@ {
                assert(ascii_lower(lowered) =~= lowered);
            }
        },
        _ => {},
    }
}

/// How the value of a column of a row stands in a path.
pub open spec fn hive_path_value(
    row: Seq<Option<Seq<char>>>,
    column: DataFieldView,
    index: int,
    default_partition_name: Seq<char>,
) -> Result<Seq<char>, ErrorView> {
    match extracted(row, index) {
        Err(error) => Err(error),
        Ok(None) => Ok(default_partition_name),
        Ok(Some(datum)) => match hive_spelling(datum, column.data_type) {
            Some(value) => Ok(value),
            None => Err(unsupported_type(column.data_type)),
        },
    }
}

/// How each value of a row stands in a path.
pub open spec fn hive_path_values(
    row: Seq<Option<Seq<char>>>,
    columns: Seq<DataFieldView>,
    default_partition_name: Seq<char>,
) -> Seq<Result<Seq<char>, ErrorView>> {
    Seq::new(
        columns.len(),
        |i: int| hive_path_value(row, columns[i], i, default_partition_name),
    )
}

/// What is said where a partition key names no column.
pub open spec fn unknown_column(key: Seq<char>) -> ErrorView {
    ErrorView::DataInvalid {
        message: "Partition column '"@ + key + "' is not a column of the table"@,
        source: None,
    }
}

/// The column of a name.
pub open spec fn column_named(fields: Seq<DataFieldView>, key: Seq<char>) -> Result<
    DataFieldView,
    ErrorView,
>
    decreases fields.len(),
{
    if fields.len() == 0 {
        Err(unknown_column(key))
    } else if fields[0].name == key {
        Ok(fields[0])
    } else {
        column_named(fields.drop_first(), key)
    }
}

/// The column of each key.
pub open spec fn columns_named(fields: Seq<DataFieldView>, keys: Seq<Seq<char>>) -> Seq<
    Result<DataFieldView, ErrorView>,
> {
    keys.map_values(|key: Seq<char>| column_named(fields, key))
}

/// The path of a row, with a key in each segment.
pub open spec fn hive_computed_path(
    computer: PartitionComputerView,
    row: Seq<Option<Seq<char>>>,
) -> Result<Seq<char>, ErrorView> {
    match all_ok(columns_named(computer.fields, computer.partition_keys)) {
        Err(error) => Err(error),
        Ok(columns) => match all_ok(
            hive_path_values(row, columns, computer.default_partition_name),
        ) {
            Err(error) => Err(error),
            Ok(values) => Ok(hive_path(computer.partition_keys, values, false)),
        },
    }
}

/// The value of each key in a specification.
pub open spec fn key_values(keys: Seq<Seq<char>>, spec: Map<Seq<char>, Seq<char>>) -> Seq<
    Result<Seq<char>, ErrorView>,
> {
    keys.map_values(
        |key: Seq<char>|
            if spec.contains_key(key) {
                Ok(spec[key])
            } else {
                Err(missing_column(key))
            },
    )
}

/// The path that a specification gives.
pub open spec fn hive_spec_path(
    keys: Seq<Seq<char>>,
    spec: Map<Seq<char>, Seq<char>>,
    only_value_in_path: bool,
) -> Result<Seq<char>, ErrorView> {
    match all_ok(key_values(keys, spec)) {
        Err(error) => Err(error),
        Ok(values) => Ok(hive_path(keys, values, only_value_in_path)),
    }
}

/// The pattern of the names that begin with the given values: a name itself, where there is a
/// value for each key.
pub open spec fn hive_pattern(keys: Seq<Seq<char>>, values: Seq<Seq<char>>) -> Option<Seq<char>> {
    if values.len() == 0 || keys.len() == 0 {
        None
    } else if values.len() >= keys.len() {
        Some(hive_path(keys, values.take(keys.len() as int), false))
    } else {
        Some(hive_path(keys, values, false) + "/%"@)
    }
}

/// Writes a segment of a path.
fn write_segment(key: &str, value: &str, only_value_in_path: bool) -> (r: String)
    ensures
        r@ == hive_segment(key@, value@, only_value_in_path),
{
    if only_value_in_path {
        escape(value)
    } else {
        let mut segment = escape(key);
        segment.push('=');
        segment.append(escape(value).as_str());
        proof {
            assert(segment@ =~= hive_segment(key@, value@, only_value_in_path));
        }
        segment
    }
}

/// Writes the path of the values.
fn write_path(keys: &Vec<String>, values: &Vec<String>, only_value_in_path: bool) -> (r: String)
    requires
        values@.len() <= keys@.len(),
    ensures
        r@ == hive_path(texts(keys@), texts(values@), only_value_in_path),
{
    let ghost expected = Seq::new(
        values@.len(),
        |i: int| hive_segment(texts(keys@)[i], texts(values@)[i], only_value_in_path),
    );
    let mut segments: Vec<String> = Vec::new();
    let mut i: usize = 0;
    while i < values.len()
        invariant
            0 <= i <= values@.len() <= keys@.len(),
            segments@.len() == i,
            forall|j: int|
                0 <= j < i ==> (#[trigger] segments@[j])@ == hive_segment(
                    keys@[j]@,
                    values@[j]@,
                    only_value_in_path,
                ),
        decreases values@.len() - i,
    {
        segments.push(write_segment(keys[i].as_str(), values[i].as_str(), only_value_in_path));
        i = i + 1;
    }
    assert(texts(segments@) =~= expected);
    join_texts(&segments, "/")
}

/// The column of a name.
fn find_column<'a>(fields: &'a Vec<DataField>, key: &str) -> (r: Result<&'a DataField, Error>)
    ensures
        match r {
            Ok(field) => column_named(field_views(fields@), key@) == Ok::<DataFieldView, ErrorView>(
                field@,
            ),
            Err(error) => column_named(field_views(fields@), key@) == Err::<
                DataFieldView,
                ErrorView,
            >(error@),
        },
{
    let ghost views = field_views(fields@);
    let mut i: usize = 0;
    assert(views.skip(0) =~= views);
    while i < fields.len()
        invariant
            0 <= i <= fields@.len(),
            views == field_views(fields@),
            column_named(views, key@) == column_named(views.skip(i as int), key@),
        decreases fields@.len() - i,
    {
        proof {
            assert(views.skip(i as int)[0] == fields@[i as int]@);
            assert(views.skip(i as int).drop_first() =~= views.skip(i + 1));
        }
        if same_text(fields[i].name.as_str(), key) {
            return Ok(&fields[i]);
        }
        i = i + 1;
    }
    let mut message = "Partition column '".to_string();
    message.append(key);
    message.append("' is not a column of the table");
    Err(Error::DataInvalid { message, source: None })
}

/// The column of each key.
fn find_columns<'a>(fields: &'a Vec<DataField>, keys: &Vec<String>) -> (r: Result<
    Vec<&'a DataField>,
    Error,
>)
    ensures
        match (r, all_ok(columns_named(field_views(fields@), texts(keys@)))) {
            (Ok(columns), Ok(expected)) => columns@.map_values(|c: &DataField| c@) == expected,
            (Err(error), Err(first)) => error@ == first,
            _ => false,
        },
{
    let ghost outcomes = columns_named(field_views(fields@), texts(keys@));
    let ghost mut found: Seq<DataFieldView> = Seq::empty();
    let mut columns: Vec<&'a DataField> = Vec::new();
    let mut i: usize = 0;
    proof {
        assert(outcomes.take(0) =~= Seq::empty());
        assert(columns@.map_values(|c: &DataField| c@) =~= found);
    }
    while i < keys.len()
        invariant
            0 <= i <= keys@.len(),
            outcomes == columns_named(field_views(fields@), texts(keys@)),
            columns@.map_values(|c: &DataField| c@) == found,
            all_ok(outcomes.take(i as int)) == Ok::<Seq<DataFieldView>, ErrorView>(found),
        decreases keys@.len() - i,
    {
        proof {
            lemma_all_ok_step(outcomes, i as int);
        }
        match find_column(fields, keys[i].as_str()) {
            Ok(column) => {
                let ghost before = columns@;
                columns.push(column);
                proof {
                    found = found.push(column@);
                    assert(columns@.map_values(|c: &DataField| c@) =~= found);
                }
            },
            Err(error) => {
                proof {
                    lemma_all_ok_settled(outcomes, i + 1);
                }
                return Err(error);
            },
        }
        i = i + 1;
    }
    assert(outcomes.take(i as int) =~= outcomes);
    Ok(columns)
}

/// How each value of a row stands in a path.
fn spell_row(row: &BinaryRow, columns: &Vec<&DataField>, default_partition_name: &str) -> (r: Result<
    Vec<String>,
    Error,
>)
    ensures
        match (
            r,
            all_ok(
                hive_path_values(
                    row@,
                    columns@.map_values(|c: &DataField| c@),
                    default_partition_name@,
                ),
            ),
        ) {
            (Ok(values), Ok(expected)) => texts(values@) == expected,
            (Err(error), Err(first)) => error@ == first,
            _ => false,
        },
{
    let ghost views = columns@.map_values(|c: &DataField| c@);
    let ghost outcomes = hive_path_values(row@, views, default_partition_name@);
    let ghost mut found: Seq<Seq<char>> = Seq::empty();
    let mut values: Vec<String> = Vec::new();
    let mut i: usize = 0;
    proof {
        assert(outcomes.take(0) =~= Seq::empty());
        assert(texts(values@) =~= found);
    }
    while i < columns.len()
        invariant
            0 <= i <= columns@.len(),
            views == columns@.map_values(|c: &DataField| c@),
            outcomes == hive_path_values(row@, views, default_partition_name@),
            texts(values@) == found,
            all_ok(outcomes.take(i as int)) == Ok::<Seq<Seq<char>>, ErrorView>(found),
        decreases columns@.len() - i,
    {
        proof {
            assert(views[i as int] == columns@[i as int]@);
            lemma_all_ok_step(outcomes, i as int);
        }
        let value = match extract_datum(row, i) {
            Err(error) => {
                proof {
                    lemma_all_ok_settled(outcomes, i + 1);
                }
                return Err(error);
            },
            Ok(None) => default_partition_name.to_string(),
            Ok(Some(datum)) => match spell(datum, &columns[i].data_type) {
                Some(value) => value,
                None => {
                    let mut message =
                        "Format table partition path generation does not support type '".to_string();
                    message.append(columns[i].data_type.name.as_str());
                    message.append("'");
                    proof {
                        lemma_all_ok_settled(outcomes, i + 1);
                    }
                    return Err(Error::Unsupported { message });
                },
            },
        };
        values.push(value);
        proof {
            found = found.push(value@);
            assert(texts(values@) =~= found);
        }
        i = i + 1;
    }
    assert(outcomes.take(i as int) =~= outcomes);
    Ok(values)
}

/// How a value is spelled.
fn spell(datum: &Datum, data_type: &DataType) -> (r: Option<String>)
    ensures
        text_option(r) == hive_spelling(datum@, data_type@),
{
    match data_type.kind {
        TypeKind::Other => None,
        _ => Some(datum.text.clone()),
    }
}

/// The value that a spelling stands for.
fn read_value(text: &str, kind: TypeKind) -> (r: Option<Datum>)
    ensures
        match r {
            Some(datum) => hive_value(text@, kind) == Some(datum@),
            None => hive_value(text@, kind) is None,
        },
{
    match kind {
        TypeKind::Character => Some(Datum { text: text.to_string() }),
        TypeKind::Integer { min, max } => match read_integer(text, min, max) {
            Some(value) => Some(Datum { text: write_integer(value) }),
            None => None,
        },
        TypeKind::Boolean => {
            let lowered = to_ascii_lower(text);
            if same_text(lowered.as_str(), "true") || same_text(lowered.as_str(), "false") {
                Some(Datum { text: lowered })
            } else {
                None
            }
        },
        TypeKind::Other => None,
    }
}

/// The path that a specification gives.
fn write_spec_path(keys: &Vec<String>, spec: &TextMap, only_value_in_path: bool) -> (r: Result<
    String,
    Error,
>)
    ensures
        text_result(r) == hive_spec_path(texts(keys@), spec@, only_value_in_path),
{
    let ghost outcomes = key_values(texts(keys@), spec@);
    let ghost mut found: Seq<Seq<char>> = Seq::empty();
    let mut values: Vec<String> = Vec::new();
    let mut i: usize = 0;
    proof {
        assert(outcomes.take(0) =~= Seq::empty());
        assert(texts(values@) =~= found);
    }
    while i < keys.len()
        invariant
            0 <= i <= keys@.len(),
            values@.len() == i,
            outcomes == key_values(texts(keys@), spec@),
            texts(values@) == found,
            all_ok(outcomes.take(i as int)) == Ok::<Seq<Seq<char>>, ErrorView>(found),
        decreases keys@.len() - i,
    {
        proof {
            lemma_all_ok_step(outcomes, i as int);
        }
        match spec.get(keys[i].as_str()) {
            Some(value) => {
                values.push(value.clone());
                proof {
                    found = found.push(value@);
                    assert(texts(values@) =~= found);
                }
            },
            None => {
                let mut message = "Catalog partition is missing column '".to_string();
                message.append(keys[i].as_str());
                message.append("'");
                proof {
                    lemma_all_ok_settled(outcomes, i + 1);
                }
                return Err(Error::DataInvalid { message, source: None });
            },
        }
        i = i + 1;
    }
    assert(outcomes.take(i as int) =~= outcomes);
    Ok(write_path(keys, &values, only_value_in_path))
}

/// Whether one of the rows is the given one.
fn is_enumerated(partitions: &Vec<BinaryRow>, row: &BinaryRow) -> (r: bool)
    ensures
        r == (exists|i: int| 0 <= i < partitions@.len() && (#[trigger] partitions@[i])@ == row@),
{
    proof {
        let views = row_views(partitions@);
        if views.contains(row@) {
            let i = choose|i: int| 0 <= i < views.len() && views[i] == row@;
            assert(partitions@[i]@ == row@);
        } else {
            assert forall|i: int| 0 <= i < partitions@.len() implies (#[trigger] partitions@[i])@
                != row@ by {
                assert(views[i] == partitions@[i]@);
            }
        }
    }
    holds_row(partitions, row)
}

/// The dialect of a table whose partition columns are character strings, whole numbers and truth
/// values.
#[derive(Debug, Clone, Copy)]
pub struct HiveDialect;

impl PartitionDialect for HiveDialect {
    open spec fn escaped(&self, name: Seq<char>) -> Seq<char> {
        escaped_name(name)
    }

    open spec fn unescaped(&self, segment: Seq<char>) -> Option<Seq<char>> {
        unescaped_name(segment)
    }

    open spec fn formatted(
        &self,
        datum: Seq<char>,
        data_type: DataTypeView,
        default_partition_name: Seq<char>,
        legacy_partition_name: bool,
    ) -> Option<Seq<char>> {
        hive_spelling(datum, data_type)
    }

    open spec fn parsed(&self, value: Seq<char>, data_type: DataTypeView) -> Option<Seq<char>> {
        hive_value(value, data_type.kind)
    }

    open spec fn computer_check(&self, computer: PartitionComputerView) -> Result<(), ErrorView> {
        match all_ok(columns_named(computer.fields, computer.partition_keys)) {
            Ok(_) => Ok(()),
            Err(error) => Err(error),
        }
    }

    open spec fn computed_path(
        &self,
        computer: PartitionComputerView,
        row: Seq<Option<Seq<char>>>,
    ) -> Result<Seq<char>, ErrorView> {
        hive_computed_path(computer, row)
    }

    open spec fn catalog_path(
        &self,
        paths: PartitionPathsView,
        spec: Map<Seq<char>, Seq<char>>,
    ) -> Result<Seq<char>, ErrorView> {
        hive_spec_path(paths.partition_keys, spec, paths.only_value_in_path)
    }

    open spec fn catalog_name(
        &self,
        paths: PartitionPathsView,
        spec: Map<Seq<char>, Seq<char>>,
    ) -> Result<Seq<char>, ErrorView> {
        hive_spec_path(paths.partition_keys, spec, false)
    }

    open spec fn name_pattern(
        &self,
        paths: PartitionPathsView,
        values: Seq<Seq<char>>,
    ) -> Option<Seq<char>> {
        hive_pattern(paths.partition_keys, values)
    }

    open spec fn entry_matches(
        &self,
        filter: PartitionFilter,
        row: Seq<Option<Seq<char>>>,
    ) -> Result<bool, ErrorView> {
        match filter {
            PartitionFilter::Predicate(predicate) => Ok(truth(predicate, row) == Some(true)),
            PartitionFilter::PartitionSet { partitions } => Ok(
                exists|i: int| 0 <= i < partitions@.len() && (#[trigger] partitions@[i])@ == row,
            ),
        }
    }

    fn escape_path_name(&self, name: &str) -> (r: String) {
        escape(name)
    }

    fn unescape_path_name(&self, segment: &str) -> (r: Option<String>) {
        unescape(segment)
    }

    fn format_partition_value(
        &self,
        datum: &Datum,
        data_type: &DataType,
        default_partition_name: &str,
        legacy_partition_name: bool,
    ) -> (r: Option<String>) {
        spell(datum, data_type)
    }

    fn parse_format_partition_value(&self, value: &str, data_type: &DataType) -> (r: Option<
        Datum,
    >) {
        read_value(value, data_type.kind)
    }

    fn check_partition_computer(&self, computer: &PartitionComputer) -> (r: Result<(), Error>) {
        match find_columns(computer.fields, computer.partition_keys) {
            Ok(_) => Ok(()),
            Err(error) => Err(error),
        }
    }

    fn generate_partition_path(&self, computer: &PartitionComputer, row: &BinaryRow) -> (r: Result<
        String,
        Error,
    >) {
        let columns = match find_columns(computer.fields, computer.partition_keys) {
            Ok(columns) => columns,
            Err(error) => {
                return Err(error);
            },
        };
        let values = match spell_row(row, &columns, computer.default_partition_name) {
            Ok(values) => values,
            Err(error) => {
                return Err(error);
            },
        };
        proof {
            let views = columns@.map_values(|c: &DataField| c@);
            lemma_all_ok_values(columns_named(computer@.fields, computer@.partition_keys));
            lemma_all_ok_values(hive_path_values(row@, views, computer@.default_partition_name));
        }
        Ok(write_path(computer.partition_keys, &values, false))
    }

    fn relative_path(&self, paths: &FormatTablePartitionPaths, spec: &TextMap) -> (r: Result<
        String,
        Error,
    >) {
        write_spec_path(&paths.partition_keys, spec, paths.only_value_in_path)
    }

    fn partition_name(&self, paths: &FormatTablePartitionPaths, spec: &TextMap) -> (r: Result<
        String,
        Error,
    >) {
        write_spec_path(&paths.partition_keys, spec, false)
    }

    fn name_prefix_pattern(&self, paths: &FormatTablePartitionPaths, values: &Vec<String>) -> (r:
        Option<String>) {
        let keys = &paths.partition_keys;
        if values.len() == 0 || keys.len() == 0 {
            return None;
        }
        if values.len() > keys.len() {
            let first = first_texts(values, keys.len());
            Some(write_path(keys, &first, false))
        } else {
            let mut name = write_path(keys, values, false);
            if values.len() < keys.len() {
                name.append("/%");
            } else {
                assert(texts(values@).take(keys@.len() as int) =~= texts(values@));
            }
            Some(name)
        }
    }

    fn matches_entry(&self, filter: &PartitionFilter, row: &BinaryRow) -> (r: Result<bool, Error>) {
        match filter {
            PartitionFilter::Predicate(predicate) => {
                let holds = match evaluate(predicate, row) {
                    Some(holds) => holds,
                    None => false,
                };
                Ok(holds)
            },
            PartitionFilter::PartitionSet { partitions } => Ok(is_enumerated(partitions, row)),
        }
    }
}

/// The first texts.
fn first_texts(strings: &Vec<String>, count: usize) -> (r: Vec<String>)
    requires
        count <= strings@.len(),
    ensures
        texts(r@) == texts(strings@).take(count as int),
{
    let mut r: Vec<String> = Vec::new();
    let mut i: usize = 0;
    while i < count
        invariant
            0 <= i <= count <= strings@.len(),
            r@.len() == i,
            forall|j: int| 0 <= j < i ==> (#[trigger] r@[j])@ == strings@[j]@,
        decreases count - i,
    {
        r.push(strings[i].clone());
        i = i + 1;
    }
    assert(texts(r@) =~= texts(strings@).take(count as int));
    r
}

} // verus!
