//! The file formats that a format table can be read from.

use vstd::prelude::*;
use vstd::string::*;

use crate::error::{Error, ErrorView};
use crate::text::{ascii_lower, join_texts, joined, same_text, texts, to_ascii_lower};

verus! {

/// The names of the formats, in the order in which they are listed to the user.
pub open spec fn supported_formats() -> Seq<Seq<char>> {
    seq!["parquet"@, "orc"@, "avro"@, "row"@, "mosaic"@]
}

/// What is said about a format, given in lower case, that is not supported.
pub open spec fn unsupported_format(format: Seq<char>) -> ErrorView {
    ErrorView::Unsupported {
        message: "Format table file.format '"@ + format
            + "' is not supported by the Rust reader yet, expected one of: "@ + joined(
            supported_formats(),
            ", "@,
        ),
    }
}

/// The extension of the data files of a format, whose name may be in either case.
pub open spec fn extension_of(format: Seq<char>) -> Result<Seq<char>, ErrorView> {
    let lowered = ascii_lower(format);
    if supported_formats().contains(lowered) {
        Ok(seq!['.'] + lowered)
    } else {
        Err(unsupported_format(lowered))
    }
}

/// The formats that can be read.
pub fn supported_format_table_formats() -> (r: Vec<&'static str>)
    ensures
        r@.map_values(|s: &str| s@) == supported_formats(),
{
    let r: Vec<&'static str> = vec!["parquet", "orc", "avro", "row", "mosaic"];
    assert(r@.map_values(|s: &str| s@) =~= supported_formats());
    r
}

/// The supported formats in one line, separated by commas.
fn listed_formats() -> (r: String)
    ensures
        r@ == joined(supported_formats(), ", "@),
{
    let formats = supported_format_table_formats();
    let mut names: Vec<String> = Vec::new();
    let mut i: usize = 0;
    while i < formats.len()
        invariant
            0 <= i <= formats@.len(),
            formats@.map_values(|s: &str| s@) == supported_formats(),
            texts(names@) == supported_formats().take(i as int),
        decreases formats@.len() - i,
    {
        let ghost before = texts(names@);
        names.push(formats[i].to_string());
        proof {
            assert(formats@.map_values(|s: &str| s@)[i as int] == supported_formats()[i as int]);
            assert(texts(names@) =~= before.push(supported_formats()[i as int]));
            assert(supported_formats().take(i + 1) =~= supported_formats().take(i as int).push(
                supported_formats()[i as int],
            ));
        }
        i = i + 1;
    }
    assert(supported_formats().take(supported_formats().len() as int) == supported_formats());
    join_texts(&names, ", ")
}

/// The extension of the data files of a format. The case of the format's name does not count.
/// A name that is not among the supported ones is an error that quotes the name and lists them.
pub fn supported_format_table_extension(format: &str) -> (r: Result<&'static str, Error>)
    ensures
        match r {
            Ok(extension) => extension_of(format@) == Ok::<Seq<char>, ErrorView>(extension@),
            Err(error) => extension_of(format@) == Err::<Seq<char>, ErrorView>(error@),
        },
{
    let lowered = to_ascii_lower(format);
    let name = lowered.as_str();
    let ghost all = supported_formats();
    proof {
        assert(all[0] == "parquet"@ && all[1] == "orc"@ && all[2] == "avro"@ && all[3] == "row"@
            && all[4] == "mosaic"@);
        reveal_strlit("parquet");
        reveal_strlit(".parquet");
        reveal_strlit("orc");
        reveal_strlit(".orc");
        reveal_strlit("avro");
        reveal_strlit(".avro");
        reveal_strlit("row");
        reveal_strlit(".row");
        reveal_strlit("mosaic");
        reveal_strlit(".mosaic");
        assert(".parquet"@ =~= seq!['.'] + "parquet"@);
        assert(".orc"@ =~= seq!['.'] + "orc"@);
        assert(".avro"@ =~= seq!['.'] + "avro"@);
        assert(".row"@ =~= seq!['.'] + "row"@);
        assert(".mosaic"@ =~= seq!['.'] + "mosaic"@);
    }
    if same_text(name, "parquet") {
        Ok(".parquet")
    } else if same_text(name, "orc") {
        Ok(".orc")
    } else if same_text(name, "avro") {
        Ok(".avro")
    } else if same_text(name, "row") {
        Ok(".row")
    } else if same_text(name, "mosaic") {
        Ok(".mosaic")
    } else {
        let mut message = "Format table file.format '".to_string();
        message.append(name);
        message.append("' is not supported by the Rust reader yet, expected one of: ");
        message.append(listed_formats().as_str());
        Err(Error::Unsupported { message })
    }
}

/// The case of the name of a format does not count.
pub proof fn law_format_case_does_not_count(a: Seq<char>, b: Seq<char>)
    requires
        ascii_lower(a) == ascii_lower(b),
    ensures
        extension_of(a) == extension_of(b),
{
}

/// Every supported format is accepted, and its extension is its name behind a dot.
pub proof fn law_supported_formats_are_accepted(i: int)
    requires
        0 <= i < supported_formats().len(),
    ensures
        extension_of(supported_formats()[i]) == Ok::<Seq<char>, ErrorView>(
            seq!['.'] + supported_formats()[i],
        ),
{
    reveal_strlit("parquet");
    reveal_strlit("orc");
    reveal_strlit("avro");
    reveal_strlit("row");
    reveal_strlit("mosaic");
    let format = supported_formats()[i];
    assert(format == "parquet"@ || format == "orc"@ || format == "avro"@ || format == "row"@
        || format == "mosaic"@);
    assert(ascii_lower(format) =~= format);
}

/// Whether a text stands somewhere in another one.
pub open spec fn mentions(text: Seq<char>, word: Seq<char>) -> bool {
    exists|before: Seq<char>, after: Seq<char>|
        #![trigger before + word + after]
        text == before + word + after
}

/// A joined text mentions each of its pieces.
proof fn lemma_joined_mentions(pieces: Seq<Seq<char>>, separator: Seq<char>, i: int)
    requires
        0 <= i < pieces.len(),
    ensures
        mentions(joined(pieces, separator), pieces[i]),
    decreases pieces.len(),
{
    let none = Seq::<char>::empty();
    let whole = joined(pieces, separator);
    if pieces.len() == 1 {
        assert(whole =~= none + pieces[i] + none);
    } else {
        let front = joined(pieces.drop_last(), separator);
        if i == pieces.len() - 1 {
            assert(whole =~= (front + separator) + pieces[i] + none);
        } else {
            lemma_joined_mentions(pieces.drop_last(), separator, i);
            assert(pieces.drop_last()[i] == pieces[i]);
            let (before, after) = choose|before: Seq<char>, after: Seq<char>|
                #![trigger before + pieces[i] + after]
                front == before + pieces[i] + after;
            assert(whole =~= before + pieces[i] + (after + separator + pieces.last()));
        }
    }
}

/// A format that is not supported is refused with a message that quotes its name, in lower case,
/// and mentions every supported format.
pub proof fn law_unsupported_format_lists_the_supported_ones(format: Seq<char>)
    requires
        !supported_formats().contains(ascii_lower(format)),
    ensures
        extension_of(format) matches Err(ErrorView::Unsupported { message }) && {
            &&& mentions(message, seq!['\''] + ascii_lower(format) + seq!['\''])
            &&& forall|i: int|
                0 <= i < supported_formats().len() ==> mentions(
                    message,
                    #[trigger] supported_formats()[i],
                )
        },
{
    let lowered = ascii_lower(format);
    let message = unsupported_format(lowered)->Unsupported_message;
    let head = "Format table file.format '"@;
    let middle = "' is not supported by the Rust reader yet, expected one of: "@;
    let listed = joined(supported_formats(), ", "@);
    reveal_strlit("Format table file.format '");
    reveal_strlit("' is not supported by the Rust reader yet, expected one of: ");
    let quoted = seq!['\''] + lowered + seq!['\''];
    assert(message =~= head.drop_last() + quoted + (middle.drop_first() + listed));
    assert forall|i: int| 0 <= i < supported_formats().len() implies mentions(
        message,
        #[trigger] supported_formats()[i],
    ) by {
        lemma_joined_mentions(supported_formats(), ", "@, i);
        let word = supported_formats()[i];
        let (before, after) = choose|before: Seq<char>, after: Seq<char>|
            #![trigger before + word + after]
            listed == before + word + after;
        assert(message =~= (head + lowered + middle + before) + word + after);
    }
}

/// The formats that are accepted are parquet, orc, avro, row and mosaic, in either case of their
/// letters; the extension of each is its name, in lower case, behind a dot.
pub proof fn law_formats(format: Seq<char>)
    ensures
        ({
            let lowered = ascii_lower(format);
            if lowered == "parquet"@ || lowered == "orc"@ || lowered == "avro"@ || lowered
                == "row"@ || lowered == "mosaic"@ {
                extension_of(format) == Ok::<Seq<char>, ErrorView>(seq!['.'] + lowered)
            } else {
                extension_of(format) matches Err(ErrorView::Unsupported { .. })
            }
        }),
{
    let all = supported_formats();
    assert(all[0] == "parquet"@ && all[1] == "orc"@ && all[2] == "avro"@ && all[3] == "row"@
        && all[4] == "mosaic"@);
    let lowered = ascii_lower(format);
    if all.contains(lowered) {
        let i = choose|i: int| 0 <= i < all.len() && all[i] == lowered;
    }
}

} // verus!
