//! Text as sequences of characters: trimming, searching, splitting and joining.
//!
//! The specification functions describe what the string operations of the crate mean; the
//! executable functions below them are proved against those descriptions.

use vstd::prelude::*;
use vstd::string::*;

use crate::round_trip::lemma_joined_first;

verus! {

/// `s` without the run of `c` that it starts with.
pub open spec fn trim_start(s: Seq<char>, c: char) -> Seq<char>
    decreases s.len(),
{
    if s.len() > 0 && s.first() == c {
        trim_start(s.drop_first(), c)
    } else {
        s
    }
}

/// `s` without the run of `c` that it ends with.
pub open spec fn trim_end(s: Seq<char>, c: char) -> Seq<char>
    decreases s.len(),
{
    if s.len() > 0 && s.last() == c {
        trim_end(s.drop_last(), c)
    } else {
        s
    }
}

/// Whether `s` begins with `prefix`.
pub open spec fn has_prefix(s: Seq<char>, prefix: Seq<char>) -> bool {
    prefix.len() <= s.len() && s.take(prefix.len() as int) == prefix
}

/// Whether `s` ends with `suffix`.
pub open spec fn has_suffix(s: Seq<char>, suffix: Seq<char>) -> bool {
    suffix.len() <= s.len() && s.skip(s.len() - suffix.len()) == suffix
}

/// The position of the first `c` in `s`, or the length of `s` where there is none.
pub open spec fn first_position(s: Seq<char>, c: char) -> nat
    decreases s.len(),
{
    if s.len() == 0 || s.first() == c {
        0
    } else {
        1 + first_position(s.drop_first(), c)
    }
}

/// The position of the last `c` in `s`, or -1 where there is none.
pub open spec fn last_position(s: Seq<char>, c: char) -> int
    decreases s.len(),
{
    if s.len() == 0 {
        -1
    } else if s.last() == c {
        s.len() - 1
    } else {
        last_position(s.drop_last(), c)
    }
}

/// The pieces of `s` between the occurrences of `c`; there is always at least one.
pub open spec fn split_on(s: Seq<char>, c: char) -> Seq<Seq<char>>
    decreases s.len(),
{
    let at = first_position(s, c) as int;
    if at >= s.len() {
        seq![s]
    } else {
        seq![s.take(at)] + split_on(s.skip(at + 1), c)
    }
}

/// The pieces in order, with `separator` between each two of them.
pub open spec fn joined(pieces: Seq<Seq<char>>, separator: Seq<char>) -> Seq<char>
    decreases pieces.len(),
{
    if pieces.len() == 0 {
        Seq::empty()
    } else if pieces.len() == 1 {
        pieces[0]
    } else {
        joined(pieces.drop_last(), separator) + separator + pieces.last()
    }
}

/// The lower-case letter for an upper-case ASCII letter; any other character as it is.
pub open spec fn ascii_lower_char(c: char) -> char {
    if 'A' <= c <= 'Z' {
        ((c as u8) + 32) as char
    } else {
        c
    }
}

/// `s` with every upper-case ASCII letter lowered.
pub open spec fn ascii_lower(s: Seq<char>) -> Seq<char> {
    s.map_values(|c: char| ascii_lower_char(c))
}

/// What the strings hold.
pub open spec fn texts(strings: Seq<String>) -> Seq<Seq<char>> {
    strings.map_values(|s: String| s@)
}

/// Appending a character to a string: `String::push` leaves what was there and adds the
/// character at the end.
pub assume_specification[ String::push ](s: &mut String, c: char)
    ensures
        final(s)@ == old(s)@.push(c),
;

pub(crate) proof fn lemma_first_position(s: Seq<char>, c: char)
    ensures
        first_position(s, c) <= s.len(),
        first_position(s, c) < s.len() ==> s[first_position(s, c) as int] == c,
        forall|i: int| 0 <= i < first_position(s, c) ==> s[i] != c,
    decreases s.len(),
{
    if s.len() > 0 && s.first() != c {
        lemma_first_position(s.drop_first(), c);
        assert forall|i: int| 0 <= i < first_position(s, c) implies s[i] != c by {
            if i > 0 {
                assert(s[i] == s.drop_first()[i - 1]);
            }
        }
    }
}

/// The first position is the one at which `c` stands with no `c` before it.
pub(crate) proof fn lemma_first_position_is(s: Seq<char>, c: char, at: int)
    requires
        0 <= at <= s.len(),
        at < s.len() ==> s[at] == c,
        forall|i: int| 0 <= i < at ==> s[i] != c,
    ensures
        first_position(s, c) == at,
{
    lemma_first_position(s, c);
}

pub(crate) proof fn lemma_last_position(s: Seq<char>, c: char)
    ensures
        -1 <= last_position(s, c) < s.len(),
        last_position(s, c) >= 0 ==> s[last_position(s, c)] == c,
        forall|i: int| last_position(s, c) < i < s.len() ==> s[i] != c,
    decreases s.len(),
{
    if s.len() > 0 && s.last() != c {
        lemma_last_position(s.drop_last(), c);
        assert forall|i: int| last_position(s, c) < i < s.len() implies s[i] != c by {
            if i < s.len() - 1 {
                assert(s[i] == s.drop_last()[i]);
            }
        }
    }
}

/// Trimming keeps a suffix and removes only `c`.
pub(crate) proof fn lemma_trim_start(s: Seq<char>, c: char)
    ensures
        trim_start(s, c).len() <= s.len(),
        trim_start(s, c) == s.skip(s.len() - trim_start(s, c).len()),
        trim_start(s, c).len() > 0 ==> trim_start(s, c).first() != c,
        forall|i: int| 0 <= i < s.len() - trim_start(s, c).len() ==> s[i] == c,
    decreases s.len(),
{
    if s.len() > 0 && s.first() == c {
        let rest = s.drop_first();
        lemma_trim_start(rest, c);
        assert(rest.skip(rest.len() - trim_start(s, c).len()) == s.skip(
            s.len() - trim_start(s, c).len(),
        ));
        assert forall|i: int| 0 <= i < s.len() - trim_start(s, c).len() implies s[i] == c by {
            if i > 0 {
                assert(s[i] == rest[i - 1]);
            }
        }
    } else {
        assert(s.skip(0) == s);
    }
}

/// Trimming keeps a prefix and removes only `c`.
pub(crate) proof fn lemma_trim_end(s: Seq<char>, c: char)
    ensures
        trim_end(s, c).len() <= s.len(),
        trim_end(s, c) == s.take(trim_end(s, c).len() as int),
        trim_end(s, c).len() > 0 ==> trim_end(s, c).last() != c,
        forall|i: int| trim_end(s, c).len() <= i < s.len() ==> s[i] == c,
    decreases s.len(),
{
    if s.len() > 0 && s.last() == c {
        lemma_trim_end(s.drop_last(), c);
        assert(s.drop_last().take(trim_end(s, c).len() as int) == s.take(trim_end(s, c).len() as int));
        assert forall|i: int| trim_end(s, c).len() <= i < s.len() implies s[i] == c by {
            if i < s.len() - 1 {
                assert(s[i] == s.drop_last()[i]);
            }
        }
    } else {
        assert(s.take(s.len() as int) == s);
    }
}

/// Splitting at the first `c` peels off one piece.
pub(crate) proof fn lemma_split_on_step(s: Seq<char>, c: char, at: int)
    requires
        0 <= at < s.len(),
        s[at] == c,
        forall|i: int| 0 <= i < at ==> s[i] != c,
    ensures
        split_on(s, c) == seq![s.take(at)] + split_on(s.skip(at + 1), c),
{
    lemma_first_position_is(s, c, at);
}

/// A text without `c` is one piece.
pub(crate) proof fn lemma_split_on_whole(s: Seq<char>, c: char)
    requires
        forall|i: int| 0 <= i < s.len() ==> s[i] != c,
    ensures
        split_on(s, c) == seq![s],
{
    lemma_first_position_is(s, c, s.len() as int);
}

/// The characters of `s`, one by one.
pub(crate) fn chars_of(s: &str) -> (r: Vec<char>)
    ensures
        r@ == s@,
{
    let mut r: Vec<char> = Vec::new();
    for c in it: s.chars()
        invariant
            r@ == s@.take(it.index() as int),
            it.seq() == s@,
    {
        r.push(c);
    }
    assert(s@.take(s@.len() as int) == s@);
    r
}

/// `s` without the leading run of `c`.
pub(crate) fn trim_start_char<'a>(s: &'a str, c: char) -> (r: &'a str)
    ensures
        r@ == trim_start(s@, c),
{
    let chars = chars_of(s);
    let mut from: usize = 0;
    assert(s@.skip(0) == s@);
    while from < chars.len() && chars[from] == c
        invariant
            0 <= from <= chars@.len(),
            chars@ == s@,
            trim_start(s@, c) == trim_start(s@.skip(from as int), c),
        decreases chars@.len() - from,
    {
        assert(s@.skip(from as int).drop_first() == s@.skip(from + 1));
        from = from + 1;
    }
    let r = s.substring_char(from, chars.len());
    assert(r@ == s@.skip(from as int));
    r
}

/// `s` without the trailing run of `c`.
pub(crate) fn trim_end_char<'a>(s: &'a str, c: char) -> (r: &'a str)
    ensures
        r@ == trim_end(s@, c),
{
    let chars = chars_of(s);
    let mut to: usize = chars.len();
    assert(s@.take(s@.len() as int) == s@);
    while to > 0 && chars[to - 1] == c
        invariant
            0 <= to <= chars@.len(),
            chars@ == s@,
            trim_end(s@, c) == trim_end(s@.take(to as int), c),
        decreases to,
    {
        assert(s@.take(to as int).drop_last() == s@.take(to - 1));
        to = to - 1;
    }
    let r = s.substring_char(0, to);
    assert(r@ == s@.take(to as int));
    r
}

/// Whether two texts hold the same characters.
pub(crate) fn same_text(a: &str, b: &str) -> (r: bool)
    ensures
        r == (a@ == b@),
{
    let x = chars_of(a);
    let y = chars_of(b);
    if x.len() != y.len() {
        return false;
    }
    let mut i: usize = 0;
    while i < x.len()
        invariant
            0 <= i <= x@.len(),
            x@ == a@,
            y@ == b@,
            x@.len() == y@.len(),
            x@.take(i as int) == y@.take(i as int),
        decreases x@.len() - i,
    {
        if x[i] != y[i] {
            assert(a@[i as int] != b@[i as int]);
            return false;
        }
        assert(x@.take(i + 1) == x@.take(i as int).push(x@[i as int]));
        assert(y@.take(i + 1) == y@.take(i as int).push(y@[i as int]));
        i = i + 1;
    }
    assert(x@.take(x@.len() as int) == x@);
    assert(y@.take(y@.len() as int) == y@);
    true
}

/// The rest of `s` behind `prefix`, where `s` begins with it.
pub(crate) fn strip_prefix_text<'a>(s: &'a str, prefix: &str) -> (r: Option<&'a str>)
    ensures
        r is Some <==> has_prefix(s@, prefix@),
        r matches Some(rest) ==> rest@ == s@.skip(prefix@.len() as int),
{
    let len = s.unicode_len();
    let prefix_len = prefix.unicode_len();
    if prefix_len > len {
        return None;
    }
    let head = s.substring_char(0, prefix_len);
    assert(head@ == s@.take(prefix@.len() as int));
    if same_text(head, prefix) {
        let rest = s.substring_char(prefix_len, len);
        assert(rest@ == s@.skip(prefix@.len() as int));
        Some(rest)
    } else {
        None
    }
}

/// Whether `s` ends with `suffix`.
pub(crate) fn ends_with_text(s: &str, suffix: &str) -> (r: bool)
    ensures
        r == has_suffix(s@, suffix@),
{
    let len = s.unicode_len();
    let suffix_len = suffix.unicode_len();
    if suffix_len > len {
        return false;
    }
    let tail = s.substring_char(len - suffix_len, len);
    assert(tail@ == s@.skip(s@.len() - suffix@.len()));
    same_text(tail, suffix)
}

/// `s` with the upper-case ASCII letters lowered.
pub(crate) fn to_ascii_lower(s: &str) -> (r: String)
    ensures
        r@ == ascii_lower(s@),
{
    let chars = chars_of(s);
    let mut r = String::new();
    let mut i: usize = 0;
    while i < chars.len()
        invariant
            0 <= i <= chars@.len(),
            chars@ == s@,
            r@ == ascii_lower(s@.take(i as int)),
        decreases chars@.len() - i,
    {
        let c = chars[i];
        let lowered = if 'A' <= c && c <= 'Z' {
            ((c as u8) + 32) as char
        } else {
            c
        };
        r.push(lowered);
        assert(ascii_lower(s@.take(i + 1)) == ascii_lower(s@.take(i as int)).push(lowered));
        i = i + 1;
    }
    assert(s@.take(s@.len() as int) == s@);
    r
}

/// The pieces of `s` between the occurrences of `c`.
pub(crate) fn split_on_char(s: &str, c: char) -> (r: Vec<String>)
    ensures
        texts(r@) == split_on(s@, c),
{
    let chars = chars_of(s);
    let mut pieces: Vec<String> = Vec::new();
    let mut from: usize = 0;
    let mut i: usize = 0;
    assert(s@.skip(0) == s@);
    assert(texts(pieces@) + split_on(s@, c) == split_on(s@, c));
    while i < chars.len()
        invariant
            0 <= from <= i <= chars@.len(),
            chars@ == s@,
            forall|j: int| from <= j < i ==> s@[j] != c,
            texts(pieces@) + split_on(s@.skip(from as int), c) == split_on(s@, c),
        decreases chars@.len() - i,
    {
        if chars[i] == c {
            let piece = s.substring_char(from, i);
            let ghost rest = s@.skip(from as int);
            let ghost before = texts(pieces@);
            proof {
                lemma_split_on_step(rest, c, i - from);
                assert(rest.skip(i - from + 1) == s@.skip(i + 1));
                assert(rest.take(i - from) == s@.subrange(from as int, i as int));
            }
            pieces.push(piece.to_string());
            proof {
                assert(texts(pieces@) == before.push(piece@));
                assert(before.push(piece@) + split_on(s@.skip(i + 1), c)
                    == before + (seq![piece@] + split_on(s@.skip(i + 1), c)));
            }
            from = i + 1;
        }
        i = i + 1;
    }
    let piece = s.substring_char(from, chars.len());
    let ghost before = texts(pieces@);
    proof {
        assert(piece@ == s@.skip(from as int));
        lemma_split_on_whole(s@.skip(from as int), c);
    }
    pieces.push(piece.to_string());
    proof {
        assert(texts(pieces@) == before.push(piece@));
        assert(before.push(piece@) == before + seq![piece@]);
    }
    pieces
}

/// The pieces in order with `separator` between them.
pub(crate) fn join_texts(pieces: &Vec<String>, separator: &str) -> (r: String)
    ensures
        r@ == joined(texts(pieces@), separator@),
{
    let mut r = String::new();
    let mut i: usize = 0;
    let ghost all = texts(pieces@);
    while i < pieces.len()
        invariant
            0 <= i <= pieces@.len(),
            all == texts(pieces@),
            r@ == joined(all.take(i as int), separator@),
        decreases pieces@.len() - i,
    {
        if i > 0 {
            r.append(separator);
        }
        r.append(pieces[i].as_str());
        proof {
            let next = all.take(i + 1);
            assert(next.drop_last() == all.take(i as int));
            assert(next.last() == pieces@[i as int]@);
            if i == 0 {
                assert(r@ == next[0]);
            }
        }
        i = i + 1;
    }
    assert(all.take(pieces@.len() as int) == all);
    r
}

/// A copy of the strings.
pub(crate) fn copy_texts(strings: &Vec<String>) -> (r: Vec<String>)
    ensures
        r@ == strings@,
{
    let mut r: Vec<String> = Vec::new();
    let mut i: usize = 0;
    while i < strings.len()
        invariant
            0 <= i <= strings@.len(),
            r@ == strings@.take(i as int),
        decreases strings@.len() - i,
    {
        r.push(strings[i].clone());
        i = i + 1;
    }
    r
}

/// Trimming takes off characters of the one kind alone, and leaves none of them at the end.
pub proof fn law_trim_end(s: Seq<char>, c: char, run: nat)
    requires
        s.len() == 0 || s.last() != c,
    ensures
        trim_end(s + Seq::new(run, |i: int| c), c) == s,
    decreases run,
{
    let all = s + Seq::new(run, |i: int| c);
    if run == 0 {
        assert(all =~= s);
    } else {
        assert(all.drop_last() =~= s + Seq::new((run - 1) as nat, |i: int| c));
        law_trim_end(s, c, (run - 1) as nat);
    }
}

/// Trimming takes off characters of the one kind alone, and leaves none of them at the start.
pub proof fn law_trim_start(s: Seq<char>, c: char, run: nat)
    requires
        s.len() == 0 || s.first() != c,
    ensures
        trim_start(Seq::new(run, |i: int| c) + s, c) == s,
    decreases run,
{
    let all = Seq::new(run, |i: int| c) + s;
    if run == 0 {
        assert(all =~= s);
    } else {
        assert(all.drop_first() =~= Seq::new((run - 1) as nat, |i: int| c) + s);
        law_trim_start(s, c, (run - 1) as nat);
    }
}

/// A text begins with what it is made of at the front, and ends with what it is made of at the
/// back, and with nothing else.
pub proof fn law_beginnings_and_ends(s: Seq<char>, part: Seq<char>)
    ensures
        has_prefix(s, part) <==> exists|rest: Seq<char>| s == #[trigger] (part + rest),
        has_suffix(s, part) <==> exists|rest: Seq<char>| s == #[trigger] (rest + part),
{
    if has_prefix(s, part) {
        assert(s =~= part + s.skip(part.len() as int));
    }
    if exists|rest: Seq<char>| s == #[trigger] (part + rest) {
        assert(s.take(part.len() as int) =~= part);
    }
    if has_suffix(s, part) {
        assert(s =~= s.take(s.len() - part.len()) + part);
    }
    if exists|rest: Seq<char>| s == #[trigger] (rest + part) {
        assert(s.skip(s.len() - part.len()) =~= part);
    }
}

/// Splitting a text at a character, and putting that character between the pieces, gives the text;
/// no piece holds the character.
pub proof fn law_split_pieces(s: Seq<char>, c: char)
    ensures
        split_on(s, c).len() > 0,
        joined(split_on(s, c), seq![c]) == s,
        forall|i: int| 0 <= i < split_on(s, c).len() ==> !(#[trigger] split_on(s, c)[i]).contains(c),
    decreases s.len(),
{
    let at = first_position(s, c) as int;
    lemma_first_position(s, c);
    let pieces = split_on(s, c);
    if at >= s.len() {
        assert forall|i: int| 0 <= i < pieces.len() implies !(#[trigger] pieces[i]).contains(c) by {
            assert(pieces[i] == s);
        }
    } else {
        let rest = s.skip(at + 1);
        law_split_pieces(rest, c);
        let others = split_on(rest, c);
        let first = s.take(at);
        assert(pieces == seq![first] + others);
        assert(pieces.drop_first() =~= others);
        lemma_joined_first(pieces, seq![c]);
        assert(first + seq![c] + rest =~= s);
        assert forall|i: int| 0 <= i < pieces.len() implies !(#[trigger] pieces[i]).contains(c) by {
            if i > 0 {
                assert(pieces[i] == others[i - 1]);
            } else {
                assert forall|k: int| 0 <= k < first.len() implies first[k] != c by {
                    assert(first[k] == s[k]);
                }
            }
        }
    }
}

/// What is joined of pieces is the first of them, then the separator and what is joined of the
/// others.
pub proof fn law_joined_pieces(first: Seq<char>, others: Seq<Seq<char>>, separator: Seq<char>)
    ensures
        joined(seq![first], separator) == first,
        others.len() > 0 ==> joined(seq![first] + others, separator) == first + separator + joined(
            others,
            separator,
        ),
        joined(Seq::empty(), separator) == Seq::<char>::empty(),
{
    if others.len() > 0 {
        let pieces = seq![first] + others;
        lemma_joined_first(pieces, separator);
        assert(pieces.drop_first() =~= others);
    }
}

/// Lowering touches the letters from A to Z alone, each on its own, and each becomes the letter as
/// far from a as it was from A.
pub proof fn law_lowering(s: Seq<char>, i: int)
    requires
        0 <= i < s.len(),
    ensures
        ascii_lower(s).len() == s.len(),
        'A' <= s[i] <= 'Z' ==> ascii_lower(s)[i] as int - 'a' as int == s[i] as int - 'A' as int,
        !('A' <= s[i] <= 'Z') ==> ascii_lower(s)[i] == s[i],
{
    lemma_lowered_letter(s[i]);
}

proof fn lemma_lowered_letter(c: char)
    ensures
        'A' <= c <= 'Z' ==> ascii_lower_char(c) as int - 'a' as int == c as int - 'A' as int,
{
}

} // verus!
