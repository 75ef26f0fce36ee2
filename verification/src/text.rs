//! Text as sequences of characters: splitting, joining and slicing.

use vstd::prelude::*;

verus! {

/// `String::push` of the standard library appends one character.
pub assume_specification[ String::push ](text: &mut String, c: char)
    ensures
        final(text)@ == old(text)@.push(c),
;

/// The pieces of `s` between the occurrences of `sep`: one more piece than
/// there are separators, so the empty text has one (empty) piece.
pub open spec fn split(s: Seq<char>, sep: char) -> Seq<Seq<char>>
    decreases s.len(),
{
    if s.len() == 0 {
        seq![s]
    } else {
        let before = split(s.drop_last(), sep);
        if s.last() == sep {
            before.push(Seq::empty())
        } else {
            before.drop_last().push(before.last().push(s.last()))
        }
    }
}

/// The pieces one after the other, with `sep` between neighbours.
pub open spec fn joined(pieces: Seq<Seq<char>>, sep: Seq<char>) -> Seq<char>
    decreases pieces.len(),
{
    if pieces.len() == 0 {
        Seq::empty()
    } else if pieces.len() == 1 {
        pieces[0]
    } else {
        joined(pieces.drop_last(), sep) + sep + pieces.last()
    }
}

/// Where `c` first occurs in `s` at or after `from`; the length of `s` if it
/// does not.
pub open spec fn position(s: Seq<char>, c: char, from: nat) -> nat
    decreases s.len() - from,
{
    if from >= s.len() {
        s.len()
    } else if s[from as int] == c {
        from
    } else {
        position(s, c, from + 1)
    }
}

/// The text before and after the first `sep`, if there is one.
pub open spec fn split_once(s: Seq<char>, sep: char) -> Option<(Seq<char>, Seq<char>)> {
    let i = position(s, sep, 0) as int;
    if i < s.len() {
        Some((s.take(i), s.skip(i + 1)))
    } else {
        None
    }
}

/// Whether `s` ends with `tail`.
pub open spec fn ends_with(s: Seq<char>, tail: Seq<char>) -> bool {
    s.len() >= tail.len() && s.skip(s.len() - tail.len()) == tail
}

/// Where a character is found it stands.
pub(crate) proof fn lemma_found(s: Seq<char>, c: char, from: nat)
    ensures
        position(s, c, from) < s.len() ==> s[position(s, c, from) as int] == c,
    decreases s.len() - from,
{
    if from < s.len() {
        lemma_found(s, c, from + 1);
    }
}

/// The characters of each piece.
pub open spec fn pieces_view(pieces: Seq<Vec<char>>) -> Seq<Seq<char>> {
    Seq::new(pieces.len(), |i: int| pieces[i]@)
}

/// The characters of each text.
pub open spec fn texts_view(texts: Seq<String>) -> Seq<Seq<char>> {
    Seq::new(texts.len(), |i: int| texts[i]@)
}

/// The characters of a text that may be missing.
pub open spec fn text_view(text: Option<String>) -> Option<Seq<char>> {
    match text {
        Some(t) => Some(t@),
        None => None,
    }
}

/// Appending text without a separator only lengthens the last piece.
pub(crate) proof fn lemma_split_extend(s: Seq<char>, tail: Seq<char>, sep: char)
    requires
        !tail.contains(sep),
    ensures
        split(s, sep).len() > 0,
        split(s + tail, sep) == split(s, sep).drop_last().push(split(s, sep).last() + tail),
    decreases s.len() + tail.len(), tail.len(),
{
    if tail.len() == 0 {
        assert(s + tail == s);
        if s.len() > 0 {
            lemma_split_extend(s.drop_last(), Seq::empty(), sep);
        }
        assert(split(s, sep).last() + tail == split(s, sep).last());
        assert(split(s, sep).drop_last().push(split(s, sep).last()) == split(s, sep));
    } else {
        let shorter = tail.drop_last();
        assert forall|i: int| 0 <= i < shorter.len() implies shorter[i] != sep by {
            assert(tail.contains(tail[i]));
        }
        lemma_split_extend(s, shorter, sep);
        assert(tail.contains(tail.last()));
        assert((s + tail).drop_last() == s + shorter);
        assert((s + tail).last() == tail.last());
        let so_far = split(s + shorter, sep);
        assert(so_far.drop_last() == split(s, sep).drop_last());
        assert(so_far.last() == split(s, sep).last() + shorter);
        assert((split(s, sep).last() + shorter).push(tail.last()) == split(s, sep).last() + tail);
    }
}

/// A separator and the text after it add one piece.
pub(crate) proof fn lemma_split_append(s: Seq<char>, tail: Seq<char>, sep: char)
    requires
        !tail.contains(sep),
    ensures
        split(s + seq![sep] + tail, sep) == split(s, sep).push(tail),
{
    let marked = s + seq![sep];
    assert(marked.drop_last() == s);
    lemma_split_extend(marked, tail, sep);
    assert(split(marked, sep) == split(s, sep).push(Seq::empty()));
    assert(split(marked, sep).drop_last() == split(s, sep));
    assert(Seq::<char>::empty() + tail == tail);
}

/// Splitting undoes joining: pieces without the separator come back as they
/// were.
pub proof fn split_of_joined(pieces: Seq<Seq<char>>, sep: char)
    requires
        pieces.len() > 0,
        forall|i: int| 0 <= i < pieces.len() ==> !(#[trigger] pieces[i]).contains(sep),
    ensures
        split(joined(pieces, seq![sep]), sep) == pieces,
    decreases pieces.len(),
{
    if pieces.len() == 1 {
        let only = pieces[0];
        lemma_split_extend(Seq::empty(), only, sep);
        assert(Seq::<char>::empty() + only == only);
        assert(split(Seq::<char>::empty(), sep) == seq![Seq::<char>::empty()]);
        assert(split(Seq::<char>::empty(), sep).drop_last().push(only) == pieces);
    } else {
        split_of_joined(pieces.drop_last(), sep);
        lemma_split_append(joined(pieces.drop_last(), seq![sep]), pieces.last(), sep);
        assert(pieces.drop_last().push(pieces.last()) == pieces);
    }
}

/// No piece of a split text holds the separator, and there is always a piece.
pub proof fn split_pieces_are_free(s: Seq<char>, sep: char)
    ensures
        split(s, sep).len() > 0,
        forall|i: int| 0 <= i < split(s, sep).len() ==> !(#[trigger] split(s, sep)[i]).contains(sep),
    decreases s.len(),
{
    if s.len() > 0 {
        split_pieces_are_free(s.drop_last(), sep);
        let before = split(s.drop_last(), sep);
        assert forall|i: int| 0 <= i < split(s, sep).len() implies !(#[trigger] split(s, sep)[i]).contains(sep) by {
            if i < before.len() - 1 {
                assert(split(s, sep)[i] == before[i]);
            } else if s.last() != sep {
                assert(!before.last().contains(sep));
                assert forall|j: int| 0 <= j < split(s, sep)[i].len() implies split(s, sep)[i][j] != sep by {
                    if j < before.last().len() {
                        assert(before.last().contains(before.last()[j]));
                    }
                }
            } else if i < before.len() {
                assert(split(s, sep)[i] == before[i]);
            }
        }
    }
}

/// Joining undoes splitting.
pub proof fn joined_of_split(s: Seq<char>, sep: char)
    ensures
        joined(split(s, sep), seq![sep]) == s,
    decreases s.len(),
{
    if s.len() > 0 {
        joined_of_split(s.drop_last(), sep);
        split_pieces_are_free(s.drop_last(), sep);
        let before = split(s.drop_last(), sep);
        let now = split(s, sep);
        let sp = seq![sep];
        if s.last() == sep {
            assert(now.drop_last() == before);
            assert(joined(now, sp) == s.drop_last() + sp + Seq::<char>::empty());
            assert(s.drop_last() + sp + Seq::<char>::empty() == s);
        } else if before.len() == 1 {
            assert(now.len() == 1);
            assert(before[0] == s.drop_last());
            assert(now[0] == s.drop_last().push(s.last()));
            assert(now[0] == s);
        } else {
            assert(now.drop_last() == before.drop_last());
            assert(joined(before, sp) == joined(before.drop_last(), sp) + sp + before.last());
            assert(joined(now, sp) == joined(before.drop_last(), sp) + sp + before.last().push(s.last()));
            assert(joined(now, sp) == s.drop_last().push(s.last()));
            assert(joined(now, sp) == s);
        }
    }
}

/// A character that is searched for is not passed over.
proof fn lemma_not_passed_over(s: Seq<char>, c: char, from: nat, i: int)
    requires
        from <= i < position(s, c, from),
        i < s.len(),
    ensures
        s[i] != c,
    decreases s.len() - from,
{
    if i > from {
        lemma_not_passed_over(s, c, from + 1, i);
    }
}

/// A text is split at the first separator: what stands before it lacks the
/// separator, and the two sides with a separator between them are the text. It
/// is not split just if it has no separator.
pub proof fn texts_are_split_at_the_first_separator(s: Seq<char>, sep: char)
    ensures
        split_once(s, sep) matches Some(sides) ==> sides.0 + seq![sep] + sides.1 == s
            && !sides.0.contains(sep),
        split_once(s, sep) is None <==> !s.contains(sep),
{
    lemma_found(s, sep, 0);
    let at = position(s, sep, 0) as int;
    assert forall|i: int| 0 <= i < at && i < s.len() implies s[i] != sep by {
        lemma_not_passed_over(s, sep, 0, i);
    }
    if at < s.len() {
        assert(s.contains(s[at]));
        assert(s.take(at) + seq![sep] + s.skip(at + 1) =~= s);
    } else if s.contains(sep) {
        let i = choose|i: int| 0 <= i < s.len() && s[i] == sep;
        assert(s[i] != sep);
    }
}

/// A text without the separator is one piece, and a separator with such a text
/// behind it is one piece more.
pub proof fn separators_make_pieces(s: Seq<char>, tail: Seq<char>, sep: char)
    requires
        !tail.contains(sep),
    ensures
        split(tail, sep) == seq![tail],
        split(s + seq![sep] + tail, sep) == split(s, sep).push(tail),
{
    lemma_split_append(s, tail, sep);
    lemma_split_extend(Seq::empty(), tail, sep);
    assert(Seq::<char>::empty() + tail =~= tail);
    assert(split(Seq::<char>::empty(), sep) =~= seq![Seq::<char>::empty()]);
    assert(split(tail, sep) =~= seq![tail]);
}

/// Pieces are joined one by one: the first as it is, each other behind a
/// separator.
pub proof fn pieces_are_joined_one_by_one(
    pieces: Seq<Seq<char>>,
    piece: Seq<char>,
    sep: Seq<char>,
)
    ensures
        joined(Seq::empty(), sep) == Seq::<char>::empty(),
        joined(pieces.push(piece), sep) == if pieces.len() == 0 {
            piece
        } else {
            joined(pieces, sep) + sep + piece
        },
{
    assert(pieces.push(piece).drop_last() =~= pieces);
}

/// The characters of `text`, one by one.
pub fn to_chars(text: &str) -> (chars: Vec<char>)
    ensures
        chars@ == text@,
{
    let mut chars: Vec<char> = Vec::new();
    for c in it: text.chars()
        invariant
            it.seq() == text@,
            chars@ == text@.take(it.index() as int),
    {
        assert(text@.take(it.index() as int + 1) == text@.take(it.index() as int).push(
            text@[it.index() as int],
        ));
        chars.push(c);
    }
    assert(text@.take(text@.len() as int) == text@);
    chars
}

/// The text made of `chars`.
pub fn to_text(chars: &[char]) -> (text: String)
    ensures
        text@ == chars@,
{
    let mut text = String::new();
    for i in 0..chars.len()
        invariant
            text@ == chars@.take(i as int),
    {
        text.push(chars[i]);
        assert(chars@.take(i + 1) == chars@.take(i as int).push(chars@[i as int]));
    }
    assert(chars@.take(chars@.len() as int) == chars@);
    text
}

/// The characters of `chars` from `from` up to, not including, `to`.
pub fn slice(chars: &[char], from: usize, to: usize) -> (piece: Vec<char>)
    requires
        from <= to <= chars@.len(),
    ensures
        piece@ == chars@.subrange(from as int, to as int),
{
    let mut piece: Vec<char> = Vec::new();
    for i in from..to
        invariant
            from <= to <= chars@.len(),
            piece@ == chars@.subrange(from as int, i as int),
    {
        piece.push(chars[i]);
        assert(chars@.subrange(from as int, i + 1) == chars@.subrange(from as int, i as int).push(
            chars@[i as int],
        ));
    }
    piece
}

/// Whether the two texts are the same, character for character.
pub fn same_chars(a: &[char], b: &[char]) -> (same: bool)
    ensures
        same == (a@ == b@),
{
    if a.len() != b.len() {
        return false;
    }
    for i in 0..a.len()
        invariant
            a@.len() == b@.len(),
            a@.take(i as int) == b@.take(i as int),
    {
        if a[i] != b[i] {
            return false;
        }
        assert(a@.take(i + 1) == a@.take(i as int).push(a@[i as int]));
        assert(b@.take(i + 1) == b@.take(i as int).push(b@[i as int]));
    }
    assert(a@.take(a@.len() as int) == a@);
    assert(b@.take(b@.len() as int) == b@);
    true
}

/// The pieces of `chars` between the occurrences of `sep`.
pub fn split_chars(chars: &[char], sep: char) -> (pieces: Vec<Vec<char>>)
    ensures
        pieces_view(pieces@) == split(chars@, sep),
{
    let mut done: Vec<Vec<char>> = Vec::new();
    let mut current: Vec<char> = Vec::new();
    assert(chars@.take(0) == Seq::<char>::empty());
    assert(split(chars@.take(0), sep) == pieces_view(done@).push(current@));
    for i in 0..chars.len()
        invariant
            split(chars@.take(i as int), sep) == pieces_view(done@).push(current@),
    {
        let ghost before = pieces_view(done@);
        let ghost started = current@;
        assert(chars@.take(i + 1).drop_last() == chars@.take(i as int));
        assert(chars@.take(i + 1).last() == chars@[i as int]);
        assert(before.push(started).drop_last() == before);
        if chars[i] == sep {
            done.push(current);
            assert(pieces_view(done@) == before.push(started));
            current = Vec::new();
        } else {
            current.push(chars[i]);
        }
    }
    assert(chars@.take(chars@.len() as int) == chars@);
    let ghost before = pieces_view(done@);
    let ghost started = current@;
    done.push(current);
    assert(pieces_view(done@) == before.push(started));
    done
}

/// Where `c` first occurs in `chars`, or the length.
pub fn find_char(chars: &[char], c: char) -> (i: usize)
    ensures
        i == position(chars@, c, 0),
        i <= chars@.len(),
{
    let mut i: usize = 0;
    while i < chars.len() && chars[i] != c
        invariant
            i <= chars@.len(),
            position(chars@, c, 0) == position(chars@, c, i as nat),
        decreases chars@.len() - i,
    {
        i = i + 1;
    }
    i
}

} // verus!
