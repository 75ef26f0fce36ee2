//! What holds between an address and its text.

use crate::address::{
    address, colon_separated, colon_text, dotted, dotted_text, gap, groups, groups_text, is_mapped,
    lemma_zero_run, longest_run, octet, octets_of, segment, segments, zero_run, zeros, IpAddr,
};
use crate::numeral::{
    decimal_numbers_are_written_as_they_are_read, digit_value, number, number_of_numeral, numeral,
    numeral_length,
};
use crate::text::{joined, joined_of_split, split, split_of_joined};
use vstd::prelude::*;

verus! {

/// Whether every character of `s` is a digit of the given radix.
spec fn all_digits(s: Seq<char>, radix: nat) -> bool {
    forall|i: int| 0 <= i < s.len() ==> digit_value(#[trigger] s[i], radix) is Some
}

/// Text that writes a number holds digits only.
proof fn lemma_number_digits(s: Seq<char>, radix: nat)
    ensures
        number(s, radix) is Some ==> all_digits(s, radix),
    decreases s.len(),
{
    if s.len() > 0 {
        lemma_number_digits(s.drop_last(), radix);
        assert forall|i: int| number(s, radix) is Some && 0 <= i < s.len() implies digit_value(
            #[trigger] s[i],
            radix,
        ) is Some by {
            if i < s.len() - 1 {
                assert(s[i] == s.drop_last()[i]);
            }
        }
    }
}

/// Joined text holds no character that neither the pieces nor the separator
/// hold.
proof fn lemma_joined_lacks(pieces: Seq<Seq<char>>, sep: char, c: char)
    requires
        c != sep,
        forall|i: int| 0 <= i < pieces.len() ==> !(#[trigger] pieces[i]).contains(c),
    ensures
        !joined(pieces, seq![sep]).contains(c),
    decreases pieces.len(),
{
    if pieces.len() > 1 {
        let before = pieces.drop_last();
        lemma_joined_lacks(before, sep, c);
        let text = joined(pieces, seq![sep]);
        let head = joined(before, seq![sep]);
        assert forall|i: int| 0 <= i < text.len() implies text[i] != c by {
            if i < head.len() {
                assert(head.contains(head[i]));
            } else if i > head.len() {
                assert(pieces.last().contains(pieces.last()[i - head.len() - 1]));
            }
        }
    }
}

/// An octet's text is read back.
proof fn lemma_octet(o: u8)
    ensures
        octet(numeral(o as nat, 10)) == Some(o),
        all_digits(numeral(o as nat, 10), 10),
{
    number_of_numeral(o as nat, 10);
    numeral_length(o as nat);
}

/// A segment's text is read back.
proof fn lemma_segment(s: u16)
    ensures
        segment(numeral(s as nat, 16)) == Some(s),
        all_digits(numeral(s as nat, 16), 16),
        numeral(s as nat, 16).len() > 0,
{
    number_of_numeral(s as nat, 16);
    numeral_length(s as nat);
}

/// A dotted address is read back, and its text holds digits and dots.
proof fn lemma_dotted(o: Seq<u8>)
    requires
        o.len() == 4,
    ensures
        dotted(dotted_text(o)) == Some(o),
        dotted_text(o).contains('.'),
        !dotted_text(o).contains(':'),
        !dotted_text(o).contains(','),
{
    let parts = Seq::new(o.len(), |i: int| numeral(o[i] as nat, 10));
    assert forall|i: int| 0 <= i < 4 implies octet(#[trigger] parts[i]) == Some(o[i]) && !parts[i].contains('.')
        && !parts[i].contains(':') && !parts[i].contains(',') by {
        lemma_octet(o[i]);
    }
    split_of_joined(parts, '.');
    lemma_joined_lacks(parts, '.', ':');
    lemma_joined_lacks(parts, '.', ',');
    assert(seq![o[0], o[1], o[2], o[3]] == o);
    let text = dotted_text(o);
    let head = joined(parts.drop_last(), seq!['.']);
    assert(text == head + seq!['.'] + parts.last());
    assert(text[head.len() as int] == '.');
}

/// What holds a colon is no dotted address.
proof fn lemma_colon_is_not_dotted(s: Seq<char>)
    requires
        s.contains(':'),
    ensures
        dotted(s) is None,
{
    if dotted(s) is Some {
        let parts = split(s, '.');
        assert forall|i: int| 0 <= i < parts.len() implies !(#[trigger] parts[i]).contains(':') by {
            assert(octet(parts[i]) is Some) by {
                assert(i == 0 || i == 1 || i == 2 || i == 3);
            }
            lemma_number_digits(parts[i], 10);
        }
        lemma_joined_lacks(parts, '.', ':');
        joined_of_split(s, '.');
    }
}

/// The texts of the segments.
spec fn group_texts(s: Seq<u16>) -> Seq<Seq<char>> {
    Seq::new(s.len(), |i: int| numeral(s[i] as nat, 16))
}

/// The texts of segments are read back one by one.
proof fn lemma_segments(s: Seq<u16>)
    ensures
        segments(group_texts(s)) == Some(s),
    decreases s.len(),
{
    if s.len() > 0 {
        lemma_segments(s.drop_last());
        assert(group_texts(s).drop_last() == group_texts(s.drop_last()));
        lemma_segment(s.last());
        assert(s.drop_last().push(s.last()) == s);
    } else {
        assert(group_texts(s) == Seq::<Seq<char>>::empty());
    }
}

/// Whether no two neighbouring characters of `s` are colons and `s` does not
/// end with one.
spec fn gapless(s: Seq<char>) -> bool {
    &&& forall|i: int| 0 <= i < s.len() - 1 && #[trigger] s[i] == ':' ==> s[i + 1] != ':'
    &&& s.len() > 0 ==> s.last() != ':'
}

/// Written segments have no `::` in them; there is a colon between two.
proof fn lemma_groups_text(s: Seq<u16>)
    ensures
        gapless(groups_text(s)),
        s.len() > 0 ==> groups_text(s).len() > 0,
        s.len() > 1 ==> groups_text(s).contains(':'),
        !groups_text(s).contains(','),
    decreases s.len(),
{
    let parts = group_texts(s);
    assert forall|i: int| 0 <= i < parts.len() implies all_digits(#[trigger] parts[i], 16) && parts[i].len() > 0
        && !parts[i].contains(':') && !parts[i].contains(',') by {
        lemma_segment(s[i]);
    }
    lemma_joined_lacks(parts, ':', ',');
    if s.len() == 1 {
        assert forall|i: int| 0 <= i < parts[0].len() implies #[trigger] parts[0][i] != ':' by {
            assert(parts[0].contains(parts[0][i]));
        }
    } else if s.len() > 1 {
        lemma_groups_text(s.drop_last());
        assert(parts.drop_last() == group_texts(s.drop_last()));
        let head = groups_text(s.drop_last());
        let last = parts.last();
        let text = groups_text(s);
        assert(text == head + seq![':'] + last);
        assert(text[head.len() as int] == ':');
        assert forall|i: int| 0 <= i < last.len() implies #[trigger] last[i] != ':' by {
            assert(last.contains(last[i]));
        }
        assert forall|i: int| 0 <= i < text.len() - 1 && #[trigger] text[i] == ':' implies text[i + 1]
            != ':' by {
            if i < head.len() - 1 {
                assert(head[i] == ':');
                assert(text[i + 1] == head[i + 1]);
            } else if i == head.len() - 1 {
                assert(head.last() == text[i]);
            } else if i == head.len() {
                assert(text[i + 1] == last[0]);
            } else {
                assert(text[i] == last[i - head.len() - 1]);
            }
        }
    }
}

/// Written segments are read back.
proof fn lemma_groups(s: Seq<u16>, dotted_end: bool)
    ensures
        groups(groups_text(s), dotted_end) == Some(s),
{
    reveal(groups);
    lemma_groups_text(s);
    if s.len() == 0 {
        assert(groups_text(s) == Seq::<char>::empty());
        assert(s == Seq::<u16>::empty());
    } else {
        let parts = group_texts(s);
        assert forall|i: int| 0 <= i < parts.len() implies !(#[trigger] parts[i]).contains(':') by {
            lemma_segment(s[i]);
        }
        split_of_joined(parts, ':');
        lemma_segments(s.drop_last());
        assert(parts.drop_last() == group_texts(s.drop_last()));
        lemma_segment(s.last());
        assert(s.drop_last().push(s.last()) == s);
    }
}

/// There is no gap in gapless text.
proof fn lemma_no_gap(s: Seq<char>, from: nat)
    requires
        gapless(s),
    ensures
        gap(s, from) == s.len(),
    decreases s.len() - from,
{
    if from + 1 < s.len() {
        assert(s[from as int] == ':' ==> s[from as int + 1] != ':');
        lemma_no_gap(s, from + 1);
    }
}

/// The first gap is right behind the gapless text before it.
proof fn lemma_first_gap(head: Seq<char>, tail: Seq<char>, from: nat)
    requires
        gapless(head),
        from <= head.len(),
    ensures
        gap(head + seq![':', ':'] + tail, from) == head.len(),
    decreases head.len() - from,
{
    let s = head + seq![':', ':'] + tail;
    if from < head.len() {
        assert(s[from as int] == head[from as int]);
        if from + 1 < head.len() {
            assert(s[from as int + 1] == head[from as int + 1]);
        } else {
            assert(s[from as int] == head.last());
        }
        lemma_first_gap(head, tail, from + 1);
    }
}

/// Text around a gap is read as its two sides.
proof fn lemma_read_gap(head: Seq<char>, tail: Seq<char>, h: Seq<u16>, t: Seq<u16>)
    requires
        gapless(head),
        groups(head, false) == Some(h),
        groups(tail, true) == Some(t),
        h.len() + t.len() <= 7,
    ensures
        colon_separated(head + seq![':', ':'] + tail) == Some(
            h + zeros((8 - h.len() - t.len()) as nat) + t,
        ),
        (head + seq![':', ':'] + tail).contains(':'),
{
    reveal(colon_separated);
    let s = head + seq![':', ':'] + tail;
    lemma_first_gap(head, tail, 0);
    assert(s.take(head.len() as int) == head);
    assert(s.skip(head.len() as int + 2) == tail);
    assert(s[head.len() as int] == ':');
}

/// The longest run starts before `end`.
proof fn lemma_longest_run(s: Seq<u16>, end: nat)
    ensures
        longest_run(s, end) < end || end == 0,
    decreases end,
{
    if end > 1 {
        lemma_longest_run(s, (end - 1) as nat);
    }
}

/// An IPv4-mapped address is read back.
proof fn lemma_mapped_text(s: Seq<u16>)
    requires
        s.len() == 8,
        is_mapped(s),
    ensures
        colon_separated(colon_text(s)) == Some(s),
        colon_text(s).contains(':'),
        !colon_text(s).contains(','),
{
    reveal(groups);
    let o = octets_of(s[6], s[7]);
    let end = dotted_text(o);
    let mark = numeral(0xffff, 16);
    lemma_dotted(o);
    lemma_segment(0xffff);
    let parts = seq![mark, end];
    let tail = mark + seq![':'] + end;
    assert(parts.drop_last() == seq![mark]);
    assert(joined(seq![mark], seq![':']) == mark);
    assert(joined(parts, seq![':']) == tail);
    assert(!mark.contains(':'));
    assert(!mark.contains(','));
    split_of_joined(parts, ':');
    assert(segments(seq![mark]) == Some(seq![0xffffu16])) by {
        assert(seq![mark].drop_last() == Seq::<Seq<char>>::empty());
        assert(segments(Seq::<Seq<char>>::empty()) == Some(Seq::<u16>::empty()));
        assert(Seq::<u16>::empty().push(0xffff) == seq![0xffffu16]);
    }
    assert(segment(end) is None) by {
        lemma_number_digits(end, 16);
        let i = choose|i: int| 0 <= i < end.len() && end[i] == '.';
        assert(digit_value(end[i], 16) is None);
    }
    let t = seq![0xffffu16, s[6], s[7]];
    assert(seq![0xffffu16].push(s[6]).push(s[7]) == t);
    assert(groups(tail, true) == Some(t));
    lemma_read_gap(Seq::empty(), tail, Seq::empty(), t);
    assert(colon_text(s) == Seq::<char>::empty() + seq![':', ':'] + tail);
    assert forall|k: int| 0 <= k < 5 implies s[k] == 0 by {
        assert(s.take(5)[k] == zeros(5)[k]);
    }
    assert(Seq::<u16>::empty() + zeros(5) + t == s);
    lemma_concat_lacks(mark, seq![':'], ',');
    lemma_concat_lacks(mark + seq![':'], end, ',');
    lemma_concat_lacks(Seq::<char>::empty() + seq![':', ':'], tail, ',');
}

/// Two texts that lack a character lack it together.
proof fn lemma_concat_lacks(a: Seq<char>, b: Seq<char>, c: char)
    requires
        !a.contains(c),
        !b.contains(c),
    ensures
        !(a + b).contains(c),
{
    assert forall|i: int| 0 <= i < (a + b).len() implies (a + b)[i] != c by {
        if i < a.len() {
            assert(a.contains(a[i]));
        } else {
            assert(b.contains(b[i - a.len()]));
        }
    }
}

/// Segments are what stands before, in and behind a run of zeros.
proof fn lemma_around_run(s: Seq<u16>, start: nat, run: nat)
    requires
        start + run <= s.len(),
        forall|k: int| start <= k < start + run ==> s[k] == 0,
    ensures
        s.take(start as int) + zeros(run) + s.skip((start + run) as int) == s,
{
    assert(s.take(start as int) + zeros(run) + s.skip((start + run) as int) =~= s);
}

/// An address with its run of zeros left out is read back.
proof fn lemma_shortened_text(s: Seq<u16>, start: nat, run: nat)
    requires
        s.len() == 8,
        run >= 2,
        start + run <= 8,
        forall|k: int| start <= k < start + run ==> s[k] == 0,
    ensures
        ({
            let shortened = groups_text(s.take(start as int)) + seq![':', ':'] + groups_text(
                s.skip((start + run) as int),
            );
            &&& colon_separated(shortened) == Some(s)
            &&& shortened.contains(':')
            &&& !shortened.contains(',')
        }),
{
    let h = s.take(start as int);
    let t = s.skip((start + run) as int);
    lemma_groups_text(h);
    lemma_groups_text(t);
    lemma_groups(h, false);
    lemma_groups(t, true);
    let head = groups_text(h);
    let tail = groups_text(t);
    lemma_read_gap(head, tail, h, t);
    lemma_around_run(s, start, run);
    lemma_concat_lacks(head, seq![':', ':'], ',');
    lemma_concat_lacks(head + seq![':', ':'], tail, ',');
}

/// A colon-separated address is read back; its text holds colons and no
/// comma.
proof fn lemma_colon_text(s: Seq<u16>)
    requires
        s.len() == 8,
    ensures
        colon_separated(colon_text(s)) == Some(s),
        colon_text(s).contains(':'),
        !colon_text(s).contains(','),
{
    let start = longest_run(s, s.len());
    let run = zero_run(s, start);
    lemma_longest_run(s, 8);
    lemma_zero_run(s, start);
    if is_mapped(s) {
        lemma_mapped_text(s);
    } else if run >= 2 {
        lemma_shortened_text(s, start, run);
    } else {
        lemma_groups_text(s);
        reveal(colon_separated);
        lemma_groups(s, true);
        lemma_no_gap(groups_text(s), 0);
    }
}

/// Reading the text of an address gives the address back.
pub proof fn address_of_text(a: IpAddr)
    ensures
        address(a.text()) == Some(a),
{
    reveal(address);
    match a {
        IpAddr::V4(..) => {
            lemma_dotted(a.octets());
        },
        IpAddr::V6(..) => {
            lemma_colon_text(a.segments());
            lemma_colon_is_not_dotted(a.text());
        },
    }
}

/// The text of an address is not empty and holds no comma.
pub proof fn text_is_a_list_item(a: IpAddr)
    ensures
        a.text().len() > 0,
        !a.text().contains(','),
{
    match a {
        IpAddr::V4(..) => {
            lemma_dotted(a.octets());
        },
        IpAddr::V6(..) => {
            lemma_colon_text(a.segments());
        },
    }
}

/// An IPv4 address is written as its four octets in decimal with dots between
/// them.
pub proof fn octets_are_written_with_dots(a: u8, b: u8, c: u8, d: u8)
    ensures
        IpAddr::V4(a, b, c, d).text() == numeral(a as nat, 10) + seq!['.'] + numeral(b as nat, 10)
            + seq!['.'] + numeral(c as nat, 10) + seq!['.'] + numeral(d as nat, 10),
{
    let octets = IpAddr::V4(a, b, c, d).octets();
    let parts = Seq::new(octets.len(), |i: int| numeral(octets[i] as nat, 10));
    assert(parts.drop_last().drop_last().drop_last() =~= seq![parts[0]]);
    reveal_with_fuel(joined, 4);
}

/// A part of a dotted address is the numeral of its octet.
proof fn lemma_octet_is_numeral(s: Seq<char>)
    requires
        octet(s) is Some,
    ensures
        s == numeral(octet(s)->0 as nat, 10),
{
    decimal_numbers_are_written_as_they_are_read(s);
}

/// A text is read as an IPv4 address just if it is how that address is written.
pub proof fn ipv4_addresses_are_read_as_they_are_written(s: Seq<char>, addr: IpAddr)
    requires
        addr is V4,
    ensures
        address(s) == Some(addr) <==> s == addr.text(),
{
    address_of_text(addr);
    if address(s) == Some(addr) {
        reveal(address);
        let o = dotted(s)->0;
        let parts = split(s, '.');
        assert forall|i: int| 0 <= i < 4 implies #[trigger] parts[i] == numeral(o[i] as nat, 10) by {
            assert(i == 0 || i == 1 || i == 2 || i == 3);
            lemma_octet_is_numeral(parts[i]);
        }
        assert(addr.octets() =~= o);
        assert(parts =~= Seq::new(o.len(), |i: int| numeral(o[i] as nat, 10)));
        joined_of_split(s, '.');
    }
}

/// Whether the texts write the segments, one for one.
spec fn write_segments(parts: Seq<Seq<char>>, values: Seq<u16>) -> bool {
    &&& parts.len() == values.len()
    &&& forall|i: int| 0 <= i < parts.len() ==> segment(#[trigger] parts[i]) == Some(values[i])
}

/// The text of a segment is not empty and holds hexadecimal digits.
proof fn lemma_segment_text(s: Seq<char>)
    requires
        segment(s) is Some,
    ensures
        s.len() > 0,
        all_digits(s, 16),
        !s.contains(':'),
{
    lemma_number_digits(s, 16);
    assert forall|i: int| 0 <= i < s.len() implies s[i] != ':' by {
        assert(digit_value(s[i], 16) is Some);
    }
}

/// Segments that are written in some way are read back.
proof fn lemma_read_parts(parts: Seq<Seq<char>>, values: Seq<u16>)
    requires
        write_segments(parts, values),
    ensures
        segments(parts) == Some(values),
    decreases parts.len(),
{
    if parts.len() > 0 {
        let before = parts.drop_last();
        assert forall|i: int| 0 <= i < before.len() implies segment(#[trigger] before[i]) == Some(
            values.drop_last()[i],
        ) by {
            assert(before[i] == parts[i]);
        }
        lemma_read_parts(before, values.drop_last());
        assert(segment(parts[parts.len() - 1]) == Some(values.last()));
        assert(values.drop_last().push(values.last()) =~= values);
    } else {
        assert(values =~= Seq::<u16>::empty());
    }
}

/// Texts without colons have no `::` between them when they are joined.
proof fn lemma_parts_are_gapless(parts: Seq<Seq<char>>)
    requires
        forall|i: int|
            0 <= i < parts.len() ==> (#[trigger] parts[i]).len() > 0 && !parts[i].contains(':'),
    ensures
        gapless(joined(parts, seq![':'])),
        parts.len() > 0 ==> joined(parts, seq![':']).len() > 0,
    decreases parts.len(),
{
    if parts.len() == 1 {
        assert forall|i: int| 0 <= i < parts[0].len() implies #[trigger] parts[0][i] != ':' by {
            assert(parts[0].contains(parts[0][i]));
        }
    } else if parts.len() > 1 {
        let before = parts.drop_last();
        assert forall|i: int| 0 <= i < before.len() implies (#[trigger] before[i]).len() > 0
            && !before[i].contains(':') by {
            assert(before[i] == parts[i]);
        }
        lemma_parts_are_gapless(before);
        let head = joined(before, seq![':']);
        let last = parts[parts.len() - 1];
        let text = joined(parts, seq![':']);
        assert(text == head + seq![':'] + last);
        assert forall|i: int| 0 <= i < last.len() implies #[trigger] last[i] != ':' by {
            assert(last.contains(last[i]));
        }
        assert forall|i: int| 0 <= i < text.len() - 1 && #[trigger] text[i] == ':' implies text[i + 1]
            != ':' by {
            if i < head.len() - 1 {
                assert(head[i] == ':');
                assert(text[i + 1] == head[i + 1]);
            } else if i == head.len() - 1 {
                assert(head.last() == text[i]);
            } else if i == head.len() {
                assert(text[i + 1] == last[0]);
            } else {
                assert(text[i] == last[i - head.len() - 1]);
            }
        }
    }
}

/// Texts of segments are not empty and hold no colon.
proof fn lemma_segment_texts(parts: Seq<Seq<char>>, values: Seq<u16>)
    requires
        write_segments(parts, values),
    ensures
        forall|i: int|
            0 <= i < parts.len() ==> (#[trigger] parts[i]).len() > 0 && !parts[i].contains(':'),
{
    assert forall|i: int| 0 <= i < parts.len() implies (#[trigger] parts[i]).len() > 0
        && !parts[i].contains(':') by {
        lemma_segment_text(parts[i]);
    }
}

/// The two segments that four octets make.
pub open spec fn octet_segments(o: Seq<u8>) -> Seq<u16> {
    seq![(o[0] * 256 + o[1]) as u16, (o[2] * 256 + o[3]) as u16]
}

/// Segments with a dotted address behind them are read as groups.
proof fn lemma_read_dotted_end(parts: Seq<Seq<char>>, values: Seq<u16>, o: Seq<u8>)
    requires
        write_segments(parts, values),
        o.len() == 4,
    ensures
        groups(joined(parts.push(dotted_text(o)), seq![':']), true) == Some(
            values + octet_segments(o),
        ),
        gapless(joined(parts.push(dotted_text(o)), seq![':'])),
{
    reveal(groups);
    let end = dotted_text(o);
    let all = parts.push(end);
    lemma_dotted(o);
    lemma_segment_texts(parts, values);
    assert(end.len() > 0);
    assert forall|i: int| 0 <= i < all.len() implies (#[trigger] all[i]).len() > 0
        && !all[i].contains(':') by {
        if i < parts.len() {
            assert(all[i] == parts[i]);
        }
    }
    lemma_parts_are_gapless(all);
    split_of_joined(all, ':');
    lemma_read_parts(parts, values);
    assert(all.drop_last() =~= parts);
    assert(all.last() == end);
    assert(segment(end) is None) by {
        lemma_number_digits(end, 16);
        let i = choose|i: int| 0 <= i < end.len() && end[i] == '.';
        assert(digit_value(end[i], 16) is None);
    }
    let pair = octet_segments(o);
    assert(values.push(pair[0]).push(pair[1]) =~= values + pair);
}

/// Segments that are written in some way are read as groups.
proof fn lemma_read_joined(parts: Seq<Seq<char>>, values: Seq<u16>, dotted_end: bool)
    requires
        write_segments(parts, values),
    ensures
        groups(joined(parts, seq![':']), dotted_end) == Some(values),
{
    reveal(groups);
    lemma_segment_texts(parts, values);
    lemma_parts_are_gapless(parts);
    if parts.len() == 0 {
        assert(values =~= Seq::<u16>::empty());
    } else {
        assert forall|i: int| 0 <= i < parts.len() implies !(#[trigger] parts[i]).contains(':') by {
            lemma_segment_text(parts[i]);
        }
        split_of_joined(parts, ':');
        let before = parts.drop_last();
        assert forall|i: int| 0 <= i < before.len() implies segment(#[trigger] before[i]) == Some(
            values.drop_last()[i],
        ) by {
            assert(before[i] == parts[i]);
        }
        lemma_read_parts(before, values.drop_last());
        assert(segment(parts[parts.len() - 1]) == Some(values.last()));
        assert(values.drop_last().push(values.last()) =~= values);
    }
}

/// Eight groups of one to four hexadecimal digits, with colons between them,
/// are read as the IPv6 address of the numbers that they write.
pub proof fn eight_groups_are_read_as_their_numbers(parts: Seq<Seq<char>>, values: Seq<u16>)
    requires
        parts.len() == 8,
        values.len() == 8,
        forall|i: int|
            0 <= i < 8 ==> 1 <= (#[trigger] parts[i]).len() <= 4 && number(parts[i], 16) == Some(
                values[i] as nat,
            ),
    ensures
        address(joined(parts, seq![':'])) == Some(
            IpAddr::V6(
                values[0],
                values[1],
                values[2],
                values[3],
                values[4],
                values[5],
                values[6],
                values[7],
            ),
        ),
{
    reveal(address);
    reveal(colon_separated);
    let text = joined(parts, seq![':']);
    lemma_segment_texts(parts, values);
    lemma_parts_are_gapless(parts);
    lemma_read_joined(parts, values, true);
    lemma_no_gap(text, 0);
    let head = joined(parts.drop_last(), seq![':']);
    assert(text == head + seq![':'] + parts.last());
    assert(text[head.len() as int] == ':');
    lemma_colon_is_not_dotted(text);
}

/// Up to seven groups with `::` at one place are read as the IPv6 address of the
/// numbers that they write and, at that place, as many zeros as are missing.
pub proof fn a_gap_is_read_as_the_missing_zeros(
    head: Seq<Seq<char>>,
    tail: Seq<Seq<char>>,
    before: Seq<u16>,
    behind: Seq<u16>,
    addr: IpAddr,
)
    requires
        head.len() == before.len(),
        tail.len() == behind.len(),
        head.len() + tail.len() <= 7,
        forall|i: int|
            0 <= i < head.len() ==> 1 <= (#[trigger] head[i]).len() <= 4 && number(head[i], 16)
                == Some(before[i] as nat),
        forall|i: int|
            0 <= i < tail.len() ==> 1 <= (#[trigger] tail[i]).len() <= 4 && number(tail[i], 16)
                == Some(behind[i] as nat),
        addr is V6,
        forall|i: int| 0 <= i < 8 ==> #[trigger] addr.segments()[i] == if i < before.len() {
            before[i]
        } else if i >= 8 - behind.len() {
            behind[i - (8 - behind.len())]
        } else {
            0
        },
    ensures
        address(joined(head, seq![':']) + seq![':', ':'] + joined(tail, seq![':'])) == Some(addr),
{
    reveal(address);
    let a = joined(head, seq![':']);
    let b = joined(tail, seq![':']);
    lemma_segment_texts(head, before);
    lemma_parts_are_gapless(head);
    lemma_read_joined(head, before, false);
    lemma_read_joined(tail, behind, true);
    lemma_read_gap(a, b, before, behind);
    lemma_colon_is_not_dotted(a + seq![':', ':'] + b);
    let all = before + zeros((8 - before.len() - behind.len()) as nat) + behind;
    assert(all =~= addr.segments());
}

/// A dotted address at the end of an IPv6 address stands for two segments, the
/// first of its first two octets and the second of the others.
pub proof fn a_dotted_end_is_read_as_two_segments(
    head: Seq<Seq<char>>,
    tail: Seq<Seq<char>>,
    before: Seq<u16>,
    behind: Seq<u16>,
    o: Seq<u8>,
    addr: IpAddr,
)
    requires
        head.len() == before.len(),
        tail.len() == behind.len(),
        o.len() == 4,
        forall|i: int|
            0 <= i < head.len() ==> 1 <= (#[trigger] head[i]).len() <= 4 && number(head[i], 16)
                == Some(before[i] as nat),
        forall|i: int|
            0 <= i < tail.len() ==> 1 <= (#[trigger] tail[i]).len() <= 4 && number(tail[i], 16)
                == Some(behind[i] as nat),
        addr is V6,
        addr.segments()[6] == o[0] * 256 + o[1],
        addr.segments()[7] == o[2] * 256 + o[3],
        forall|i: int| 0 <= i < 6 ==> #[trigger] addr.segments()[i] == if i < before.len() {
            before[i]
        } else if i >= 6 - behind.len() {
            behind[i - (6 - behind.len())]
        } else {
            0
        },
    ensures
        head.len() + tail.len() <= 5 ==> address(
            joined(head, seq![':']) + seq![':', ':'] + joined(
                tail.push(IpAddr::V4(o[0], o[1], o[2], o[3]).text()),
                seq![':'],
            ),
        ) == Some(addr),
        head.len() == 6 ==> address(
            joined(head.push(IpAddr::V4(o[0], o[1], o[2], o[3]).text()), seq![':']),
        ) == Some(addr),
{
    reveal(address);
    assert(IpAddr::V4(o[0], o[1], o[2], o[3]).octets() =~= o);
    let end = dotted_text(o);
    let pair = octet_segments(o);
    lemma_segment_texts(head, before);
    if head.len() + tail.len() <= 5 {
        let a = joined(head, seq![':']);
        let b = joined(tail.push(end), seq![':']);
        lemma_parts_are_gapless(head);
        lemma_read_joined(head, before, false);
        lemma_read_dotted_end(tail, behind, o);
        lemma_read_gap(a, b, before, behind + pair);
        lemma_colon_is_not_dotted(a + seq![':', ':'] + b);
        let all = before + zeros((6 - before.len() - behind.len()) as nat) + (behind + pair);
        assert(all =~= addr.segments());
    }
    if head.len() == 6 {
        reveal(colon_separated);
        let parts = head.push(end);
        let text = joined(parts, seq![':']);
        lemma_read_dotted_end(head, before, o);
        lemma_no_gap(text, 0);
        let front = joined(parts.drop_last(), seq![':']);
        assert(text == front + seq![':'] + parts.last());
        assert(text[front.len() as int] == ':');
        lemma_colon_is_not_dotted(text);
        assert(before + pair =~= addr.segments());
    }
}

/// Whether the texts are one to four hexadecimal digits each and write the
/// values, one for one.
pub open spec fn write_values(parts: Seq<Seq<char>>, values: Seq<u16>) -> bool {
    &&& parts.len() == values.len()
    &&& forall|i: int|
        0 <= i < parts.len() ==> 1 <= (#[trigger] parts[i]).len() <= 4 && number(parts[i], 16)
            == Some(values[i] as nat)
}

/// Whether the texts write the values, where the last text may be a dotted
/// address that writes the last two.
pub open spec fn write_values_with_end(parts: Seq<Seq<char>>, values: Seq<u16>) -> bool {
    ||| write_values(parts, values)
    ||| {
        &&& parts.len() > 0
        &&& values.len() == parts.len() + 1
        &&& write_values(parts.drop_last(), values.take(values.len() - 2))
        &&& exists|a: u8, b: u8, c: u8, d: u8|
            {
                &&& parts.last() == #[trigger] IpAddr::V4(a, b, c, d).text()
                &&& values[values.len() - 2] == a * 256 + b
                &&& values[values.len() - 1] == c * 256 + d
            }
    }
}

/// Texts that are read as segments write them.
proof fn lemma_segments_are_written(parts: Seq<Seq<char>>)
    requires
        segments(parts) is Some,
    ensures
        write_values(parts, segments(parts)->0),
    decreases parts.len(),
{
    if parts.len() > 0 {
        let before = parts.drop_last();
        lemma_segments_are_written(before);
        let values = segments(parts)->0;
        lemma_four_digits(parts.last());
        assert forall|i: int| 0 <= i < parts.len() implies 1 <= (#[trigger] parts[i]).len() <= 4
            && number(parts[i], 16) == Some(values[i] as nat) by {
            if i < before.len() {
                assert(before[i] == parts[i]);
            }
        }
    }
}

/// Up to four hexadecimal digits write a number that fits a segment.
proof fn lemma_four_digits(s: Seq<char>)
    ensures
        s.len() <= 4 && number(s, 16) is Some ==> number(s, 16)->0 < 65536,
{
    reveal_with_fuel(number, 5);
}

/// Groups are segments with colons between them, at the end perhaps a dotted
/// address.
proof fn lemma_groups_are_written(s: Seq<char>, dotted_end: bool) -> (parts: Seq<Seq<char>>)
    requires
        groups(s, dotted_end) is Some,
    ensures
        s == joined(parts, seq![':']),
        write_values_with_end(parts, groups(s, dotted_end)->0),
        !dotted_end ==> write_values(parts, groups(s, dotted_end)->0),
{
    reveal(groups);
    let values = groups(s, dotted_end)->0;
    if s.len() == 0 {
        assert(s =~= joined(Seq::<Seq<char>>::empty(), seq![':']));
        Seq::empty()
    } else {
        let parts = split(s, ':');
        joined_of_split(s, ':');
        crate::text::split_pieces_are_free(s, ':');
        let before = parts.drop_last();
        lemma_segments_are_written(before);
        if segment(parts.last()) is Some {
            lemma_four_digits(parts.last());
            assert forall|i: int| 0 <= i < parts.len() implies 1 <= (#[trigger] parts[i]).len() <= 4
                && number(parts[i], 16) == Some(values[i] as nat) by {
                if i < before.len() {
                    assert(before[i] == parts[i]);
                }
            }
        } else {
            let o = dotted(parts.last())->0;
            let v4 = IpAddr::V4(o[0], o[1], o[2], o[3]);
            lemma_dotted_is_written(parts.last());
            assert(values.take(values.len() - 2) =~= segments(before)->0);
            assert(parts.last() == v4.text());
        }
        parts
    }
}

/// A dotted address is read as it is written.
proof fn lemma_dotted_is_written(s: Seq<char>)
    requires
        dotted(s) is Some,
    ensures
        ({
            let o = dotted(s)->0;
            s == IpAddr::V4(o[0], o[1], o[2], o[3]).text()
        }),
{
    let o = dotted(s)->0;
    reveal(address);
    ipv4_addresses_are_read_as_they_are_written(s, IpAddr::V4(o[0], o[1], o[2], o[3]));
}

/// A text that is read as an IPv6 address is made of groups of one to four
/// hexadecimal digits that write its segments, with colons between them. There
/// are eight segments, or `::` stands for those that are missing, at least one,
/// which are zero. A dotted address may stand for the last two.
pub proof fn ipv6_addresses_are_read_from_groups(s: Seq<char>, addr: IpAddr)
    requires
        address(s) == Some(addr),
        addr is V6,
    ensures
        ({
            ||| exists|parts: Seq<Seq<char>>|
                s == joined(parts, seq![':']) && #[trigger] write_values_with_end(
                    parts,
                    addr.segments(),
                )
            ||| exists|head: Seq<Seq<char>>, before: Seq<u16>, tail: Seq<Seq<char>>, behind: Seq<u16>|
                {
                    &&& s == joined(head, seq![':']) + seq![':', ':'] + joined(tail, seq![':'])
                    &&& #[trigger] write_values(head, before)
                    &&& #[trigger] write_values_with_end(tail, behind)
                    &&& before.len() + behind.len() <= 7
                    &&& addr.segments() == before + Seq::new(
                        (8 - before.len() - behind.len()) as nat,
                        |i: int| 0u16,
                    ) + behind
                }
        }),
{
    reveal(address);
    reveal(colon_separated);
    let at = gap(s, 0) as int;
    if at < s.len() {
        lemma_at_gap(s, 0);
        let before = groups(s.take(at), false)->0;
        let behind = groups(s.skip(at + 2), true)->0;
        let head = lemma_groups_are_written(s.take(at), false);
        let tail = lemma_groups_are_written(s.skip(at + 2), true);
        assert(s =~= s.take(at) + seq![':', ':'] + s.skip(at + 2));
        let all = before + zeros((8 - before.len() - behind.len()) as nat) + behind;
        assert(addr.segments() =~= all);
        assert(write_values(head, before) && write_values_with_end(tail, behind));
    } else {
        let all = groups(s, true)->0;
        let parts = lemma_groups_are_written(s, true);
        assert(addr.segments() =~= all);
        assert(write_values_with_end(parts, addr.segments()));
    }
}

/// Whether the segments from `i` up to, not including, `j` are zero.
pub open spec fn are_zero(s: Seq<u16>, i: int, j: int) -> bool {
    forall|k: int| i <= k < j ==> s[k] == 0
}

/// A run of zeros is as long as the zeros go on.
proof fn lemma_run_is_long(s: Seq<u16>, i: nat, j: nat)
    requires
        i <= j <= s.len(),
        are_zero(s, i as int, j as int),
    ensures
        zero_run(s, i) >= j - i,
    decreases j - i,
{
    if i < j {
        assert(s[i as int] == 0);
        lemma_run_is_long(s, i + 1, j);
    }
}

/// The longest run is the first of the longest.
proof fn lemma_longest_is_first(s: Seq<u16>, end: nat, i: nat)
    requires
        i < end,
    ensures
        zero_run(s, i) <= zero_run(s, longest_run(s, end)),
        zero_run(s, i) == zero_run(s, longest_run(s, end)) ==> longest_run(s, end) <= i,
    decreases end,
{
    if end > 1 {
        lemma_longest_run(s, (end - 1) as nat);
        if i < end - 1 {
            lemma_longest_is_first(s, (end - 1) as nat, i);
        }
    }
}

/// An IPv6 address that is not an IPv4-mapped one is written in one of two ways.
/// If two neighbouring segments are zero, the first of the longest runs of zero
/// segments is left out and `::` stands for it. Otherwise all eight segments
/// are written. They are written in hexadecimal with colons between them.
pub proof fn segments_are_written_without_the_longest_run_of_zeros(addr: IpAddr)
    requires
        addr is V6,
        !(are_zero(addr.segments(), 0, 5) && addr.segments()[5] == 0xffff),
    ensures
        ({
            let s = addr.segments();
            let texts = Seq::new(8, |i: int| numeral(s[i] as nat, 16));
            &&& (forall|i: int| 0 <= i < 7 && #[trigger] s[i] == 0 ==> s[i + 1] != 0)
                ==> addr.text() == joined(texts, seq![':'])
            &&& !(forall|i: int| 0 <= i < 7 && #[trigger] s[i] == 0 ==> s[i + 1] != 0)
                ==> exists|start: int, end: int|
                {
                    &&& 0 <= start && start + 2 <= end <= 8
                    &&& #[trigger] are_zero(s, start, end)
                    &&& forall|i: int, j: int|
                        0 <= i <= j <= 8 && #[trigger] are_zero(s, i, j) ==> j - i < end - start || j
                            - i == end - start && start <= i
                    &&& addr.text() == joined(texts.take(start), seq![':']) + seq![':', ':'] + joined(
                        texts.skip(end),
                        seq![':'],
                    )
                }
        }),
{
    let s = addr.segments();
    let texts = Seq::new(8, |i: int| numeral(s[i] as nat, 16));
    let start = longest_run(s, 8);
    let run = zero_run(s, start);
    lemma_longest_run(s, 8);
    lemma_zero_run(s, start);
    if is_mapped(s) {
        assert(forall|k: int| 0 <= k < 5 ==> s[k] == s.take(5)[k] && zeros(5)[k] == 0);
    }
    let end = start + run;
    assert(are_zero(s, start as int, end as int));
    assert forall|i: int, j: int| 0 <= i <= j <= 8 && #[trigger] are_zero(s, i, j) implies j - i
        < run || j - i == run && start <= i || run < 2 && j - i < 2 by {
        lemma_run_is_long(s, i as nat, j as nat);
        if i < 8 {
            lemma_longest_is_first(s, 8, i as nat);
        }
    }
    if run >= 2 {
        assert(s[start as int] == 0 && s[start as int + 1] == 0);
        assert(Seq::new(start, |i: int| numeral(s.take(start as int)[i] as nat, 16)) =~= texts.take(
            start as int,
        ));
        let rest = s.skip(end as int);
        assert(Seq::new(rest.len(), |i: int| numeral(rest[i] as nat, 16)) =~= texts.skip(end as int));
    } else {
        assert(Seq::new(s.len(), |i: int| numeral(s[i] as nat, 16)) =~= texts);
        assert forall|i: int| 0 <= i < 7 && #[trigger] s[i] == 0 implies s[i + 1] != 0 by {
            if s[i + 1] == 0 {
                assert(are_zero(s, i, i + 2));
            }
        }
    }
}

/// Whether a text holds only hexadecimal digits, dots and colons.
spec fn is_plain(s: Seq<char>) -> bool {
    forall|i: int|
        0 <= i < s.len() ==> digit_value(#[trigger] s[i], 16) is Some || s[i] == '.' || s[i] == ':'
}

/// Plain pieces with a dot or a colon between them are plain.
proof fn lemma_joined_is_plain(pieces: Seq<Seq<char>>, sep: char)
    requires
        sep == '.' || sep == ':',
        forall|i: int| 0 <= i < pieces.len() ==> is_plain(#[trigger] pieces[i]),
    ensures
        is_plain(joined(pieces, seq![sep])),
    decreases pieces.len(),
{
    if pieces.len() > 1 {
        let before = pieces.drop_last();
        lemma_joined_is_plain(before, sep);
        let head = joined(before, seq![sep]);
        let last = pieces[pieces.len() - 1];
        let text = joined(pieces, seq![sep]);
        assert(text == head + seq![sep] + last);
        assert forall|i: int| 0 <= i < text.len() implies digit_value(#[trigger] text[i], 16) is Some
            || text[i] == '.' || text[i] == ':' by {
            if i < head.len() {
                assert(text[i] == head[i]);
            } else if i > head.len() {
                assert(text[i] == last[i - head.len() - 1]);
            }
        }
    } else if pieces.len() == 1 {
        assert(is_plain(pieces[0]));
    }
}

/// A dotted address is plain.
proof fn lemma_dotted_is_plain(s: Seq<char>)
    requires
        dotted(s) is Some,
    ensures
        is_plain(s),
{
    let parts = split(s, '.');
    assert forall|i: int| 0 <= i < parts.len() implies is_plain(#[trigger] parts[i]) by {
        assert(i == 0 || i == 1 || i == 2 || i == 3);
        lemma_number_digits(parts[i], 10);
        let part = parts[i];
        assert forall|k: int| 0 <= k < part.len() implies digit_value(#[trigger] part[k], 16) is Some by {
            assert(digit_value(part[k], 10) is Some);
        }
    }
    lemma_joined_is_plain(parts, '.');
    joined_of_split(s, '.');
}

/// Texts that write segments are plain.
proof fn lemma_segments_are_plain(parts: Seq<Seq<char>>)
    requires
        segments(parts) is Some,
    ensures
        forall|i: int| 0 <= i < parts.len() ==> is_plain(#[trigger] parts[i]),
    decreases parts.len(),
{
    if parts.len() > 0 {
        let before = parts.drop_last();
        lemma_segments_are_plain(before);
        lemma_segment_text(parts.last());
        assert forall|i: int| 0 <= i < parts.len() implies is_plain(#[trigger] parts[i]) by {
            if i < before.len() {
                assert(is_plain(before[i]));
            } else {
                assert(all_digits(parts[i], 16));
            }
        }
    }
}

/// Groups are plain.
proof fn lemma_groups_are_plain(s: Seq<char>, dotted_end: bool)
    requires
        groups(s, dotted_end) is Some,
    ensures
        is_plain(s),
{
    reveal(groups);
    if s.len() > 0 {
        let parts = split(s, ':');
        lemma_segments_are_plain(parts.drop_last());
        crate::text::split_pieces_are_free(s, ':');
        if segment(parts.last()) is Some {
            lemma_segment_text(parts.last());
            assert(is_plain(parts.last()));
        } else {
            lemma_dotted_is_plain(parts.last());
        }
        assert forall|i: int| 0 <= i < parts.len() implies is_plain(#[trigger] parts[i]) by {
            if i < parts.len() - 1 {
                assert(is_plain(parts.drop_last()[i]));
            }
        }
        lemma_joined_is_plain(parts, ':');
        joined_of_split(s, ':');
    }
}

/// A text that is read as an address holds hexadecimal digits, dots and colons,
/// and nothing else.
pub proof fn addresses_hold_digits_dots_and_colons(s: Seq<char>)
    requires
        address(s) is Some,
    ensures
        forall|i: int|
            0 <= i < s.len() ==> digit_value(#[trigger] s[i], 16) is Some || s[i] == '.' || s[i]
                == ':',
{
    reveal(address);
    if dotted(s) is Some {
        lemma_dotted_is_plain(s);
    } else {
        reveal(colon_separated);
        let at = gap(s, 0) as int;
        if at < s.len() {
            lemma_at_gap(s, 0);
            let head = s.take(at);
            let tail = s.skip(at + 2);
            lemma_groups_are_plain(head, false);
            lemma_groups_are_plain(tail, true);
            assert forall|i: int| 0 <= i < s.len() implies digit_value(#[trigger] s[i], 16) is Some
                || s[i] == '.' || s[i] == ':' by {
                if i < at {
                    assert(head[i] == s[i]);
                } else if i >= at + 2 {
                    assert(tail[i - at - 2] == s[i]);
                }
            }
        } else {
            lemma_groups_are_plain(s, true);
        }
    }
}

/// At a gap stand two colons.
proof fn lemma_at_gap(s: Seq<char>, from: nat)
    ensures
        gap(s, from) < s.len() ==> gap(s, from) + 1 < s.len() && s[gap(s, from) as int] == ':' && s[gap(
            s,
            from,
        ) as int + 1] == ':',
    decreases s.len() - from,
{
    if from + 1 < s.len() {
        lemma_at_gap(s, from + 1);
    }
}

} // verus!
