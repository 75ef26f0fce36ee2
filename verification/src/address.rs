//! IP addresses and how they are written.

use crate::numeral::{number, numeral, read_number, write_number};
use crate::text::{joined, pieces_view, slice, split, split_chars, to_chars};
use vstd::prelude::*;

verus! {

/// An IP address: the four octets of an IPv4 address, or the eight 16-bit
/// segments of an IPv6 address, most significant first.
#[derive(Clone, Copy, Debug, PartialEq, Eq, Structural)]
pub enum IpAddr {
    V4(u8, u8, u8, u8),
    V6(u16, u16, u16, u16, u16, u16, u16, u16),
}

/// The IPv4 address with these octets.
pub open spec fn v4(octets: Seq<u8>) -> IpAddr
    recommends
        octets.len() == 4,
{
    IpAddr::V4(octets[0], octets[1], octets[2], octets[3])
}

/// The IPv6 address with these segments.
pub open spec fn v6(segments: Seq<u16>) -> IpAddr
    recommends
        segments.len() == 8,
{
    IpAddr::V6(
        segments[0],
        segments[1],
        segments[2],
        segments[3],
        segments[4],
        segments[5],
        segments[6],
        segments[7],
    )
}

/// The octet that `s` writes: one to three decimal digits, no leading zero,
/// at most 255.
pub open spec fn octet(s: Seq<char>) -> Option<u8> {
    if 1 <= s.len() <= 3 && (s.len() == 1 || s[0] != '0') {
        match number(s, 10) {
            Some(n) => if n <= 255 {
                Some(n as u8)
            } else {
                None
            },
            None => None,
        }
    } else {
        None
    }
}

/// The four octets of a dotted address.
pub open spec fn dotted(s: Seq<char>) -> Option<Seq<u8>> {
    let parts = split(s, '.');
    if parts.len() == 4 {
        match (octet(parts[0]), octet(parts[1]), octet(parts[2]), octet(parts[3])) {
            (Some(a), Some(b), Some(c), Some(d)) => Some(seq![a, b, c, d]),
            _ => None,
        }
    } else {
        None
    }
}

/// The segment that `s` writes: one to four hexadecimal digits.
pub open spec fn segment(s: Seq<char>) -> Option<u16> {
    if 1 <= s.len() <= 4 {
        match number(s, 16) {
            Some(n) => Some(n as u16),
            None => None,
        }
    } else {
        None
    }
}

/// The segments that the parts write, one each.
pub open spec fn segments(parts: Seq<Seq<char>>) -> Option<Seq<u16>>
    decreases parts.len(),
{
    if parts.len() == 0 {
        Some(Seq::empty())
    } else {
        match (segments(parts.drop_last()), segment(parts.last())) {
            (Some(before), Some(last)) => Some(before.push(last)),
            _ => None,
        }
    }
}

/// The segments of colon-separated groups; none for the empty text. Where
/// `dotted_end` allows it the last group may be a dotted address, which makes
/// two segments.
#[verifier::opaque]
pub open spec fn groups(s: Seq<char>, dotted_end: bool) -> Option<Seq<u16>> {
    if s.len() == 0 {
        Some(Seq::empty())
    } else {
        let parts = split(s, ':');
        match segments(parts.drop_last()) {
            Some(before) => match (segment(parts.last()), dotted(parts.last())) {
                (Some(last), _) => Some(before.push(last)),
                (None, Some(o)) => if dotted_end {
                    Some(
                        before.push((o[0] * 256 + o[1]) as u16).push((o[2] * 256 + o[3]) as u16),
                    )
                } else {
                    None
                },
                _ => None,
            },
            None => None,
        }
    }
}

/// Where `::` first stands in `s` at or after `from`; the length of `s` if it
/// does not.
pub open spec fn gap(s: Seq<char>, from: nat) -> nat
    decreases s.len() - from,
{
    if from + 1 >= s.len() {
        s.len()
    } else if s[from as int] == ':' && s[from as int + 1] == ':' {
        from
    } else {
        gap(s, from + 1)
    }
}

/// `n` zero segments.
pub open spec fn zeros(n: nat) -> Seq<u16> {
    Seq::new(n, |i: int| 0u16)
}

/// The eight segments of a colon-separated address. A `::` stands for the
/// zero segments, at least one, that the groups around it leave out.
#[verifier::opaque]
pub open spec fn colon_separated(s: Seq<char>) -> Option<Seq<u16>> {
    let at = gap(s, 0) as int;
    if at < s.len() {
        match (groups(s.take(at), false), groups(s.skip(at + 2), true)) {
            (Some(head), Some(tail)) => if head.len() + tail.len() <= 7 {
                Some(head + zeros((8 - head.len() - tail.len()) as nat) + tail)
            } else {
                None
            },
            _ => None,
        }
    } else {
        match groups(s, true) {
            Some(all) => if all.len() == 8 {
                Some(all)
            } else {
                None
            },
            None => None,
        }
    }
}

/// The address that `s` writes, if it writes one.
#[verifier::opaque]
pub open spec fn address(s: Seq<char>) -> Option<IpAddr> {
    match (dotted(s), colon_separated(s)) {
        (Some(octets), _) => Some(v4(octets)),
        (None, Some(segments)) => Some(v6(segments)),
        _ => None,
    }
}

/// Reads an octet.
fn read_octet(chars: &[char]) -> (read: Option<u8>)
    ensures
        read == octet(chars@),
{
    if chars.len() < 1 || chars.len() > 3 || (chars.len() > 1 && chars[0] == '0') {
        return None;
    }
    match read_number(chars, 10) {
        Some(n) => if n <= 255 {
            Some(n as u8)
        } else {
            None
        },
        None => None,
    }
}

/// Reads a dotted address.
fn read_dotted(chars: &[char]) -> (read: Option<(u8, u8, u8, u8)>)
    ensures
        match read {
            Some(o) => dotted(chars@) == Some(seq![o.0, o.1, o.2, o.3]),
            None => dotted(chars@) is None,
        },
{
    let parts = split_chars(chars, '.');
    assert(pieces_view(parts@).len() == parts@.len());
    if parts.len() != 4 {
        return None;
    }
    assert(forall|i: int| 0 <= i < 4 ==> pieces_view(parts@)[i] == (#[trigger] parts@[i])@);
    match (
        read_octet(parts[0].as_slice()),
        read_octet(parts[1].as_slice()),
        read_octet(parts[2].as_slice()),
        read_octet(parts[3].as_slice()),
    ) {
        (Some(a), Some(b), Some(c), Some(d)) => Some((a, b, c, d)),
        _ => None,
    }
}

/// Reads a segment.
fn read_segment(chars: &[char]) -> (read: Option<u16>)
    ensures
        read == segment(chars@),
{
    if chars.len() < 1 || chars.len() > 4 {
        return None;
    }
    match read_number(chars, 16) {
        Some(n) => Some(n as u16),
        None => None,
    }
}

/// The parts have segments only if all their prefixes do.
proof fn lemma_prefix_has_segments(parts: Seq<Seq<char>>, len: int)
    requires
        0 <= len <= parts.len(),
    ensures
        segments(parts) is Some ==> segments(parts.take(len)) is Some,
    decreases parts.len(),
{
    if len == parts.len() {
        assert(parts.take(len) == parts);
    } else {
        lemma_prefix_has_segments(parts.drop_last(), len);
        assert(parts.drop_last().take(len) == parts.take(len));
    }
}

/// Reads colon-separated groups.
fn read_groups(chars: &[char], dotted_end: bool) -> (read: Option<Vec<u16>>)
    ensures
        match read {
            Some(r) => groups(chars@, dotted_end) == Some(r@),
            None => groups(chars@, dotted_end) is None,
        },
{
    proof {
        reveal(groups);
    }
    let mut read: Vec<u16> = Vec::new();
    if chars.len() == 0 {
        return Some(read);
    }
    let parts = split_chars(chars, ':');
    let ghost all = pieces_view(parts@);
    proof {
        crate::text::split_pieces_are_free(chars@, ':');
    }
    let count: usize = parts.len() - 1;
    assert(all.take(0) == Seq::<Seq<char>>::empty());
    for i in 0..count
        invariant
            all == pieces_view(parts@),
            count == parts@.len() - 1,
            segments(all.take(i as int)) == Some(read@),
            all == split(chars@, ':'),
            chars@.len() > 0,
    {
        assert(all.take(i + 1).drop_last() == all.take(i as int));
        assert(all.take(i + 1).last() == parts@[i as int]@);
        match read_segment(parts[i].as_slice()) {
            Some(s) => {
                read.push(s);
            },
            None => {
                proof {
                    reveal(groups);
                    lemma_prefix_has_segments(all.drop_last(), i + 1);
                    assert(all.drop_last().take(i + 1) == all.take(i + 1));
                }
                return None;
            },
        }
    }
    assert(all.take(count as int) == all.drop_last());
    assert(all.last() == parts@[count as int]@);
    match read_segment(parts[count].as_slice()) {
        Some(s) => {
            read.push(s);
            Some(read)
        },
        None => match read_dotted(parts[count].as_slice()) {
            Some(o) => if dotted_end {
                read.push(o.0 as u16 * 256 + o.1 as u16);
                read.push(o.2 as u16 * 256 + o.3 as u16);
                Some(read)
            } else {
                None
            },
            None => None,
        },
    }
}

/// Finds the first `::`.
fn find_gap(chars: &[char]) -> (at: usize)
    ensures
        at == gap(chars@, 0),
        at < chars@.len() ==> at + 2 <= chars@.len(),
{
    let mut at: usize = 0;
    while at < chars.len() && chars.len() - at > 1
        invariant
            at <= chars@.len(),
            gap(chars@, 0) == gap(chars@, at as nat),
        decreases chars@.len() - at,
    {
        if chars[at] == ':' && chars[at + 1] == ':' {
            return at;
        }
        at = at + 1;
    }
    chars.len()
}

/// Reads a colon-separated address.
fn read_colon_separated(chars: &[char]) -> (read: Option<Vec<u16>>)
    ensures
        match read {
            Some(r) => colon_separated(chars@) == Some(r@) && r@.len() == 8,
            None => colon_separated(chars@) is None,
        },
{
    proof {
        reveal(colon_separated);
    }
    let at = find_gap(chars);
    if at < chars.len() {
        let before = slice(chars, 0, at);
        let after = slice(chars, at + 2, chars.len());
        assert(before@ == chars@.take(at as int));
        assert(after@ == chars@.skip(at + 2));
        match (read_groups(before.as_slice(), false), read_groups(after.as_slice(), true)) {
            (Some(head), Some(tail)) => {
                let mut tail = tail;
                if head.len() > 7 || tail.len() > 7 - head.len() {
                    return None;
                }
                let ghost h = head@;
                let ghost t = tail@;
                let missing: usize = 8 - head.len() - tail.len();
                let mut all = head;
                for i in 0..missing
                    invariant
                        all@ == h + zeros(i as nat),
                {
                    all.push(0);
                    assert(zeros(i as nat).push(0) == zeros((i + 1) as nat));
                }
                all.append(&mut tail);
                assert(all@ == h + zeros(missing as nat) + t);
                Some(all)
            },
            _ => None,
        }
    } else {
        match read_groups(chars, true) {
            Some(all) => if all.len() == 8 {
                Some(all)
            } else {
                None
            },
            None => None,
        }
    }
}

/// The IPv6 address with these segments.
fn from_segments(segments: &Vec<u16>) -> (addr: IpAddr)
    requires
        segments@.len() == 8,
    ensures
        addr == v6(segments@),
{
    IpAddr::V6(
        segments[0],
        segments[1],
        segments[2],
        segments[3],
        segments[4],
        segments[5],
        segments[6],
        segments[7],
    )
}

/// Reads an address.
pub fn parse_address(text: &str) -> (read: Option<IpAddr>)
    ensures
        read == address(text@),
{
    proof {
        reveal(address);
    }
    let chars = to_chars(text);
    match read_dotted(chars.as_slice()) {
        Some(o) => Some(IpAddr::V4(o.0, o.1, o.2, o.3)),
        None => match read_colon_separated(chars.as_slice()) {
            Some(s) => Some(from_segments(&s)),
            None => None,
        },
    }
}

/// A dotted address as it is written.
pub open spec fn dotted_text(octets: Seq<u8>) -> Seq<char> {
    joined(Seq::new(octets.len(), |i: int| numeral(octets[i] as nat, 10)), seq!['.'])
}

/// Segments as they are written: in hexadecimal, separated by colons.
pub open spec fn groups_text(segments: Seq<u16>) -> Seq<char> {
    joined(Seq::new(segments.len(), |i: int| numeral(segments[i] as nat, 16)), seq![':'])
}

/// How many zero segments follow one another from `i` on.
pub open spec fn zero_run(segments: Seq<u16>, i: nat) -> nat
    decreases segments.len() - i,
{
    if i < segments.len() && segments[i as int] == 0 {
        1 + zero_run(segments, i + 1)
    } else {
        0
    }
}

/// Where the longest run of zero segments starts that starts before `end`;
/// the first of them if there are several.
pub open spec fn longest_run(segments: Seq<u16>, end: nat) -> nat
    decreases end,
{
    if end <= 1 {
        0
    } else {
        let best = longest_run(segments, (end - 1) as nat);
        if zero_run(segments, (end - 1) as nat) > zero_run(segments, best) {
            (end - 1) as nat
        } else {
            best
        }
    }
}

/// Whether the segments are those of an IPv4-mapped address,
/// `::ffff:0:0/96`.
pub open spec fn is_mapped(segments: Seq<u16>) -> bool {
    segments.take(5) == zeros(5) && segments[5] == 0xffff
}

/// The octets of two segments.
pub open spec fn octets_of(high: u16, low: u16) -> Seq<u8> {
    seq![(high / 256) as u8, (high % 256) as u8, (low / 256) as u8, (low % 256) as u8]
}

/// A colon-separated address as it is written: an IPv4-mapped address with a
/// dotted end, any other with its longest run of two or more zero segments
/// as `::`.
pub open spec fn colon_text(segments: Seq<u16>) -> Seq<char> {
    let start = longest_run(segments, segments.len());
    let run = zero_run(segments, start);
    if is_mapped(segments) {
        seq![':', ':'] + numeral(0xffff, 16) + seq![':'] + dotted_text(
            octets_of(segments[6], segments[7]),
        )
    } else if run >= 2 {
        groups_text(segments.take(start as int)) + seq![':', ':'] + groups_text(
            segments.skip((start + run) as int),
        )
    } else {
        groups_text(segments)
    }
}

impl IpAddr {
    /// The octets of an IPv4 address.
    pub open spec fn octets(self) -> Seq<u8>
        recommends
            self is V4,
    {
        match self {
            IpAddr::V4(a, b, c, d) => seq![a, b, c, d],
            IpAddr::V6(..) => Seq::empty(),
        }
    }

    /// The segments of an IPv6 address.
    pub open spec fn segments(self) -> Seq<u16>
        recommends
            self is V6,
    {
        match self {
            IpAddr::V4(..) => Seq::empty(),
            IpAddr::V6(a, b, c, d, e, f, g, h) => seq![a, b, c, d, e, f, g, h],
        }
    }

    /// The address as it is written.
    pub open spec fn text(self) -> Seq<char> {
        match self {
            IpAddr::V4(..) => dotted_text(self.octets()),
            IpAddr::V6(..) => colon_text(self.segments()),
        }
    }

    /// The place of the address in the order of all addresses: IPv4 before
    /// IPv6, and each kind by its value as a number.
    pub open spec fn rank(self) -> int {
        match self {
            IpAddr::V4(a, b, c, d) => ((a * 256 + b) * 256 + c) * 256 + d,
            IpAddr::V6(a, b, c, d, e, f, g, h) => 0x1_0000_0000int + ((((((a * 65536 + b) * 65536
                + c) * 65536 + d) * 65536 + e) * 65536 + f) * 65536 + g) * 65536 + h,
        }
    }

    /// Whether this address comes before the other.
    pub fn precedes(&self, other: &IpAddr) -> (before: bool)
        ensures
            before == (self.rank() < other.rank()),
    {
        match (*self, *other) {
            (IpAddr::V4(a, b, c, d), IpAddr::V4(e, f, g, h)) => {
                if a != e {
                    a < e
                } else if b != f {
                    b < f
                } else if c != g {
                    c < g
                } else {
                    d < h
                }
            },
            (IpAddr::V4(..), IpAddr::V6(..)) => true,
            (IpAddr::V6(..), IpAddr::V4(..)) => false,
            (
                IpAddr::V6(a, b, c, d, e, f, g, h),
                IpAddr::V6(i, j, k, l, m, n, o, p),
            ) => {
                if a != i {
                    a < i
                } else if b != j {
                    b < j
                } else if c != k {
                    c < k
                } else if d != l {
                    d < l
                } else if e != m {
                    e < m
                } else if f != n {
                    f < n
                } else if g != o {
                    g < o
                } else {
                    h < p
                }
            },
        }
    }

    /// The address as it is written.
    pub fn to_text(&self) -> (text: String)
        ensures
            text@ == self.text(),
    {
        let mut text = String::new();
        match *self {
            IpAddr::V4(a, b, c, d) => {
                write_dotted(&mut text, a, b, c, d);
                assert(seq![a, b, c, d] == self.octets());
            },
            IpAddr::V6(a, b, c, d, e, f, g, h) => {
                let segments: [u16; 8] = [a, b, c, d, e, f, g, h];
                assert(segments@ == self.segments());
                write_colon_separated(&mut text, &segments);
            },
        }
        text
    }
}

/// IPv4 addresses come before IPv6 addresses, and each kind is ordered by its
/// first octet or segment that differs.
pub proof fn addresses_are_ordered_by_their_numbers(a: IpAddr, b: IpAddr)
    ensures
        match (a, b) {
            (IpAddr::V4(..), IpAddr::V6(..)) => a.rank() < b.rank(),
            (IpAddr::V6(..), IpAddr::V4(..)) => b.rank() < a.rank(),
            (IpAddr::V4(a0, a1, a2, a3), IpAddr::V4(b0, b1, b2, b3)) => a.rank() < b.rank() <==> {
                ||| a0 < b0
                ||| a0 == b0 && a1 < b1
                ||| a0 == b0 && a1 == b1 && a2 < b2
                ||| a0 == b0 && a1 == b1 && a2 == b2 && a3 < b3
            },
            (
                IpAddr::V6(a0, a1, a2, a3, a4, a5, a6, a7),
                IpAddr::V6(b0, b1, b2, b3, b4, b5, b6, b7),
            ) => a.rank() < b.rank() <==> {
                ||| a0 < b0
                ||| a0 == b0 && a1 < b1
                ||| a0 == b0 && a1 == b1 && a2 < b2
                ||| a0 == b0 && a1 == b1 && a2 == b2 && a3 < b3
                ||| a0 == b0 && a1 == b1 && a2 == b2 && a3 == b3 && a4 < b4
                ||| a0 == b0 && a1 == b1 && a2 == b2 && a3 == b3 && a4 == b4 && a5 < b5
                ||| a0 == b0 && a1 == b1 && a2 == b2 && a3 == b3 && a4 == b4 && a5 == b5 && a6 < b6
                ||| a0 == b0 && a1 == b1 && a2 == b2 && a3 == b3 && a4 == b4 && a5 == b5 && a6 == b6
                    && a7 < b7
            },
        },
{
}

/// Addresses of the same rank are the same.
pub proof fn rank_identifies(a: IpAddr, b: IpAddr)
    ensures
        a.rank() == b.rank() ==> a == b,
{
    if a.rank() == b.rank() {
        match (a, b) {
            (IpAddr::V6(a0, a1, a2, a3, a4, a5, a6, a7), IpAddr::V6(b0, b1, b2, b3, b4, b5, b6, b7)) => {
                let x1 = a0 * 65536 + a1;
                let x2 = x1 * 65536 + a2;
                let x3 = x2 * 65536 + a3;
                let x4 = x3 * 65536 + a4;
                let x5 = x4 * 65536 + a5;
                let x6 = x5 * 65536 + a6;
                let y1 = b0 * 65536 + b1;
                let y2 = y1 * 65536 + b2;
                let y3 = y2 * 65536 + b3;
                let y4 = y3 * 65536 + b4;
                let y5 = y4 * 65536 + b5;
                let y6 = y5 * 65536 + b6;
                assert(x6 == y6 && a7 == b7);
                assert(x5 == y5 && a6 == b6);
                assert(x4 == y4 && a5 == b5);
                assert(x3 == y3 && a4 == b4);
                assert(x2 == y2 && a3 == b3);
                assert(x1 == y1 && a2 == b2);
                assert(a0 == b0 && a1 == b1);
            },
            _ => {},
        }
    }
}

/// Appends a dotted address.
fn write_dotted(text: &mut String, a: u8, b: u8, c: u8, d: u8)
    ensures
        final(text)@ == old(text)@ + dotted_text(seq![a, b, c, d]),
{
    write_number(text, a as u16, 10);
    text.push('.');
    write_number(text, b as u16, 10);
    text.push('.');
    write_number(text, c as u16, 10);
    text.push('.');
    write_number(text, d as u16, 10);
    proof {
        let octets = seq![a, b, c, d];
        let parts = Seq::new(octets.len(), |i: int| numeral(octets[i] as nat, 10));
        assert(parts.drop_last().drop_last().drop_last() == seq![parts[0]]);
        reveal_with_fuel(joined, 4);
        assert(text@ == old(text)@ + dotted_text(octets));
    }
}

/// Appends the segments from `from` up to, not including, `to`.
fn write_groups(text: &mut String, segments: &[u16; 8], from: usize, to: usize)
    requires
        from <= to <= 8,
    ensures
        final(text)@ == old(text)@ + groups_text(segments@.subrange(from as int, to as int)),
{
    assert(groups_text(segments@.subrange(from as int, from as int)) == Seq::<char>::empty());
    for i in from..to
        invariant
            from <= to <= 8,
            text@ == old(text)@ + groups_text(segments@.subrange(from as int, i as int)),
    {
        let ghost before = segments@.subrange(from as int, i as int);
        let ghost now = segments@.subrange(from as int, i + 1);
        let ghost before_parts = Seq::new(before.len(), |k: int| numeral(before[k] as nat, 16));
        let ghost parts = Seq::new(now.len(), |k: int| numeral(now[k] as nat, 16));
        assert(parts.drop_last() == before_parts);
        if i > from {
            text.push(':');
        }
        write_number(text, segments[i], 16);
        assert(text@ == old(text)@ + groups_text(now));
    }
}

/// Counts the zero segments from `i` on.
fn count_zeros(segments: &[u16; 8], i: usize) -> (run: usize)
    requires
        i <= 8,
    ensures
        run == zero_run(segments@, i as nat),
        i + run <= 8,
    decreases 8 - i,
{
    if i < 8 && segments[i] == 0 {
        1 + count_zeros(segments, i + 1)
    } else {
        0
    }
}

/// Appends a colon-separated address.
fn write_colon_separated(text: &mut String, segments: &[u16; 8])
    ensures
        final(text)@ == old(text)@ + colon_text(segments@),
{
    let leading = count_zeros(segments, 0);
    proof {
        lemma_zero_run(segments@, 0);
    }
    if leading == 5 && segments[5] == 0xffff {
        assert(segments@.take(5) == zeros(5));
        text.push(':');
        text.push(':');
        write_number(text, 0xffff, 16);
        text.push(':');
        let high = segments[6];
        let low = segments[7];
        write_dotted(text, (high / 256) as u8, (high % 256) as u8, (low / 256) as u8, (low % 256) as u8);
        assert(text@ == old(text)@ + colon_text(segments@));
        return;
    }
    assert(!is_mapped(segments@)) by {
        if is_mapped(segments@) {
            assert(forall|k: int| 0 <= k < 5 ==> segments@[k] == segments@.take(5)[k]);
            lemma_zero_run_reaches(segments@, 0, 5);
        }
    }
    let mut start: usize = 0;
    let mut run: usize = leading;
    for i in 1usize..8
        invariant
            start == longest_run(segments@, i as nat),
            run == zero_run(segments@, start as nat),
            start + run <= 8,
    {
        let other = count_zeros(segments, i);
        if other > run {
            start = i;
            run = other;
        }
    }
    if run >= 2 {
        write_groups(text, segments, 0, start);
        text.push(':');
        text.push(':');
        write_groups(text, segments, start + run, 8);
        assert(segments@.subrange(0, start as int) == segments@.take(start as int));
        assert(segments@.subrange(start + run, 8) == segments@.skip(start + run));
    } else {
        write_groups(text, segments, 0, 8);
        assert(segments@.subrange(0, 8) == segments@);
    }
    assert(text@ == old(text)@ + colon_text(segments@));
}

/// A run of zeros holds zeros, stays within the segments and ends at a
/// segment that is not zero.
pub(crate) proof fn lemma_zero_run(segments: Seq<u16>, i: nat)
    requires
        i <= segments.len(),
    ensures
        i + zero_run(segments, i) <= segments.len(),
        forall|k: int| i <= k < i + zero_run(segments, i) ==> segments[k] == 0,
        i + zero_run(segments, i) < segments.len() ==> segments[(i + zero_run(segments, i)) as int]
            != 0,
    decreases segments.len() - i,
{
    if i < segments.len() && segments[i as int] == 0 {
        lemma_zero_run(segments, i + 1);
    }
}

/// A run of zeros reaches the first segment that is not zero.
proof fn lemma_zero_run_reaches(segments: Seq<u16>, i: nat, end: nat)
    requires
        i <= end < segments.len(),
        forall|k: int| i <= k < end ==> segments[k] == 0,
        segments[end as int] != 0,
    ensures
        i + zero_run(segments, i) == end,
    decreases end - i,
{
    if i < end {
        lemma_zero_run_reaches(segments, i + 1, end);
    }
}

} // verus!
