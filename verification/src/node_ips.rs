//! The addresses of a node: found on its interfaces, and listed in an
//! annotation.

use crate::address::{address, parse_address, IpAddr};
use crate::address_laws::{address_of_text, text_is_a_list_item};
use crate::reach::{globally_reachable, is_global};
use crate::text::{
    joined, pieces_are_joined_one_by_one, pieces_view, separators_make_pieces, split, split_chars,
    split_of_joined, texts_view, to_chars, to_text,
};
use joinery::Joinable;
use vstd::prelude::*;

verus! {

/// A network interface and its addresses.
pub struct Interface {
    pub name: String,
    pub addrs: Vec<IpAddr>,
}

/// Whether the addresses stand in ascending order, each once.
pub open spec fn ascending(ips: Seq<IpAddr>) -> bool {
    forall|i: int, j: int| 0 <= i < j < ips.len() ==> ips[i].rank() < ips[j].rank()
}

/// Whether some interface has the address.
pub open spec fn on_interface(ifaces: Seq<Interface>, addr: IpAddr) -> bool {
    exists|i: int| 0 <= i < ifaces.len() && (#[trigger] ifaces[i]).addrs@.contains(addr)
}

/// Whether `ips` are the globally reachable addresses across the interfaces:
/// each once, in ascending order.
pub open spec fn are_found(ips: Seq<IpAddr>, ifaces: Seq<Interface>) -> bool {
    &&& ascending(ips)
    &&& forall|x: IpAddr| #[trigger]
        ips.contains(x) <==> globally_reachable(x) && on_interface(ifaces, x)
}

/// What is listed of the addresses: those that are globally reachable.
pub open spec fn reachable_only() -> spec_fn(IpAddr) -> bool {
    |addr: IpAddr| globally_reachable(addr)
}

/// The text of each address.
pub open spec fn ip_texts(ips: Seq<IpAddr>) -> Seq<Seq<char>> {
    Seq::new(ips.len(), |i: int| ips[i].text())
}

/// The addresses as one text, separated by commas.
pub open spec fn ip_list_text(ips: Seq<IpAddr>) -> Seq<char> {
    joined(ip_texts(ips), seq![','])
}

/// The addresses that the pieces write, or the first piece that writes none.
pub open spec fn read_pieces(pieces: Seq<Seq<char>>) -> Result<Seq<IpAddr>, Seq<char>>
    decreases pieces.len(),
{
    if pieces.len() == 0 {
        Ok(Seq::empty())
    } else {
        match read_pieces(pieces.drop_last()) {
            Ok(before) => match address(pieces.last()) {
                Some(last) => Ok(before.push(last)),
                None => Err(pieces.last()),
            },
            Err(bad) => Err(bad),
        }
    }
}

/// The addresses that a comma-separated list holds, or its first item that is
/// no address.
pub open spec fn read_ip_list(s: Seq<char>) -> Result<Seq<IpAddr>, Seq<char>> {
    read_pieces(split(s, ','))
}

/// Ascending sequences of the same addresses are equal.
pub proof fn ascending_is_unique(a: Seq<IpAddr>, b: Seq<IpAddr>)
    requires
        ascending(a),
        ascending(b),
        forall|x: IpAddr| #[trigger] a.contains(x) <==> b.contains(x),
    ensures
        a == b,
    decreases a.len(),
{
    if a.len() == 0 {
        if b.len() > 0 {
            assert(b.contains(b[0]));
            assert(a.contains(b[0]));
        }
        assert(a == b);
    } else {
        assert(a.contains(a.last()));
        assert(b.contains(a.last()));
        let i = choose|i: int| 0 <= i < b.len() && b[i] == a.last();
        assert(b.contains(b.last()));
        assert(a.contains(b.last()));
        let j = choose|j: int| 0 <= j < a.len() && a[j] == b.last();
        assert(a.last() == b.last()) by {
            if i < b.len() - 1 {
                assert(b[i].rank() < b.last().rank());
                if j < a.len() - 1 {
                    assert(a[j].rank() < a.last().rank());
                }
            }
        }
        let x = a.drop_last();
        let y = b.drop_last();
        assert forall|c: IpAddr| x.contains(c) <==> y.contains(c) by {
            if x.contains(c) {
                let k = choose|k: int| 0 <= k < x.len() && x[k] == c;
                assert(a[k] == c);
                assert(a[k].rank() < a.last().rank());
                assert(a.contains(c));
                assert(b.contains(c));
                let l = choose|l: int| 0 <= l < b.len() && b[l] == c;
                assert(y[l] == c);
            }
            if y.contains(c) {
                let k = choose|k: int| 0 <= k < y.len() && y[k] == c;
                assert(b[k] == c);
                assert(b[k].rank() < b.last().rank());
                assert(b.contains(c));
                assert(a.contains(c));
                let l = choose|l: int| 0 <= l < a.len() && a[l] == c;
                assert(x[l] == c);
            }
        }
        ascending_is_unique(x, y);
        assert(x.push(a.last()) == a);
        assert(y.push(b.last()) == b);
    }
}

/// What `get_ips` finds depends on which addresses the interfaces have
/// between them, not on which interface has which, how often, or in what
/// order.
pub proof fn found_addresses_depend_on_the_set(
    a: Seq<Interface>,
    b: Seq<Interface>,
    found_a: Seq<IpAddr>,
    found_b: Seq<IpAddr>,
)
    requires
        forall|x: IpAddr| #[trigger] on_interface(a, x) <==> on_interface(b, x),
        are_found(found_a, a),
        are_found(found_b, b),
    ensures
        found_a == found_b,
{
    assert forall|x: IpAddr| #[trigger] found_a.contains(x) <==> found_b.contains(x) by {
        assert(on_interface(a, x) <==> on_interface(b, x));
    }
    ascending_is_unique(found_a, found_b);
}

/// Pieces that write addresses one by one are read as those addresses.
proof fn lemma_read_texts(ips: Seq<IpAddr>)
    ensures
        read_pieces(ip_texts(ips)) == Ok::<Seq<IpAddr>, Seq<char>>(ips),
    decreases ips.len(),
{
    if ips.len() > 0 {
        lemma_read_texts(ips.drop_last());
        assert(ip_texts(ips).drop_last() == ip_texts(ips.drop_last()));
        address_of_text(ips.last());
        assert(ips.drop_last().push(ips.last()) == ips);
    } else {
        assert(ip_texts(ips) == Seq::<Seq<char>>::empty());
        assert(ips == Seq::<IpAddr>::empty());
    }
}

/// Reading a list that was written gives the addresses back, in order. The
/// list of no address is the empty text.
pub proof fn list_is_read_back(ips: Seq<IpAddr>)
    ensures
        ips.len() > 0 ==> read_ip_list(ip_list_text(ips)) == Ok::<Seq<IpAddr>, Seq<char>>(ips),
        ips.len() > 0 <==> ip_list_text(ips).len() > 0,
    decreases ips.len(),
{
    if ips.len() > 0 {
        let texts = ip_texts(ips);
        assert forall|i: int| 0 <= i < texts.len() implies !(#[trigger] texts[i]).contains(',') by {
            text_is_a_list_item(ips[i]);
        }
        split_of_joined(texts, ',');
        lemma_read_texts(ips);
        text_is_a_list_item(ips.last());
    }
}

/// A list is read item by item: a text without a comma is one item, and a comma
/// with such a text behind it is one item more. The first item that is no
/// address is the error.
pub proof fn lists_are_read_item_by_item(list: Seq<char>, item: Seq<char>)
    requires
        !item.contains(','),
    ensures
        read_ip_list(item) == match address(item) {
            Some(ip) => Ok::<Seq<IpAddr>, Seq<char>>(seq![ip]),
            None => Err(item),
        },
        read_ip_list(list + seq![','] + item) == match (read_ip_list(list), address(item)) {
            (Err(bad), _) => Err::<Seq<IpAddr>, Seq<char>>(bad),
            (Ok(ips), Some(ip)) => Ok(ips.push(ip)),
            (Ok(_), None) => Err(item),
        },
{
    separators_make_pieces(list, item, ',');
    let one = seq![item];
    assert(one.drop_last() =~= Seq::<Seq<char>>::empty());
    assert(read_pieces(one.drop_last()) == Ok::<Seq<IpAddr>, Seq<char>>(Seq::empty()));
    if let Some(ip) = address(item) {
        assert(Seq::<IpAddr>::empty().push(ip) =~= seq![ip]);
    }
    let pieces = split(list, ',');
    assert(pieces.push(item).drop_last() =~= pieces);
}

/// The addresses that were read are those of the items, one for one, and the
/// error is the first item that is no address.
pub proof fn read_addresses_are_those_of_the_items(list: Seq<char>)
    ensures
        match read_ip_list(list) {
            Ok(ips) => {
                &&& ips.len() == split(list, ',').len()
                &&& forall|i: int|
                    0 <= i < ips.len() ==> address(split(list, ',')[i]) == Some(#[trigger] ips[i])
            },
            Err(bad) => exists|i: int|
                {
                    &&& 0 <= i < split(list, ',').len()
                    &&& #[trigger] split(list, ',')[i] == bad
                    &&& address(bad) is None
                    &&& forall|j: int|
                        0 <= j < i ==> address(#[trigger] split(list, ',')[j]) is Some
                },
        },
{
    let pieces = split(list, ',');
    lemma_read_pieces(pieces);
    if read_ip_list(list) is Err {
        let i = lemma_bad_piece(pieces);
        assert(split(list, ',')[i] == pieces[i]);
    }
}

/// Pieces that are read are read one for one.
proof fn lemma_read_pieces(pieces: Seq<Seq<char>>)
    ensures
        read_pieces(pieces) matches Ok(ips) ==> ips.len() == pieces.len() && forall|i: int|
            0 <= i < ips.len() ==> address(pieces[i]) == Some(#[trigger] ips[i]),
    decreases pieces.len(),
{
    if pieces.len() > 0 && read_pieces(pieces) is Ok {
        let before = pieces.drop_last();
        lemma_read_pieces(before);
        let some = read_pieces(before)->Ok_0;
        let ips = read_pieces(pieces)->Ok_0;
        assert(ips == some.push(ips.last()));
        assert(address(pieces.last()) == Some(ips.last()));
        assert forall|i: int| 0 <= i < ips.len() implies address(pieces[i]) == Some(
            #[trigger] ips[i],
        ) by {
            if i < some.len() {
                assert(some[i] == ips[i]);
                assert(before[i] == pieces[i]);
            }
        }
    }
}

/// Pieces that are not read are read up to the first that is no address.
proof fn lemma_bad_piece(pieces: Seq<Seq<char>>) -> (i: int)
    requires
        read_pieces(pieces) is Err,
    ensures
        0 <= i < pieces.len(),
        read_pieces(pieces) == Err::<Seq<IpAddr>, Seq<char>>(pieces[i]),
        address(pieces[i]) is None,
        forall|j: int| 0 <= j < i ==> address(#[trigger] pieces[j]) is Some,
    decreases pieces.len(),
{
    let before = pieces.drop_last();
    if read_pieces(before) is Err {
        let i = lemma_bad_piece(before);
        assert(before[i] == pieces[i]);
        assert forall|j: int| 0 <= j < i implies address(#[trigger] pieces[j]) is Some by {
            assert(before[j] == pieces[j]);
        }
        i
    } else {
        lemma_read_pieces(before);
        let some = read_pieces(before)->Ok_0;
        assert forall|j: int| 0 <= j < before.len() implies address(#[trigger] pieces[j]) is Some by {
            assert(before[j] == pieces[j]);
            assert(address(before[j]) == Some(some[j]));
        }
        pieces.len() - 1
    }
}

/// The addresses that are found are the globally reachable ones of all
/// interfaces and no others, each once and in order.
pub proof fn found_addresses_are_those_of_the_interfaces(ips: Seq<IpAddr>, ifaces: Seq<Interface>)
    requires
        are_found(ips, ifaces),
    ensures
        forall|i: int, j: int|
            0 <= i < ifaces.len() && 0 <= j < ifaces[i].addrs@.len() && globally_reachable(
                #[trigger] ifaces[i].addrs@[j],
            ) ==> ips.contains(ifaces[i].addrs@[j]),
        forall|k: int|
            0 <= k < ips.len() ==> globally_reachable(#[trigger] ips[k]) && exists|i: int, j: int|
                0 <= i < ifaces.len() && 0 <= j < ifaces[i].addrs@.len()
                    && #[trigger] ifaces[i].addrs@[j] == ips[k],
        forall|k: int, l: int| 0 <= k < l < ips.len() ==> ips[k].rank() < ips[l].rank(),
        forall|k: int, l: int| 0 <= k < l < ips.len() ==> ips[k] != ips[l],
{
    assert forall|i: int, j: int|
        0 <= i < ifaces.len() && 0 <= j < ifaces[i].addrs@.len() && globally_reachable(
            #[trigger] ifaces[i].addrs@[j],
        ) implies ips.contains(ifaces[i].addrs@[j]) by {
        assert(ifaces[i].addrs@.contains(ifaces[i].addrs@[j]));
        assert(on_interface(ifaces, ifaces[i].addrs@[j]));
    }
    assert forall|k: int| 0 <= k < ips.len() implies globally_reachable(#[trigger] ips[k])
        && exists|i: int, j: int|
        0 <= i < ifaces.len() && 0 <= j < ifaces[i].addrs@.len() && #[trigger] ifaces[i].addrs@[j]
            == ips[k] by {
        assert(ips.contains(ips[k]));
        let i = choose|i: int|
            0 <= i < ifaces.len() && (#[trigger] ifaces[i]).addrs@.contains(ips[k]);
        let j = choose|j: int| 0 <= j < ifaces[i].addrs@.len() && ifaces[i].addrs@[j] == ips[k];
        assert(ifaces[i].addrs@[j] == ips[k]);
    }
}

/// Of an interface exactly the globally reachable addresses are kept, one by
/// one and as they stand there.
pub proof fn reachable_addresses_of_an_interface_are_kept(addrs: Seq<IpAddr>, addr: IpAddr)
    ensures
        Seq::<IpAddr>::empty().filter(reachable_only()) == Seq::<IpAddr>::empty(),
        addrs.push(addr).filter(reachable_only()) == if globally_reachable(addr) {
            addrs.filter(reachable_only()).push(addr)
        } else {
            addrs.filter(reachable_only())
        },
{
    reveal(Seq::filter);
    assert(addrs.push(addr).drop_last() =~= addrs);
}

/// A list of addresses is written address by address: the first as it is, each
/// other behind a comma.
pub proof fn lists_are_written_address_by_address(ips: Seq<IpAddr>, ip: IpAddr)
    ensures
        ip_list_text(Seq::empty()) == Seq::<char>::empty(),
        ip_list_text(ips.push(ip)) == if ips.len() == 0 {
            ip.text()
        } else {
            ip_list_text(ips) + seq![','] + ip.text()
        },
{
    assert(ip_texts(Seq::empty()) =~= Seq::<Seq<char>>::empty());
    assert(ip_texts(ips.push(ip)) =~= ip_texts(ips).push(ip.text()));
    pieces_are_joined_one_by_one(ip_texts(ips), ip.text(), seq![',']);
}

/// Calls `joinery`'s `join_with` and writes the result out: the parts one
/// after the other with `sep` between neighbours.
#[verifier::external_body]
pub(crate) fn join_texts(parts: Vec<String>, sep: &str) -> (text: String)
    ensures
        text@ == joined(texts_view(parts@), sep@),
{
    parts.join_with(sep).to_string()
}

/// The addresses as one text, separated by commas.
pub fn ip_list(ips: &Vec<IpAddr>) -> (list: String)
    ensures
        list@ == ip_list_text(ips@),
{
    let mut texts: Vec<String> = Vec::new();
    for i in 0..ips.len()
        invariant
            texts_view(texts@) == ip_texts(ips@).take(i as int),
    {
        let text = ips[i].to_text();
        let ghost before = texts_view(texts@);
        let ghost now = text@;
        texts.push(text);
        assert(texts_view(texts@) == before.push(now));
        assert(ip_texts(ips@).take(i + 1) == before.push(now));
    }
    assert(ip_texts(ips@).take(ips@.len() as int) == ip_texts(ips@));
    proof {
        reveal_strlit(",");
        assert(","@ == seq![',']);
    }
    join_texts(texts, ",")
}

/// Reading stops at the first piece that is no address.
proof fn lemma_first_bad_piece(pieces: Seq<Seq<char>>, len: int)
    requires
        0 <= len <= pieces.len(),
    ensures
        read_pieces(pieces.take(len)) matches Err(bad) ==> read_pieces(pieces) == Err::<
            Seq<IpAddr>,
            Seq<char>,
        >(bad),
    decreases pieces.len(),
{
    if len == pieces.len() {
        assert(pieces.take(len) == pieces);
    } else {
        lemma_first_bad_piece(pieces.drop_last(), len);
        assert(pieces.drop_last().take(len) == pieces.take(len));
    }
}

/// Reads a comma-separated list of addresses; the error is the first item
/// that is no address.
pub fn parse_ip_list(list: &str) -> (read: Result<Vec<IpAddr>, String>)
    ensures
        match read {
            Ok(ips) => read_ip_list(list@) == Ok::<Seq<IpAddr>, Seq<char>>(ips@),
            Err(bad) => read_ip_list(list@) == Err::<Seq<IpAddr>, Seq<char>>(bad@),
        },
{
    let chars = to_chars(list);
    let pieces = split_chars(chars.as_slice(), ',');
    let ghost all = pieces_view(pieces@);
    let mut ips: Vec<IpAddr> = Vec::new();
    assert(all.take(0) == Seq::<Seq<char>>::empty());
    for i in 0..pieces.len()
        invariant
            all == pieces_view(pieces@),
            all == split(list@, ','),
            read_pieces(all.take(i as int)) == Ok::<Seq<IpAddr>, Seq<char>>(ips@),
    {
        assert(all.take(i + 1).drop_last() == all.take(i as int));
        assert(all.take(i + 1).last() == pieces@[i as int]@);
        let item = to_text(pieces[i].as_slice());
        match parse_address(item.as_str()) {
            Some(ip) => {
                ips.push(ip);
            },
            None => {
                proof {
                    lemma_first_bad_piece(all, i + 1);
                }
                return Err(item);
            },
        }
    }
    assert(all.take(pieces@.len() as int) == all);
    Ok(ips)
}

/// Puts an address in its place among ascending ones.
fn insert_ip(ips: &mut Vec<IpAddr>, ip: IpAddr)
    requires
        ascending(old(ips)@),
    ensures
        ascending(final(ips)@),
        forall|x: IpAddr| #[trigger] final(ips)@.contains(x) <==> old(ips)@.contains(x) || x == ip,
{
    let ghost before = ips@;
    let mut i: usize = 0;
    while i < ips.len() && ips[i].precedes(&ip)
        invariant
            i <= ips@.len(),
            ips@ == before,
            forall|k: int| 0 <= k < i ==> (#[trigger] ips@[k]).rank() < ip.rank(),
        decreases ips@.len() - i,
    {
        i = i + 1;
    }
    if i < ips.len() && ips[i] == ip {
        assert(before.contains(ip)) by {
            assert(before[i as int] == ip);
        }
        return;
    }
    proof {
        if i < ips@.len() {
            crate::address::rank_identifies(ips@[i as int], ip);
        }
    }
    ips.insert(i, ip);
    let ghost after = ips@;
    assert(after == before.insert(i as int, ip));
    assert forall|x: IpAddr| #[trigger] after.contains(x) <==> before.contains(x) || x == ip by {
        if before.contains(x) {
            let k = choose|k: int| 0 <= k < before.len() && before[k] == x;
            if k < i {
                assert(after[k] == x);
            } else {
                assert(after[k + 1] == x);
            }
        }
        assert(after[i as int] == ip);
        if after.contains(x) {
            let k = choose|k: int| 0 <= k < after.len() && after[k] == x;
            if k < i {
                assert(before[k] == x);
            } else if k > i {
                assert(before[k - 1] == x);
            }
        }
    }
    assert forall|k: int, l: int| 0 <= k < l < after.len() implies after[k].rank() < after[l].rank() by {
        if k < i && l > i {
            assert(before[k].rank() < before[l - 1].rank());
        } else if k > i {
            assert(before[k - 1].rank() < before[l - 1].rank());
        } else if k == i {
            if l - 1 > i {
                assert(before[i as int].rank() < before[l - 1].rank());
            }
        } else if l < i {
            assert(before[k].rank() < before[l].rank());
        }
    }
}

/// The globally reachable addresses of one interface, as they stand there.
pub fn interface_ips(iface: &Interface) -> (ips: Vec<IpAddr>)
    ensures
        ips@ == iface.addrs@.filter(reachable_only()),
{
    let mut ips: Vec<IpAddr> = Vec::new();
    proof {
        assert(iface.addrs@.take(0).filter(reachable_only()) == Seq::<IpAddr>::empty()) by {
            reveal(Seq::filter);
        }
    }
    for i in 0..iface.addrs.len()
        invariant
            ips@ == iface.addrs@.take(i as int).filter(reachable_only()),
    {
        proof {
            reveal(Seq::filter);
            assert(iface.addrs@.take(i + 1).drop_last() == iface.addrs@.take(i as int));
        }
        let ip = iface.addrs[i];
        if is_global(ip) {
            ips.push(ip);
        }
    }
    assert(iface.addrs@.take(iface.addrs@.len() as int) == iface.addrs@);
    ips
}

/// The globally reachable addresses across all interfaces, each once, in
/// ascending order.
pub fn get_ips(ifaces: &Vec<Interface>) -> (ips: Vec<IpAddr>)
    ensures
        are_found(ips@, ifaces@),
{
    let mut ips: Vec<IpAddr> = Vec::new();
    for i in 0..ifaces.len()
        invariant
            are_found(ips@, ifaces@.take(i as int)),
    {
        let ghost found = ips@;
        let reachable = interface_ips(&ifaces[i]);
        for j in 0..reachable.len()
            invariant
                ascending(ips@),
                forall|x: IpAddr| #[trigger]
                    ips@.contains(x) <==> found.contains(x) || reachable@.take(j as int).contains(x),
        {
            let ghost before = ips@;
            insert_ip(&mut ips, reachable[j]);
            assert forall|x: IpAddr| #[trigger]
                ips@.contains(x) <==> found.contains(x) || reachable@.take(j + 1).contains(x) by {
                assert(reachable@.take(j + 1) == reachable@.take(j as int).push(reachable@[j as int]));
                if reachable@.take(j as int).contains(x) {
                    let k = choose|k: int| 0 <= k < j && reachable@.take(j as int)[k] == x;
                    assert(reachable@.take(j + 1)[k] == x);
                }
                if x == reachable@[j as int] {
                    assert(reachable@.take(j + 1)[j as int] == x);
                }
            }
        }
        assert(reachable@.take(reachable@.len() as int) == reachable@);
        assert forall|x: IpAddr| #[trigger]
            ips@.contains(x) <==> globally_reachable(x) && on_interface(ifaces@.take(i + 1), x) by {
            let now = ifaces@.take(i + 1);
            let before = ifaces@.take(i as int);
            iface_filter(ifaces@[i as int].addrs@, x);
            if on_interface(before, x) {
                let k = choose|k: int| 0 <= k < before.len() && (#[trigger] before[k]).addrs@.contains(x);
                assert(now[k].addrs@.contains(x));
            }
            if ifaces@[i as int].addrs@.contains(x) {
                assert(now[i as int].addrs@.contains(x));
            }
            if on_interface(now, x) {
                let k = choose|k: int| 0 <= k < now.len() && (#[trigger] now[k]).addrs@.contains(x);
                if k < i {
                    assert(before[k].addrs@.contains(x));
                }
            }
        }
    }
    assert(ifaces@.take(ifaces@.len() as int) == ifaces@);
    ips
}

/// The reachable ones of some addresses are those that are reachable.
proof fn iface_filter(addrs: Seq<IpAddr>, x: IpAddr)
    ensures
        addrs.filter(reachable_only()).contains(x) <==> addrs.contains(x) && globally_reachable(x),
    decreases addrs.len(),
{
    reveal(Seq::filter);
    if addrs.len() > 0 {
        let before = addrs.drop_last();
        iface_filter(before, x);
        if before.contains(x) {
            let k = choose|k: int| 0 <= k < before.len() && before[k] == x;
            assert(addrs[k] == x);
        }
        if addrs.contains(x) {
            let k = choose|k: int| 0 <= k < addrs.len() && addrs[k] == x;
            if k < before.len() {
                assert(before[k] == x);
            }
        }
        let kept = before.filter(reachable_only());
        if reachable_only()(addrs.last()) {
            let all = addrs.filter(reachable_only());
            assert(all == kept.push(addrs.last()));
            if kept.contains(x) {
                let k = choose|k: int| 0 <= k < kept.len() && kept[k] == x;
                assert(all[k] == x);
            }
            assert(all[kept.len() as int] == addrs.last());
            if all.contains(x) {
                let k = choose|k: int| 0 <= k < all.len() && all[k] == x;
                if k < kept.len() {
                    assert(kept[k] == x);
                }
            }
        }
    }
}

} // verus!
