//! Which hosted zone a domain belongs to.

use crate::error::{Error, ErrorView};
use crate::text::{ends_with, same_chars, slice, to_chars, to_text};
use vstd::prelude::*;
use vstd::utf8::encode_utf8;

verus! {

/// A hosted zone. Whether it is private is known only if its configuration
/// is.
pub struct HostedZone {
    pub id: String,
    pub name: String,
    pub private_zone: Option<bool>,
}

/// A `HostedZone` by its texts.
pub ghost struct HostedZoneView {
    pub id: Seq<char>,
    pub name: Seq<char>,
    pub private_zone: Option<bool>,
}

impl View for HostedZone {
    type V = HostedZoneView;

    open spec fn view(&self) -> HostedZoneView {
        HostedZoneView { id: self.id@, name: self.name@, private_zone: self.private_zone }
    }
}

/// A domain, the hosted zone that holds it, and its name there.
pub struct HostedZoneDomain {
    pub domain: String,
    pub hosted_zone: HostedZone,
    pub record_name: String,
}

/// A `HostedZoneDomain` by its texts.
pub ghost struct HostedZoneDomainView {
    pub domain: Seq<char>,
    pub hosted_zone: HostedZoneView,
    pub record_name: Seq<char>,
}

impl View for HostedZoneDomain {
    type V = HostedZoneDomainView;

    open spec fn view(&self) -> HostedZoneDomainView {
        HostedZoneDomainView {
            domain: self.domain@,
            hosted_zone: self.hosted_zone@,
            record_name: self.record_name@,
        }
    }
}

/// The hosted zones by their texts.
pub open spec fn zones_view(zones: Seq<HostedZone>) -> Seq<HostedZoneView> {
    Seq::new(zones.len(), |i: int| zones[i]@)
}

/// The domains by their texts.
pub open spec fn domains_view(domains: Seq<HostedZoneDomain>) -> Seq<HostedZoneDomainView> {
    Seq::new(domains.len(), |i: int| domains[i]@)
}

/// A domain name without the dot that may end it.
pub open spec fn without_trailing_dot(domain: Seq<char>) -> Seq<char> {
    if domain.len() > 0 && domain.last() == '.' {
        domain.drop_last()
    } else {
        domain
    }
}

/// The name of a domain in the zone of the given name: `@` for the zone's own
/// domain, otherwise what stands before the dot and the zone's domain. None if
/// the domain is not in the zone.
pub open spec fn record_name(domain: Seq<char>, zone: Seq<char>) -> Option<Seq<char>> {
    let end = without_trailing_dot(zone);
    let suffix = seq!['.'] + end;
    if domain == end {
        Some(seq!['@'])
    } else if ends_with(domain, suffix) {
        Some(domain.take(domain.len() - suffix.len()))
    } else {
        None
    }
}

/// The length of a zone's name in bytes.
pub open spec fn name_length(zone: HostedZoneView) -> usize {
    encode_utf8(zone.name).len() as usize
}

/// Whether the zone at `i` is the one for the domain: it holds the domain, no
/// zone that does has a longer name, and no later one has one as long.
pub open spec fn is_zone_for(zones: Seq<HostedZoneView>, domain: Seq<char>, i: int) -> bool {
    &&& 0 <= i < zones.len()
    &&& record_name(domain, zones[i].name) is Some
    &&& forall|j: int|
        0 <= j < zones.len() && record_name(domain, (#[trigger] zones[j]).name) is Some ==> {
            &&& name_length(zones[j]) <= name_length(zones[i])
            &&& i < j ==> name_length(zones[j]) < name_length(zones[i])
        }
}

/// Whether some zone holds the domain.
pub open spec fn has_zone(zones: Seq<HostedZoneView>, domain: Seq<char>) -> bool {
    exists|i: int|
        0 <= i < zones.len() && record_name(domain, (#[trigger] zones[i]).name) is Some
}

/// Whether `found` is the domain in the zone for it.
pub open spec fn is_placed(
    zones: Seq<HostedZoneView>,
    domain: Seq<char>,
    found: HostedZoneDomainView,
) -> bool {
    &&& found.domain == domain
    &&& exists|i: int| #[trigger]
        is_zone_for(zones, domain, i) && found.hosted_zone == zones[i]
            && record_name(domain, zones[i].name) == Some(found.record_name)
}

/// Whether a zone is public: one that is not known to be private.
pub open spec fn is_public() -> spec_fn(HostedZoneView) -> bool {
    |zone: HostedZoneView| zone.private_zone != Some(true)
}

/// A domain in a zone is the zone's domain itself, or its name there, a dot
/// and the zone's domain.
pub proof fn record_name_locates(domain: Seq<char>, zone: Seq<char>)
    ensures
        record_name(domain, zone) matches Some(name) ==> domain == without_trailing_dot(zone)
            && name == seq!['@'] || domain == name + seq!['.'] + without_trailing_dot(zone),
{
    let end = without_trailing_dot(zone);
    let suffix = seq!['.'] + end;
    if domain != end && ends_with(domain, suffix) {
        let head = domain.take(domain.len() - suffix.len());
        assert(domain.skip(domain.len() - suffix.len()) == suffix);
        assert(head + suffix == domain);
        assert(head + seq!['.'] + end == head + suffix);
    }
}

/// Every name below a zone is in it, under that name.
pub proof fn names_below_a_zone_are_in_it(name: Seq<char>, zone: Seq<char>)
    ensures
        record_name(name + seq!['.'] + without_trailing_dot(zone), zone) == Some(name),
        record_name(without_trailing_dot(zone), zone) == Some(seq!['@']),
{
    let end = without_trailing_dot(zone);
    let suffix = seq!['.'] + end;
    let domain = name + seq!['.'] + end;
    assert(domain.len() != end.len());
    assert(domain.skip(domain.len() - suffix.len()) == suffix);
    assert(domain.take(domain.len() - suffix.len()) == name);
}

/// The dot that ends a name is taken off, and nothing else.
pub proof fn one_trailing_dot_is_taken_off(name: Seq<char>)
    ensures
        without_trailing_dot(name + seq!['.']) == name,
        name.len() == 0 || name.last() != '.' ==> without_trailing_dot(name) == name,
{
    assert((name + seq!['.']).drop_last() =~= name);
}

/// A domain is in a zone just if it is the zone's name or ends with a dot and
/// that name, where the dot that ends the zone's name does not count. Its record
/// is named `@` in the first case, and otherwise by what stands before.
pub proof fn domains_are_in_the_zones_they_end_with(
    domain: Seq<char>,
    zone: Seq<char>,
    name: Seq<char>,
)
    ensures
        record_name(domain, zone + seq!['.']) == Some(name) <==> {
            ||| domain == zone && name == seq!['@']
            ||| domain != zone && domain == name + seq!['.'] + zone
        },
        zone.len() == 0 || zone.last() != '.' ==> record_name(domain, zone) == record_name(
            domain,
            zone + seq!['.'],
        ),
{
    one_trailing_dot_is_taken_off(zone);
    record_name_locates(domain, zone + seq!['.']);
    names_below_a_zone_are_in_it(name, zone + seq!['.']);
}

/// The zone for a domain is one that has the domain, and no other one that has
/// it has a name of more bytes, or, further behind, of as many. There is one
/// just if some zone has the domain.
pub proof fn the_last_of_the_longest_zones_is_chosen(
    zones: Seq<HostedZoneView>,
    domain: Seq<char>,
    found: HostedZoneDomainView,
)
    ensures
        is_placed(zones, domain, found) <==> found.domain == domain && exists|i: int|
            {
                &&& 0 <= i < zones.len()
                &&& found.hosted_zone == #[trigger] zones[i]
                &&& record_name(domain, zones[i].name) == Some(found.record_name)
                &&& forall|j: int|
                    0 <= j < zones.len() && record_name(domain, (#[trigger] zones[j]).name) is Some
                        ==> {
                        let here = encode_utf8(zones[i].name).len() as usize;
                        let there = encode_utf8(zones[j].name).len() as usize;
                        there < here || j <= i && there == here
                    }
            },
        has_zone(zones, domain) <==> exists|i: int|
            0 <= i < zones.len() && record_name(domain, (#[trigger] zones[i]).name) is Some,
{
    if is_placed(zones, domain, found) {
        let i = choose|i: int| #[trigger]
            is_zone_for(zones, domain, i) && found.hosted_zone == zones[i] && record_name(
                domain,
                zones[i].name,
            ) == Some(found.record_name);
        assert(found.hosted_zone == zones[i]);
        assert forall|j: int|
            0 <= j < zones.len() && record_name(domain, (#[trigger] zones[j]).name) is Some implies {
            let here = encode_utf8(zones[i].name).len() as usize;
            let there = encode_utf8(zones[j].name).len() as usize;
            there < here || j <= i && there == here
        } by {
            assert(name_length(zones[j]) <= name_length(zones[i]));
        }
    }
    if found.domain == domain && exists|i: int|
        {
            &&& 0 <= i < zones.len()
            &&& found.hosted_zone == #[trigger] zones[i]
            &&& record_name(domain, zones[i].name) == Some(found.record_name)
            &&& forall|j: int|
                0 <= j < zones.len() && record_name(domain, (#[trigger] zones[j]).name) is Some
                    ==> {
                    let here = encode_utf8(zones[i].name).len() as usize;
                    let there = encode_utf8(zones[j].name).len() as usize;
                    there < here || j <= i && there == here
                }
        } {
        let i = choose|i: int|
            {
                &&& 0 <= i < zones.len()
                &&& found.hosted_zone == #[trigger] zones[i]
                &&& record_name(domain, zones[i].name) == Some(found.record_name)
                &&& forall|j: int|
                    0 <= j < zones.len() && record_name(domain, (#[trigger] zones[j]).name) is Some
                        ==> {
                        let here = encode_utf8(zones[i].name).len() as usize;
                        let there = encode_utf8(zones[j].name).len() as usize;
                        there < here || j <= i && there == here
                    }
            };
        assert(is_zone_for(zones, domain, i));
    }
}

/// Of the zones just those are kept that are not known to be private, one by
/// one and in order.
pub proof fn zones_are_kept_unless_private(zones: Seq<HostedZoneView>, zone: HostedZoneView)
    ensures
        Seq::<HostedZoneView>::empty().filter(is_public()) == Seq::<HostedZoneView>::empty(),
        zones.push(zone).filter(is_public()) == match zone.private_zone {
            Some(true) => zones.filter(is_public()),
            _ => zones.filter(is_public()).push(zone),
        },
{
    reveal(Seq::filter);
    assert(zones.push(zone).drop_last() =~= zones);
}

/// At most one zone is the zone for a domain.
pub proof fn zone_is_unique(zones: Seq<HostedZoneView>, domain: Seq<char>, i: int, j: int)
    requires
        is_zone_for(zones, domain, i),
        is_zone_for(zones, domain, j),
    ensures
        i == j,
{
    assert(zones[i].name == zones[i].name && zones[j].name == zones[j].name);
}

/// One more zone never makes the zone for a domain less specific.
pub proof fn more_zones_are_no_less_specific(
    zones: Seq<HostedZoneView>,
    more: HostedZoneView,
    domain: Seq<char>,
    i: int,
    j: int,
)
    requires
        is_zone_for(zones, domain, i),
        is_zone_for(zones.push(more), domain, j),
    ensures
        name_length(zones[i]) <= name_length(zones.push(more)[j]),
{
    assert(zones.push(more)[i] == zones[i]);
}

/// What is left of some zones without the private ones is public.
proof fn lemma_public_zones(zones: Seq<HostedZoneView>, i: int)
    requires
        0 <= i < zones.filter(is_public()).len(),
    ensures
        zones.filter(is_public())[i].private_zone != Some(true),
    decreases zones.len(),
{
    reveal(Seq::filter);
    let before = zones.drop_last();
    if i < before.filter(is_public()).len() {
        lemma_public_zones(before, i);
    }
}

/// A domain that is looked up among the public zones is not placed in a
/// private one.
pub proof fn domains_are_in_public_zones(
    zones: Seq<HostedZoneView>,
    domain: Seq<char>,
    found: HostedZoneDomainView,
)
    requires
        is_placed(zones.filter(is_public()), domain, found),
    ensures
        found.hosted_zone.private_zone != Some(true),
{
    let public = zones.filter(is_public());
    let i = choose|i: int| #[trigger]
        is_zone_for(public, domain, i) && found.hosted_zone == public[i] && record_name(
            domain,
            public[i].name,
        ) == Some(found.record_name);
    lemma_public_zones(zones, i);
}

/// A domain name without the dot that may end it.
pub fn remove_fqdn_trailing_dot(domain: &str) -> (name: String)
    ensures
        name@ == without_trailing_dot(domain@),
{
    let chars = to_chars(domain);
    let len = chars.len();
    if len > 0 && chars[len - 1] == '.' {
        let name = slice(chars.as_slice(), 0, len - 1);
        assert(name@ == domain@.drop_last());
        to_text(name.as_slice())
    } else {
        domain.to_owned()
    }
}

/// The name of a domain in the zone of the given name.
pub fn record_name_in_zone(domain: &str, zone: &str) -> (name: Option<String>)
    ensures
        match name {
            Some(n) => record_name(domain@, zone@) == Some(n@),
            None => record_name(domain@, zone@) is None,
        },
{
    let end_text = remove_fqdn_trailing_dot(zone);
    let end = to_chars(end_text.as_str());
    let chars = to_chars(domain);
    if same_chars(chars.as_slice(), end.as_slice()) {
        let mut name = String::new();
        name.push('@');
        assert(name@ == seq!['@']);
        return Some(name);
    }
    let ghost suffix = seq!['.'] + end@;
    if chars.len() <= end.len() {
        return None;
    }
    let rest: usize = chars.len() - end.len();
    let tail = slice(chars.as_slice(), rest, chars.len());
    proof {
        let found = domain@.skip(domain@.len() - suffix.len());
        assert(tail@ == found.skip(1));
        if found == suffix {
            assert(suffix[0] == '.');
            assert(suffix.skip(1) == end@);
        }
        if found[0] == '.' && tail@ == end@ {
            assert(found == suffix);
        }
    }
    if chars[rest - 1] == '.' && same_chars(tail.as_slice(), end.as_slice()) {
        let name = slice(chars.as_slice(), 0, rest - 1);
        assert(name@ == domain@.take(domain@.len() - suffix.len()));
        Some(to_text(name.as_slice()))
    } else {
        None
    }
}

/// A hosted zone of the same texts.
fn copy_zone(zone: &HostedZone) -> (copy: HostedZone)
    ensures
        copy@ == zone@,
        copy.id@ == zone.id@,
        copy.name@ == zone.name@,
        copy.private_zone == zone.private_zone,
{
    HostedZone {
        id: zone.id.clone(),
        name: zone.name.clone(),
        private_zone: zone.private_zone,
    }
}

/// Where the best zone so far stands.
spec fn place_of(best: Option<(usize, String)>) -> Option<int> {
    match best {
        Some(b) => Some(b.0 as int),
        None => None,
    }
}

/// Whether `best` is the zone for the domain, or none if there is none.
spec fn is_best(zones: Seq<HostedZoneView>, domain: Seq<char>, best: Option<int>) -> bool {
    match best {
        Some(b) => is_zone_for(zones, domain, b),
        None => !has_zone(zones, domain),
    }
}

/// With one more zone the best is that one, if it holds the domain and its
/// name is at least as long, and otherwise the one before.
proof fn lemma_next_zone(zones: Seq<HostedZoneView>, domain: Seq<char>, i: int, best: Option<int>)
    requires
        0 <= i < zones.len(),
        is_best(zones.take(i), domain, best),
    ensures
        ({
            let holds = record_name(domain, zones[i].name) is Some;
            let longer = best matches Some(b) ==> name_length(zones[b]) <= name_length(zones[i]);
            is_best(
                zones.take(i + 1),
                domain,
                if holds && longer {
                    Some(i)
                } else {
                    best
                },
            )
        }),
{
    let seen = zones.take(i);
    let now = zones.take(i + 1);
    let holds = record_name(domain, zones[i].name) is Some;
    if best is None && !holds && has_zone(now, domain) {
        let j = choose|j: int|
            0 <= j < now.len() && record_name(domain, (#[trigger] now[j]).name) is Some;
        assert(seen[j] == now[j]);
    }
    assert forall|j: int| 0 <= j < i implies #[trigger] now[j] == seen[j] by {
    }
    if best is None {
        assert forall|j: int| 0 <= j < i implies record_name(
            domain,
            (#[trigger] now[j]).name,
        ) is None by {
            assert(seen[j] == now[j]);
        }
    }
}

/// Finds the hosted zone for a domain: of those that hold it the one with the
/// longest name, and of several such the last.
pub fn find_hosted_zone_for_domain(zones: &Vec<HostedZone>, domain: &str) -> (found: Result<
    HostedZoneDomain,
    Error,
>)
    ensures
        match found {
            Ok(d) => is_placed(zones_view(zones@), domain@, d@),
            Err(e) => !has_zone(zones_view(zones@), domain@) && e@ == (ErrorView::NoHostedZone {
                domain: domain@,
            }),
        },
        found matches Ok(d) ==> d.domain@ == domain@ && exists|i: int|
            {
                &&& 0 <= i < zones@.len()
                &&& d.hosted_zone.id@ == (#[trigger] zones@[i]).id@
                &&& d.hosted_zone.name@ == zones@[i].name@
                &&& d.hosted_zone.private_zone == zones@[i].private_zone
                &&& record_name(domain@, zones@[i].name@) == Some(d.record_name@)
            },
        found matches Err(e) ==> e matches Error::NoHostedZone { domain: bad } && bad@ == domain@,
{
    let ghost all = zones_view(zones@);
    let mut best: Option<(usize, String)> = None;
    for i in 0..zones.len()
        invariant
            all == zones_view(zones@),
            is_best(all.take(i as int), domain@, place_of(best)),
            best matches Some(b) ==> b.0 < i && record_name(domain@, all[b.0 as int].name) == Some(
                b.1@,
            ),
    {
        assert(all[i as int] == zones@[i as int]@);
        match record_name_in_zone(domain, zones[i].name.as_str()) {
            Some(name) => {
                let longer = match &best {
                    Some(b) => zones[b.0].name.as_str().len() <= zones[i].name.as_str().len(),
                    None => true,
                };
                proof {
                    lemma_next_zone(all, domain@, i as int, place_of(best));
                }
                if longer {
                    best = Some((i, name));
                }
            },
            None => {
                proof {
                    lemma_next_zone(all, domain@, i as int, place_of(best));
                }
            },
        }
    }
    assert(all.take(zones@.len() as int) == all);
    match best {
        Some((i, name)) => {
            assert(is_zone_for(all, domain@, i as int));
            assert(record_name(domain@, zones@[i as int].name@) == Some(name@));
            Ok(
                HostedZoneDomain {
                    domain: domain.to_owned(),
                    hosted_zone: copy_zone(&zones[i]),
                    record_name: name,
                },
            )
        },
        None => Err(Error::NoHostedZone { domain: domain.to_owned() }),
    }
}

/// The public ones of the hosted zones, in order.
pub fn public_hosted_zones(zones: &Vec<HostedZone>) -> (public: Vec<HostedZone>)
    ensures
        zones_view(public@) == zones_view(zones@).filter(is_public()),
{
    let ghost all = zones_view(zones@);
    let mut public: Vec<HostedZone> = Vec::new();
    proof {
        assert(all.take(0).filter(is_public()) == Seq::<HostedZoneView>::empty()) by {
            reveal(Seq::filter);
        }
    }
    for i in 0..zones.len()
        invariant
            all == zones_view(zones@),
            zones_view(public@) == all.take(i as int).filter(is_public()),
    {
        let ghost before = zones_view(public@);
        proof {
            reveal(Seq::filter);
            assert(all.take(i + 1).drop_last() == all.take(i as int));
            assert(all.take(i + 1).last() == zones@[i as int]@);
        }
        let private = match zones[i].private_zone {
            Some(private) => private,
            None => false,
        };
        if !private {
            let zone = copy_zone(&zones[i]);
            public.push(zone);
            assert(zones_view(public@) == before.push(zones@[i as int]@));
        }
    }
    assert(all.take(zones@.len() as int) == all);
    public
}

/// Finds the hosted zone for each of the domains, in order; the error is that
/// of the first domain without one.
pub fn find_hosted_zones(zones: &Vec<HostedZone>, domains: &Vec<String>) -> (found: Result<
    Vec<HostedZoneDomain>,
    Error,
>)
    ensures
        match found {
            Ok(placed) => {
                &&& placed@.len() == domains@.len()
                &&& forall|i: int|
                    0 <= i < domains@.len() ==> is_placed(
                        zones_view(zones@),
                        domains@[i]@,
                        #[trigger] placed@[i]@,
                    )
            },
            Err(e) => exists|i: int|
                {
                    &&& 0 <= i < domains@.len()
                    &&& !has_zone(zones_view(zones@), (#[trigger] domains@[i])@)
                    &&& e@ == (ErrorView::NoHostedZone { domain: domains@[i]@ })
                    &&& forall|j: int|
                        0 <= j < i ==> has_zone(zones_view(zones@), (#[trigger] domains@[j])@)
                },
        },
{
    let mut placed: Vec<HostedZoneDomain> = Vec::new();
    for i in 0..domains.len()
        invariant
            placed@.len() == i,
            forall|j: int|
                0 <= j < i ==> is_placed(
                    zones_view(zones@),
                    domains@[j]@,
                    #[trigger] placed@[j]@,
                ),
            forall|j: int| 0 <= j < i ==> has_zone(zones_view(zones@), (#[trigger] domains@[j])@),
    {
        match find_hosted_zone_for_domain(zones, domains[i].as_str()) {
            Ok(domain) => {
                proof {
                    let k = choose|k: int| #[trigger]
                        is_zone_for(zones_view(zones@), domains@[i as int]@, k)
                            && domain@.hosted_zone == zones_view(zones@)[k]
                            && record_name(
                            domains@[i as int]@,
                            zones_view(zones@)[k].name,
                        ) == Some(domain@.record_name);
                    assert(record_name(domains@[i as int]@, zones_view(zones@)[k].name) is Some);
                }
                placed.push(domain);
            },
            Err(e) => {
                assert(!has_zone(zones_view(zones@), domains@[i as int]@));
                return Err(e);
            },
        }
    }
    Ok(placed)
}

} // verus!
