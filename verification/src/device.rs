//! Which devices speak fastboot, and over which endpoints.
use crate::error::NusbFastBootOpenError;
use vstd::prelude::*;

verus! {

/// What a device tells of one of its interfaces
#[derive(Debug, Clone, Copy, PartialEq, Eq, Structural)]
pub struct InterfaceInfo {
    /// Number by which the interface is claimed
    pub interface_number: u8,
    /// Class code
    pub class: u8,
    /// Subclass code
    pub subclass: u8,
    /// Protocol code
    pub protocol: u8,
}

/// How data crosses an endpoint
#[derive(Debug, Clone, Copy, PartialEq, Eq, Structural)]
pub enum TransferType {
    /// Control endpoint
    Control,
    /// Isochronous endpoint
    Isochronous,
    /// Bulk endpoint
    Bulk,
    /// Interrupt endpoint
    Interrupt,
}

/// Which way data crosses an endpoint
#[derive(Debug, Clone, Copy, PartialEq, Eq, Structural)]
pub enum Direction {
    /// Host to device
    Out,
    /// Device to host
    In,
}

/// What an interface tells of one of its endpoints
#[derive(Debug, Clone, Copy, PartialEq, Eq, Structural)]
pub struct EndpointInfo {
    /// Address of the endpoint
    pub address: u8,
    /// How data crosses it
    pub transfer_type: TransferType,
    /// Which way data crosses it
    pub direction: Direction,
    /// The largest packet it takes; the field has 16 bits in the descriptor
    pub max_packet_size: u16,
}

/// One of the alternate settings of an interface
#[derive(Debug)]
pub struct AltSetting {
    /// The endpoints it has, in the order in which it lists them
    pub endpoints: Vec<EndpointInfo>,
}

impl View for AltSetting {
    type V = Seq<EndpointInfo>;

    open spec fn view(&self) -> Seq<EndpointInfo> {
        self.endpoints@
    }
}

/// The place of the first element that has a property, or the length where none has it.
pub open spec fn first_where<T>(s: Seq<T>, property: spec_fn(T) -> bool) -> int
    decreases s.len(),
{
    if s.len() == 0 || property(s[0]) {
        0
    } else {
        1 + first_where(s.drop_first(), property)
    }
}

proof fn lemma_first_where<T>(s: Seq<T>, property: spec_fn(T) -> bool, n: int)
    requires
        0 <= n <= s.len(),
        forall|i: int| 0 <= i < n ==> !property(#[trigger] s[i]),
        n < s.len() ==> property(s[n]),
    ensures
        first_where(s, property) == n,
    decreases s.len(),
{
    if n > 0 {
        let rest = s.drop_first();
        assert(!property(s[0]));
        assert forall|i: int| 0 <= i < n - 1 implies !property(#[trigger] rest[i]) by {
            assert(rest[i] == s[i + 1]);
        }
        lemma_first_where(rest, property, n - 1);
    }
}

/// Whether an interface speaks fastboot.
pub open spec fn is_fastboot(interface: InterfaceInfo) -> bool {
    interface.class == 0xff && interface.subclass == 0x42 && interface.protocol == 0x3
}

/// The number of the first interface that speaks fastboot.
pub open spec fn fastboot_interface(interfaces: Seq<InterfaceInfo>) -> Option<u8> {
    let n = first_where(interfaces, |i: InterfaceInfo| is_fastboot(i));
    if n < interfaces.len() {
        Some(interfaces[n].interface_number)
    } else {
        None
    }
}

/// Whether an endpoint carries bulk data one way.
pub open spec fn is_bulk(endpoint: EndpointInfo, direction: Direction) -> bool {
    endpoint.transfer_type == TransferType::Bulk && endpoint.direction == direction
}

/// The first endpoint that carries bulk data one way.
pub open spec fn first_bulk(endpoints: Seq<EndpointInfo>, direction: Direction) -> Option<
    EndpointInfo,
> {
    let n = first_where(endpoints, |e: EndpointInfo| is_bulk(e, direction));
    if n < endpoints.len() {
        Some(endpoints[n])
    } else {
        None
    }
}

/// The endpoints that fastboot needs: a client over the first bulk OUT and the first bulk IN
/// endpoint of a setting that has both.
pub open spec fn client_of(endpoints: Seq<EndpointInfo>) -> Option<NusbFastBoot> {
    match (first_bulk(endpoints, Direction::Out), first_bulk(endpoints, Direction::In)) {
        (Some(out_end), Some(in_end)) => Some(
            NusbFastBoot {
                ep_out: out_end.address,
                max_out: out_end.max_packet_size,
                ep_in: in_end.address,
                max_in: in_end.max_packet_size,
            },
        ),
        _ => None,
    }
}

/// The client that the first setting with all endpoints gives.
pub open spec fn first_client(settings: Seq<AltSetting>) -> Option<NusbFastBoot> {
    let n = first_where(settings, |s: AltSetting| client_of(s@) is Some);
    if n < settings.len() {
        client_of(settings[n]@)
    } else {
        None
    }
}

/// A fastboot client: the endpoints it speaks over, and how much a packet on them takes
#[derive(Debug, Clone, Copy, PartialEq, Eq, Structural)]
pub struct NusbFastBoot {
    /// Address of the bulk OUT endpoint
    pub ep_out: u8,
    /// The largest packet that the OUT endpoint takes
    pub max_out: u16,
    /// Address of the bulk IN endpoint
    pub ep_in: u8,
    /// The largest packet that the IN endpoint gives
    pub max_in: u16,
}

fn find_bulk(endpoints: &Vec<EndpointInfo>, direction: Direction) -> (found: Option<EndpointInfo>)
    ensures
        found == first_bulk(endpoints@, direction),
{
    let ghost property = |e: EndpointInfo| is_bulk(e, direction);
    let mut i: usize = 0;
    while i < endpoints.len()
        invariant
            i <= endpoints.len(),
            property == (|e: EndpointInfo| is_bulk(e, direction)),
            forall|j: int| 0 <= j < i ==> !property(#[trigger] endpoints@[j]),
        decreases endpoints.len() - i,
    {
        let end = endpoints[i];
        if end.transfer_type == TransferType::Bulk && end.direction == direction {
            proof {
                lemma_first_where(endpoints@, property, i as int);
            }
            return Some(end);
        }
        i = i + 1;
    }
    proof {
        lemma_first_where(endpoints@, property, i as int);
    }
    None
}

impl NusbFastBoot {
    /// Find fastboot interface within a USB device
    pub fn find_fastboot_interface(interfaces: &[InterfaceInfo]) -> (number: Option<u8>)
        ensures
            number == fastboot_interface(interfaces@),
            number matches Some(n) ==> exists|i: int|
                {
                    &&& 0 <= i < interfaces@.len()
                    &&& (#[trigger] interfaces@[i]).interface_number == n
                    &&& interfaces@[i].class == 0xff
                    &&& interfaces@[i].subclass == 0x42
                    &&& interfaces@[i].protocol == 0x3
                    &&& forall|j: int|
                        0 <= j < i ==> !((#[trigger] interfaces@[j]).class == 0xff
                            && interfaces@[j].subclass == 0x42 && interfaces@[j].protocol == 0x3)
                },
            number is None ==> forall|j: int|
                0 <= j < interfaces@.len() ==> !((#[trigger] interfaces@[j]).class == 0xff
                    && interfaces@[j].subclass == 0x42 && interfaces@[j].protocol == 0x3),
    {
        proof {
            law_fastboot_interface_has_the_codes(interfaces@);
        }
        let ghost property = |i: InterfaceInfo| is_fastboot(i);
        let mut i: usize = 0;
        while i < interfaces.len()
            invariant
                i <= interfaces.len(),
                property == (|i: InterfaceInfo| is_fastboot(i)),
                forall|j: int| 0 <= j < i ==> !property(#[trigger] interfaces@[j]),
            decreases interfaces.len() - i,
        {
            let interface = interfaces[i];
            if interface.class == 0xff && interface.subclass == 0x42 && interface.protocol == 0x3 {
                proof {
                    lemma_first_where(interfaces@, property, i as int);
                }
                return Some(interface.interface_number);
            }
            i = i + 1;
        }
        proof {
            lemma_first_where(interfaces@, property, i as int);
        }
        None
    }

    /// The number of the interface to claim on a device that is to be opened
    pub fn from_info(interfaces: &[InterfaceInfo]) -> (number: Result<u8, NusbFastBootOpenError>)
        ensures
            match fastboot_interface(interfaces@) {
                Some(n) => number matches Ok(m) && m == n,
                None => number matches Err(e) && e is MissingInterface,
            },
    {
        match Self::find_fastboot_interface(interfaces) {
            Some(number) => Ok(number),
            None => Err(NusbFastBootOpenError::MissingInterface),
        }
    }

    /// Create a fastboot client based on the alternate settings of a USB interface. Interface is
    /// assumed to be a fastboot interface
    pub fn from_interface(settings: &[AltSetting]) -> (client: Result<Self, NusbFastBootOpenError>)
        ensures
            match first_client(settings@) {
                Some(c) => client matches Ok(d) && d == c,
                None => client matches Err(e) && e is MissingEndpoints,
            },
    {
        let ghost property = |s: AltSetting| client_of(s@) is Some;
        let mut i: usize = 0;
        while i < settings.len()
            invariant
                i <= settings.len(),
                property == (|s: AltSetting| client_of(s@) is Some),
                forall|j: int| 0 <= j < i ==> !property(#[trigger] settings@[j]),
            decreases settings.len() - i,
        {
            let alt = &settings[i];
            // Requires one bulk IN and one bulk OUT
            match (
                find_bulk(&alt.endpoints, Direction::Out),
                find_bulk(&alt.endpoints, Direction::In),
            ) {
                (Some(out_end), Some(in_end)) => {
                    proof {
                        lemma_first_where(settings@, property, i as int);
                    }
                    return Ok(
                        NusbFastBoot {
                            ep_out: out_end.address,
                            max_out: out_end.max_packet_size,
                            ep_in: in_end.address,
                            max_in: in_end.max_packet_size,
                        },
                    );
                },
                _ => {},
            }
            i = i + 1;
        }
        proof {
            lemma_first_where(settings@, property, i as int);
        }
        Err(NusbFastBootOpenError::MissingEndpoints)
    }
}

/// Keeps the fastboot devices, in the order in which they were found. Each device comes with
/// what it tells of its interfaces.
pub fn devices<D>(found: Vec<(D, Vec<InterfaceInfo>)>) -> (kept: Vec<D>)
    ensures
        kept@ == found@.filter(
            |d: (D, Vec<InterfaceInfo>)| fastboot_interface(d.1@) is Some,
        ).map_values(|d: (D, Vec<InterfaceInfo>)| d.0),
{
    let ghost all = found@;
    let ghost keep = |d: (D, Vec<InterfaceInfo>)| fastboot_interface(d.1@) is Some;
    let ghost device = |d: (D, Vec<InterfaceInfo>)| d.0;
    let mut kept: Vec<D> = Vec::new();
    proof {
        assert(all.take(0).filter(keep).map_values(device) =~= Seq::<D>::empty()) by {
            reveal(Seq::filter);
        }
    }
    for entry in it: found
        invariant
            it.seq() == all,
            keep == (|d: (D, Vec<InterfaceInfo>)| fastboot_interface(d.1@) is Some),
            device == (|d: (D, Vec<InterfaceInfo>)| d.0),
            kept@ == all.take(it.index()).filter(keep).map_values(device),
    {
        proof {
            reveal(Seq::filter);
            assert(entry == all[it.index()]);
            assert(all.take(it.index() + 1).drop_last() =~= all.take(it.index()));
            assert(all.take(it.index() + 1).last() == entry);
        }
        let (info, interfaces) = entry;
        if NusbFastBoot::find_fastboot_interface(interfaces.as_slice()).is_some() {
            kept.push(info);
        }
        assert(kept@ =~= all.take(it.index() + 1).filter(keep).map_values(device));
    }
    assert(all.take(all.len() as int) =~= all);
    kept
}

proof fn lemma_where_first<T>(s: Seq<T>, property: spec_fn(T) -> bool)
    ensures
        0 <= first_where(s, property) <= s.len(),
        forall|i: int| 0 <= i < first_where(s, property) ==> !property(#[trigger] s[i]),
        first_where(s, property) < s.len() ==> property(s[first_where(s, property)]),
    decreases s.len(),
{
    if s.len() > 0 && !property(s[0]) {
        let rest = s.drop_first();
        lemma_where_first(rest, property);
        assert forall|i: int| 0 <= i < first_where(s, property) implies !property(
            #[trigger] s[i],
        ) by {
            if i > 0 {
                assert(rest[i - 1] == s[i]);
            }
        }
    }
}

/// The fastboot interface is the first one with class 0xff, subclass 0x42 and protocol 3. A device
/// without an interface that has these three codes has none.
pub proof fn law_fastboot_interface_has_the_codes(interfaces: Seq<InterfaceInfo>)
    ensures
        fastboot_interface(interfaces) matches Some(n) ==> exists|i: int|
            {
                &&& 0 <= i < interfaces.len()
                &&& (#[trigger] interfaces[i]).interface_number == n
                &&& interfaces[i].class == 0xff
                &&& interfaces[i].subclass == 0x42
                &&& interfaces[i].protocol == 0x3
                &&& forall|j: int|
                    0 <= j < i ==> !((#[trigger] interfaces[j]).class == 0xff
                        && interfaces[j].subclass == 0x42 && interfaces[j].protocol == 0x3)
            },
        fastboot_interface(interfaces) is None ==> forall|j: int|
            0 <= j < interfaces.len() ==> !((#[trigger] interfaces[j]).class == 0xff
                && interfaces[j].subclass == 0x42 && interfaces[j].protocol == 0x3),
{
    let property = |i: InterfaceInfo| is_fastboot(i);
    lemma_where_first(interfaces, property);
    let n = first_where(interfaces, property);
    assert forall|j: int| 0 <= j < n implies !((#[trigger] interfaces[j]).class == 0xff
        && interfaces[j].subclass == 0x42 && interfaces[j].protocol == 0x3) by {
        assert(!property(interfaces[j]));
    }
    if n < interfaces.len() {
        assert(property(interfaces[n]));
    }
}

/// An interface put behind others changes nothing for a device that has a fastboot interface, and
/// is the fastboot interface of one that had none if it has the codes.
pub proof fn law_later_interfaces_come_second(
    interfaces: Seq<InterfaceInfo>,
    interface: InterfaceInfo,
)
    ensures
        fastboot_interface(interfaces) is Some ==> fastboot_interface(interfaces.push(interface))
            == fastboot_interface(interfaces),
        fastboot_interface(interfaces) is None ==> fastboot_interface(interfaces.push(interface))
            == (if interface.class == 0xff && interface.subclass == 0x42 && interface.protocol
            == 0x3 {
            Some(interface.interface_number)
        } else {
            None
        }),
{
    let property = |i: InterfaceInfo| is_fastboot(i);
    let more = interfaces.push(interface);
    lemma_where_first(interfaces, property);
    let n = first_where(interfaces, property);
    assert forall|j: int| 0 <= j < n implies !property(#[trigger] more[j]) by {
        assert(more[j] == interfaces[j]);
    }
    if n < interfaces.len() {
        assert(more[n] == interfaces[n]);
        lemma_first_where(more, property, n);
    } else if property(interface) {
        assert(more[n] == interface);
        lemma_first_where(more, property, n);
    } else {
        assert(more[n] == interface);
        lemma_first_where(more, property, n + 1);
    }
}

/// Exactly the devices with the codes are kept: a device is kept where one of its interfaces has
/// them, and left out where none has.
pub proof fn law_devices_have_the_codes(interfaces: Seq<InterfaceInfo>)
    ensures
        fastboot_interface(interfaces) is Some <==> exists|i: int|
            0 <= i < interfaces.len() && (#[trigger] interfaces[i]).class == 0xff
                && interfaces[i].subclass == 0x42 && interfaces[i].protocol == 0x3,
{
    law_fastboot_interface_has_the_codes(interfaces);
}

proof fn lemma_first_bulk(endpoints: Seq<EndpointInfo>, direction: Direction)
    ensures
        first_bulk(endpoints, direction) matches Some(end) ==> exists|i: int|
            {
                &&& 0 <= i < endpoints.len()
                &&& #[trigger] endpoints[i] == end
                &&& end.transfer_type == TransferType::Bulk
                &&& end.direction == direction
                &&& forall|j: int|
                    0 <= j < i ==> (#[trigger] endpoints[j]).transfer_type != TransferType::Bulk
                        || endpoints[j].direction != direction
            },
        first_bulk(endpoints, direction) is None ==> forall|j: int|
            0 <= j < endpoints.len() ==> (#[trigger] endpoints[j]).transfer_type
                != TransferType::Bulk || endpoints[j].direction != direction,
{
    let property = |e: EndpointInfo| is_bulk(e, direction);
    lemma_where_first(endpoints, property);
    let n = first_where(endpoints, property);
    assert forall|j: int| 0 <= j < n implies (#[trigger] endpoints[j]).transfer_type
        != TransferType::Bulk || endpoints[j].direction != direction by {
        assert(!property(endpoints[j]));
    }
    if n < endpoints.len() {
        assert(property(endpoints[n]));
        assert(endpoints[n] == endpoints[n]);
    }
}

/// A client speaks over a bulk OUT and a bulk IN endpoint of a setting, the first of each kind
/// there, with the address and the packet size of each. A setting that lacks one or the other
/// gives no client.
pub proof fn law_client_speaks_over_bulk_endpoints(endpoints: Seq<EndpointInfo>)
    ensures
        client_of(endpoints) matches Some(client) ==> exists|o: int|
            {
                &&& 0 <= o < endpoints.len()
                &&& #[trigger] endpoints[o] == (EndpointInfo {
                    address: client.ep_out,
                    transfer_type: TransferType::Bulk,
                    direction: Direction::Out,
                    max_packet_size: client.max_out,
                })
                &&& forall|j: int|
                    0 <= j < o ==> (#[trigger] endpoints[j]).transfer_type != TransferType::Bulk
                        || endpoints[j].direction != Direction::Out
            },
        client_of(endpoints) matches Some(client) ==> exists|i: int|
            {
                &&& 0 <= i < endpoints.len()
                &&& #[trigger] endpoints[i] == (EndpointInfo {
                    address: client.ep_in,
                    transfer_type: TransferType::Bulk,
                    direction: Direction::In,
                    max_packet_size: client.max_in,
                })
                &&& forall|j: int|
                    0 <= j < i ==> (#[trigger] endpoints[j]).transfer_type != TransferType::Bulk
                        || endpoints[j].direction != Direction::In
            },
        client_of(endpoints) is None ==> {
            ||| forall|j: int|
                0 <= j < endpoints.len() ==> (#[trigger] endpoints[j]).transfer_type
                    != TransferType::Bulk || endpoints[j].direction != Direction::Out
            ||| forall|j: int|
                0 <= j < endpoints.len() ==> (#[trigger] endpoints[j]).transfer_type
                    != TransferType::Bulk || endpoints[j].direction != Direction::In
        },
{
    lemma_first_bulk(endpoints, Direction::Out);
    lemma_first_bulk(endpoints, Direction::In);
}

/// The client is that of the first setting that gives one.
pub proof fn law_first_setting_with_a_client_counts(settings: Seq<AltSetting>)
    ensures
        first_client(settings) matches Some(client) ==> exists|n: int|
            {
                &&& 0 <= n < settings.len()
                &&& client_of((#[trigger] settings[n]).endpoints@) == Some(client)
                &&& forall|m: int|
                    0 <= m < n ==> client_of((#[trigger] settings[m]).endpoints@) is None
            },
        first_client(settings) is None ==> forall|m: int|
            0 <= m < settings.len() ==> client_of((#[trigger] settings[m]).endpoints@) is None,
{
    let property = |s: AltSetting| client_of(s@) is Some;
    lemma_where_first(settings, property);
    let n = first_where(settings, property);
    assert forall|m: int| 0 <= m < n implies client_of(
        (#[trigger] settings[m]).endpoints@,
    ) is None by {
        assert(!property(settings[m]));
    }
    if n < settings.len() {
        assert(property(settings[n]));
    }
}

} // verus!
