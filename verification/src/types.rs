//! The tables that describe a network, as given and as consolidated.
use crate::quantity::Real;
use vstd::prelude::*;

verus! {

/// A link between two devices of operators.
#[derive(Debug)]
pub struct PrivateLink {
    pub device1: String,
    pub device2: String,
    pub latency: Real,
    pub bandwidth: Real,
    pub uptime: Real,
    /// The group of links that this one shares its bandwidth with.
    pub shared: Option<u32>,
}

/// What a [`PrivateLink`] says.
#[verifier::ext_equal]
pub struct PrivateRow {
    pub device1: Seq<char>,
    pub device2: Seq<char>,
    pub latency: Real,
    pub bandwidth: Real,
    pub uptime: Real,
    pub shared: Option<u32>,
}

impl View for PrivateLink {
    type V = PrivateRow;

    open spec fn view(&self) -> PrivateRow {
        PrivateRow {
            device1: self.device1@,
            device2: self.device2@,
            latency: self.latency,
            bandwidth: self.bandwidth,
            uptime: self.uptime,
            shared: self.shared,
        }
    }
}

impl PrivateLink {
    /// A link from its columns.
    pub fn new(
        device1: String,
        device2: String,
        latency: Real,
        bandwidth: Real,
        uptime: Real,
        shared: Option<u32>,
    ) -> (r: PrivateLink)
        ensures
            r == (PrivateLink { device1, device2, latency, bandwidth, uptime, shared }),
    {
        PrivateLink { device1, device2, latency, bandwidth, uptime, shared }
    }
}

/// A switch of an operator.
#[derive(Debug)]
pub struct Device {
    pub device: String,
    /// The capacity at the edge of the network.
    pub edge: u32,
    pub operator: String,
}

/// What a [`Device`] says.
#[verifier::ext_equal]
pub struct DeviceRow {
    pub device: Seq<char>,
    pub edge: u32,
    pub operator: Seq<char>,
}

impl View for Device {
    type V = DeviceRow;

    open spec fn view(&self) -> DeviceRow {
        DeviceRow { device: self.device@, edge: self.edge, operator: self.operator@ }
    }
}

impl Device {
    /// A device from its columns.
    pub fn new(device: String, edge: u32, operator: String) -> (r: Device)
        ensures
            r == (Device { device, edge, operator }),
    {
        Device { device, edge, operator }
    }
}

/// Traffic from one city to another.
#[derive(Debug)]
pub struct Demand {
    pub start: String,
    pub end: String,
    pub receivers: u32,
    pub traffic: Real,
    pub priority: Real,
    /// The type of traffic that the demand belongs to.
    pub kind: u32,
    pub multicast: bool,
}

/// What a [`Demand`] says.
#[verifier::ext_equal]
pub struct DemandRow {
    pub start: Seq<char>,
    pub end: Seq<char>,
    pub receivers: u32,
    pub traffic: Real,
    pub priority: Real,
    pub kind: u32,
    pub multicast: bool,
}

impl View for Demand {
    type V = DemandRow;

    open spec fn view(&self) -> DemandRow {
        DemandRow {
            start: self.start@,
            end: self.end@,
            receivers: self.receivers,
            traffic: self.traffic,
            priority: self.priority,
            kind: self.kind,
            multicast: self.multicast,
        }
    }
}

impl Demand {
    /// A demand from its columns.
    pub fn new(
        start: String,
        end: String,
        receivers: u32,
        traffic: Real,
        priority: Real,
        kind: u32,
        multicast: bool,
    ) -> (r: Demand)
        ensures
            r == (Demand { start, end, receivers, traffic, priority, kind, multicast }),
    {
        Demand { start, end, receivers, traffic, priority, kind, multicast }
    }
}

/// A link of the public network between two cities.
#[derive(Debug)]
pub struct PublicLink {
    pub city1: String,
    pub city2: String,
    pub latency: Real,
}

/// What a [`PublicLink`] says.
#[verifier::ext_equal]
pub struct PublicRow {
    pub city1: Seq<char>,
    pub city2: Seq<char>,
    pub latency: Real,
}

impl View for PublicLink {
    type V = PublicRow;

    open spec fn view(&self) -> PublicRow {
        PublicRow { city1: self.city1@, city2: self.city2@, latency: self.latency }
    }
}

impl PublicLink {
    /// A link from its columns.
    pub fn new(city1: String, city2: String, latency: Real) -> (r: PublicLink)
        ensures
            r == (PublicLink { city1, city2, latency }),
    {
        PublicLink { city1, city2, latency }
    }
}

/// A network and what is asked of it.
#[derive(Debug)]
pub struct ShapleyInput {
    pub private_links: Vec<PrivateLink>,
    pub devices: Vec<Device>,
    pub demands: Vec<Demand>,
    pub public_links: Vec<PublicLink>,
    /// How likely each operator is up.
    pub operator_uptime: Real,
    /// The latency of changing between the private and the public network.
    pub contiguity_bonus: Real,
    /// What the traffic of every demand is multiplied by.
    pub demand_multiplier: Real,
}

/// A demand after merging and splitting by type.
#[derive(Debug)]
pub struct ConsolidatedDemand {
    pub start: String,
    pub end: String,
    pub receivers: u32,
    pub traffic: Real,
    pub priority: Real,
    /// The commodity that carries the demand.
    pub kind: u32,
    pub multicast: bool,
    /// The type that the demand was given with.
    pub original: u32,
}

/// What a [`ConsolidatedDemand`] says.
#[verifier::ext_equal]
pub struct FlowRow {
    pub start: Seq<char>,
    pub end: Seq<char>,
    pub receivers: u32,
    pub traffic: Real,
    pub priority: Real,
    pub kind: u32,
    pub multicast: bool,
    pub original: u32,
}

impl View for ConsolidatedDemand {
    type V = FlowRow;

    open spec fn view(&self) -> FlowRow {
        FlowRow {
            start: self.start@,
            end: self.end@,
            receivers: self.receivers,
            traffic: self.traffic,
            priority: self.priority,
            kind: self.kind,
            multicast: self.multicast,
            original: self.original,
        }
    }
}

/// A directed edge that traffic can take.
#[derive(Debug)]
pub struct ConsolidatedLink {
    pub device1: String,
    pub device2: String,
    pub latency: Real,
    pub bandwidth: Real,
    pub operator1: String,
    pub operator2: String,
    /// The bandwidth group of the edge; none where this is zero.
    pub shared: u32,
    /// The commodity that may take the edge; every one where this is zero.
    pub link_type: u32,
}

/// What a [`ConsolidatedLink`] says.
#[verifier::ext_equal]
pub struct EdgeRow {
    pub device1: Seq<char>,
    pub device2: Seq<char>,
    pub latency: Real,
    pub bandwidth: Real,
    pub operator1: Seq<char>,
    pub operator2: Seq<char>,
    pub shared: u32,
    pub link_type: u32,
}

impl View for ConsolidatedLink {
    type V = EdgeRow;

    open spec fn view(&self) -> EdgeRow {
        EdgeRow {
            device1: self.device1@,
            device2: self.device2@,
            latency: self.latency,
            bandwidth: self.bandwidth,
            operator1: self.operator1@,
            operator2: self.operator2@,
            shared: self.shared,
            link_type: self.link_type,
        }
    }
}

} // verus!
