//! The ion channels of a cell of the A549 line and how many of each kind it
//! has.

use vstd::prelude::*;

verus! {

/// The number of kinds of ion channels of the cell.
pub const N_CHANNEL_TYPES: usize = 11;

/// How many channels of each kind a cell has, in the order of the kinds.
pub type ChannelCounts = [u32; 11];

/// The ions that a channel lets through.
#[derive(Clone, Copy, Debug, PartialEq, Eq, Structural)]
pub enum IonType {
    Kalium,
    Calcium,
    Chlorine,
    Sodium,
}

/// How the states of the channels of one kind are stepped.
#[derive(Clone, Copy, Debug, PartialEq, Eq, Structural)]
pub enum StateSimulationMethod {
    Floating,
    Rounding,
    Individual,
}

/// The phase of the cell cycle that a cell is in.
#[derive(Clone, Copy, Debug, PartialEq, Eq, Structural)]
pub enum CellPhase {
    G0,
    G1,
}

/// The protocol of a patch clamp measurement.
#[derive(Clone, Copy, Debug, PartialEq, Eq, Structural)]
pub enum PatchClampProtocol {
    Activation,
    Deactivation,
    Ramp,
}

/// How the channel counts are fitted to a measurement.
#[derive(Clone, Copy, Debug, PartialEq, Eq, Structural)]
pub enum InSilicoMethod {
    Projection,
    ParticleSwarm,
    SteepestDescent,
    LBFGS,
}

/// The pulses of one protocol.
pub struct ProtocolGenerator {
    pub proto: PatchClampProtocol,
}

/// What is known of the channels of one kind.
#[derive(Clone, Copy, Debug, PartialEq, Eq)]
pub struct ChannelMetadata {
    pub n_states: usize,
    pub n_channels: u32,
    pub ion_type: IonType,
}

/// The kinds of ion channels of the cell, in the order in which the cell
/// lists them.
#[derive(Clone, Copy, Debug, PartialEq, Eq, Structural)]
pub enum ChannelKind {
    Kv13,
    Kv31,
    Kv34,
    Kv71,
    KCa11,
    KCa31,
    Task1,
    Crac1,
    Trpc6,
    Trpv3,
    Clc2,
}

impl ChannelKind {
    /// The place of the kind among the channels of the cell.
    pub open spec fn spec_index(self) -> int {
        match self {
            ChannelKind::Kv13 => 0,
            ChannelKind::Kv31 => 1,
            ChannelKind::Kv34 => 2,
            ChannelKind::Kv71 => 3,
            ChannelKind::KCa11 => 4,
            ChannelKind::KCa31 => 5,
            ChannelKind::Task1 => 6,
            ChannelKind::Crac1 => 7,
            ChannelKind::Trpc6 => 8,
            ChannelKind::Trpv3 => 9,
            ChannelKind::Clc2 => 10,
        }
    }

    /// The number of states of a channel of the kind.
    pub open spec fn spec_n_states(self) -> usize {
        match self {
            ChannelKind::Kv13 => 7,
            ChannelKind::Kv31 => 6,
            ChannelKind::Kv34 => 7,
            ChannelKind::Kv71 => 5,
            ChannelKind::KCa11 => 10,
            ChannelKind::KCa31 => 4,
            ChannelKind::Task1 => 3,
            ChannelKind::Crac1 => 2,
            ChannelKind::Trpc6 => 1,
            ChannelKind::Trpv3 => 1,
            ChannelKind::Clc2 => 12,
        }
    }

    /// The ions that a channel of the kind lets through.
    pub open spec fn spec_ion_type(self) -> IonType {
        match self {
            ChannelKind::Crac1 | ChannelKind::Trpc6 | ChannelKind::Trpv3 => IonType::Calcium,
            ChannelKind::Clc2 => IonType::Chlorine,
            _ => IonType::Kalium,
        }
    }

    /// The place of the kind among the channels of the cell.
    pub fn index(self) -> (index: usize)
        ensures
            index == self.spec_index(),
            index < N_CHANNEL_TYPES,
    {
        match self {
            ChannelKind::Kv13 => 0,
            ChannelKind::Kv31 => 1,
            ChannelKind::Kv34 => 2,
            ChannelKind::Kv71 => 3,
            ChannelKind::KCa11 => 4,
            ChannelKind::KCa31 => 5,
            ChannelKind::Task1 => 6,
            ChannelKind::Crac1 => 7,
            ChannelKind::Trpc6 => 8,
            ChannelKind::Trpv3 => 9,
            ChannelKind::Clc2 => 10,
        }
    }

    /// The number of states of a channel of the kind.
    pub fn n_states(self) -> (n_states: usize)
        ensures
            n_states == self.spec_n_states(),
    {
        match self {
            ChannelKind::Kv13 => 7,
            ChannelKind::Kv31 => 6,
            ChannelKind::Kv34 => 7,
            ChannelKind::Kv71 => 5,
            ChannelKind::KCa11 => 10,
            ChannelKind::KCa31 => 4,
            ChannelKind::Task1 => 3,
            ChannelKind::Crac1 => 2,
            ChannelKind::Trpc6 => 1,
            ChannelKind::Trpv3 => 1,
            ChannelKind::Clc2 => 12,
        }
    }

    /// The ions that a channel of the kind lets through.
    pub fn ion_type(self) -> (ion_type: IonType)
        ensures
            ion_type == self.spec_ion_type(),
    {
        match self {
            ChannelKind::Crac1 | ChannelKind::Trpc6 | ChannelKind::Trpv3 => IonType::Calcium,
            ChannelKind::Clc2 => IonType::Chlorine,
            _ => IonType::Kalium,
        }
    }
}

impl Default for A549CancerCell {
    fn default() -> (cell: A549CancerCell)
        ensures
            cell@.len() == N_CHANNEL_TYPES,
            forall|i: int| 0 <= i < N_CHANNEL_TYPES ==> cell@[i] == 1,
    {
        A549CancerCell::new()
    }
}

/// The channel counts that were measured for cells in the given phase.
pub open spec fn langthaler_et_al_counts(phase: CellPhase) -> Seq<u32> {
    match phase {
        CellPhase::G0 => seq![22u32, 78, 5, 1350, 40, 77, 19, 200, 17, 12, 13],
        CellPhase::G1 => seq![20u32, 90, 54, 558, 15, 63, 10, 200, 12, 13, 11],
    }
}

/// A cell of the A549 line: how many ion channels of each kind it has.
pub struct A549CancerCell {
    counts: [u32; 11],
}

impl View for A549CancerCell {
    type V = Seq<u32>;

    closed spec fn view(&self) -> Seq<u32> {
        self.counts@
    }
}

impl A549CancerCell {
    /// A cell with one channel of each kind.
    pub fn new() -> (cell: A549CancerCell)
        ensures
            cell@.len() == N_CHANNEL_TYPES,
            forall|i: int| 0 <= i < N_CHANNEL_TYPES ==> cell@[i] == 1,
    {
        A549CancerCell { counts: [1, 1, 1, 1, 1, 1, 1, 1, 1, 1, 1] }
    }

    /// Sets how many channels of each kind the cell has.
    pub fn set_channel_counts(&mut self, counts: ChannelCounts)
        ensures
            final(self)@ == counts@,
    {
        self.counts = counts;
    }

    /// Sets the channel counts that were measured for cells in the given
    /// phase.
    pub fn set_langthaler_et_al_channel_counts(&mut self, phase: CellPhase)
        ensures
            final(self)@ == langthaler_et_al_counts(phase),
    {
        match phase {
            CellPhase::G0 => {
                self.set_channel_counts([22, 78, 5, 1350, 40, 77, 19, 200, 17, 12, 13]);
            },
            CellPhase::G1 => {
                self.set_channel_counts([20, 90, 54, 558, 15, 63, 10, 200, 12, 13, 11]);
            },
        }
        assert(self@ =~= langthaler_et_al_counts(phase));
    }

    /// How many channels of each kind the cell has.
    pub fn channel_counts(&self) -> (counts: ChannelCounts)
        ensures
            counts@ == self@,
    {
        self.counts
    }

    /// What is known of the channels of one kind of the cell.
    pub fn metadata(&self, kind: ChannelKind) -> (metadata: ChannelMetadata)
        ensures
            metadata.n_states == kind.spec_n_states(),
            metadata.n_channels == self@[kind.spec_index()],
            metadata.ion_type == kind.spec_ion_type(),
    {
        ChannelMetadata {
            n_states: kind.n_states(),
            n_channels: self.counts[kind.index()],
            ion_type: kind.ion_type(),
        }
    }
}

} // verus!
