//! Net resolution for simulated electronic boards.
pub mod board;
pub mod cluster;
pub mod coupling;
pub mod diagnostics;
pub mod dsu;
pub mod emission;
pub mod engine;
pub mod event_log;
pub mod host_pty;
pub mod iteration;
pub mod link;
pub mod mcu;
pub mod net;
pub mod netlist;
pub mod pass;
pub mod paths;
pub mod phases;
pub mod quantity;
pub mod ranking;
pub mod reach;
pub mod resolver;
pub mod scene;
pub mod seqs;
pub mod senses;
pub mod sequencer;
pub mod sexp;
pub mod terminal;
pub mod text;
pub mod topology;
pub mod volts;
pub mod wheel;

pub use crate::cluster::{
    Cluster, ClusterElement, ClusterInjection, ClusterInputs, ClusterResistor, ClusterSolution,
    ClusterSolver, ClusterSource, ClusterTerminal, PwlCurve, RegionTest,
};
pub use crate::diagnostics::{CallbackKind, Diagnostics, Finding, SenseKind};
pub use crate::event_log::{EngineEvent, EngineEventRecord, EventLog};
pub use crate::host_pty::HostPty;
pub use crate::mcu::{McuBuildError, McuBuilder, McuComponent};
pub use crate::net::{
    digital_drive, level_of, Amps, ComponentId, Drive, EndpointId, Level, Net, NetId, NetState,
    Ohms, PinRef, TheveninDrive, Volts, COUPLING_REACTANCE_RATIO, ESCALATION_IMPEDANCE_RATIO,
    V_IH, V_IL, WEAK_DRIVE_OHMS,
};
pub use crate::netlist::{ComponentDecl, NetDecl, NetlistError, NodeDecl, ParsedNetlist};
