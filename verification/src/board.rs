//! A board's declared parts: what resolution reads and drives.
use vstd::prelude::*;

use crate::cluster::{PwlCurve, RegionTest};
use crate::coupling::CouplingCapacitor;
use crate::net::{Drive, PinRef};
use crate::paths::Edge;
use crate::quantity::Quantity;
use crate::seqs::listed;
use crate::terminal::{TerminalDrive, TerminalId, TerminalSource};

verus! {

/// One drive-capable pin's slot: its net and what it currently contributes.
#[derive(Debug)]
pub struct DriveSlot {
    /// The net the pin is on.
    pub net: usize,
    /// The pin.
    pub pin: PinRef,
    /// Its contribution, in normal form; `None` is released.
    pub drive: Option<Drive>,
    /// A power-output pin's terminal: its drive is what the terminal holds.
    pub terminal: Option<TerminalId>,
    /// A pin's declared input port: a permanent load, never a driver.
    pub port: bool,
}

/// One piecewise-linear element, its pins resolved to nets.
#[derive(Debug)]
pub struct Element {
    /// One end.
    pub a: usize,
    /// The other end.
    pub b: usize,
    /// Its curve.
    pub curve: PwlCurve,
    /// The net whose voltage selects its region, and the test.
    pub control: Option<(usize, RegionTest)>,
    /// The reference of the part declaring it.
    pub reference: String,
}

/// The nets an element touches.
#[derive(Debug, Clone, Copy, PartialEq, Eq, Structural)]
pub struct ElementNets {
    /// One end.
    pub a: usize,
    /// The other end.
    pub b: usize,
    /// The control.
    pub control: Option<usize>,
}

impl ElementNets {
    /// The nets in end, end, control order.
    pub open spec fn list(self) -> Seq<usize> {
        match self.control {
            Some(net) => seq![self.a, self.b, net],
            None => seq![self.a, self.b],
        }
    }
}

impl Element {
    /// The nets the element touches.
    pub open spec fn touches(&self) -> ElementNets {
        ElementNets {
            a: self.a,
            b: self.b,
            control: match self.control {
                Some((net, _)) => Some(net),
                None => None,
            },
        }
    }

    /// The nets the element touches, in end, end, control order.
    pub fn nets(&self) -> (r: Vec<usize>)
        ensures
            r@ == self.touches().list(),
    {
        let mut r: Vec<usize> = Vec::new();
        r.push(self.a);
        r.push(self.b);
        if let Some((net, _)) = self.control {
            r.push(net);
        }
        assert(r@ =~= self.touches().list());
        r
    }
}

/// What a run-time reader of a net is.
#[derive(Debug, Clone, Copy, PartialEq, Eq, Structural)]
pub enum ReadKind {
    /// A level reader.
    Digital,
    /// A current instrument.
    Instrument,
}

/// Everything declared on a board.
#[derive(Debug)]
pub struct Board {
    /// Conduction edges.
    pub edges: Vec<Edge>,
    /// Coupling capacitors.
    pub couplings: Vec<CouplingCapacitor>,
    /// Drive-capable endpoints.
    pub slots: Vec<DriveSlot>,
    /// Piecewise-linear elements.
    pub elements: Vec<Element>,
    /// Harness supplies and power-output pins.
    pub power_sources: Vec<TerminalSource>,
    /// Stuck nets.
    pub stuck_sources: Vec<TerminalSource>,
    /// Nets of digital sense pins.
    pub digital_senses: Vec<usize>,
    /// Nets of analog sense pins.
    pub analog_senses: Vec<usize>,
    /// Nets of current instruments.
    pub current_instruments: Vec<usize>,
    /// Nets of power sense pins.
    pub power_senses: Vec<usize>,
}

/// Everything declared on a board, as sequences.
#[verifier::ext_equal]
pub struct BoardView {
    /// Conduction edges.
    pub edges: Seq<Edge>,
    /// Coupling capacitors.
    pub couplings: Seq<CouplingCapacitor>,
    /// Drive-capable endpoints.
    pub slots: Seq<DriveSlot>,
    /// Piecewise-linear elements.
    pub elements: Seq<Element>,
    /// Harness supplies and power-output pins.
    pub power_sources: Seq<TerminalSource>,
    /// Stuck nets.
    pub stuck_sources: Seq<TerminalSource>,
    /// Nets of digital sense pins.
    pub digital_senses: Seq<usize>,
    /// Nets of analog sense pins.
    pub analog_senses: Seq<usize>,
    /// Nets of current instruments.
    pub current_instruments: Seq<usize>,
    /// Nets of power sense pins.
    pub power_senses: Seq<usize>,
}

impl View for Board {
    type V = BoardView;

    open spec fn view(&self) -> BoardView {
        BoardView {
            edges: self.edges@,
            couplings: self.couplings@,
            slots: self.slots@,
            elements: self.elements@,
            power_sources: self.power_sources@,
            stuck_sources: self.stuck_sources@,
            digital_senses: self.digital_senses@,
            analog_senses: self.analog_senses@,
            current_instruments: self.current_instruments@,
            power_senses: self.power_senses@,
        }
    }
}

/// Nothing declared.
pub open spec fn empty_board() -> BoardView {
    BoardView {
        edges: Seq::empty(),
        couplings: Seq::empty(),
        slots: Seq::empty(),
        elements: Seq::empty(),
        power_sources: Seq::empty(),
        stuck_sources: Seq::empty(),
        digital_senses: Seq::empty(),
        analog_senses: Seq::empty(),
        current_instruments: Seq::empty(),
        power_senses: Seq::empty(),
    }
}

/// What of a board decides its topology: everything but what the slots and
/// terminal sources hold.
#[verifier::ext_equal]
pub struct Shape {
    /// Conduction edges.
    pub edges: Seq<Edge>,
    /// The ends and the capacitance of every coupling capacitor.
    pub couplings: Seq<(usize, usize, u64)>,
    /// Every slot's net.
    pub slot_nets: Seq<usize>,
    /// Whether a slot is a terminal's.
    pub slot_is_terminal: Seq<bool>,
    /// The nets every element touches.
    pub elements: Seq<ElementNets>,
    /// Every power source's net.
    pub power_nets: Seq<usize>,
    /// Every stuck source's net.
    pub stuck_nets: Seq<usize>,
    /// Nets of digital sense pins.
    pub digital_senses: Seq<usize>,
    /// Nets of analog sense pins.
    pub analog_senses: Seq<usize>,
    /// Nets of current instruments.
    pub current_instruments: Seq<usize>,
    /// Nets of power sense pins.
    pub power_senses: Seq<usize>,
}

/// The nets of a list of terminal sources.
pub open spec fn source_nets(sources: Seq<TerminalSource>) -> Seq<usize> {
    Seq::new(sources.len(), |i: int| sources[i].net)
}

/// Whether every listed net is below `n`.
pub open spec fn all_below(nets: Seq<usize>, n: nat) -> bool {
    forall|i: int| 0 <= i < nets.len() ==> (#[trigger] nets[i]) < n
}

impl Shape {
    /// Every net a part is on is below `n`, and every edge has a resistance of
    /// zero or more. The nets of what may be declared read at run time, levels
    /// and currents, are any: one past the others lies in no cluster.
    pub open spec fn valid(self, n: nat) -> bool {
        &&& crate::paths::edges_valid(self.edges, n)
        &&& forall|i: int|
            0 <= i < self.couplings.len() ==> (#[trigger] self.couplings[i]).0 < n
                && self.couplings[i].1 < n
        &&& all_below(self.slot_nets, n)
        &&& self.slot_nets.len() == self.slot_is_terminal.len()
        &&& forall|i: int|
            0 <= i < self.elements.len() ==> (#[trigger] self.elements[i]).a < n
                && self.elements[i].b < n && (self.elements[i].control matches Some(c) ==> c < n)
        &&& all_below(self.power_nets, n)
        &&& all_below(self.stuck_nets, n)
        &&& all_below(self.analog_senses, n)
        &&& all_below(self.power_senses, n)
    }

    /// Every net whose level or current is read is below `n`.
    pub open spec fn readers_known(self, n: nat) -> bool {
        &&& all_below(self.digital_senses, n)
        &&& all_below(self.current_instruments, n)
    }
}

impl Board {
    /// What of the board decides its topology.
    pub open spec fn shape(&self) -> Shape {
        Shape {
            edges: self.edges@,
            couplings: Seq::new(
                self.couplings@.len(),
                |i: int|
                    (self.couplings@[i].a, self.couplings@[i].b, self.couplings@[i].farads),
            ),
            slot_nets: Seq::new(self.slots@.len(), |i: int| self.slots@[i].net),
            slot_is_terminal: Seq::new(
                self.slots@.len(),
                |i: int| self.slots@[i].terminal is Some,
            ),
            elements: Seq::new(self.elements@.len(), |i: int| self.elements@[i].touches()),
            power_nets: source_nets(self.power_sources@),
            stuck_nets: source_nets(self.stuck_sources@),
            digital_senses: self.digital_senses@,
            analog_senses: self.analog_senses@,
            current_instruments: self.current_instruments@,
            power_senses: self.power_senses@,
        }
    }

    /// What the terminal source `id` holds.
    pub open spec fn held_at(&self, id: TerminalId) -> TerminalDrive {
        match id {
            TerminalId::Power(i) => self.power_sources@[i as int].drive,
            TerminalId::Stuck(i) => self.stuck_sources@[i as int].drive,
        }
    }

    /// Whether `id` names a declared terminal source.
    pub open spec fn declares(&self, id: TerminalId) -> bool {
        match id {
            TerminalId::Power(i) => i < self.power_sources@.len(),
            TerminalId::Stuck(i) => i < self.stuck_sources@.len(),
        }
    }

    /// The net the terminal source `id` is declared on.
    pub open spec fn terminal_net(&self, id: TerminalId) -> usize {
        match id {
            TerminalId::Power(i) => self.power_sources@[i as int].net,
            TerminalId::Stuck(i) => self.stuck_sources@[i as int].net,
        }
    }

    /// A board with nothing declared.
    pub fn new() -> (r: Board)
        ensures
            r@ == empty_board(),
    {
        let r = Board {
            edges: Vec::new(),
            couplings: Vec::new(),
            slots: Vec::new(),
            elements: Vec::new(),
            power_sources: Vec::new(),
            stuck_sources: Vec::new(),
            digital_senses: Vec::new(),
            analog_senses: Vec::new(),
            current_instruments: Vec::new(),
            power_senses: Vec::new(),
        };
        assert(r@ =~= empty_board());
        r
    }

    /// The terminal source `id`.
    pub fn terminal_source(&self, id: TerminalId) -> (r: TerminalSource)
        requires
            self.declares(id),
        ensures
            r.net == self.terminal_net(id),
            r.drive == self.held_at(id),
    {
        match id {
            TerminalId::Power(i) => self.power_sources[i],
            TerminalId::Stuck(i) => self.stuck_sources[i],
        }
    }
}

/// Whether every listed net is below `n`.
fn below(nets: &Vec<usize>, n: usize) -> (r: bool)
    ensures
        r == all_below(nets@, n as nat),
{
    let mut i: usize = 0;
    while i < nets.len()
        invariant
            i <= nets@.len(),
            forall|j: int| 0 <= j < i ==> (#[trigger] nets@[j]) < n,
        decreases nets@.len() - i,
    {
        if nets[i] >= n {
            return false;
        }
        i += 1;
    }
    true
}

/// Whether every listed source is on a net below `n`.
fn sources_below(sources: &Vec<TerminalSource>, n: usize) -> (r: bool)
    ensures
        r == all_below(source_nets(sources@), n as nat),
{
    let ghost nets = source_nets(sources@);
    let mut i: usize = 0;
    while i < sources.len()
        invariant
            nets == source_nets(sources@),
            i <= sources@.len(),
            forall|j: int| 0 <= j < i ==> (#[trigger] nets[j]) < n,
        decreases sources@.len() - i,
    {
        assert(nets[i as int] == sources@[i as int].net);
        if sources[i].net >= n {
            return false;
        }
        i += 1;
    }
    true
}

impl Board {
    fn edges_fit(&self, n: usize) -> (r: bool)
        ensures
            r == crate::paths::edges_valid(self.shape().edges, n as nat),
    {
        let mut i: usize = 0;
        while i < self.edges.len()
            invariant
                i <= self.edges@.len(),
                forall|j: int|
                    0 <= j < i ==> (#[trigger] self.edges@[j]).a < n && self.edges@[j].b < n
                        && self.edges@[j].ohms.non_negative(),
            decreases self.edges@.len() - i,
        {
            let edge = self.edges[i];
            let passes = match edge.ohms {
                Quantity::Finite(ohms) => ohms >= 0,
                Quantity::Infinite => true,
                _ => false,
            };
            if edge.a >= n || edge.b >= n || !passes {
                assert(!(self.edges@[i as int].a < n && self.edges@[i as int].b < n
                    && self.edges@[i as int].ohms.non_negative()));
                return false;
            }
            i += 1;
        }
        true
    }

    fn couplings_fit(&self, n: usize) -> (r: bool)
        ensures
            r == (forall|i: int|
                0 <= i < self.shape().couplings.len() ==> (#[trigger] self.shape().couplings[i]).0
                    < n && self.shape().couplings[i].1 < n),
    {
        let ghost list = self.shape().couplings;
        let mut i: usize = 0;
        while i < self.couplings.len()
            invariant
                list == self.shape().couplings,
                i <= self.couplings@.len(),
                forall|j: int| 0 <= j < i ==> (#[trigger] list[j]).0 < n && list[j].1 < n,
            decreases self.couplings@.len() - i,
        {
            assert(list[i as int].0 == self.couplings@[i as int].a);
            if self.couplings[i].a >= n || self.couplings[i].b >= n {
                return false;
            }
            i += 1;
        }
        true
    }

    fn slots_fit(&self, n: usize) -> (r: bool)
        ensures
            r == all_below(self.shape().slot_nets, n as nat),
    {
        let ghost list = self.shape().slot_nets;
        let mut i: usize = 0;
        while i < self.slots.len()
            invariant
                list == self.shape().slot_nets,
                i <= self.slots@.len(),
                forall|j: int| 0 <= j < i ==> (#[trigger] list[j]) < n,
            decreases self.slots@.len() - i,
        {
            assert(list[i as int] == self.slots@[i as int].net);
            if self.slots[i].net >= n {
                return false;
            }
            i += 1;
        }
        true
    }

    fn elements_fit(&self, n: usize) -> (r: bool)
        ensures
            r == (forall|i: int|
                0 <= i < self.shape().elements.len() ==> (#[trigger] self.shape().elements[i]).a
                    < n && self.shape().elements[i].b < n && (
                self.shape().elements[i].control matches Some(c) ==> c < n)),
    {
        let ghost list = self.shape().elements;
        let mut i: usize = 0;
        while i < self.elements.len()
            invariant
                list == self.shape().elements,
                i <= self.elements@.len(),
                forall|j: int|
                    0 <= j < i ==> (#[trigger] list[j]).a < n && list[j].b < n && (
                    list[j].control matches Some(c) ==> c < n),
            decreases self.elements@.len() - i,
        {
            assert(list[i as int] == self.elements@[i as int].touches());
            let element = &self.elements[i];
            if element.a >= n || element.b >= n {
                return false;
            }
            if let Some((net, _)) = element.control {
                if net >= n {
                    return false;
                }
            }
            i += 1;
        }
        true
    }

    /// Whether everything declared is on one of `n` nets, and every edge has
    /// a resistance of zero or more.
    pub fn fits_nets(&self, n: usize) -> (r: bool)
        ensures
            r == (self.shape().valid(n as nat) && self.shape().readers_known(n as nat)),
    {
        self.edges_fit(n) && self.couplings_fit(n) && self.slots_fit(n) && self.elements_fit(n)
            && sources_below(&self.power_sources, n) && sources_below(&self.stuck_sources, n)
            && below(&self.digital_senses, n) && below(&self.analog_senses, n) && below(
            &self.current_instruments,
            n,
        ) && below(&self.power_senses, n)
    }
}

/// Where an element lives: the root its cluster is found by, and the terminal
/// roots it names that are not that cluster's own.
#[derive(Debug)]
pub struct ElementHome {
    /// The first root that is no terminal, in end, end, control order.
    pub root: usize,
    /// The terminal roots among the element's two ends, in order.
    pub terminal_ends: Vec<usize>,
    /// The control's root, when it is a terminal.
    pub terminal_control: Option<usize>,
}

/// The root an element's cluster is found by: its first root that is no
/// terminal.
pub open spec fn home_root(
    element: ElementNets,
    root_of: Seq<usize>,
    terminals: Seq<usize>,
) -> Option<usize> {
    let ra = root_of[element.a as int];
    let rb = root_of[element.b as int];
    if !terminals.contains(ra) {
        Some(ra)
    } else if !terminals.contains(rb) {
        Some(rb)
    } else {
        match element.control {
            Some(net) => if !terminals.contains(root_of[net as int]) {
                Some(root_of[net as int])
            } else {
                None
            },
            None => None,
        }
    }
}

/// Whether `root` is a terminal one of the element's conducting ends is on.
pub open spec fn ends_on(
    element: ElementNets,
    root_of: Seq<usize>,
    root: usize,
) -> bool {
    root_of[element.a as int] == root || root_of[element.b as int] == root
}

/// Whether the element's control is on `root`.
pub open spec fn controlled_by(
    element: ElementNets,
    root_of: Seq<usize>,
    root: usize,
) -> bool {
    element.control matches Some(net) && root_of[net as int] == root
}

/// A root, where it is a terminal.
pub open spec fn if_terminal(root: usize, terminals: Seq<usize>) -> Seq<usize> {
    if terminals.contains(root) {
        seq![root]
    } else {
        Seq::empty()
    }
}

/// The terminal roots among an element's two ends, in end, end order.
pub open spec fn terminal_ends_of(
    element: ElementNets,
    root_of: Seq<usize>,
    terminals: Seq<usize>,
) -> Seq<usize> {
    if_terminal(root_of[element.a as int], terminals) + if_terminal(
        root_of[element.b as int],
        terminals,
    )
}

/// An element's terminal ends are the terminals its ends are on.
pub proof fn terminal_ends_are(
    element: ElementNets,
    root_of: Seq<usize>,
    terminals: Seq<usize>,
)
    ensures
        forall|x: usize|
            #[trigger] terminal_ends_of(element, root_of, terminals).contains(x)
                <==> terminals.contains(x) && ends_on(element, root_of, x),
{
    let ends = terminal_ends_of(element, root_of, terminals);
    let (ra, rb) = (root_of[element.a as int], root_of[element.b as int]);
    assert forall|x: usize| #[trigger] ends.contains(x) <==> terminals.contains(x) && ends_on(
        element,
        root_of,
        x,
    ) by {
        if terminals.contains(ra) {
            assert(ends[0] == ra);
        }
        if terminals.contains(rb) {
            assert(ends[ends.len() - 1] == rb);
        }
    }
}

/// Whether `home` says where an element lives.
pub open spec fn home_described(
    home: Option<ElementHome>,
    element: ElementNets,
    root_of: Seq<usize>,
    terminals: Seq<usize>,
) -> bool {
    match home {
        Some(home) => {
            &&& home_root(element, root_of, terminals) == Some(home.root)
            &&& home.terminal_ends@ == terminal_ends_of(element, root_of, terminals)
            &&& home.terminal_control == (match element.control {
                Some(net) => if terminals.contains(root_of[net as int]) {
                    Some(root_of[net as int])
                } else {
                    None
                },
                None => None,
            })
        },
        None => home_root(element, root_of, terminals) is None,
    }
}

/// Where an element lives, given which roots are terminals; `None` for one
/// whose every net is a terminal.
pub fn element_home(
    element: &Element,
    root_of: &Vec<usize>,
    terminals: &Vec<usize>,
) -> (r: Option<ElementHome>)
    requires
        element.a < root_of@.len(),
        element.b < root_of@.len(),
        element.control matches Some((net, _)) ==> net < root_of@.len(),
    ensures
        home_described(r, element.touches(), root_of@, terminals@),
{
    let ra: usize = root_of[element.a];
    let rb: usize = root_of[element.b];
    let a_terminal = listed(terminals, ra);
    let b_terminal = listed(terminals, rb);
    let mut terminal_control: Option<usize> = None;
    let mut control_root: Option<usize> = None;
    if let Some((net, _)) = element.control {
        let rc: usize = root_of[net];
        if listed(terminals, rc) {
            terminal_control = Some(rc);
        } else {
            control_root = Some(rc);
        }
    }
    let root: usize = if !a_terminal {
        ra
    } else if !b_terminal {
        rb
    } else {
        match control_root {
            Some(rc) => rc,
            None => {
                return None;
            },
        }
    };
    let mut terminal_ends: Vec<usize> = Vec::new();
    if a_terminal {
        terminal_ends.push(ra);
    }
    if b_terminal {
        terminal_ends.push(rb);
    }
    assert(terminal_ends@ =~= terminal_ends_of(element.touches(), root_of@, terminals@));
    Some(ElementHome { root, terminal_ends, terminal_control })
}

} // verus!
