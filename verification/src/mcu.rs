//! The microcontroller as a board component: its channel tables in, its
//! physical pins out, and what its bridges publish.
pub mod laws;

use vstd::prelude::*;

use crate::net::{digital_drive, Drive, Level, PeriodicSchedule, TheveninDrive};
use crate::text::{decimal, push_decimal, push_text, text_of};

verus! {

/// One serial channel's wiring: physical pins and configured baud.
#[derive(Debug, Clone, Copy, PartialEq, Eq, Structural)]
pub struct SerialChannelConfig {
    /// Physical receive pin.
    pub rx_pin: u32,
    /// Physical transmit pin.
    pub tx_pin: u32,
    /// Bits per second.
    pub baud: u32,
}

/// One GPIO channel's wiring.
#[derive(Debug, Clone, Copy, PartialEq, Eq, Structural)]
pub struct GpioChannelConfig {
    /// Physical pin.
    pub pin: u32,
    /// Whether the active state drives the pin low, in both directions.
    pub active_low: bool,
}

/// One pulse-output channel's wiring: the step pin.
#[derive(Debug, Clone, Copy, PartialEq, Eq, Structural)]
pub struct PulseOutChannelConfig {
    /// Physical pin the step clock leaves on.
    pub pin: u32,
}

/// One quadrature-encoder channel's wiring.
#[derive(Debug, Clone, Copy, PartialEq, Eq, Structural)]
pub struct EncoderChannelConfig {
    /// Physical pin of the first phase.
    pub pin_a: u32,
    /// Physical pin of the second phase.
    pub pin_b: u32,
}

/// Electrical direction of a declared GPIO pin.
#[derive(Debug, Clone, Copy, PartialEq, Eq, Structural)]
pub enum GpioDirection {
    /// The controller senses the pin.
    Input,
    /// The controller drives the pin.
    Output,
}

/// Why a controller does not build.
#[derive(Debug, Clone, Copy, PartialEq, Eq, Structural)]
pub enum McuBuildError {
    /// A bridged serial channel is not in the table.
    UnknownSerialChannel {
        /// The requested channel.
        channel: usize,
        /// How many entries the table has.
        table_len: usize,
    },
    /// A bridged GPIO channel is not in the table.
    UnknownGpioChannel {
        /// The requested channel.
        channel: usize,
        /// How many entries the table has.
        table_len: usize,
    },
    /// A bridged pulse-out channel is not in the table.
    UnknownPulseOutChannel {
        /// The requested channel.
        channel: usize,
        /// How many entries the table has.
        table_len: usize,
    },
    /// A bridged encoder channel is not in the table.
    UnknownEncoderChannel {
        /// The requested channel.
        channel: usize,
        /// How many entries the table has.
        table_len: usize,
    },
    /// A physical pin is past the last.
    PinOutOfRange {
        /// The offending pin.
        pin: u32,
    },
    /// Two declarations claim the same physical pin.
    DuplicatePin {
        /// The doubly claimed pin.
        pin: u32,
    },
}

/// How many physical pins there are.
pub const PIN_COUNT: u32 = 64;

/// The name of a physical pin: `P0` and on.
pub open spec fn pin_text(pin: u32) -> Seq<char> {
    seq!['P'] + decimal(pin as nat)
}

/// The name of a physical pin; `None` past the last.
pub fn pin_name(pin: u32) -> (r: Option<String>)
    ensures
        match r {
            Some(name) => pin < PIN_COUNT && name@ == pin_text(pin),
            None => pin >= PIN_COUNT,
        },
{
    if pin >= PIN_COUNT {
        return None;
    }
    let mut out: Vec<char> = Vec::new();
    out.push('P');
    push_decimal(&mut out, pin as u128);
    assert(out@ =~= pin_text(pin));
    Some(text_of(&out))
}

/// What a declared pin is.
#[derive(Debug, Clone, Copy, PartialEq, Eq, Structural)]
pub enum PinKind {
    /// A push-pull output.
    DigitalOut,
    /// A sensed input.
    DigitalIn,
}

/// One declared pin.
#[derive(Debug, Clone, Copy, PartialEq, Eq, Structural)]
pub struct McuPin {
    /// The physical pin.
    pub pin: u32,
    /// What it is.
    pub kind: PinKind,
}

/// The kind of pin a GPIO direction declares.
pub open spec fn gpio_kind(direction: GpioDirection) -> PinKind {
    match direction {
        GpioDirection::Input => PinKind::DigitalIn,
        GpioDirection::Output => PinKind::DigitalOut,
    }
}

fn kind_of(direction: GpioDirection) -> (r: PinKind)
    ensures
        r == gpio_kind(direction),
{
    match direction {
        GpioDirection::Input => PinKind::DigitalIn,
        GpioDirection::Output => PinKind::DigitalOut,
    }
}

/// One step of a build: a pin to claim, or a channel no table holds.
#[derive(Debug, Clone, Copy, PartialEq, Eq, Structural)]
pub enum Request {
    /// Claim a pin.
    Claim(McuPin),
    /// The channel is unknown.
    Unknown(McuBuildError),
}

/// Whether a pin is claimed among the first `k` requests.
pub open spec fn claimed(requests: Seq<Request>, k: int, pin: u32) -> bool {
    exists|j: int|
        0 <= j < k && ((#[trigger] requests[j]) matches Request::Claim(held) && held.pin == pin)
}

/// Why the request at `k` is refused, those before it granted.
pub open spec fn refusal(requests: Seq<Request>, k: int) -> Option<McuBuildError> {
    match requests[k] {
        Request::Unknown(e) => Some(e),
        Request::Claim(pin) => if pin.pin >= PIN_COUNT {
            Some(McuBuildError::PinOutOfRange { pin: pin.pin })
        } else if claimed(requests, k, pin.pin) {
            Some(McuBuildError::DuplicatePin { pin: pin.pin })
        } else {
            None
        },
    }
}

/// The pins the requests declare, every one granted, or why the first that is
/// not is refused.
pub open spec fn granted(requests: Seq<Request>, k: nat) -> Result<Seq<McuPin>, McuBuildError>
    decreases k,
{
    if k == 0 {
        Ok(Seq::empty())
    } else {
        match granted(requests, (k - 1) as nat) {
            Err(e) => Err(e),
            Ok(pins) => match refusal(requests, k - 1) {
                Some(e) => Err(e),
                None => Ok(pins.push(requests[k - 1]->Claim_0)),
            },
        }
    }
}

/// Grant the requests in order.
fn grant(requests: &Vec<Request>) -> (r: Result<Vec<McuPin>, McuBuildError>)
    ensures
        match r {
            Ok(pins) => granted(requests@, requests@.len()) == Ok::<Seq<McuPin>, McuBuildError>(
                pins@,
            ),
            Err(e) => granted(requests@, requests@.len()) == Err::<Seq<McuPin>, McuBuildError>(e),
        },
{
    let mut pins: Vec<McuPin> = Vec::new();
    let mut k: usize = 0;
    while k < requests.len()
        invariant
            k <= requests@.len(),
            granted(requests@, k as nat) == Ok::<Seq<McuPin>, McuBuildError>(pins@),
            forall|j: int| 0 <= j < k ==> #[trigger] requests@[j] is Claim,
        decreases requests@.len() - k,
    {
        match requests[k] {
            Request::Unknown(e) => {
                proof {
                    stays_refused(requests@, (k + 1) as nat, requests@.len());
                }
                return Err(e);
            },
            Request::Claim(pin) => {
                if pin.pin >= PIN_COUNT {
                    proof {
                        stays_refused(requests@, (k + 1) as nat, requests@.len());
                    }
                    return Err(McuBuildError::PinOutOfRange { pin: pin.pin });
                }
                let mut taken = false;
                let mut j: usize = 0;
                while j < k
                    invariant
                        j <= k < requests@.len(),
                        taken == claimed(requests@, j as int, pin.pin),
                    decreases k - j,
                {
                    if let Request::Claim(held) = requests[j] {
                        if held.pin == pin.pin {
                            assert(requests@[j as int]->Claim_0.pin == pin.pin);
                            taken = true;
                        }
                    }
                    j += 1;
                }
                if taken {
                    proof {
                        stays_refused(requests@, (k + 1) as nat, requests@.len());
                    }
                    return Err(McuBuildError::DuplicatePin { pin: pin.pin });
                }
                pins.push(pin);
            },
        }
        k += 1;
    }
    Ok(pins)
}

proof fn stays_refused(requests: Seq<Request>, j: nat, k: nat)
    requires
        j <= k,
        granted(requests, j) is Err,
    ensures
        granted(requests, k) == granted(requests, j),
    decreases k - j,
{
    if j < k {
        stays_refused(requests, j, (k - 1) as nat);
    }
}

/// A granted set of pins is on distinct physical pins, every one of them
/// there is.
pub proof fn granted_pins_are_distinct(requests: Seq<Request>, k: nat)
    requires
        k <= requests.len(),
    ensures
        granted(requests, k) matches Ok(pins) ==> {
            &&& pins.len() == k
            &&& forall|i: int| 0 <= i < k ==> requests[i] == Request::Claim(#[trigger] pins[i])
            &&& forall|i: int| 0 <= i < k ==> (#[trigger] pins[i]).pin < PIN_COUNT
            &&& forall|i: int, j: int| 0 <= i < j < k ==> pins[i].pin != pins[j].pin
        },
    decreases k,
{
    if k > 0 {
        granted_pins_are_distinct(requests, (k - 1) as nat);
        if let Ok(pins) = granted(requests, k) {
            let before = granted(requests, (k - 1) as nat)->Ok_0;
            assert forall|i: int, j: int| 0 <= i < j < k implies pins[i].pin != pins[j].pin by {
                if j == k - 1 {
                    assert(requests[i] == Request::Claim(before[i]));
                    assert(!claimed(requests, k - 1, pins[j].pin));
                } else {
                    assert(pins[i] == before[i] && pins[j] == before[j]);
                }
            }
        }
    }
}

/// What bridging the first `k` serial channels requests.
pub open spec fn serial_requests(
    table: Seq<SerialChannelConfig>,
    channels: Seq<usize>,
    k: nat,
) -> Seq<Request>
    decreases k,
{
    if k == 0 {
        Seq::empty()
    } else {
        let rest = serial_requests(table, channels, (k - 1) as nat);
        let channel = channels[k - 1];
        if channel < table.len() {
            let config = table[channel as int];
            rest.push(
                Request::Claim(McuPin { pin: config.tx_pin, kind: PinKind::DigitalOut }),
            ).push(Request::Claim(McuPin { pin: config.rx_pin, kind: PinKind::DigitalIn }))
        } else {
            rest.push(
                Request::Unknown(
                    McuBuildError::UnknownSerialChannel {
                        channel,
                        table_len: table.len() as usize,
                    },
                ),
            )
        }
    }
}

/// What declaring the first `k` GPIO pins requests.
pub open spec fn gpio_requests(gpio: Seq<(GpioChannelConfig, GpioDirection)>, k: nat) -> Seq<
    Request,
>
    decreases k,
{
    if k == 0 {
        Seq::empty()
    } else {
        gpio_requests(gpio, (k - 1) as nat).push(
            Request::Claim(McuPin { pin: gpio[k - 1].0.pin, kind: gpio_kind(gpio[k - 1].1) }),
        )
    }
}

/// What bridging the first `k` GPIO channels requests.
pub open spec fn bridged_gpio_requests(
    table: Seq<GpioChannelConfig>,
    channels: Seq<(usize, GpioDirection)>,
    k: nat,
) -> Seq<Request>
    decreases k,
{
    if k == 0 {
        Seq::empty()
    } else {
        let rest = bridged_gpio_requests(table, channels, (k - 1) as nat);
        let (channel, direction) = channels[k - 1];
        if channel < table.len() {
            rest.push(
                Request::Claim(
                    McuPin { pin: table[channel as int].pin, kind: gpio_kind(direction) },
                ),
            )
        } else {
            rest.push(
                Request::Unknown(
                    McuBuildError::UnknownGpioChannel { channel, table_len: table.len() as usize },
                ),
            )
        }
    }
}

/// What bridging the first `k` pulse-out channels requests.
pub open spec fn pulse_requests(
    table: Seq<PulseOutChannelConfig>,
    channels: Seq<usize>,
    k: nat,
) -> Seq<Request>
    decreases k,
{
    if k == 0 {
        Seq::empty()
    } else {
        let rest = pulse_requests(table, channels, (k - 1) as nat);
        let channel = channels[k - 1];
        if channel < table.len() {
            rest.push(
                Request::Claim(
                    McuPin { pin: table[channel as int].pin, kind: PinKind::DigitalOut },
                ),
            )
        } else {
            rest.push(
                Request::Unknown(
                    McuBuildError::UnknownPulseOutChannel {
                        channel,
                        table_len: table.len() as usize,
                    },
                ),
            )
        }
    }
}

/// What bridging the first `k` encoder channels requests.
pub open spec fn encoder_requests(
    table: Seq<EncoderChannelConfig>,
    channels: Seq<usize>,
    k: nat,
) -> Seq<Request>
    decreases k,
{
    if k == 0 {
        Seq::empty()
    } else {
        let rest = encoder_requests(table, channels, (k - 1) as nat);
        let channel = channels[k - 1];
        if channel < table.len() {
            let config = table[channel as int];
            rest.push(
                Request::Claim(McuPin { pin: config.pin_a, kind: PinKind::DigitalIn }),
            ).push(Request::Claim(McuPin { pin: config.pin_b, kind: PinKind::DigitalIn }))
        } else {
            rest.push(
                Request::Unknown(
                    McuBuildError::UnknownEncoderChannel {
                        channel,
                        table_len: table.len() as usize,
                    },
                ),
            )
        }
    }
}

/// The entry of a controller that runs no firmware of its own.
#[derive(Debug, Clone, Copy, PartialEq, Eq, Structural)]
pub struct NoEntry;

/// What a controller is configured with.
#[verifier::ext_equal]
pub struct McuPlan {
    /// The name.
    pub name: Seq<char>,
    /// The serial table, by channel.
    pub serial_table: Seq<SerialChannelConfig>,
    /// The bridged serial channels.
    pub bridged_serial: Seq<usize>,
    /// The GPIO pins declared and not bridged.
    pub gpio: Seq<(GpioChannelConfig, GpioDirection)>,
    /// The GPIO table, by channel.
    pub gpio_table: Seq<GpioChannelConfig>,
    /// The bridged GPIO channels.
    pub bridged_gpio: Seq<(usize, GpioDirection)>,
    /// The pulse-out table, by channel.
    pub pulse_out_table: Seq<PulseOutChannelConfig>,
    /// The bridged pulse-out channels.
    pub bridged_pulse_out: Seq<usize>,
    /// The encoder table, by channel.
    pub encoder_table: Seq<EncoderChannelConfig>,
    /// The bridged encoder channels.
    pub bridged_encoder: Seq<usize>,
}

impl McuPlan {
    /// Nothing declared.
    pub open spec fn empty(name: Seq<char>) -> McuPlan {
        McuPlan {
            name,
            serial_table: Seq::empty(),
            bridged_serial: Seq::empty(),
            gpio: Seq::empty(),
            gpio_table: Seq::empty(),
            bridged_gpio: Seq::empty(),
            pulse_out_table: Seq::empty(),
            bridged_pulse_out: Seq::empty(),
            encoder_table: Seq::empty(),
            bridged_encoder: Seq::empty(),
        }
    }

    /// What the plan requests, in order: serial channels, declared GPIO pins,
    /// bridged GPIO, pulse-out and encoder channels.
    pub open spec fn requests(self) -> Seq<Request> {
        serial_requests(self.serial_table, self.bridged_serial, self.bridged_serial.len())
            + gpio_requests(self.gpio, self.gpio.len()) + bridged_gpio_requests(
            self.gpio_table,
            self.bridged_gpio,
            self.bridged_gpio.len(),
        ) + pulse_requests(
            self.pulse_out_table,
            self.bridged_pulse_out,
            self.bridged_pulse_out.len(),
        ) + encoder_requests(
            self.encoder_table,
            self.bridged_encoder,
            self.bridged_encoder.len(),
        )
    }

    /// The pins the plan declares, or why it does not build.
    pub open spec fn pins(self) -> Result<Seq<McuPin>, McuBuildError> {
        granted(self.requests(), self.requests().len())
    }
}

/// Builder of a controller: the channel tables, which channels to bridge, and
/// the GPIO pins to declare.
#[derive(Debug)]
pub struct McuBuilder<E> {
    name: String,
    serial_table: Vec<SerialChannelConfig>,
    bridged_serial: Vec<usize>,
    gpio: Vec<(GpioChannelConfig, GpioDirection)>,
    gpio_table: Vec<GpioChannelConfig>,
    bridged_gpio: Vec<(usize, GpioDirection)>,
    pulse_out_table: Vec<PulseOutChannelConfig>,
    bridged_pulse_out: Vec<usize>,
    encoder_table: Vec<EncoderChannelConfig>,
    bridged_encoder: Vec<usize>,
    entry: Option<E>,
}

impl<E> View for McuBuilder<E> {
    type V = McuPlan;

    closed spec fn view(&self) -> McuPlan {
        McuPlan {
            name: self.name@,
            serial_table: self.serial_table@,
            bridged_serial: self.bridged_serial@,
            gpio: self.gpio@,
            gpio_table: self.gpio_table@,
            bridged_gpio: self.bridged_gpio@,
            pulse_out_table: self.pulse_out_table@,
            bridged_pulse_out: self.bridged_pulse_out@,
            encoder_table: self.encoder_table@,
            bridged_encoder: self.bridged_encoder@,
        }
    }
}

impl McuBuilder<NoEntry> {
    /// Start building a controller.
    pub fn new(name: &str) -> (r: McuBuilder<NoEntry>)
        ensures
            r@ == McuPlan::empty(name@),
            r.held_entry() is None,
    {
        let r = McuBuilder {
            name: name.to_owned(),
            serial_table: Vec::new(),
            bridged_serial: Vec::new(),
            gpio: Vec::new(),
            gpio_table: Vec::new(),
            bridged_gpio: Vec::new(),
            pulse_out_table: Vec::new(),
            bridged_pulse_out: Vec::new(),
            encoder_table: Vec::new(),
            bridged_encoder: Vec::new(),
            entry: None,
        };
        assert(r@ =~= McuPlan::empty(name@));
        r
    }
}

impl<E> McuBuilder<E> {
    /// The firmware entry.
    pub closed spec fn held_entry(&self) -> Option<E> {
        self.entry
    }

    /// Provide the serial wiring table, indexed by channel.
    pub fn serial_table(self, table: Vec<SerialChannelConfig>) -> (r: McuBuilder<E>)
        ensures
            r@ == (McuPlan { serial_table: table@, ..self@ }),
            r.held_entry() == self.held_entry(),
    {
        let mut built = self;
        built.serial_table = table;
        built
    }

    /// Bridge one serial channel: declare its pins and carry its bytes.
    pub fn bridge_serial(self, channel: usize) -> (r: McuBuilder<E>)
        ensures
            r@ == (McuPlan { bridged_serial: self@.bridged_serial.push(channel), ..self@ }),
            r.held_entry() == self.held_entry(),
    {
        let mut built = self;
        built.bridged_serial.push(channel);
        built
    }

    /// Declare one GPIO pin without bridging it.
    pub fn gpio(self, config: GpioChannelConfig, direction: GpioDirection) -> (r: McuBuilder<E>)
        ensures
            r@ == (McuPlan { gpio: self@.gpio.push((config, direction)), ..self@ }),
            r.held_entry() == self.held_entry(),
    {
        let mut built = self;
        built.gpio.push((config, direction));
        built
    }

    /// Provide the GPIO wiring table, indexed by channel.
    pub fn gpio_table(self, table: Vec<GpioChannelConfig>) -> (r: McuBuilder<E>)
        ensures
            r@ == (McuPlan { gpio_table: table@, ..self@ }),
            r.held_entry() == self.held_entry(),
    {
        let mut built = self;
        built.gpio_table = table;
        built
    }

    /// Bridge one GPIO channel to its pin, in the given direction.
    pub fn bridge_gpio(self, channel: usize, direction: GpioDirection) -> (r: McuBuilder<E>)
        ensures
            r@ == (McuPlan { bridged_gpio: self@.bridged_gpio.push((channel, direction)), ..self@ }),
            r.held_entry() == self.held_entry(),
    {
        let mut built = self;
        built.bridged_gpio.push((channel, direction));
        built
    }

    /// Provide the pulse-output wiring table, indexed by channel.
    pub fn pulse_out_table(self, table: Vec<PulseOutChannelConfig>) -> (r: McuBuilder<E>)
        ensures
            r@ == (McuPlan { pulse_out_table: table@, ..self@ }),
            r.held_entry() == self.held_entry(),
    {
        let mut built = self;
        built.pulse_out_table = table;
        built
    }

    /// Bridge one pulse-output channel to its step pin.
    pub fn bridge_pulse_out(self, channel: usize) -> (r: McuBuilder<E>)
        ensures
            r@ == (McuPlan { bridged_pulse_out: self@.bridged_pulse_out.push(channel), ..self@ }),
            r.held_entry() == self.held_entry(),
    {
        let mut built = self;
        built.bridged_pulse_out.push(channel);
        built
    }

    /// Provide the encoder wiring table, indexed by channel.
    pub fn encoder_table(self, table: Vec<EncoderChannelConfig>) -> (r: McuBuilder<E>)
        ensures
            r@ == (McuPlan { encoder_table: table@, ..self@ }),
            r.held_entry() == self.held_entry(),
    {
        let mut built = self;
        built.encoder_table = table;
        built
    }

    /// Bridge one encoder channel: declare its phase pins as inputs and count
    /// the quadrature they carry.
    pub fn bridge_encoder(self, channel: usize) -> (r: McuBuilder<E>)
        ensures
            r@ == (McuPlan { bridged_encoder: self@.bridged_encoder.push(channel), ..self@ }),
            r.held_entry() == self.held_entry(),
    {
        let mut built = self;
        built.bridged_encoder.push(channel);
        built
    }

    /// Give the controller its firmware entry: it runs on peripherals of its
    /// own.
    pub fn entry<F>(self, entry: F) -> (r: McuBuilder<F>)
        ensures
            r@ == self@,
            r.held_entry() == Some(entry),
    {
        McuBuilder {
            name: self.name,
            serial_table: self.serial_table,
            bridged_serial: self.bridged_serial,
            gpio: self.gpio,
            gpio_table: self.gpio_table,
            bridged_gpio: self.bridged_gpio,
            pulse_out_table: self.pulse_out_table,
            bridged_pulse_out: self.bridged_pulse_out,
            encoder_table: self.encoder_table,
            bridged_encoder: self.bridged_encoder,
            entry: Some(entry),
        }
    }

    /// The plan's requests, in order.
    fn plan_requests(&self) -> (r: Vec<Request>)
        ensures
            r@ == self@.requests(),
    {
        let mut out: Vec<Request> = Vec::new();
        let mut i: usize = 0;
        while i < self.bridged_serial.len()
            invariant
                i <= self.bridged_serial@.len(),
                out@ =~= serial_requests(self.serial_table@, self.bridged_serial@, i as nat),
            decreases self.bridged_serial@.len() - i,
        {
            let channel: usize = self.bridged_serial[i];
            if channel < self.serial_table.len() {
                let config = self.serial_table[channel];
                out.push(
                    Request::Claim(McuPin { pin: config.tx_pin, kind: PinKind::DigitalOut }),
                );
                out.push(Request::Claim(McuPin { pin: config.rx_pin, kind: PinKind::DigitalIn }));
            } else {
                let table_len: usize = self.serial_table.len();
                out.push(
                    Request::Unknown(McuBuildError::UnknownSerialChannel { channel, table_len }),
                );
            }
            i += 1;
        }
        let ghost serial = out@;
        i = 0;
        while i < self.gpio.len()
            invariant
                i <= self.gpio@.len(),
                out@ =~= serial + gpio_requests(self.gpio@, i as nat),
            decreases self.gpio@.len() - i,
        {
            let (config, direction) = self.gpio[i];
            out.push(Request::Claim(McuPin { pin: config.pin, kind: kind_of(direction) }));
            i += 1;
        }
        let ghost declared = out@;
        i = 0;
        while i < self.bridged_gpio.len()
            invariant
                i <= self.bridged_gpio@.len(),
                out@ =~= declared + bridged_gpio_requests(
                    self.gpio_table@,
                    self.bridged_gpio@,
                    i as nat,
                ),
            decreases self.bridged_gpio@.len() - i,
        {
            let (channel, direction) = self.bridged_gpio[i];
            if channel < self.gpio_table.len() {
                let config = self.gpio_table[channel];
                out.push(Request::Claim(McuPin { pin: config.pin, kind: kind_of(direction) }));
            } else {
                let table_len: usize = self.gpio_table.len();
                out.push(
                    Request::Unknown(McuBuildError::UnknownGpioChannel { channel, table_len }),
                );
            }
            i += 1;
        }
        let ghost gpio = out@;
        i = 0;
        while i < self.bridged_pulse_out.len()
            invariant
                i <= self.bridged_pulse_out@.len(),
                out@ =~= gpio + pulse_requests(
                    self.pulse_out_table@,
                    self.bridged_pulse_out@,
                    i as nat,
                ),
            decreases self.bridged_pulse_out@.len() - i,
        {
            let channel: usize = self.bridged_pulse_out[i];
            if channel < self.pulse_out_table.len() {
                let config = self.pulse_out_table[channel];
                out.push(Request::Claim(McuPin { pin: config.pin, kind: PinKind::DigitalOut }));
            } else {
                let table_len: usize = self.pulse_out_table.len();
                out.push(
                    Request::Unknown(McuBuildError::UnknownPulseOutChannel { channel, table_len }),
                );
            }
            i += 1;
        }
        let ghost pulses = out@;
        i = 0;
        while i < self.bridged_encoder.len()
            invariant
                i <= self.bridged_encoder@.len(),
                out@ =~= pulses + encoder_requests(
                    self.encoder_table@,
                    self.bridged_encoder@,
                    i as nat,
                ),
            decreases self.bridged_encoder@.len() - i,
        {
            let channel: usize = self.bridged_encoder[i];
            if channel < self.encoder_table.len() {
                let config = self.encoder_table[channel];
                out.push(Request::Claim(McuPin { pin: config.pin_a, kind: PinKind::DigitalIn }));
                out.push(Request::Claim(McuPin { pin: config.pin_b, kind: PinKind::DigitalIn }));
            } else {
                let table_len: usize = self.encoder_table.len();
                out.push(
                    Request::Unknown(McuBuildError::UnknownEncoderChannel { channel, table_len }),
                );
            }
            i += 1;
        }
        out
    }
}

/// One bridged serial channel.
#[derive(Debug, Clone, Copy, PartialEq, Eq, Structural)]
pub struct SerialBridge {
    /// The channel.
    pub channel: usize,
    /// Its wiring and baud.
    pub config: SerialChannelConfig,
}

/// One bridged GPIO channel.
#[derive(Debug, Clone, Copy, PartialEq, Eq, Structural)]
pub struct GpioBridge {
    /// The channel.
    pub channel: usize,
    /// Its pin and polarity.
    pub config: GpioChannelConfig,
    /// Which way it is wired.
    pub direction: GpioDirection,
}

/// One bridged pulse-output channel.
#[derive(Debug, Clone, Copy, PartialEq, Eq, Structural)]
pub struct PulseBridge {
    /// The channel.
    pub channel: usize,
    /// Its step pin.
    pub pin: u32,
}

/// One bridged encoder channel.
#[derive(Debug, Clone, Copy, PartialEq, Eq, Structural)]
pub struct EncoderBridge {
    /// The channel.
    pub channel: usize,
    /// The pin of the first phase.
    pub pin_a: u32,
    /// The pin of the second phase.
    pub pin_b: u32,
}

/// What a controller is made of.
#[verifier::ext_equal]
pub struct McuParts {
    /// The name.
    pub name: Seq<char>,
    /// The declared pins.
    pub pins: Seq<McuPin>,
    /// The bridged serial channels.
    pub serial: Seq<SerialBridge>,
    /// The bridged GPIO channels.
    pub gpio: Seq<GpioBridge>,
    /// The bridged pulse-output channels.
    pub pulses: Seq<PulseBridge>,
    /// The bridged encoder channels.
    pub encoders: Seq<EncoderBridge>,
}

impl McuPlan {
    /// The controller the plan makes, its pins being `pins`.
    pub open spec fn parts(self, pins: Seq<McuPin>) -> McuParts {
        McuParts {
            name: self.name,
            pins,
            serial: Seq::new(
                self.bridged_serial.len(),
                |i: int|
                    SerialBridge {
                        channel: self.bridged_serial[i],
                        config: self.serial_table[self.bridged_serial[i] as int],
                    },
            ),
            gpio: Seq::new(
                self.bridged_gpio.len(),
                |i: int|
                    GpioBridge {
                        channel: self.bridged_gpio[i].0,
                        config: self.gpio_table[self.bridged_gpio[i].0 as int],
                        direction: self.bridged_gpio[i].1,
                    },
            ),
            pulses: Seq::new(
                self.bridged_pulse_out.len(),
                |i: int|
                    PulseBridge {
                        channel: self.bridged_pulse_out[i],
                        pin: self.pulse_out_table[self.bridged_pulse_out[i] as int].pin,
                    },
            ),
            encoders: Seq::new(
                self.bridged_encoder.len(),
                |i: int|
                    EncoderBridge {
                        channel: self.bridged_encoder[i],
                        pin_a: self.encoder_table[self.bridged_encoder[i] as int].pin_a,
                        pin_b: self.encoder_table[self.bridged_encoder[i] as int].pin_b,
                    },
            ),
        }
    }
}

/// Whether every request is a claim.
pub open spec fn all_claims(requests: Seq<Request>) -> bool {
    forall|j: int| 0 <= j < requests.len() ==> #[trigger] requests[j] is Claim
}

proof fn claims_split(a: Seq<Request>, b: Seq<Request>)
    requires
        all_claims(a + b),
    ensures
        all_claims(a),
        all_claims(b),
{
    assert forall|j: int| 0 <= j < a.len() implies #[trigger] a[j] is Claim by {
        assert((a + b)[j] == a[j]);
    }
    assert forall|j: int| 0 <= j < b.len() implies #[trigger] b[j] is Claim by {
        assert((a + b)[a.len() + j] == b[j]);
    }
}

proof fn serial_known(table: Seq<SerialChannelConfig>, channels: Seq<usize>, k: nat)
    requires
        k <= channels.len(),
        all_claims(serial_requests(table, channels, k)),
    ensures
        forall|i: int| 0 <= i < k ==> (#[trigger] channels[i]) < table.len(),
    decreases k,
{
    if k > 0 {
        let rest = serial_requests(table, channels, (k - 1) as nat);
        let all = serial_requests(table, channels, k);
        assert(all[rest.len() as int] is Claim);
        assert forall|j: int| 0 <= j < rest.len() implies #[trigger] rest[j] is Claim by {
            assert(all[j] == rest[j]);
        }
        serial_known(table, channels, (k - 1) as nat);
    }
}

proof fn gpio_known(table: Seq<GpioChannelConfig>, channels: Seq<(usize, GpioDirection)>, k: nat)
    requires
        k <= channels.len(),
        all_claims(bridged_gpio_requests(table, channels, k)),
    ensures
        forall|i: int| 0 <= i < k ==> (#[trigger] channels[i]).0 < table.len(),
    decreases k,
{
    if k > 0 {
        let rest = bridged_gpio_requests(table, channels, (k - 1) as nat);
        let all = bridged_gpio_requests(table, channels, k);
        assert(all[rest.len() as int] is Claim);
        assert forall|j: int| 0 <= j < rest.len() implies #[trigger] rest[j] is Claim by {
            assert(all[j] == rest[j]);
        }
        gpio_known(table, channels, (k - 1) as nat);
    }
}

proof fn pulses_known(table: Seq<PulseOutChannelConfig>, channels: Seq<usize>, k: nat)
    requires
        k <= channels.len(),
        all_claims(pulse_requests(table, channels, k)),
    ensures
        forall|i: int| 0 <= i < k ==> (#[trigger] channels[i]) < table.len(),
    decreases k,
{
    if k > 0 {
        let rest = pulse_requests(table, channels, (k - 1) as nat);
        let all = pulse_requests(table, channels, k);
        assert(all[rest.len() as int] is Claim);
        assert forall|j: int| 0 <= j < rest.len() implies #[trigger] rest[j] is Claim by {
            assert(all[j] == rest[j]);
        }
        pulses_known(table, channels, (k - 1) as nat);
    }
}

proof fn encoders_known(table: Seq<EncoderChannelConfig>, channels: Seq<usize>, k: nat)
    requires
        k <= channels.len(),
        all_claims(encoder_requests(table, channels, k)),
    ensures
        forall|i: int| 0 <= i < k ==> (#[trigger] channels[i]) < table.len(),
    decreases k,
{
    if k > 0 {
        let rest = encoder_requests(table, channels, (k - 1) as nat);
        let all = encoder_requests(table, channels, k);
        assert(all[rest.len() as int] is Claim);
        assert forall|j: int| 0 <= j < rest.len() implies #[trigger] rest[j] is Claim by {
            assert(all[j] == rest[j]);
        }
        encoders_known(table, channels, (k - 1) as nat);
    }
}

/// A channel that is not bridged declares no pin: with nothing bridged and
/// nothing declared there are none, whatever the tables hold.
pub proof fn unbridged_channels_declare_no_pins(plan: McuPlan)
    requires
        plan.bridged_serial.len() == 0,
        plan.gpio.len() == 0,
        plan.bridged_gpio.len() == 0,
        plan.bridged_pulse_out.len() == 0,
        plan.bridged_encoder.len() == 0,
    ensures
        plan.pins() == Ok::<Seq<McuPin>, McuBuildError>(Seq::empty()),
{
    assert(plan.requests() =~= Seq::<Request>::empty());
}

/// A plan that builds names only channels its tables hold.
pub proof fn built_channels_are_known(plan: McuPlan)
    requires
        plan.pins() is Ok,
    ensures
        forall|i: int|
            0 <= i < plan.bridged_serial.len() ==> (#[trigger] plan.bridged_serial[i])
                < plan.serial_table.len(),
        forall|i: int|
            0 <= i < plan.bridged_gpio.len() ==> (#[trigger] plan.bridged_gpio[i]).0
                < plan.gpio_table.len(),
        forall|i: int|
            0 <= i < plan.bridged_pulse_out.len() ==> (#[trigger] plan.bridged_pulse_out[i])
                < plan.pulse_out_table.len(),
        forall|i: int|
            0 <= i < plan.bridged_encoder.len() ==> (#[trigger] plan.bridged_encoder[i])
                < plan.encoder_table.len(),
{
    let all = plan.requests();
    granted_pins_are_distinct(all, all.len());
    let pins = plan.pins()->Ok_0;
    assert forall|j: int| 0 <= j < all.len() implies #[trigger] all[j] is Claim by {
        assert(all[j] == Request::Claim(pins[j]));
    }
    let serial = serial_requests(plan.serial_table, plan.bridged_serial, plan.bridged_serial.len());
    let declared = gpio_requests(plan.gpio, plan.gpio.len());
    let gpio = bridged_gpio_requests(plan.gpio_table, plan.bridged_gpio, plan.bridged_gpio.len());
    let pulses = pulse_requests(
        plan.pulse_out_table,
        plan.bridged_pulse_out,
        plan.bridged_pulse_out.len(),
    );
    let encoders = encoder_requests(
        plan.encoder_table,
        plan.bridged_encoder,
        plan.bridged_encoder.len(),
    );
    claims_split(serial + declared + gpio + pulses, encoders);
    claims_split(serial + declared + gpio, pulses);
    claims_split(serial + declared, gpio);
    claims_split(serial, declared);
    serial_known(plan.serial_table, plan.bridged_serial, plan.bridged_serial.len());
    gpio_known(plan.gpio_table, plan.bridged_gpio, plan.bridged_gpio.len());
    pulses_known(plan.pulse_out_table, plan.bridged_pulse_out, plan.bridged_pulse_out.len());
    encoders_known(plan.encoder_table, plan.bridged_encoder, plan.bridged_encoder.len());
}

/// A controller: its boundary is its physical pins.
#[derive(Debug)]
pub struct McuComponent<E> {
    name: String,
    pins: Vec<McuPin>,
    serial: Vec<SerialBridge>,
    gpio: Vec<GpioBridge>,
    pulses: Vec<PulseBridge>,
    encoders: Vec<EncoderBridge>,
    owned: bool,
    entry: Option<E>,
    hosted: bool,
    running: bool,
}

/// What starting a controller asks for.
#[derive(Debug)]
pub struct McuStart<E> {
    /// Publish what every bridged output holds at power-on.
    pub publish: bool,
    /// The firmware entry to run, on peripherals of the controller's own.
    pub entry: Option<E>,
}

impl<E> View for McuComponent<E> {
    type V = McuParts;

    closed spec fn view(&self) -> McuParts {
        McuParts {
            name: self.name@,
            pins: self.pins@,
            serial: self.serial@,
            gpio: self.gpio@,
            pulses: self.pulses@,
            encoders: self.encoders@,
        }
    }
}

impl McuComponent<NoEntry> {
    /// Start building a controller.
    pub fn builder(name: &str) -> (r: McuBuilder<NoEntry>)
        ensures
            r@ == McuPlan::empty(name@),
            r.held_entry() is None,
    {
        McuBuilder::new(name)
    }
}

impl<E> McuBuilder<E> {
    /// Validate the configuration and build the component. Fails where a
    /// bridged channel is not in its table, a pin is past the last, or two
    /// declarations claim one pin; the first such declaration decides.
    pub fn build(self) -> (r: Result<McuComponent<E>, McuBuildError>)
        ensures
            match self@.pins() {
                Ok(pins) => r is Ok && r->Ok_0@ == self@.parts(pins) && r->Ok_0.held_entry()
                    == self.held_entry() && r->Ok_0.owns_instance() == (self.held_entry() is Some)
                    && !r->Ok_0.is_hosted() && !r->Ok_0.is_running(),
                Err(e) => r == Err::<McuComponent<E>, McuBuildError>(e),
            },
    {
        let ghost plan = self@;
        let requests = self.plan_requests();
        let pins = match grant(&requests) {
            Ok(pins) => pins,
            Err(e) => {
                return Err(e);
            },
        };
        proof {
            built_channels_are_known(plan);
        }
        let ghost parts = plan.parts(pins@);
        let mut serial: Vec<SerialBridge> = Vec::new();
        let mut i: usize = 0;
        while i < self.bridged_serial.len()
            invariant
                i <= self.bridged_serial@.len(),
                plan == self@,
                parts == plan.parts(pins@),
                serial@ =~= parts.serial.take(i as int),
                forall|k: int|
                    0 <= k < plan.bridged_serial.len() ==> (#[trigger] plan.bridged_serial[k])
                        < plan.serial_table.len(),
            decreases self.bridged_serial@.len() - i,
        {
            let channel: usize = self.bridged_serial[i];
            assert(plan.bridged_serial[i as int] == channel);
            serial.push(SerialBridge { channel, config: self.serial_table[channel] });
            i += 1;
        }
        let mut gpio: Vec<GpioBridge> = Vec::new();
        i = 0;
        while i < self.bridged_gpio.len()
            invariant
                i <= self.bridged_gpio@.len(),
                plan == self@,
                parts == plan.parts(pins@),
                gpio@ =~= parts.gpio.take(i as int),
                forall|k: int|
                    0 <= k < plan.bridged_gpio.len() ==> (#[trigger] plan.bridged_gpio[k]).0
                        < plan.gpio_table.len(),
            decreases self.bridged_gpio@.len() - i,
        {
            let (channel, direction) = self.bridged_gpio[i];
            assert(plan.bridged_gpio[i as int].0 == channel);
            gpio.push(GpioBridge { channel, config: self.gpio_table[channel], direction });
            i += 1;
        }
        let mut pulses: Vec<PulseBridge> = Vec::new();
        i = 0;
        while i < self.bridged_pulse_out.len()
            invariant
                i <= self.bridged_pulse_out@.len(),
                plan == self@,
                parts == plan.parts(pins@),
                pulses@ =~= parts.pulses.take(i as int),
                forall|k: int|
                    0 <= k < plan.bridged_pulse_out.len() ==> (#[trigger] plan.bridged_pulse_out[k])
                        < plan.pulse_out_table.len(),
            decreases self.bridged_pulse_out@.len() - i,
        {
            let channel: usize = self.bridged_pulse_out[i];
            assert(plan.bridged_pulse_out[i as int] == channel);
            pulses.push(PulseBridge { channel, pin: self.pulse_out_table[channel].pin });
            i += 1;
        }
        let mut encoders: Vec<EncoderBridge> = Vec::new();
        i = 0;
        while i < self.bridged_encoder.len()
            invariant
                i <= self.bridged_encoder@.len(),
                plan == self@,
                parts == plan.parts(pins@),
                encoders@ =~= parts.encoders.take(i as int),
                forall|k: int|
                    0 <= k < plan.bridged_encoder.len() ==> (#[trigger] plan.bridged_encoder[k])
                        < plan.encoder_table.len(),
            decreases self.bridged_encoder@.len() - i,
        {
            let channel: usize = self.bridged_encoder[i];
            assert(plan.bridged_encoder[i as int] == channel);
            let config = self.encoder_table[channel];
            encoders.push(EncoderBridge { channel, pin_a: config.pin_a, pin_b: config.pin_b });
            i += 1;
        }
        let owned = self.entry.is_some();
        let component = McuComponent {
            name: self.name,
            pins,
            serial,
            gpio,
            pulses,
            encoders,
            owned,
            entry: self.entry,
            hosted: false,
            running: false,
        };
        assert(component@ =~= parts);
        Ok(component)
    }
}

impl<E> McuComponent<E> {
    /// The firmware entry that has not started.
    pub closed spec fn held_entry(&self) -> Option<E> {
        self.entry
    }

    /// Whether the controller has peripherals of its own: an entry was given.
    pub closed spec fn owns_instance(&self) -> bool {
        self.owned
    }

    /// Whether a package hosts the controller.
    pub closed spec fn is_hosted(&self) -> bool {
        self.hosted
    }

    /// Whether the bridged outputs publish.
    pub closed spec fn is_running(&self) -> bool {
        self.running
    }

    /// The component's name.
    pub fn name(&self) -> (r: &str)
        ensures
            r@ == self@.name,
    {
        self.name.as_str()
    }

    /// The declared pins.
    pub fn pins(&self) -> (r: &Vec<McuPin>)
        ensures
            r@ == self@.pins,
    {
        &self.pins
    }

    /// The bridged serial channels.
    pub fn serial_bridges(&self) -> (r: &Vec<SerialBridge>)
        ensures
            r@ == self@.serial,
    {
        &self.serial
    }

    /// The bridged GPIO channels.
    pub fn gpio_bridges(&self) -> (r: &Vec<GpioBridge>)
        ensures
            r@ == self@.gpio,
    {
        &self.gpio
    }

    /// The bridged pulse-output channels.
    pub fn pulse_bridges(&self) -> (r: &Vec<PulseBridge>)
        ensures
            r@ == self@.pulses,
    {
        &self.pulses
    }

    /// The bridged encoder channels.
    pub fn encoder_bridges(&self) -> (r: &Vec<EncoderBridge>)
        ensures
            r@ == self@.encoders,
    {
        &self.encoders
    }

    /// Whether the controller has peripherals of its own.
    pub fn has_instance(&self) -> (r: bool)
        ensures
            r == self.owns_instance(),
    {
        self.owned
    }

    /// Whether the bridged outputs publish.
    pub fn running(&self) -> (r: bool)
        ensures
            r == self.is_running(),
    {
        self.running
    }

    /// Host the controller inside a package that decides when it runs and
    /// what its pads drive at: nothing is published before it starts. Call
    /// before attaching.
    pub fn host_pads(&mut self)
        ensures
            final(self).is_hosted(),
            final(self)@ == old(self)@,
            final(self).held_entry() == old(self).held_entry(),
            final(self).owns_instance() == old(self).owns_instance(),
            final(self).is_running() == old(self).is_running(),
    {
        self.hosted = true;
    }

    /// Attach: a controller on a board of its own publishes from here, a
    /// hosted one holds its power-on publishes until it starts. Returns
    /// whether to publish them now.
    pub fn attach(&mut self) -> (publish: bool)
        ensures
            publish == !old(self).is_hosted(),
            final(self).is_running() == publish,
            final(self)@ == old(self)@,
            final(self).held_entry() == old(self).held_entry(),
            final(self).owns_instance() == old(self).owns_instance(),
            final(self).is_hosted() == old(self).is_hosted(),
    {
        self.running = !self.hosted;
        self.running
    }

    /// Start: publish what was held, unless the outputs publish already, and
    /// hand out the firmware entry, once.
    pub fn start(&mut self) -> (r: McuStart<E>)
        ensures
            r.publish == !old(self).is_running(),
            r.entry == old(self).held_entry(),
            final(self).is_running(),
            final(self).held_entry() is None,
            final(self)@ == old(self)@,
            final(self).owns_instance() == old(self).owns_instance(),
            final(self).is_hosted() == old(self).is_hosted(),
    {
        let publish = !self.running;
        self.running = true;
        let entry = self.entry.take();
        McuStart { publish, entry }
    }
}

/// The pin level a GPIO channel's state drives.
pub open spec fn active_level(active: bool, active_low: bool) -> Level {
    if active != active_low {
        Level::High
    } else {
        Level::Low
    }
}

/// The state a pin level reads back as.
pub open spec fn level_active(level: Level, active_low: bool) -> bool {
    (level == Level::High) != active_low
}

/// The pin level a GPIO channel's state drives, at its polarity.
pub fn level_of_active(active: bool, active_low: bool) -> (r: Level)
    ensures
        r == active_level(active, active_low),
{
    if active != active_low {
        Level::High
    } else {
        Level::Low
    }
}

/// The state a pin level reads back as, at its polarity.
pub fn active_of_level(level: Level, active_low: bool) -> (r: bool)
    ensures
        r == level_active(level, active_low),
{
    (level == Level::High) != active_low
}

/// A state reads back as itself, at either polarity.
pub proof fn polarity_round_trips(active: bool, active_low: bool)
    ensures
        level_active(active_level(active, active_low), active_low) == active,
{
}

/// What a bridged pad presents for a level: the host's port for it, or the
/// push-pull drive of a controller on a board of its own. A host's pad without
/// a supply presents nothing.
pub open spec fn pad_port(
    hosted: bool,
    port: Option<TheveninDrive>,
    level: Level,
) -> Option<TheveninDrive> {
    if hosted {
        port
    } else {
        Some(crate::net::push_pull(level))
    }
}

/// What a bridged pad presents for a level, `port` being the host's port for
/// it.
pub fn pad_drive(hosted: bool, port: Option<TheveninDrive>, level: Level) -> (r: Option<
    TheveninDrive,
>)
    ensures
        r == pad_port(hosted, port, level),
{
    if hosted {
        port
    } else {
        Some(digital_drive(level))
    }
}

/// The periodic drive a step pin presents: the pad's own ports alternated by
/// the segment; nothing where either has no supply.
pub open spec fn step_wave(
    hosted: bool,
    high: Option<TheveninDrive>,
    low: Option<TheveninDrive>,
    segment: PeriodicSchedule,
) -> Option<Drive> {
    match (pad_port(hosted, high, Level::High), pad_port(hosted, low, Level::Low)) {
        (Some(hi), Some(lo)) => Some(Drive::Periodic { hi, lo, segment }),
        _ => None,
    }
}

/// The periodic drive a step pin presents for a segment, `high` and `low`
/// being the host's ports.
pub fn step_drive(
    hosted: bool,
    high: Option<TheveninDrive>,
    low: Option<TheveninDrive>,
    segment: PeriodicSchedule,
) -> (r: Option<Drive>)
    ensures
        r == step_wave(hosted, high, low, segment),
{
    match (pad_drive(hosted, high, Level::High), pad_drive(hosted, low, Level::Low)) {
        (Some(hi), Some(lo)) => Some(Drive::Periodic { hi, lo, segment }),
        _ => None,
    }
}

/// What a bridged output does to its pin.
#[derive(Debug, Clone, Copy, PartialEq, Eq)]
pub enum PinAction {
    /// Leave it.
    Keep,
    /// Drive it.
    Drive(Drive),
    /// Release it.
    Release,
}

/// What a bridged output does with a drive: nothing once shut down or before
/// it runs; released where there is none.
pub open spec fn published(shutdown: bool, running: bool, drive: Option<Drive>) -> PinAction {
    if shutdown || !running {
        PinAction::Keep
    } else {
        match drive {
            Some(drive) => PinAction::Drive(drive),
            None => PinAction::Release,
        }
    }
}

/// A controller that does not run publishes nothing, whatever its firmware
/// writes: a hosted one holds its pins until its host starts it.
pub proof fn nothing_is_published_before_the_start(shutdown: bool, drive: Option<Drive>)
    ensures
        published(shutdown, false, drive) == PinAction::Keep,
{
}

/// What a bridged output does with a drive.
pub fn publish(shutdown: bool, running: bool, drive: Option<Drive>) -> (r: PinAction)
    ensures
        r == published(shutdown, running, drive),
{
    if shutdown || !running {
        return PinAction::Keep;
    }
    match drive {
        Some(drive) => PinAction::Drive(drive),
        None => PinAction::Release,
    }
}

/// What a bridged GPIO output does when the firmware writes its state.
pub open spec fn output_action(
    shutdown: bool,
    running: bool,
    active: bool,
    active_low: bool,
    hosted: bool,
    port: Option<TheveninDrive>,
) -> PinAction {
    published(
        shutdown,
        running,
        match pad_port(hosted, port, active_level(active, active_low)) {
            Some(t) => Some(Drive::Thevenin(t)),
            None => None,
        },
    )
}

/// What a bridged GPIO output does when the firmware writes its state.
pub fn gpio_output(
    shutdown: bool,
    running: bool,
    active: bool,
    active_low: bool,
    hosted: bool,
    port: Option<TheveninDrive>,
) -> (r: PinAction)
    ensures
        r == output_action(shutdown, running, active, active_low, hosted, port),
{
    let drive = match pad_drive(hosted, port, level_of_active(active, active_low)) {
        Some(t) => Some(Drive::Thevenin(t)),
        None => None,
    };
    publish(shutdown, running, drive)
}

/// What a bridged GPIO input writes into the firmware's register.
pub open spec fn input_read(shutdown: bool, level: Option<Level>, active_low: bool) -> Option<
    bool,
> {
    match level {
        Some(level) => if shutdown {
            None
        } else {
            Some(level_active(level, active_low))
        },
        None => None,
    }
}

/// What a bridged GPIO input writes into the firmware's register: the state
/// the pin's level reads as; nothing where it has no level.
pub fn gpio_input(shutdown: bool, level: Option<Level>, active_low: bool) -> (r: Option<bool>)
    ensures
        r == input_read(shutdown, level, active_low),
{
    if shutdown {
        return None;
    }
    match level {
        Some(level) => Some(active_of_level(level, active_low)),
        None => None,
    }
}

/// Quadrature decode state of one bridged encoder channel: the phases arrive
/// one at a time, so both must be known before a transition can be read.
#[derive(Debug, Clone, Copy, PartialEq, Eq, Structural)]
pub struct QuadratureState {
    /// The first phase.
    pub a: Option<bool>,
    /// The second phase.
    pub b: Option<bool>,
    /// The last decoded position, once both phases were known.
    pub position: Option<u8>,
}

/// A two-state jump on a phase pair: a missed transition.
#[derive(Debug, Clone, Copy, PartialEq, Eq, Structural)]
pub struct QuadratureSlip {
    /// The position before.
    pub previous: u8,
    /// The position now.
    pub position: u8,
}

/// The position of a phase pair, in the order that counts up.
pub open spec fn gray(a: bool, b: bool) -> u8 {
    match (a, b) {
        (false, false) => 0,
        (true, false) => 1,
        (true, true) => 2,
        (false, true) => 3,
    }
}

impl QuadratureState {
    /// Nothing known yet.
    pub fn new() -> (r: QuadratureState)
        ensures
            r.a is None,
            r.b is None,
            r.position is None,
    {
        QuadratureState { a: None, b: None, position: None }
    }

    /// The position of the phase pair, where both are known.
    pub open spec fn pair(self) -> Option<u8> {
        match (self.a, self.b) {
            (Some(a), Some(b)) => Some(gray(a, b)),
            _ => None,
        }
    }

    /// The last position is one of the four.
    pub open spec fn well_formed(self) -> bool {
        self.position matches Some(p) ==> p < 4
    }

    /// The position of the phase pair, where both are known.
    pub fn gray_position(&self) -> (r: Option<u8>)
        ensures
            r == self.pair(),
    {
        match (self.a, self.b) {
            (Some(a), Some(b)) => Some(
                match (a, b) {
                    (false, false) => 0,
                    (true, false) => 1,
                    (true, true) => 2,
                    (false, true) => 3,
                },
            ),
            _ => None,
        }
    }

    /// Read the phase pair as a count delta: one up or one down where it
    /// moved one state, nothing where it did not move, where a phase is
    /// unknown, or at the first observation. A jump of two states has no
    /// direction.
    pub fn step(&mut self) -> (r: Result<Option<i32>, QuadratureSlip>)
        requires
            old(self).well_formed(),
        ensures
            final(self).well_formed(),
            final(self).a == old(self).a,
            final(self).b == old(self).b,
            final(self).position == (match old(self).pair() {
                Some(p) => Some(p),
                None => old(self).position,
            }),
            r == step_read(old(self).position, old(self).pair()),
    {
        let position: u8 = match self.gray_position() {
            Some(position) => position,
            None => {
                return Ok(None);
            },
        };
        let before = self.position;
        self.position = Some(position);
        let previous: u8 = match before {
            Some(previous) => previous,
            None => {
                return Ok(None);
            },
        };
        let moved: u8 = (position + 4 - previous) % 4;
        if moved == 0 {
            Ok(None)
        } else if moved == 1 {
            Ok(Some(1))
        } else if moved == 3 {
            Ok(Some(-1))
        } else {
            Err(QuadratureSlip { previous, position })
        }
    }

    /// A phase was delivered: hold the count where it has no level, else note
    /// it and read the pair.
    pub fn sense(&mut self, first_phase: bool, level: Option<Level>) -> (r: Result<
        Option<i32>,
        QuadratureSlip,
    >)
        requires
            old(self).well_formed(),
        ensures
            final(self).well_formed(),
            level is None ==> *final(self) == *old(self) && r == Ok::<
                Option<i32>,
                QuadratureSlip,
            >(None),
            level matches Some(level) ==> r == old(self).counts(first_phase, level)
                && *final(self) == old(self).sensed(first_phase, level),
    {
        match level {
            None => Ok(None),
            Some(level) => {
                let high = level == Level::High;
                if first_phase {
                    self.a = Some(high);
                } else {
                    self.b = Some(high);
                }
                self.step()
            },
        }
    }
}

impl QuadratureState {
    /// The state once a phase was delivered, and before the pair is read.
    pub open spec fn noting(self, first_phase: bool, level: Level) -> QuadratureState {
        if first_phase {
            QuadratureState { a: Some(level == Level::High), ..self }
        } else {
            QuadratureState { b: Some(level == Level::High), ..self }
        }
    }

    /// The state once a phase was delivered and the pair read.
    pub open spec fn sensed(self, first_phase: bool, level: Level) -> QuadratureState {
        let noted = self.noting(first_phase, level);
        QuadratureState {
            position: match noted.pair() {
                Some(p) => Some(p),
                None => noted.position,
            },
            ..noted
        }
    }

    /// What a delivered phase counts.
    pub open spec fn counts(self, first_phase: bool, level: Level) -> Result<
        Option<i32>,
        QuadratureSlip,
    > {
        step_read(self.position, self.noting(first_phase, level).pair())
    }
}

/// How many states a position is ahead of another.
pub open spec fn ahead(previous: u8, position: u8) -> int {
    (position - previous) % 4
}

/// What a phase pair reads as, from the last position.
pub open spec fn step_read(previous: Option<u8>, pair: Option<u8>) -> Result<
    Option<i32>,
    QuadratureSlip,
> {
    match (previous, pair) {
        (Some(previous), Some(position)) => if ahead(previous, position) == 0 {
            Ok(None)
        } else if ahead(previous, position) == 1 {
            Ok(Some(1))
        } else if ahead(previous, position) == 3 {
            Ok(Some((-1) as i32))
        } else {
            Err(QuadratureSlip { previous, position })
        },
        _ => Ok(None),
    }
}

/// One phase changing counts one, and changing back counts it back.
pub proof fn a_quadrature_edge_is_undone_by_its_reverse(a: bool, b: bool, first_phase: bool)
    ensures
        ({
            let from = gray(a, b);
            let to = if first_phase {
                gray(!a, b)
            } else {
                gray(a, !b)
            };
            &&& step_read(Some(from), Some(to)) matches Ok(Some(d)) && (d == 1 || d == -1)
            &&& step_read(Some(to), Some(from)) matches Ok(Some(back)) && back == -(step_read(
                Some(from),
                Some(to),
            )->Ok_0->Some_0)
        }),
{
}

/// Both phases changing at once is a slip.
pub proof fn a_two_state_jump_is_a_slip(a: bool, b: bool)
    ensures
        step_read(Some(gray(a, b)), Some(gray(!a, !b))) == Err::<Option<i32>, QuadratureSlip>(
            QuadratureSlip { previous: gray(a, b), position: gray(!a, !b) },
        ),
{
}

/// A counter moved by a count, at its limits where it would pass them.
pub open spec fn count_after(current: i32, delta: i32) -> i32 {
    if current + delta > i32::MAX {
        i32::MAX
    } else if current + delta < i32::MIN {
        i32::MIN
    } else {
        (current + delta) as i32
    }
}

/// A counter moved by a count, at its limits where it would pass them.
pub fn counted_on(current: i32, delta: i32) -> (r: i32)
    ensures
        r == count_after(current, delta),
{
    let sum: i64 = current as i64 + delta as i64;
    if sum > i32::MAX as i64 {
        i32::MAX
    } else if sum < i32::MIN as i64 {
        i32::MIN
    } else {
        sum as i32
    }
}

/// The bytes of the frames that decoded, in order.
pub open spec fn decoded_bytes<F>(frames: Seq<Result<u8, F>>) -> Seq<u8>
    decreases frames.len(),
{
    if frames.len() == 0 {
        Seq::empty()
    } else {
        let rest = decoded_bytes(frames.drop_last());
        match frames.last() {
            Ok(byte) => rest.push(byte),
            Err(_) => rest,
        }
    }
}

/// What a receiver hands its driver: the bytes of the frames that decoded, in
/// order; a frame that did not is dropped.
pub fn deliver_rx<F>(frames: &Vec<Result<u8, F>>) -> (r: Vec<u8>)
    ensures
        r@ == decoded_bytes(frames@),
{
    let mut r: Vec<u8> = Vec::new();
    let mut i: usize = 0;
    while i < frames.len()
        invariant
            i <= frames@.len(),
            r@ == decoded_bytes(frames@.take(i as int)),
        decreases frames@.len() - i,
    {
        assert(frames@.take(i + 1).drop_last() =~= frames@.take(i as int));
        if let Ok(byte) = &frames[i] {
            r.push(*byte);
        }
        i += 1;
    }
    assert(frames@.take(i as int) =~= frames@);
    r
}

/// How often the pump drains the firmware's transmit side, in virtual
/// microseconds.
pub const PUMP_POLL_INTERVAL_US: u64 = 100;

/// Read chunk for draining firmware bytes.
pub const PUMP_READ_CHUNK: usize = 256;

/// What a read of the firmware's transmit side gave.
#[derive(Debug, Clone, Copy, PartialEq, Eq, Structural)]
pub enum PumpRead {
    /// The peer end closed.
    Closed,
    /// So many bytes.
    Bytes(usize),
    /// Nothing available.
    WouldBlock,
    /// Interrupted.
    Interrupted,
    /// An error.
    Failed,
}

/// What the pump does next.
#[derive(Debug, Clone, Copy, PartialEq, Eq, Structural)]
pub enum PumpStep {
    /// Hand so many bytes on and read again.
    Forward(usize),
    /// Read again.
    Again,
    /// Park for the poll interval, then read again unless shut down.
    Park,
    /// Stop.
    Stop,
}

/// What the pump does with a read.
pub open spec fn pump_after(read: PumpRead) -> PumpStep {
    match read {
        PumpRead::Closed => PumpStep::Stop,
        PumpRead::Bytes(n) => if n == 0 {
            PumpStep::Stop
        } else {
            PumpStep::Forward(n)
        },
        PumpRead::WouldBlock => PumpStep::Park,
        PumpRead::Interrupted => PumpStep::Again,
        PumpRead::Failed => PumpStep::Stop,
    }
}

/// What the pump does with a read.
pub fn pump_step(read: PumpRead) -> (r: PumpStep)
    ensures
        r == pump_after(read),
{
    match read {
        PumpRead::Closed => PumpStep::Stop,
        PumpRead::Bytes(n) => if n == 0 {
            PumpStep::Stop
        } else {
            PumpStep::Forward(n)
        },
        PumpRead::WouldBlock => PumpStep::Park,
        PumpRead::Interrupted => PumpStep::Again,
        PumpRead::Failed => PumpStep::Stop,
    }
}

/// A table's name, and a channel that is not in it, in words.
pub open spec fn unknown_words(table: Seq<char>, channel: usize, len: usize) -> Seq<char> {
    table + " channel "@ + decimal(channel as nat) + " is not in the table ("@ + decimal(len as nat)
        + " entries)"@
}

fn push_unknown(out: &mut Vec<char>, table: &str, channel: usize, len: usize)
    ensures
        final(out)@ == old(out)@ + unknown_words(table@, channel, len),
{
    push_text(out, table);
    push_text(out, " channel ");
    push_decimal(out, channel as u128);
    push_text(out, " is not in the table (");
    push_decimal(out, len as u128);
    push_text(out, " entries)");
    assert(out@ =~= old(out)@ + unknown_words(table@, channel, len));
}

impl McuBuildError {
    /// The error in words.
    pub open spec fn words(self) -> Seq<char> {
        match self {
            McuBuildError::UnknownSerialChannel { channel, table_len } => unknown_words(
                "serial"@,
                channel,
                table_len,
            ),
            McuBuildError::UnknownGpioChannel { channel, table_len } => unknown_words(
                "GPIO"@,
                channel,
                table_len,
            ),
            McuBuildError::UnknownPulseOutChannel { channel, table_len } => unknown_words(
                "pulse-out"@,
                channel,
                table_len,
            ),
            McuBuildError::UnknownEncoderChannel { channel, table_len } => unknown_words(
                "encoder"@,
                channel,
                table_len,
            ),
            McuBuildError::PinOutOfRange { pin } => "pin "@ + decimal(pin as nat)
                + " is past the P63 ceiling"@,
            McuBuildError::DuplicatePin { pin } => "pin P"@ + decimal(pin as nat)
                + " is claimed by more than one declaration"@,
        }
    }

    /// The error in words.
    pub fn describe(&self) -> (r: String)
        ensures
            r@ == self.words(),
    {
        let mut out: Vec<char> = Vec::new();
        match *self {
            McuBuildError::UnknownSerialChannel { channel, table_len } => {
                push_unknown(&mut out, "serial", channel, table_len);
            },
            McuBuildError::UnknownGpioChannel { channel, table_len } => {
                push_unknown(&mut out, "GPIO", channel, table_len);
            },
            McuBuildError::UnknownPulseOutChannel { channel, table_len } => {
                push_unknown(&mut out, "pulse-out", channel, table_len);
            },
            McuBuildError::UnknownEncoderChannel { channel, table_len } => {
                push_unknown(&mut out, "encoder", channel, table_len);
            },
            McuBuildError::PinOutOfRange { pin } => {
                push_text(&mut out, "pin ");
                push_decimal(&mut out, pin as u128);
                push_text(&mut out, " is past the P63 ceiling");
            },
            McuBuildError::DuplicatePin { pin } => {
                push_text(&mut out, "pin P");
                push_decimal(&mut out, pin as u128);
                push_text(&mut out, " is claimed by more than one declaration");
            },
        }
        assert(out@ =~= self.words());
        text_of(&out)
    }
}

} // verus!
