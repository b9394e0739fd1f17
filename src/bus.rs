use vstd::prelude::*;

use crate::crc::crc8;
use crate::device::Device;
use crate::error::Error;
use crate::search::{
    lemma_bit_or,
    lemma_highest_set_some,
    position,
    search_bit,
    search_call,
    search_call_read,
    search_walk,
    bits_of,
    DeviceSearch,
    SearchState,
    SearchView,
};

verus! {

/// A single open-drain line: read its level, pull it low, or let it float
/// high. Each operation may fail with the driver's own error.
pub trait OpenDrainOutput {
    type Error;

    /// Is the line high?
    fn is_high(&mut self) -> Result<bool, Self::Error>;

    /// Is the line low?
    fn is_low(&mut self) -> Result<bool, Self::Error>;

    /// Pulls the line low. Its actual level may differ, e.g. when driven from
    /// elsewhere.
    fn set_low(&mut self) -> Result<(), Self::Error>;

    /// Releases the line, which the pull-up then takes high. Its actual level
    /// may differ, e.g. when a device holds it low.
    fn set_high(&mut self) -> Result<(), Self::Error>;
}

/// A provider of busy-wait delays in microseconds.
pub trait Delay {
    /// Waits at least `us` microseconds.
    fn delay_us(&mut self, us: u32);
}

/// The ROM commands of the bus.
#[derive(Debug, Clone, Copy, PartialEq, Eq, Structural)]
pub enum Command {
    /// Addresses one device by its ROM address.
    SelectRom,
    /// Searches all devices.
    SearchNext,
    /// Searches the devices in alarm state.
    SearchNextAlarmed,
}

impl Command {
    /// The command byte on the wire.
    pub open spec fn spec_code(self) -> u8 {
        match self {
            Command::SelectRom => 0x55,
            Command::SearchNext => 0xF0,
            Command::SearchNextAlarmed => 0xEC,
        }
    }

    /// The command byte on the wire.
    #[verifier::when_used_as_spec(spec_code)]
    pub fn code(self) -> (r: u8)
        ensures
            r == self.spec_code(),
    {
        match self {
            Command::SelectRom => 0x55,
            Command::SearchNext => 0xF0,
            Command::SearchNextAlarmed => 0xEC,
        }
    }
}

/// What the bus master did on the line, in order.
#[derive(Debug, Clone, Copy, PartialEq, Eq, Structural)]
pub enum BusEvent {
    /// The line was released (floating high).
    Release,
    /// The line was pulled low.
    DriveLow,
    /// A delay of so many microseconds.
    Wait(u32),
    /// The line was sampled and read high (`true`) or low (`false`).
    Sample(bool),
    /// A call on the pin failed.
    Fault,
}

/// The time slot that sends one bit: a short low pulse for 1, a long one for
/// 0, each slot 65 or 70 µs in all.
pub open spec fn write_slot(b: bool) -> Seq<BusEvent> {
    seq![
        BusEvent::DriveLow,
        BusEvent::Wait(if b { 10 } else { 65 }),
        BusEvent::Release,
        BusEvent::Wait(if b { 55 } else { 5 }),
    ]
}

/// The time slot that reads one bit: a 3 µs low pulse, the sample 2 µs after
/// release, then the rest of a 65 µs slot.
pub open spec fn read_slot(v: bool) -> Seq<BusEvent> {
    seq![
        BusEvent::DriveLow,
        BusEvent::Wait(3),
        BusEvent::Release,
        BusEvent::Wait(2),
        BusEvent::Sample(v),
        BusEvent::Wait(60),
    ]
}

/// Bit `k` of a byte, counting from the least significant.
pub open spec fn byte_bit(byte: u8, k: int) -> bool {
    byte & (1u8 << (k as u8)) != 0
}

/// The eight bits of a byte, least significant first: the order on the wire.
pub open spec fn byte_bits(byte: u8) -> Seq<bool> {
    Seq::new(8, |k: int| byte_bit(byte, k))
}

/// The slots that send `bits`, in order.
pub open spec fn write_slots(bits: Seq<bool>) -> Seq<BusEvent>
    decreases bits.len(),
{
    if bits.len() == 0 {
        seq![]
    } else {
        write_slots(bits.drop_last()) + write_slot(bits.last())
    }
}

/// The slots that read `bits`, in order.
pub open spec fn read_slots(bits: Seq<bool>) -> Seq<BusEvent>
    decreases bits.len(),
{
    if bits.len() == 0 {
        seq![]
    } else {
        read_slots(bits.drop_last()) + read_slot(bits.last())
    }
}

/// Sending a byte; unless the line is to be held for parasite power, it is
/// released afterwards.
pub open spec fn write_byte_wave(byte: u8, hold: bool) -> Seq<BusEvent> {
    write_slots(byte_bits(byte)) + if hold {
        seq![]
    } else {
        seq![BusEvent::Release]
    }
}

/// Reading a byte whose value came out as `byte`.
pub open spec fn read_byte_wave(byte: u8) -> Seq<BusEvent> {
    read_slots(byte_bits(byte))
}

/// Reading a sequence of bytes, in order.
pub open spec fn read_bytes_wave(bytes: Seq<u8>) -> Seq<BusEvent>
    decreases bytes.len(),
{
    if bytes.len() == 0 {
        seq![]
    } else {
        read_bytes_wave(bytes.drop_last()) + read_byte_wave(bytes.last())
    }
}

/// Sending a sequence of bytes, each followed by a release.
pub open spec fn write_bytes_each_wave(bytes: Seq<u8>) -> Seq<BusEvent>
    decreases bytes.len(),
{
    if bytes.len() == 0 {
        seq![]
    } else {
        write_bytes_each_wave(bytes.drop_last()) + write_byte_wave(bytes.last(), false)
    }
}

/// Sending `bytes`, then releasing the line unless it is held for parasite
/// power.
pub open spec fn write_bytes_wave(bytes: Seq<u8>, parasite: bool) -> Seq<BusEvent> {
    write_bytes_each_wave(bytes) + if parasite {
        seq![]
    } else {
        seq![BusEvent::Release]
    }
}

/// Sending the bytes `0 .. n` of an address; the last one is held when
/// `parasite` is set.
pub open spec fn address_wave(address: Seq<u8>, n: int, parasite: bool) -> Seq<BusEvent>
    decreases n,
{
    if n <= 0 {
        seq![]
    } else {
        address_wave(address, n - 1, parasite) + write_byte_wave(
            address[n - 1],
            parasite && n - 1 == 7,
        )
    }
}

/// Addressing one device: the Select ROM command, then its 8 address bytes.
pub open spec fn select_wave(address: Seq<u8>, parasite: bool) -> Seq<BusEvent> {
    write_byte_wave(Command::SelectRom.spec_code(), false) + address_wave(address, 8, parasite)
}

/// `k` polls of the idle line that found it low, 2 µs apart.
pub open spec fn low_polls(k: nat) -> Seq<BusEvent>
    decreases k,
{
    if k == 0 {
        seq![]
    } else {
        low_polls((k - 1) as nat) + seq![BusEvent::Sample(false), BusEvent::Wait(2)]
    }
}

/// The presence window: a sample every 10 µs.
pub open spec fn presence_wave(samples: Seq<bool>) -> Seq<BusEvent>
    decreases samples.len(),
{
    if samples.len() == 0 {
        seq![]
    } else {
        presence_wave(samples.drop_last()) + seq![
            BusEvent::Wait(10),
            BusEvent::Sample(samples.last()),
        ]
    }
}

/// A reset: release, wait for the idle line to read high (after `k` low
/// polls), pull it low for 480 µs, release, sample the presence window and
/// wait out the rest of the slot.
pub open spec fn reset_wave(k: nat, samples: Seq<bool>) -> Seq<BusEvent> {
    seq![BusEvent::Release] + low_polls(k) + seq![BusEvent::Sample(true)] + seq![
        BusEvent::DriveLow,
        BusEvent::Wait(480),
        BusEvent::Release,
    ] + presence_wave(samples) + seq![BusEvent::Wait(410)]
}

/// `w` is a complete reset whose answer is `presence`: the line read high
/// within 125 polls, and some of the seven samples of the presence window
/// read low exactly when `presence` holds.
pub open spec fn is_reset_wave(w: Seq<BusEvent>, presence: bool) -> bool {
    exists|k: nat, samples: Seq<bool>|
        k < 125 && samples.len() == 7 && w == reset_wave(k, samples) && presence
            == samples.contains(false)
}

/// `after` is `before` followed by a complete reset that answered `presence`.
pub open spec fn is_reset_from(before: Seq<BusEvent>, after: Seq<BusEvent>, presence: bool) -> bool {
    exists|w: Seq<BusEvent>| is_reset_wave(w, presence) && after == before + w
}

/// `after` is `before` followed by a transaction with one device: a reset
/// (whatever it answered), Select ROM with `address`, sending `write` and
/// reading `read`.
pub open spec fn is_transaction(
    before: Seq<BusEvent>,
    after: Seq<BusEvent>,
    address: Seq<u8>,
    parasite: bool,
    write: Seq<u8>,
    read: Seq<u8>,
) -> bool {
    exists|w: Seq<BusEvent>, p: bool|
        is_reset_wave(w, p) && after == before + w + select_wave(address, parasite)
            + write_bytes_wave(write, parasite) + read_bytes_wave(read)
}

/// The slots of a pass from cursor `v` that read `pairs`: at each position
/// the bit and its complement, then the bit sent back, unless the pass stops
/// there.
pub open spec fn pass_wave(v: SearchView, pairs: Seq<(bool, bool)>) -> Seq<BusEvent>
    decreases pairs.len(),
{
    if pairs.len() == 0 {
        seq![]
    } else {
        let walked = search_walk(v, v.last_discrepancy(), pairs);
        pass_wave(v, pairs.drop_last()) + read_slot(pairs.last().0) + read_slot(pairs.last().1)
            + if walked.1 {
            seq![]
        } else {
            write_slot(walked.0.address[pairs.len() - 1])
        }
    }
}

/// The traffic of a search call from cursor `v` with command `code`: the
/// reset `reset`, and when it found devices present, the command and the
/// pass that read `pairs`.
pub open spec fn search_wave(
    v: SearchView,
    code: u8,
    reset: Seq<BusEvent>,
    presence: bool,
    pairs: Seq<(bool, bool)>,
) -> Seq<BusEvent> {
    reset + if presence {
        write_byte_wave(code, false) + pass_wave(v, pairs)
    } else {
        seq![]
    }
}

/// A search call with command `code` took cursor `before` to `after` and
/// the trace from `before_trace` to `after_trace`, and found a device exactly
/// when `found`. An ended search does nothing on the bus; otherwise the
/// reset's answer and the bit pairs read are those in the trace, and the new
/// cursor is what the search algorithm makes of them.
pub open spec fn is_search_outcome(
    before: SearchView,
    after: SearchView,
    found: bool,
    before_trace: Seq<BusEvent>,
    after_trace: Seq<BusEvent>,
    code: u8,
) -> bool {
    if before.state == SearchState::End {
        after == before && !found && after_trace == before_trace
    } else {
        exists|presence: bool, w: Seq<BusEvent>, pairs: Seq<(bool, bool)>|
            #[trigger] is_reset_wave(w, presence) && search_call_read(before, presence, pairs)
                && #[trigger] search_call(before, presence, pairs) == (after, found) && after_trace
                == before_trace + search_wave(before, code, w, presence, pairs)
    }
}

/// The search call found an address whose last byte is not the CRC-8 of
/// the seven before it: `computed` is that CRC-8, `expected` the last byte.
pub open spec fn found_bad_crc(
    before: SearchView,
    before_trace: Seq<BusEvent>,
    after_trace: Seq<BusEvent>,
    code: u8,
    computed: u8,
    expected: u8,
) -> bool {
    exists|w: SearchView, a: Seq<u8>|
        is_search_outcome(before, w, true, before_trace, after_trace, code) && a.len() == 8
            && bits_of(a) == w.address && computed == crc8(a.take(7)) && expected == a[7]
            && computed != expected
}

/// No call on the pin failed in `s`.
pub open spec fn no_fault(s: Seq<BusEvent>) -> bool {
    forall|i: int| 0 <= i < s.len() ==> s[i] != BusEvent::Fault
}

/// `after` is `before` followed by pin calls that succeeded and then one
/// that failed, which is the last thing done.
pub open spec fn ends_in_fault(before: Seq<BusEvent>, after: Seq<BusEvent>) -> bool {
    exists|u: Seq<BusEvent>| no_fault(u) && after == before + u.push(BusEvent::Fault)
}

proof fn lemma_no_fault_concat(a: Seq<BusEvent>, b: Seq<BusEvent>)
    requires
        no_fault(a),
        no_fault(b),
    ensures
        no_fault(a + b),
{
    assert forall|i: int| 0 <= i < (a + b).len() implies (a + b)[i] != BusEvent::Fault by {
        if i >= a.len() {
            assert((a + b)[i] == b[i - a.len()]);
        }
    }
}

proof fn lemma_no_fault_low_polls(k: nat)
    ensures
        no_fault(low_polls(k)),
    decreases k,
{
    if k > 0 {
        lemma_no_fault_low_polls((k - 1) as nat);
        lemma_no_fault_concat(
            low_polls((k - 1) as nat),
            seq![BusEvent::Sample(false), BusEvent::Wait(2)],
        );
    }
}

proof fn lemma_no_fault_presence(samples: Seq<bool>)
    ensures
        no_fault(presence_wave(samples)),
    decreases samples.len(),
{
    if samples.len() > 0 {
        lemma_no_fault_presence(samples.drop_last());
        lemma_no_fault_concat(
            presence_wave(samples.drop_last()),
            seq![BusEvent::Wait(10), BusEvent::Sample(samples.last())],
        );
    }
}

/// A call that fails after `u` went well.
proof fn lemma_fault_now(before: Seq<BusEvent>, u: Seq<BusEvent>, after: Seq<BusEvent>)
    requires
        no_fault(u),
        after == (before + u).push(BusEvent::Fault),
    ensures
        ends_in_fault(before, after),
{
    assert(after =~= before + u.push(BusEvent::Fault));
}

/// A failure inside a step that started after `u` went well.
proof fn lemma_fault_later(before: Seq<BusEvent>, u: Seq<BusEvent>, after: Seq<BusEvent>)
    requires
        no_fault(u),
        ends_in_fault(before + u, after),
    ensures
        ends_in_fault(before, after),
{
    let w = choose|w: Seq<BusEvent>| no_fault(w) && after == (before + u) + w.push(BusEvent::Fault);
    lemma_no_fault_concat(u, w);
    assert(after =~= before + (u + w).push(BusEvent::Fault));
}

/// A reset that gave up: the idle line read low at each of 125 polls.
pub open spec fn stuck_low_wave() -> Seq<BusEvent> {
    seq![BusEvent::Release] + low_polls(125)
}

/// The master that owns the line, and whether devices draw parasite power
/// from it.
pub struct OneWire<ODO: OpenDrainOutput> {
    output: ODO,
    parasite_mode: bool,
    events: Ghost<Seq<BusEvent>>,
}

impl<ODO: OpenDrainOutput> OneWire<ODO> {
    /// Everything done on the line since construction.
    pub closed spec fn trace(&self) -> Seq<BusEvent> {
        self.events@
    }

    /// Whether the line is held after a command for parasite power.
    pub closed spec fn parasite(&self) -> bool {
        self.parasite_mode
    }

    /// A master on `output`, which has done nothing yet.
    pub fn new(output: ODO, parasite_mode: bool) -> (r: Self)
        ensures
            r.trace() == Seq::<BusEvent>::empty(),
            r.parasite() == parasite_mode,
    {
        OneWire { output, parasite_mode, events: Ghost(Seq::empty()) }
    }

    fn wait<D: Delay>(&mut self, delay: &mut D, us: u32)
        ensures
            final(self).trace() == old(self).trace().push(BusEvent::Wait(us)),
            final(self).parasite() == old(self).parasite(),
    {
        delay.delay_us(us);
        self.events = Ghost(self.events@.push(BusEvent::Wait(us)));
    }

    fn set_input(&mut self) -> (r: Result<(), ODO::Error>)
        ensures
            r is Ok ==> final(self).trace() == old(self).trace().push(BusEvent::Release),
            r is Err ==> final(self).trace() == old(self).trace().push(BusEvent::Fault),
            final(self).parasite() == old(self).parasite(),
    {
        let r = self.output.set_high();
        if r.is_ok() {
            self.events = Ghost(self.events@.push(BusEvent::Release));
        } else {
            self.events = Ghost(self.events@.push(BusEvent::Fault));
        }
        r
    }

    fn set_output(&mut self) -> (r: Result<(), ODO::Error>)
        ensures
            r is Ok,
            *final(self) == *old(self),
    {
        // an open-drain line needs no change of direction
        Ok(())
    }

    fn write_low(&mut self) -> (r: Result<(), ODO::Error>)
        ensures
            r is Ok ==> final(self).trace() == old(self).trace().push(BusEvent::DriveLow),
            r is Err ==> final(self).trace() == old(self).trace().push(BusEvent::Fault),
            final(self).parasite() == old(self).parasite(),
    {
        let r = self.output.set_low();
        if r.is_ok() {
            self.events = Ghost(self.events@.push(BusEvent::DriveLow));
        } else {
            self.events = Ghost(self.events@.push(BusEvent::Fault));
        }
        r
    }

    fn write_high(&mut self) -> (r: Result<(), ODO::Error>)
        ensures
            r is Ok ==> final(self).trace() == old(self).trace().push(BusEvent::Release),
            r is Err ==> final(self).trace() == old(self).trace().push(BusEvent::Fault),
            final(self).parasite() == old(self).parasite(),
    {
        let r = self.output.set_high();
        if r.is_ok() {
            self.events = Ghost(self.events@.push(BusEvent::Release));
        } else {
            self.events = Ghost(self.events@.push(BusEvent::Fault));
        }
        r
    }

    fn read(&mut self) -> (r: Result<bool, ODO::Error>)
        ensures
            r matches Ok(v) ==> final(self).trace() == old(self).trace().push(BusEvent::Sample(v)),
            r is Err ==> final(self).trace() == old(self).trace().push(BusEvent::Fault),
            final(self).parasite() == old(self).parasite(),
    {
        let r = self.output.is_high();
        match r {
            Ok(v) => {
                self.events = Ghost(self.events@.push(BusEvent::Sample(v)));
            },
            Err(_) => {
                self.events = Ghost(self.events@.push(BusEvent::Fault));
            },
        }
        r
    }

    /// Releases the line after a byte, so that powered devices can drive it.
    fn disable_parasite_mode(&mut self) -> (r: Result<(), ODO::Error>)
        ensures
            r is Ok ==> final(self).trace() == old(self).trace().push(BusEvent::Release),
            final(self).parasite() == old(self).parasite(),
    {
        self.set_input()
    }

    fn write_bit<D: Delay>(&mut self, delay: &mut D, high: bool) -> (r: Result<(), ODO::Error>)
        ensures
            r is Ok ==> final(self).trace() == old(self).trace() + write_slot(high),
            final(self).parasite() == old(self).parasite(),
    {
        self.write_low()?;
        self.set_output()?;
        self.wait(delay, if high { 10 } else { 65 });
        self.write_high()?;
        self.wait(delay, if high { 55 } else { 5 });
        assert(self.trace() =~= old(self).trace() + write_slot(high));
        Ok(())
    }

    fn read_bit<D: Delay>(&mut self, delay: &mut D) -> (r: Result<bool, ODO::Error>)
        ensures
            r matches Ok(v) ==> final(self).trace() == old(self).trace() + read_slot(v),
            final(self).parasite() == old(self).parasite(),
    {
        self.set_output()?;
        self.write_low()?;
        self.wait(delay, 3);
        self.set_input()?;
        self.wait(delay, 2);
        let val = self.read();
        self.wait(delay, 60);
        match val {
            Ok(v) => {
                assert(self.trace() =~= old(self).trace() + read_slot(v));
                Ok(v)
            },
            Err(e) => Err(e),
        }
    }

    fn read_byte<D: Delay>(&mut self, delay: &mut D) -> (r: Result<u8, ODO::Error>)
        ensures
            r matches Ok(b) ==> final(self).trace() == old(self).trace() + read_byte_wave(b),
            final(self).parasite() == old(self).parasite(),
    {
        let mut byte = 0_u8;
        let mut k: u8 = 0;
        let ghost bits: Seq<bool> = seq![];
        assert forall|j: int| 0 <= j < 8 implies !byte_bit(byte, j) by {
            let m = j as u8;
            assert(0u8 & (1u8 << m) == 0) by (bit_vector);
        }
        while k < 8
            invariant
                k <= 8,
                bits.len() == k,
                self.trace() == old(self).trace() + read_slots(bits),
                self.parasite() == old(self).parasite(),
                forall|j: int| 0 <= j < k ==> byte_bit(byte, j) == bits[j],
                forall|j: int| k <= j < 8 ==> !byte_bit(byte, j),
            decreases 8 - k,
        {
            let bit = self.read_bit(delay)?;
            let ghost before = byte;
            if bit {
                byte = byte | (1u8 << k);
            }
            proof {
                assert forall|j: int| 0 <= j < 8 implies byte_bit(byte, j) == (if j == k {
                    bit
                } else {
                    byte_bit(before, j)
                }) by {
                    if bit {
                        lemma_bit_or(before, k, j as u8);
                    }
                }
                let nb = bits.push(bit);
                assert(nb.drop_last() =~= bits);
                assert(self.trace() =~= old(self).trace() + read_slots(nb));
                bits = nb;
            }
            k = k + 1;
        }
        assert(byte_bits(byte) =~= bits);
        Ok(byte)
    }

    fn write_byte<D: Delay>(&mut self, delay: &mut D, byte: u8, parasite_mode: bool) -> (r: Result<
        (),
        ODO::Error,
    >)
        ensures
            r is Ok ==> final(self).trace() == old(self).trace() + write_byte_wave(byte, parasite_mode),
            final(self).parasite() == old(self).parasite(),
    {
        let mut k: u8 = 0;
        while k < 8
            invariant
                k <= 8,
                self.trace() == old(self).trace() + write_slots(byte_bits(byte).take(k as int)),
                self.parasite() == old(self).parasite(),
            decreases 8 - k,
        {
            self.write_bit(delay, byte & (1u8 << k) != 0)?;
            assert(byte_bits(byte).take(k + 1).drop_last() =~= byte_bits(byte).take(k as int));
            assert(self.trace() =~= old(self).trace() + write_slots(byte_bits(byte).take(k + 1)));
            k = k + 1;
        }
        assert(byte_bits(byte).take(8) =~= byte_bits(byte));
        if !parasite_mode {
            self.disable_parasite_mode()?;
        }
        assert(self.trace() =~= old(self).trace() + write_byte_wave(byte, parasite_mode));
        Ok(())
    }

    fn write_command<D: Delay>(&mut self, delay: &mut D, cmd: Command, parasite_mode: bool) -> (r:
        Result<(), ODO::Error>)
        ensures
            r is Ok ==> final(self).trace() == old(self).trace() + write_byte_wave(
                cmd.code(),
                parasite_mode,
            ),
            final(self).parasite() == old(self).parasite(),
    {
        self.write_byte(delay, cmd.code(), parasite_mode)
    }

    /// Reads `dst.len()` bytes into `dst`.
    pub fn read_bytes<D: Delay>(&mut self, delay: &mut D, dst: &mut [u8]) -> (r: Result<
        (),
        ODO::Error,
    >)
        ensures
            final(dst)@.len() == old(dst)@.len(),
            r is Ok ==> final(self).trace() == old(self).trace() + read_bytes_wave(final(dst)@),
            final(self).parasite() == old(self).parasite(),
    {
        let mut i: usize = 0;
        while i < dst.len()
            invariant
                i <= dst@.len(),
                dst@.len() == old(dst)@.len(),
                self.trace() == old(self).trace() + read_bytes_wave(dst@.take(i as int)),
                self.parasite() == old(self).parasite(),
            decreases dst@.len() - i,
        {
            let b = self.read_byte(delay)?;
            let ghost before = dst@;
            dst[i] = b;
            assert(dst@.take(i + 1).drop_last() =~= before.take(i as int));
            assert(self.trace() =~= old(self).trace() + read_bytes_wave(dst@.take(i + 1)));
            i = i + 1;
        }
        assert(dst@.take(i as int) =~= dst@);
        Ok(())
    }

    /// Sends `bytes`, releasing the line after each.
    pub fn write_bytes<D: Delay>(&mut self, delay: &mut D, bytes: &[u8]) -> (r: Result<
        (),
        ODO::Error,
    >)
        ensures
            r is Ok ==> final(self).trace() == old(self).trace() + write_bytes_wave(
                bytes@,
                old(self).parasite(),
            ),
            final(self).parasite() == old(self).parasite(),
    {
        let mut i: usize = 0;
        while i < bytes.len()
            invariant
                i <= bytes@.len(),
                self.trace() == old(self).trace() + write_bytes_each_wave(bytes@.take(i as int)),
                self.parasite() == old(self).parasite(),
            decreases bytes@.len() - i,
        {
            self.write_byte(delay, bytes[i], false)?;
            assert(bytes@.take(i + 1).drop_last() =~= bytes@.take(i as int));
            assert(self.trace() =~= old(self).trace() + write_bytes_each_wave(bytes@.take(i + 1)));
            i = i + 1;
        }
        assert(bytes@.take(i as int) =~= bytes@);
        if !self.parasite_mode {
            self.disable_parasite_mode()?;
        }
        assert(self.trace() =~= old(self).trace() + write_bytes_wave(bytes@, old(self).parasite()));
        Ok(())
    }

    fn port<T>(r: Result<T, ODO::Error>) -> (o: Result<T, Error<ODO::Error>>)
        ensures
            match r {
                Ok(v) => o == Ok::<T, Error<ODO::Error>>(v),
                Err(e) => o == Err::<T, Error<ODO::Error>>(Error::PortError(e)),
            },
    {
        match r {
            Ok(v) => Ok(v),
            Err(e) => Err(Error::PortError(e)),
        }
    }

    /// Polls the idle line every 2 µs, at most 125 times, until it reads high.
    fn ensure_wire_high<D: Delay>(&mut self, delay: &mut D) -> (r: Result<(), Error<ODO::Error>>)
        ensures
            r is Ok ==> exists|k: nat|
                k < 125 && final(self).trace() == old(self).trace() + low_polls(k) + seq![
                    BusEvent::Sample(true),
                ],
            r matches Err(Error::WireNotHigh) ==> final(self).trace() == old(self).trace()
                + low_polls(125),
            r matches Err(Error::PortError(_)) ==> ends_in_fault(old(self).trace(), final(self).trace()),
            r matches Err(e) ==> (e is WireNotHigh || e is PortError),
            final(self).parasite() == old(self).parasite(),
    {
        let mut i: u8 = 0;
        while i < 125
            invariant
                i <= 125,
                self.trace() == old(self).trace() + low_polls(i as nat),
                self.parasite() == old(self).parasite(),
            decreases 125 - i,
        {
            let ghost polled = self.trace();
            let high = match self.read() {
                Ok(v) => v,
                Err(e) => {
                    proof {
                        lemma_no_fault_low_polls(i as nat);
                        lemma_fault_now(old(self).trace(), low_polls(i as nat), self.trace());
                    }
                    return Err(Error::PortError(e));
                },
            };
            if high {
                assert(self.trace() =~= old(self).trace() + low_polls(i as nat) + seq![
                    BusEvent::Sample(true),
                ]);
                return Ok(());
            }
            self.wait(delay, 2);
            assert(self.trace() =~= old(self).trace() + low_polls((i + 1) as nat));
            i = i + 1;
        }
        Err(Error::WireNotHigh)
    }

    /// Resets the bus and listens for a presence pulse: `Ok(true)` when some
    /// device answered, `Ok(false)` when none did though the line is sound,
    /// and `WireNotHigh` when the idle line never read high (shorted or
    /// stuck low).
    pub fn reset<D: Delay>(&mut self, delay: &mut D) -> (r: Result<bool, Error<ODO::Error>>)
        ensures
            r matches Ok(p) ==> is_reset_from(old(self).trace(), final(self).trace(), p),
            r matches Err(Error::WireNotHigh) ==> final(self).trace() == old(self).trace()
                + stuck_low_wave(),
            r matches Err(Error::PortError(_)) ==> ends_in_fault(old(self).trace(), final(self).trace()),
            r matches Err(e) ==> (e is WireNotHigh || e is PortError),
            final(self).parasite() == old(self).parasite(),
    {
        let ghost start = self.trace();
        match self.set_input() {
            Ok(()) => {},
            Err(e) => {
                proof {
                    lemma_fault_now(start, seq![], self.trace());
                }
                return Err(Error::PortError(e));
            },
        }
        let ghost released = self.trace();
        let ghost u1 = seq![BusEvent::Release];
        assert(released == start + u1);
        assert(no_fault(u1));
        match self.ensure_wire_high(delay) {
            Ok(()) => {},
            Err(e) => {
                proof {
                    if e is PortError {
                        lemma_fault_later(start, u1, self.trace());
                    }
                }
                return Err(e);
            },
        }
        let ghost k: nat = choose|k: nat|
            k < 125 && self.trace() == released + low_polls(k) + seq![BusEvent::Sample(true)];
        let ghost u2 = u1 + low_polls(k) + seq![BusEvent::Sample(true)];
        proof {
            lemma_no_fault_low_polls(k);
            lemma_no_fault_concat(u1, low_polls(k));
            lemma_no_fault_concat(u1 + low_polls(k), seq![BusEvent::Sample(true)]);
            assert(self.trace() =~= start + u2);
        }
        match self.write_low() {
            Ok(()) => {},
            Err(e) => {
                proof {
                    lemma_fault_now(start, u2, self.trace());
                }
                return Err(Error::PortError(e));
            },
        }
        Self::port(self.set_output())?;
        self.wait(delay, 480);
        let ghost u3 = u2 + seq![BusEvent::DriveLow, BusEvent::Wait(480)];
        proof {
            lemma_no_fault_concat(u2, seq![BusEvent::DriveLow, BusEvent::Wait(480)]);
            assert(self.trace() =~= start + u3);
        }
        match self.set_input() {
            Ok(()) => {},
            Err(e) => {
                proof {
                    lemma_fault_now(start, u3, self.trace());
                }
                return Err(Error::PortError(e));
            },
        }
        let ghost u4 = u3 + seq![BusEvent::Release];
        proof {
            lemma_no_fault_concat(u3, seq![BusEvent::Release]);
            assert(self.trace() =~= start + u4);
        }
        let ghost pulsed = self.trace();
        let mut val = false;
        let mut i: u8 = 0;
        let ghost samples: Seq<bool> = seq![];
        while i < 7
            invariant
                i <= 7,
                samples.len() == i,
                self.trace() == pulsed + presence_wave(samples),
                val == samples.contains(false),
                self.parasite() == old(self).parasite(),
                start == old(self).trace(),
                pulsed == start + u4,
                no_fault(u4),
            decreases 7 - i,
        {
            self.wait(delay, 10);
            let level = match self.read() {
                Ok(v) => v,
                Err(e) => {
                    proof {
                        let u = u4 + presence_wave(samples) + seq![BusEvent::Wait(10)];
                        lemma_no_fault_presence(samples);
                        lemma_no_fault_concat(u4, presence_wave(samples));
                        lemma_no_fault_concat(u4 + presence_wave(samples), seq![BusEvent::Wait(10)]);
                        assert(self.trace() =~= (start + u).push(BusEvent::Fault));
                        lemma_fault_now(start, u, self.trace());
                    }
                    return Err(Error::PortError(e));
                },
            };
            val = val || !level;
            proof {
                let ns = samples.push(level);
                assert(ns.drop_last() =~= samples);
                assert(self.trace() =~= pulsed + presence_wave(ns));
                assert(ns.contains(false) == (samples.contains(false) || !level)) by {
                    if samples.contains(false) {
                        let j = choose|j: int| 0 <= j < samples.len() && samples[j] == false;
                        assert(ns[j] == false);
                    }
                    if !level {
                        assert(ns[ns.len() - 1] == false);
                    }
                    if ns.contains(false) {
                        let j = choose|j: int| 0 <= j < ns.len() && ns[j] == false;
                        if j < samples.len() {
                            assert(samples[j] == false);
                        }
                    }
                }
                samples = ns;
            }
            i = i + 1;
        }
        self.wait(delay, 410);
        proof {
            let w = reset_wave(k, samples);
            assert(self.trace() =~= old(self).trace() + w);
            assert(samples.len() == 7);
            assert(is_reset_wave(w, val));
            assert(is_reset_from(old(self).trace(), self.trace(), val));
        }
        Ok(val)
    }

    /// Addresses one device: Select ROM, then its address. In parasite mode
    /// the line is held after the last byte.
    pub fn select<D: Delay>(&mut self, delay: &mut D, device: &Device) -> (r: Result<
        (),
        Error<ODO::Error>,
    >)
        ensures
            r is Ok ==> final(self).trace() == old(self).trace() + select_wave(
                device.address@,
                old(self).parasite(),
            ),
            r matches Err(e) ==> e is PortError,
            final(self).parasite() == old(self).parasite(),
    {
        let parasite_mode = self.parasite_mode;
        Self::port(self.write_command(delay, Command::SelectRom, false))?;
        let ghost commanded = self.trace();
        let mut i: usize = 0;
        while i < 8
            invariant
                i <= 8,
                device.address@.len() == 8,
                parasite_mode == old(self).parasite(),
                self.trace() == commanded + address_wave(device.address@, i as int, parasite_mode),
                self.parasite() == old(self).parasite(),
            decreases 8 - i,
        {
            let last = i == 7;
            Self::port(self.write_byte(delay, device.address[i], parasite_mode && last))?;
            assert(self.trace() =~= commanded + address_wave(
                device.address@,
                i + 1,
                parasite_mode,
            ));
            i = i + 1;
        }
        assert(self.trace() =~= old(self).trace() + select_wave(device.address@, parasite_mode));
        Ok(())
    }

    /// Reset, select `device`, send `write`, then read into `read`.
    pub fn reset_select_write_read<D: Delay>(
        &mut self,
        delay: &mut D,
        device: &Device,
        write: &[u8],
        read: &mut [u8],
    ) -> (r: Result<(), Error<ODO::Error>>)
        ensures
            final(read)@.len() == old(read)@.len(),
            r is Ok ==> is_transaction(
                old(self).trace(),
                final(self).trace(),
                device.address@,
                old(self).parasite(),
                write@,
                final(read)@,
            ),
            r matches Err(Error::WireNotHigh) ==> final(self).trace() == old(self).trace()
                + stuck_low_wave(),
            r matches Err(e) ==> (e is WireNotHigh || e is PortError),
            final(self).parasite() == old(self).parasite(),
    {
        self.reset(delay)?;
        let ghost after_reset = self.trace();
        self.select(delay, device)?;
        Self::port(self.write_bytes(delay, write))?;
        Self::port(self.read_bytes(delay, read))?;
        proof {
            let w = after_reset.skip(old(self).trace().len() as int);
            assert(after_reset =~= old(self).trace() + w);
            assert(self.trace() =~= old(self).trace() + w + select_wave(
                device.address@,
                old(self).parasite(),
            ) + write_bytes_wave(write@, old(self).parasite()) + read_bytes_wave(read@));
        }
        Ok(())
    }

    /// Reset, select `device`, then read into `read`.
    pub fn reset_select_read_only<D: Delay>(
        &mut self,
        delay: &mut D,
        device: &Device,
        read: &mut [u8],
    ) -> (r: Result<(), Error<ODO::Error>>)
        ensures
            final(read)@.len() == old(read)@.len(),
            r is Ok ==> exists|w: Seq<BusEvent>, p: bool|
                is_reset_wave(w, p) && final(self).trace() == old(self).trace() + w + select_wave(
                    device.address@,
                    old(self).parasite(),
                ) + read_bytes_wave(final(read)@),
            r matches Err(Error::WireNotHigh) ==> final(self).trace() == old(self).trace()
                + stuck_low_wave(),
            r matches Err(e) ==> (e is WireNotHigh || e is PortError),
            final(self).parasite() == old(self).parasite(),
    {
        self.reset(delay)?;
        let ghost after_reset = self.trace();
        self.select(delay, device)?;
        Self::port(self.read_bytes(delay, read))?;
        proof {
            let w = after_reset.skip(old(self).trace().len() as int);
            assert(after_reset =~= old(self).trace() + w);
            assert(self.trace() =~= old(self).trace() + w + select_wave(
                device.address@,
                old(self).parasite(),
            ) + read_bytes_wave(read@));
        }
        Ok(())
    }

    /// Reset, select `device`, then send `write`.
    pub fn reset_select_write_only<D: Delay>(
        &mut self,
        delay: &mut D,
        device: &Device,
        write: &[u8],
    ) -> (r: Result<(), Error<ODO::Error>>)
        ensures
            r is Ok ==> is_transaction(
                old(self).trace(),
                final(self).trace(),
                device.address@,
                old(self).parasite(),
                write@,
                seq![],
            ),
            r matches Err(Error::WireNotHigh) ==> final(self).trace() == old(self).trace()
                + stuck_low_wave(),
            r matches Err(e) ==> (e is WireNotHigh || e is PortError),
            final(self).parasite() == old(self).parasite(),
    {
        self.reset(delay)?;
        let ghost after_reset = self.trace();
        self.select(delay, device)?;
        Self::port(self.write_bytes(delay, write))?;
        proof {
            let w = after_reset.skip(old(self).trace().len() as int);
            assert(after_reset =~= old(self).trace() + w);
            assert(self.trace() =~= old(self).trace() + w + select_wave(
                device.address@,
                old(self).parasite(),
            ) + write_bytes_wave(write@, old(self).parasite()) + read_bytes_wave(seq![]));
        }
        Ok(())
    }

    /// Finds the next device of an enumeration (see [`DeviceSearch`]).
    pub fn search_next<D: Delay>(&mut self, search: &mut DeviceSearch, delay: &mut D) -> (r: Result<
        Option<Device>,
        Error<ODO::Error>,
    >)
        ensures
            old(search)@.state == SearchState::End ==> r == Ok::<Option<Device>, Error<ODO::Error>>(
                None,
            ) && final(search)@ == old(search)@ && final(self).trace() == old(self).trace(),
            r is Ok ==> is_search_outcome(
                old(search)@,
                final(search)@,
                r->Ok_0 is Some,
                old(self).trace(),
                final(self).trace(),
                Command::SearchNext.spec_code(),
            ),
            r matches Ok(Some(d)) ==> d.address@ == final(search).address_bytes() && crc8(
                d.address@.take(7),
            ) == d.address@[7],
            r matches Err(Error::CrcMismatch { computed, expected }) ==> final(search)@ == old(search)@
                && found_bad_crc(
                old(search)@,
                old(self).trace(),
                final(self).trace(),
                Command::SearchNext.spec_code(),
                computed,
                expected,
            ),
            r matches Err(Error::WireNotHigh) ==> final(search)@ == old(search)@ && final(self).trace()
                == old(self).trace() + stuck_low_wave(),
            r matches Err(e) ==> (e is WireNotHigh || e is PortError || e is CrcMismatch),
            final(self).parasite() == old(self).parasite(),
    {
        self.search(search, delay, Command::SearchNext)
    }

    /// Finds the next device in alarm state (see [`DeviceSearch`]).
    pub fn search_next_alarmed<D: Delay>(
        &mut self,
        search: &mut DeviceSearch,
        delay: &mut D,
    ) -> (r: Result<Option<Device>, Error<ODO::Error>>)
        ensures
            old(search)@.state == SearchState::End ==> r == Ok::<Option<Device>, Error<ODO::Error>>(
                None,
            ) && final(search)@ == old(search)@ && final(self).trace() == old(self).trace(),
            r is Ok ==> is_search_outcome(
                old(search)@,
                final(search)@,
                r->Ok_0 is Some,
                old(self).trace(),
                final(self).trace(),
                Command::SearchNextAlarmed.spec_code(),
            ),
            r matches Ok(Some(d)) ==> d.address@ == final(search).address_bytes() && crc8(
                d.address@.take(7),
            ) == d.address@[7],
            r matches Err(Error::CrcMismatch { computed, expected }) ==> final(search)@ == old(search)@
                && found_bad_crc(
                old(search)@,
                old(self).trace(),
                final(self).trace(),
                Command::SearchNextAlarmed.spec_code(),
                computed,
                expected,
            ),
            r matches Err(Error::WireNotHigh) ==> final(search)@ == old(search)@ && final(self).trace()
                == old(self).trace() + stuck_low_wave(),
            r matches Err(e) ==> (e is WireNotHigh || e is PortError || e is CrcMismatch),
            final(self).parasite() == old(self).parasite(),
    {
        self.search(search, delay, Command::SearchNextAlarmed)
    }

    /// One step of the binary-tree ROM search: replays the path of the
    /// previous pass up to the last pending branch, takes its second path,
    /// then follows the lowest path from there, recording new forks.
    #[verifier::rlimit(50)]
    fn search<D: Delay>(&mut self, rom: &mut DeviceSearch, delay: &mut D, cmd: Command) -> (r:
        Result<Option<Device>, Error<ODO::Error>>)
        ensures
            old(rom)@.state == SearchState::End ==> r == Ok::<Option<Device>, Error<ODO::Error>>(
                None,
            ) && final(rom)@ == old(rom)@ && final(self).trace() == old(self).trace(),
            r is Ok ==> is_search_outcome(
                old(rom)@,
                final(rom)@,
                r->Ok_0 is Some,
                old(self).trace(),
                final(self).trace(),
                cmd.spec_code(),
            ),
            r matches Ok(Some(d)) ==> d.address@ == final(rom).address_bytes() && crc8(
                d.address@.take(7),
            ) == d.address@[7],
            r matches Err(Error::CrcMismatch { computed, expected }) ==> final(rom)@ == old(rom)@
                && found_bad_crc(
                old(rom)@,
                old(self).trace(),
                final(self).trace(),
                cmd.spec_code(),
                computed,
                expected,
            ),
            r matches Err(Error::WireNotHigh) ==> final(rom)@ == old(rom)@ && final(self).trace()
                == old(self).trace() + stuck_low_wave(),
            r matches Err(e) ==> (e is WireNotHigh || e is PortError || e is CrcMismatch),
            final(self).parasite() == old(self).parasite(),
    {
        let ghost v = rom@;
        proof {
            rom.lemma_view();
        }
        let saved = rom.snapshot();
        if rom.state() == SearchState::End {
            return Ok(None);
        }
        let last_discrepancy = rom.last_discrepancy();
        let presence = self.reset(delay)?;
        let ghost w = choose|w: Seq<BusEvent>|
            is_reset_wave(w, presence) && self.trace() == old(self).trace() + w;
        if !presence {
            proof {
                assert(search_call_read(v, false, seq![]));
                assert(search_call(v, false, seq![]) == (v, false));
                assert(self.trace() =~= old(self).trace() + search_wave(
                    v,
                    cmd.spec_code(),
                    w,
                    false,
                    seq![],
                ));
            }
            return Ok(None);
        }
        Self::port(self.write_byte(delay, cmd.code(), false))?;
        let ghost prefix = self.trace();
        assert(prefix == old(self).trace() + w + write_byte_wave(cmd.spec_code(), false));
        if last_discrepancy.is_none() && rom.state() == SearchState::DeviceFound {
            // the device found last was the only one left
            rom.set_state(SearchState::End);
            proof {
                assert(search_call_read(v, true, seq![]));
                assert(search_call(v, true, seq![]) == (rom@, false));
                assert(self.trace() =~= old(self).trace() + search_wave(
                    v,
                    cmd.spec_code(),
                    w,
                    true,
                    seq![],
                ));
            }
            return Ok(None);
        }
        let ghost last = position(last_discrepancy);
        proof {
            if last_discrepancy is Some {
                lemma_highest_set_some(v.discrepancies, 64);
            }
            assert(prefix =~= prefix + pass_wave(v, seq![]));
        }
        let ghost pairs: Seq<(bool, bool)> = seq![];
        let mut i: u8 = 0;
        while i < 64
            invariant
                i <= 64,
                v == old(rom)@,
                saved@ == v,
                pairs.len() == i,
                last == v.last_discrepancy(),
                last == position(last_discrepancy),
                last_discrepancy is Some ==> last_discrepancy->0 < 64,
                v.wf(),
                v.state != SearchState::End,
                !(last is None && v.state == SearchState::DeviceFound),
                search_walk(v, last, pairs) == (rom@, false),
                self.parasite() == old(self).parasite(),
                is_reset_wave(w, true),
                prefix == old(self).trace() + w + write_byte_wave(cmd.spec_code(), false),
                self.trace() == prefix + pass_wave(v, pairs),
            decreases 64 - i,
        {
            let bit0 = Self::port(self.read_bit(delay))?;
            let bit1 = Self::port(self.read_bit(delay))?;
            let ghost reads = pass_wave(v, pairs) + read_slot(bit0) + read_slot(bit1);
            assert(self.trace() =~= prefix + reads);
            let ghost before = rom@;
            let chosen = rom.choose_bit(i, last_discrepancy, bit0, bit1);
            proof {
                let np = pairs.push((bit0, bit1));
                assert(np.drop_last() =~= pairs);
                assert(np.last() == (bit0, bit1));
                assert(search_walk(v, last, np) == match search_bit(before, last, i as int, bit0, bit1) {
                    Some(x) => (x, false),
                    None => (before, true),
                });
                pairs = np;
            }
            match chosen {
                Some(b) => {
                    Self::port(self.write_bit(delay, b))?;
                    assert(self.trace() =~= prefix + pass_wave(v, pairs));
                },
                None => {
                    proof {
                        assert(self.trace() =~= prefix + pass_wave(v, pairs));
                        assert(search_call_read(v, true, pairs));
                        assert(search_call(v, true, pairs) == (rom@, false));
                        assert(self.trace() =~= old(self).trace() + search_wave(
                            v,
                            cmd.spec_code(),
                            w,
                            true,
                            pairs,
                        ));
                    }
                    return Ok(None);
                },
            }
            i = i + 1;
        }
        // forks found in this pass are pending too
        let state = if rom.is_exhausted() {
            SearchState::End
        } else {
            SearchState::DeviceFound
        };
        rom.set_state(state);
        let device = rom.device();
        proof {
            assert(search_call_read(v, true, pairs));
            assert(search_call(v, true, pairs) == (rom@, true));
            assert(self.trace() =~= old(self).trace() + search_wave(
                v,
                cmd.spec_code(),
                w,
                true,
                pairs,
            ));
        }
        // every address found is checked against its own CRC byte; on a
        // mismatch the cursor stays where it was, so that a retry walks again
        let computed = device.address_crc();
        if computed != device.address[7] {
            proof {
                let found = rom@;
                assert(is_search_outcome(
                    v,
                    found,
                    true,
                    old(self).trace(),
                    self.trace(),
                    cmd.spec_code(),
                ));
                assert(bits_of(device.address@) == found.address);
            }
            *rom = saved;
            return Err(Error::CrcMismatch { computed, expected: device.address[7] });
        }
        Ok(Some(device))
    }
}

/// The presence window holds each sample at an odd position.
proof fn lemma_presence_wave_sample(samples: Seq<bool>, j: int)
    requires
        0 <= j < samples.len(),
    ensures
        presence_wave(samples).len() == 2 * samples.len(),
        presence_wave(samples)[2 * j + 1] == BusEvent::Sample(samples[j]),
    decreases samples.len(),
{
    if j < samples.len() - 1 {
        lemma_presence_wave_sample(samples.drop_last(), j);
    } else if samples.len() > 1 {
        lemma_presence_wave_sample(samples.drop_last(), 0);
    }
}

proof fn lemma_low_polls_len(k: nat)
    ensures
        low_polls(k).len() == 2 * k,
    decreases k,
{
    if k > 0 {
        lemma_low_polls_len((k - 1) as nat);
    }
}

/// A reset on a line that nobody pulls low, which reads high at every
/// sample, reports no presence.
pub proof fn lemma_reset_without_responder(w: Seq<BusEvent>, presence: bool)
    requires
        is_reset_wave(w, presence),
        forall|i: int| 0 <= i < w.len() ==> w[i] != BusEvent::Sample(false),
    ensures
        !presence,
{
    let (k, samples) = choose|k: nat, samples: Seq<bool>|
        k < 125 && samples.len() == 7 && w == reset_wave(k, samples) && presence
            == samples.contains(false);
    if presence {
        let j = choose|j: int| 0 <= j < samples.len() && samples[j] == false;
        lemma_presence_wave_sample(samples, j);
        lemma_low_polls_len(k);
        let start = 1 + 2 * k as int + 1 + 3;
        assert(w[start + 2 * j + 1] == presence_wave(samples)[2 * j + 1]);
    }
}

/// A reset answers only after the idle line has read high: on a line stuck
/// low no reset completes, and the master reports `WireNotHigh` instead.
pub proof fn lemma_reset_needs_idle_high(w: Seq<BusEvent>, presence: bool)
    requires
        is_reset_wave(w, presence),
    ensures
        w.contains(BusEvent::Sample(true)),
{
    let (k, samples) = choose|k: nat, samples: Seq<bool>|
        k < 125 && samples.len() == 7 && w == reset_wave(k, samples) && presence
            == samples.contains(false);
    lemma_low_polls_len(k);
    assert(w[1 + 2 * k as int] == BusEvent::Sample(true));
}

} // verus!
