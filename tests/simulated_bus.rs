use std::cell::{Cell, RefCell};
use std::rc::Rc;

use onewire::ds18b20::MeasureResolution;
use onewire::{compute_crc8, Delay, Device, DeviceSearch, Error, OneWire, OpenDrainOutput, DS18B20};

/// A clock shared by the simulated line and the delay provider.
#[derive(Clone)]
struct Clock(Rc<Cell<u64>>);

impl Clock {
    fn now(&self) -> u64 {
        self.0.get()
    }
}

struct SimDelay(Clock);

impl Delay for SimDelay {
    fn delay_us(&mut self, us: u32) {
        self.0 .0.set(self.0.now() + us as u64);
    }
}

#[derive(Clone, Copy, PartialEq, Debug)]
enum Phase {
    Idle,
    RomCommand,
    Search { pos: usize, step: u8 },
    MatchRom,
    Function,
    ReadScratchpad,
}

struct Slave {
    rom: [u8; 8],
    scratchpad: [u8; 9],
    alarm: bool,
}

/// What the devices on a simulated bus see and answer.
struct BusState {
    clock: Clock,
    slaves: Vec<Slave>,
    stuck_low: bool,
    driven_low: bool,
    low_since: u64,
    reset_released: Option<u64>,
    phase: Phase,
    received: Vec<bool>,
    active: Vec<bool>,
    selected: Option<usize>,
    sent: usize,
    pending_read: Option<bool>,
    commands: Vec<u8>,
    conversions: usize,
}

fn rom_bit(rom: &[u8; 8], i: usize) -> bool {
    rom[i / 8] >> (i % 8) & 1 == 1
}

fn bits_to_byte(bits: &[bool]) -> u8 {
    bits.iter().enumerate().fold(0u8, |acc, (k, b)| if *b { acc | 1 << k } else { acc })
}

impl BusState {
    fn transmitting(&self) -> bool {
        matches!(self.phase, Phase::Search { step: 0 | 1, .. } | Phase::ReadScratchpad)
    }

    fn next_out_bit(&mut self) -> bool {
        match self.phase {
            Phase::Search { pos, step } => {
                let mut level = true;
                for (k, s) in self.slaves.iter().enumerate() {
                    if self.active[k] {
                        let b = rom_bit(&s.rom, pos);
                        let out = if step == 0 { b } else { !b };
                        level &= out;
                    }
                }
                self.phase = Phase::Search { pos, step: step + 1 };
                level
            }
            Phase::ReadScratchpad => {
                let bit = match self.selected {
                    Some(k) if self.sent < 72 => {
                        let sp = &self.slaves[k].scratchpad;
                        sp[self.sent / 8] >> (self.sent % 8) & 1 == 1
                    }
                    _ => true,
                };
                self.sent += 1;
                bit
            }
            _ => true,
        }
    }

    fn receive(&mut self, bit: bool) {
        match self.phase {
            Phase::RomCommand => {
                self.received.push(bit);
                if self.received.len() == 8 {
                    let cmd = bits_to_byte(&self.received);
                    self.received.clear();
                    self.commands.push(cmd);
                    self.phase = match cmd {
                        0xF0 => Phase::Search { pos: 0, step: 0 },
                        0xEC => {
                            for (k, s) in self.slaves.iter().enumerate() {
                                if !s.alarm {
                                    self.active[k] = false;
                                }
                            }
                            Phase::Search { pos: 0, step: 0 }
                        }
                        0x55 => Phase::MatchRom,
                        _ => Phase::Idle,
                    };
                }
            }
            Phase::Search { pos, .. } => {
                for (k, s) in self.slaves.iter().enumerate() {
                    if rom_bit(&s.rom, pos) != bit {
                        self.active[k] = false;
                    }
                }
                self.phase = if pos + 1 == 64 { Phase::Idle } else { Phase::Search { pos: pos + 1, step: 0 } };
            }
            Phase::MatchRom => {
                self.received.push(bit);
                if self.received.len() == 64 {
                    let mut rom = [0u8; 8];
                    for (i, byte) in rom.iter_mut().enumerate() {
                        *byte = bits_to_byte(&self.received[i * 8..i * 8 + 8]);
                    }
                    self.received.clear();
                    self.selected = self.slaves.iter().position(|s| s.rom == rom);
                    self.phase = Phase::Function;
                }
            }
            Phase::Function => {
                self.received.push(bit);
                if self.received.len() == 8 {
                    let cmd = bits_to_byte(&self.received);
                    self.received.clear();
                    self.commands.push(cmd);
                    self.phase = match cmd {
                        0xBE => {
                            self.sent = 0;
                            Phase::ReadScratchpad
                        }
                        0x44 => {
                            self.conversions += 1;
                            Phase::Idle
                        }
                        _ => Phase::Idle,
                    };
                }
            }
            _ => {}
        }
    }
}

/// An open-drain line with simulated devices on it, decoded by pulse length.
#[derive(Clone)]
struct SimPin(Rc<RefCell<BusState>>);

impl SimPin {
    fn new(clock: &Clock, slaves: Vec<Slave>) -> SimPin {
        let n = slaves.len();
        SimPin(Rc::new(RefCell::new(BusState {
            clock: clock.clone(),
            slaves,
            stuck_low: false,
            driven_low: false,
            low_since: 0,
            reset_released: None,
            phase: Phase::Idle,
            received: Vec::new(),
            active: vec![true; n],
            selected: None,
            sent: 0,
            pending_read: None,
            commands: Vec::new(),
            conversions: 0,
        })))
    }
}

impl OpenDrainOutput for SimPin {
    type Error = ();

    fn is_high(&mut self) -> Result<bool, ()> {
        let mut s = self.0.borrow_mut();
        if s.stuck_low || s.driven_low {
            return Ok(false);
        }
        if let Some(v) = s.pending_read.take() {
            return Ok(v);
        }
        if let Some(t) = s.reset_released {
            let since = s.clock.now() - t;
            if since >= 15 && since < 240 && !s.slaves.is_empty() {
                return Ok(false);
            }
        }
        Ok(true)
    }

    fn is_low(&mut self) -> Result<bool, ()> {
        self.is_high().map(|h| !h)
    }

    fn set_low(&mut self) -> Result<(), ()> {
        let mut s = self.0.borrow_mut();
        if !s.driven_low {
            s.driven_low = true;
            s.low_since = s.clock.now();
            s.reset_released = None;
            if s.transmitting() {
                let bit = s.next_out_bit();
                s.pending_read = Some(bit);
            }
        }
        Ok(())
    }

    fn set_high(&mut self) -> Result<(), ()> {
        let mut s = self.0.borrow_mut();
        if !s.driven_low {
            return Ok(());
        }
        s.driven_low = false;
        let now = s.clock.now();
        let pulse = now - s.low_since;
        if pulse >= 480 {
            let n = s.slaves.len();
            s.reset_released = Some(now);
            s.phase = Phase::RomCommand;
            s.received.clear();
            s.active = vec![true; n];
            s.pending_read = None;
        } else if s.pending_read.is_none() && !s.transmitting() {
            s.receive(pulse < 15);
        }
        Ok(())
    }
}

fn setup(slaves: Vec<Slave>) -> (SimPin, OneWire<SimPin>, SimDelay) {
    let clock = Clock(Rc::new(Cell::new(0)));
    let pin = SimPin::new(&clock, slaves);
    let wire = OneWire::new(pin.clone(), false);
    (pin, wire, SimDelay(clock))
}

fn slave(rom: [u8; 8]) -> Slave {
    Slave { rom, scratchpad: [0; 9], alarm: false }
}

/// An address whose last byte is the CRC-8 of the seven before it.
fn with_crc(rom: [u8; 8]) -> [u8; 8] {
    let mut device = Device { address: rom };
    device.address[7] = device.address_crc();
    assert!(device.has_valid_crc());
    device.address
}

fn search_order_key(rom: &[u8; 8]) -> Vec<bool> {
    (0..64).map(|i| rom_bit(rom, i)).collect()
}

#[test]
fn reset_without_devices_reports_no_presence() {
    let (_pin, mut wire, mut delay) = setup(vec![]);
    assert_eq!(wire.reset(&mut delay).ok(), Some(false));
}

#[test]
fn reset_with_a_device_reports_presence() {
    let (_pin, mut wire, mut delay) = setup(vec![slave([0x28, 1, 2, 3, 4, 5, 6, 7])]);
    assert_eq!(wire.reset(&mut delay).ok(), Some(true));
}

#[test]
fn reset_on_a_stuck_line_fails() {
    let (pin, mut wire, mut delay) = setup(vec![slave([0x28, 1, 2, 3, 4, 5, 6, 7])]);
    pin.0.borrow_mut().stuck_low = true;
    assert!(matches!(wire.reset(&mut delay), Err(Error::WireNotHigh)));
    // the poll gives up after 125 tries, 2 µs apart
    assert_eq!(delay.0.now(), 250);
}

#[test]
fn search_finds_every_device_once_in_ascending_order() {
    let roms = [
        with_crc([0x28, 0xFF, 0x64, 0x1E, 0x0F, 0x16, 0x03, 0]),
        with_crc([0x28, 0x01, 0x00, 0x00, 0x00, 0x00, 0x00, 0]),
        with_crc([0x10, 0xAA, 0x55, 0x00, 0x12, 0x34, 0x56, 0]),
        with_crc([0x28, 0x01, 0x00, 0x00, 0x00, 0x00, 0x80, 0]),
        with_crc([0x01, 0x00, 0x00, 0x00, 0x00, 0x00, 0x00, 0]),
    ];
    let (_pin, mut wire, mut delay) = setup(roms.iter().map(|r| slave(*r)).collect());
    let mut search = DeviceSearch::new();
    let mut found = Vec::new();
    while let Some(device) = wire.search_next(&mut search, &mut delay).unwrap() {
        found.push(device.address);
        assert!(found.len() <= roms.len(), "the search does not end");
    }
    let mut expected: Vec<[u8; 8]> = roms.to_vec();
    expected.sort_by_key(search_order_key);
    assert_eq!(found, expected);
    // once ended, the search stays ended
    let before = format!("{:?}", search);
    for _ in 0..3 {
        assert_eq!(wire.search_next(&mut search, &mut delay).unwrap(), None);
        assert_eq!(format!("{:?}", search), before);
    }
}

#[test]
fn default_search_is_a_fresh_search() {
    let rom = with_crc([0x28, 0x10, 0x20, 0x30, 0x40, 0x50, 0x60, 0]);
    let (_pin, mut wire, mut delay) = setup(vec![slave(rom)]);
    let mut search = DeviceSearch::default();
    assert_eq!(format!("{:?}", search), format!("{:?}", DeviceSearch::new()));
    assert_eq!(wire.search_next(&mut search, &mut delay).unwrap(), Some(Device { address: rom }));
}

#[test]
fn search_with_one_device() {
    let rom = with_crc([0x28, 0x10, 0x20, 0x30, 0x40, 0x50, 0x60, 0]);
    let (_pin, mut wire, mut delay) = setup(vec![slave(rom)]);
    let mut search = DeviceSearch::new();
    let first = wire.search_next(&mut search, &mut delay).unwrap();
    assert_eq!(first, Some(Device { address: rom }));
    assert_eq!(wire.search_next(&mut search, &mut delay).unwrap(), None);
}

#[test]
fn search_on_an_empty_bus_finds_nothing() {
    let (_pin, mut wire, mut delay) = setup(vec![]);
    let mut search = DeviceSearch::new();
    assert_eq!(wire.search_next(&mut search, &mut delay).unwrap(), None);
    assert_eq!(search.last_discrepancy(), None);
}

fn sensor_rig(temperature: u16) -> (SimPin, OneWire<SimPin>, SimDelay, DS18B20, [u8; 9]) {
    let rom_bytes = [0x28, 0x61, 0x64, 0x12, 0x3C, 0x7B, 0x2A, 0x00];
    let device = Device { address: rom_bytes };
    let mut scratchpad = [temperature as u8, (temperature >> 8) as u8, 0x4B, 0x46, 0x7F, 0xFF, 0x0C, 0x10, 0];
    scratchpad[8] = compute_crc8(&device, &scratchpad[..8]);
    let other = Slave { rom: [0x28, 1, 2, 3, 4, 5, 6, 7], scratchpad: [0xFF; 9], alarm: false };
    let (pin, wire, delay) = setup(vec![other, Slave { rom: rom_bytes, scratchpad, alarm: false }]);
    let sensor = DS18B20::new(device).ok().unwrap();
    (pin, wire, delay, sensor, scratchpad)
}

#[test]
fn sensor_measures_and_reads_the_selected_device() {
    let (pin, mut wire, mut delay, sensor, _) = sensor_rig(0x0191);
    let resolution = sensor.measure_temperature(&mut wire, &mut delay).ok().unwrap();
    assert!(matches!(resolution, MeasureResolution::TC));
    assert_eq!(pin.0.borrow().conversions, 1);
    assert_eq!(sensor.start_measurement(&mut wire, &mut delay).ok(), Some(750));
    let raw = sensor.read_temperature(&mut wire, &mut delay).ok().unwrap();
    assert_eq!(raw, 0x0191);
    assert_eq!(pin.0.borrow().selected, Some(1));
    assert_eq!(pin.0.borrow().commands, vec![0x55, 0x44, 0x55, 0x44, 0x55, 0xBE]);
    assert_eq!(sensor.read_measurement_raw(&mut wire, &mut delay).ok(), Some(0x0191));
}

#[test]
fn sensor_reports_a_corrupted_scratchpad() {
    let (pin, mut wire, mut delay, sensor, scratchpad) = sensor_rig(0xFC90);
    assert_eq!(sensor.read_temperature(&mut wire, &mut delay).ok(), Some(0xFC90));
    pin.0.borrow_mut().slaves[1].scratchpad[3] ^= 0x40;
    let mut bad = scratchpad;
    bad[3] ^= 0x40;
    let computed = compute_crc8(&Device { address: pin.0.borrow().slaves[1].rom }, &bad[..8]);
    match sensor.read_temperature(&mut wire, &mut delay) {
        Err(Error::CrcMismatch { computed: c, expected: e }) => {
            assert_eq!(c, computed);
            assert_eq!(e, scratchpad[8]);
        }
        _ => panic!("a corrupted scratchpad was accepted"),
    }
}

#[test]
fn transaction_writes_and_reads_bytes() {
    let (pin, mut wire, mut delay, _sensor, scratchpad) = sensor_rig(0x0550);
    let device = Device { address: pin.0.borrow().slaves[1].rom };
    let mut read = [0u8; 9];
    assert!(wire.reset_select_write_read(&mut delay, &device, &[0xBE], &mut read).is_ok());
    assert_eq!(read, scratchpad);
    assert!(wire.reset_select_write_only(&mut delay, &device, &[0x44]).is_ok());
    assert_eq!(pin.0.borrow().conversions, 1);
}

#[test]
fn alarm_search_finds_only_alarmed_devices() {
    let roms = [
        with_crc([0x28, 0x11, 0, 0, 0, 0, 0, 0]),
        with_crc([0x28, 0x22, 0, 0, 0, 0, 0, 0]),
        with_crc([0x28, 0x33, 0, 0, 0, 0, 0, 0]),
    ];
    let slaves = roms
        .iter()
        .enumerate()
        .map(|(k, r)| Slave { rom: *r, scratchpad: [0; 9], alarm: k != 1 })
        .collect();
    let (_pin, mut wire, mut delay) = setup(slaves);
    let mut search = DeviceSearch::new();
    let mut found = Vec::new();
    while let Some(device) = wire.search_next_alarmed(&mut search, &mut delay).unwrap() {
        found.push(device.address);
        assert!(found.len() <= 2, "the search does not end");
    }
    let mut expected = vec![roms[0], roms[2]];
    expected.sort_by_key(search_order_key);
    assert_eq!(found, expected);
}

/// A line whose driver fails once it has been used a given number of times.
struct FailingPin {
    calls_left: usize,
}

impl OpenDrainOutput for FailingPin {
    type Error = &'static str;

    fn is_high(&mut self) -> Result<bool, &'static str> {
        self.step().map(|_| true)
    }

    fn is_low(&mut self) -> Result<bool, &'static str> {
        self.step().map(|_| false)
    }

    fn set_low(&mut self) -> Result<(), &'static str> {
        self.step()
    }

    fn set_high(&mut self) -> Result<(), &'static str> {
        self.step()
    }
}

impl FailingPin {
    fn step(&mut self) -> Result<(), &'static str> {
        if self.calls_left == 0 {
            return Err("pin failed");
        }
        self.calls_left -= 1;
        Ok(())
    }
}

#[test]
fn a_failing_pin_surfaces_as_port_error() {
    let clock = Clock(Rc::new(Cell::new(0)));
    let mut delay = SimDelay(clock);
    for calls in 0..6 {
        let mut wire = OneWire::new(FailingPin { calls_left: calls }, false);
        assert_eq!(wire.reset(&mut delay), Err(Error::PortError("pin failed")), "after {} calls", calls);
    }
    let mut wire = OneWire::new(FailingPin { calls_left: 0 }, false);
    let device = Device { address: [0x28, 1, 2, 3, 4, 5, 6, 7] };
    assert!(matches!(wire.select(&mut delay, &device), Err(Error::PortError(_))));
    assert_eq!(wire.write_bytes(&mut delay, &[1, 2]), Err("pin failed"));
}

#[test]
fn search_reports_an_address_with_a_bad_crc() {
    let good = with_crc([0x28, 0x01, 0x02, 0x03, 0x04, 0x05, 0x06, 0]);
    let mut bad = with_crc([0x28, 0x81, 0x02, 0x03, 0x04, 0x05, 0x06, 0]);
    bad[7] ^= 0x01;
    let (_pin, mut wire, mut delay) = setup(vec![slave(good), slave(bad)]);
    let mut search = DeviceSearch::new();
    // `good` comes first in search order: bit 15 is 0 for it and 1 for `bad`
    assert_eq!(wire.search_next(&mut search, &mut delay).unwrap(), Some(Device { address: good }));
    let computed = Device { address: bad }.address_crc();
    let before = format!("{:?}", search);
    assert_eq!(
        wire.search_next(&mut search, &mut delay),
        Err(Error::CrcMismatch { computed, expected: bad[7] })
    );
    // the cursor stays where it was, so a retry walks the same path again
    assert_eq!(format!("{:?}", search), before);
    assert_eq!(
        wire.search_next(&mut search, &mut delay),
        Err(Error::CrcMismatch { computed, expected: bad[7] })
    );
}

#[test]
fn family_search_finds_only_that_family() {
    let roms = [
        with_crc([0x28, 0x51, 0x02, 0, 0, 0, 0, 0]),
        with_crc([0x10, 0x01, 0x02, 0, 0, 0, 0, 0]),
        with_crc([0x28, 0x01, 0x07, 0, 0, 0, 0, 0]),
        with_crc([0x01, 0xAA, 0x02, 0, 0, 0, 0, 0]),
        with_crc([0x29, 0x01, 0x02, 0, 0, 0, 0, 0]),
    ];
    let (_pin, mut wire, mut delay) = setup(roms.iter().map(|r| slave(*r)).collect());
    let mut search = DeviceSearch::new_for_family(0x28);
    let mut found = Vec::new();
    while let Some(device) = wire.search_next(&mut search, &mut delay).unwrap() {
        assert_eq!(device.family_code(), 0x28);
        found.push(device.address);
        assert!(found.len() <= 2, "the search does not end");
    }
    let mut expected = vec![roms[0], roms[2]];
    expected.sort_by_key(search_order_key);
    assert_eq!(found, expected);
    assert_eq!(wire.search_next(&mut search, &mut delay).unwrap(), None);
}

#[test]
fn family_search_without_such_devices_finds_nothing() {
    let roms = [with_crc([0x10, 0x01, 0x02, 0, 0, 0, 0, 0])];
    let (_pin, mut wire, mut delay) = setup(roms.iter().map(|r| slave(*r)).collect());
    let mut search = DeviceSearch::new_for_family(0x28);
    assert_eq!(wire.search_next(&mut search, &mut delay).unwrap(), None);
}
