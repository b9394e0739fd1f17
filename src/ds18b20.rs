//! The DS18B20 digital thermometer.
use vstd::prelude::*;

use byteorder::ByteOrder;
use core::convert::Infallible;

use crate::bus::{is_transaction, stuck_low_wave, Delay, OneWire, OpenDrainOutput};
use crate::crc::{crc8, ensure_correct_rcr8, lemma_crc8_detects_single_byte_change};
use crate::device::Device;
use crate::error::Error;

verus! {

/// The family code of the DS18B20.
pub const FAMILY_CODE: u8 = 0x28;

/// The function commands of the DS18B20.
#[derive(Debug, Clone, Copy, PartialEq, Eq, Structural)]
pub enum Command {
    Convert,
    WriteScratchpad,
    ReadScratchpad,
    CopyScratchpad,
    RecallE2,
    ReadPowerSupply,
}

impl Command {
    /// The command byte on the wire.
    pub open spec fn spec_code(self) -> u8 {
        match self {
            Command::Convert => 0x44,
            Command::WriteScratchpad => 0x4e,
            Command::ReadScratchpad => 0xBE,
            Command::CopyScratchpad => 0x48,
            Command::RecallE2 => 0xB8,
            Command::ReadPowerSupply => 0xB4,
        }
    }

    /// The command byte on the wire.
    #[verifier::when_used_as_spec(spec_code)]
    pub fn code(self) -> (r: u8)
        ensures
            r == self.spec_code(),
    {
        match self {
            Command::Convert => 0x44,
            Command::WriteScratchpad => 0x4e,
            Command::ReadScratchpad => 0xBE,
            Command::CopyScratchpad => 0x48,
            Command::RecallE2 => 0xB8,
            Command::ReadPowerSupply => 0xB4,
        }
    }
}

/// The resolution of a conversion: 9, 10, 11 or 12 bits, each with its
/// conversion time.
#[derive(Debug, Clone, Copy, PartialEq, Eq, Structural)]
pub enum MeasureResolution {
    TC8,
    TC4,
    TC2,
    TC,
}

impl MeasureResolution {
    /// The conversion time in milliseconds.
    pub open spec fn spec_time_ms(&self) -> u16 {
        match self {
            MeasureResolution::TC8 => 94,
            MeasureResolution::TC4 => 188,
            MeasureResolution::TC2 => 375,
            MeasureResolution::TC => 750,
        }
    }

    /// The value of the configuration register that selects this
    /// resolution.
    pub fn register_value(&self) -> (r: u8)
        ensures
            r == (match self {
                MeasureResolution::TC8 => 0x1Fu8,
                MeasureResolution::TC4 => 0x3Fu8,
                MeasureResolution::TC2 => 0x5Fu8,
                MeasureResolution::TC => 0x7Fu8,
            }),
    {
        match self {
            MeasureResolution::TC8 => 0b0001_1111,
            MeasureResolution::TC4 => 0b0011_1111,
            MeasureResolution::TC2 => 0b0101_1111,
            MeasureResolution::TC => 0b0111_1111,
        }
    }

    /// The conversion time in milliseconds.
    #[verifier::when_used_as_spec(spec_time_ms)]
    pub fn time_ms(&self) -> (r: u16)
        ensures
            r == self.spec_time_ms(),
    {
        match self {
            MeasureResolution::TC8 => 94,
            MeasureResolution::TC4 => 188,
            MeasureResolution::TC2 => 375,
            MeasureResolution::TC => 750,
        }
    }
}

/// A little-endian 16-bit value.
pub open spec fn le_u16(lo: u8, hi: u8) -> u16 {
    (lo as int + 256 * hi as int) as u16
}

/// What a 9-byte scratchpad read from the device at `address` yields: the
/// raw temperature of its first two bytes when its last byte is the CRC-8 of
/// the address and the first eight bytes, else the mismatch.
pub open spec fn scratchpad_reading<E>(address: Seq<u8>, scratchpad: Seq<u8>) -> Result<
    u16,
    Error<E>,
> {
    let computed = crc8(address + scratchpad.take(8));
    if computed == scratchpad[8] {
        Ok(le_u16(scratchpad[0], scratchpad[1]))
    } else {
        Err(Error::CrcMismatch { computed, expected: scratchpad[8] })
    }
}

/// Relies on byteorder's `LittleEndian::read_u16`: the first two bytes of
/// `buf`, least significant first; it panics on fewer than two.
#[verifier::external_body]
fn read_u16_le(buf: &[u8]) -> (r: u16)
    requires
        buf@.len() >= 2,
    ensures
        r == le_u16(buf@[0], buf@[1]),
{
    byteorder::LittleEndian::read_u16(buf)
}

/// A DS18B20 on the bus.
pub struct DS18B20 {
    device: Device,
    resolution: MeasureResolution,
}

impl DS18B20 {
    /// The device this driver talks to.
    pub closed spec fn device(&self) -> Device {
        self.device
    }

    /// The resolution the device converts at.
    pub closed spec fn resolution(&self) -> MeasureResolution {
        self.resolution
    }

    /// A driver for `device` at the highest resolution; refused when the
    /// device is not of the DS18B20 family.
    pub fn new(device: Device) -> (r: Result<DS18B20, Error<Infallible>>)
        ensures
            r is Ok <==> device.address@[0] == FAMILY_CODE,
            r matches Ok(s) ==> s.device() == device && s.resolution() == MeasureResolution::TC,
            r is Err ==> r == Err::<DS18B20, Error<Infallible>>(
                Error::FamilyCodeMismatch { expected: FAMILY_CODE, actual: device.address@[0] },
            ),
    {
        if device.address[0] == FAMILY_CODE {
            Ok(DS18B20 { device, resolution: MeasureResolution::TC })
        } else {
            Err(Error::FamilyCodeMismatch { expected: FAMILY_CODE, actual: device.address[0] })
        }
    }

    /// A driver for `device` at the highest resolution, without checking its
    /// family: the caller vouches that it is a DS18B20.
    pub fn new_forced(device: Device) -> (r: DS18B20)
        ensures
            r.device() == device,
            r.resolution() == MeasureResolution::TC,
    {
        DS18B20 { device, resolution: MeasureResolution::TC }
    }

    /// The family code of the DS18B20.
    pub fn family_code() -> (r: u8)
        ensures
            r == FAMILY_CODE,
    {
        FAMILY_CODE
    }

    /// Starts a conversion: reset, select the device, send Convert. The
    /// caller waits for the resolution's conversion time before reading.
    pub fn measure_temperature<O: OpenDrainOutput, D: Delay>(
        &self,
        wire: &mut OneWire<O>,
        delay: &mut D,
    ) -> (r: Result<MeasureResolution, Error<O::Error>>)
        ensures
            r matches Ok(res) ==> res == self.resolution() && is_transaction(
                old(wire).trace(),
                final(wire).trace(),
                self.device().address@,
                old(wire).parasite(),
                seq![Command::Convert.spec_code()],
                seq![],
            ),
            r matches Err(Error::WireNotHigh) ==> final(wire).trace() == old(wire).trace()
                + stuck_low_wave(),
            r matches Err(e) ==> (e is WireNotHigh || e is PortError),
            final(wire).parasite() == old(wire).parasite(),
    {
        let cmd = [Command::Convert.code()];
        assert(cmd@ =~= seq![Command::Convert.spec_code()]);
        wire.reset_select_write_only(delay, &self.device, &cmd)?;
        Ok(self.resolution)
    }

    /// Starts a conversion and returns the milliseconds to wait for it.
    pub fn start_measurement<O: OpenDrainOutput, D: Delay>(
        &self,
        wire: &mut OneWire<O>,
        delay: &mut D,
    ) -> (r: Result<u16, Error<O::Error>>)
        ensures
            r matches Ok(ms) ==> ms == self.resolution().spec_time_ms() && is_transaction(
                old(wire).trace(),
                final(wire).trace(),
                self.device().address@,
                old(wire).parasite(),
                seq![Command::Convert.spec_code()],
                seq![],
            ),
            r matches Err(Error::WireNotHigh) ==> final(wire).trace() == old(wire).trace()
                + stuck_low_wave(),
            r matches Err(e) ==> (e is WireNotHigh || e is PortError),
            final(wire).parasite() == old(wire).parasite(),
    {
        Ok(self.measure_temperature(wire, delay)?.time_ms())
    }

    /// Reads the scratchpad and returns the raw temperature, a two's
    /// complement count of 1/16 °C, once its CRC-8 checks out.
    pub fn read_temperature<O: OpenDrainOutput, D: Delay>(
        &self,
        wire: &mut OneWire<O>,
        delay: &mut D,
    ) -> (r: Result<u16, Error<O::Error>>)
        ensures
            (r is Ok || r matches Err(Error::CrcMismatch { .. })) ==> exists|sp: Seq<u8>|
                sp.len() == 9 && r == scratchpad_reading::<O::Error>(self.device().address@, sp)
                    && is_transaction(
                    old(wire).trace(),
                    final(wire).trace(),
                    self.device().address@,
                    old(wire).parasite(),
                    seq![Command::ReadScratchpad.spec_code()],
                    sp,
                ),
            r matches Err(Error::WireNotHigh) ==> final(wire).trace() == old(wire).trace()
                + stuck_low_wave(),
            r matches Err(e) ==> (e is WireNotHigh || e is PortError || e is CrcMismatch),
            final(wire).parasite() == old(wire).parasite(),
    {
        let mut scratchpad = [0u8; 9];
        let cmd = [Command::ReadScratchpad.code()];
        assert(cmd@ =~= seq![Command::ReadScratchpad.spec_code()]);
        wire.reset_select_write_read(delay, &self.device, &cmd, &mut scratchpad)?;
        let r = self.temperature_from_scratchpad(&scratchpad);
        assert(is_transaction(
            old(wire).trace(),
            wire.trace(),
            self.device().address@,
            old(wire).parasite(),
            seq![Command::ReadScratchpad.spec_code()],
            scratchpad@,
        ));
        r
    }

    /// Checks a scratchpad read from this device and decodes its raw
    /// temperature.
    pub fn temperature_from_scratchpad<E>(&self, scratchpad: &[u8]) -> (r: Result<u16, Error<E>>)
        requires
            scratchpad@.len() == 9,
        ensures
            r == scratchpad_reading::<E>(self.device().address@, scratchpad@),
    {
        let data = [
            scratchpad[0],
            scratchpad[1],
            scratchpad[2],
            scratchpad[3],
            scratchpad[4],
            scratchpad[5],
            scratchpad[6],
            scratchpad[7],
        ];
        assert(data@ =~= scratchpad@.take(8));
        ensure_correct_rcr8(&self.device, &data, scratchpad[8])?;
        Ok(DS18B20::read_temperature_from_scratchpad(scratchpad))
    }

    /// The raw temperature in the first two bytes of a scratchpad.
    fn read_temperature_from_scratchpad(scratchpad: &[u8]) -> (r: u16)
        requires
            scratchpad@.len() >= 2,
        ensures
            r == le_u16(scratchpad@[0], scratchpad@[1]),
    {
        read_u16_le(scratchpad)
    }

    /// Reads the raw temperature (see [`DS18B20::read_temperature`]).
    pub fn read_measurement_raw<O: OpenDrainOutput, D: Delay>(
        &self,
        wire: &mut OneWire<O>,
        delay: &mut D,
    ) -> (r: Result<u16, Error<O::Error>>)
        ensures
            (r is Ok || r matches Err(Error::CrcMismatch { .. })) ==> exists|sp: Seq<u8>|
                sp.len() == 9 && r == scratchpad_reading::<O::Error>(self.device().address@, sp)
                    && is_transaction(
                    old(wire).trace(),
                    final(wire).trace(),
                    self.device().address@,
                    old(wire).parasite(),
                    seq![Command::ReadScratchpad.spec_code()],
                    sp,
                ),
            r matches Err(Error::WireNotHigh) ==> final(wire).trace() == old(wire).trace()
                + stuck_low_wave(),
            r matches Err(e) ==> (e is WireNotHigh || e is PortError || e is CrcMismatch),
            final(wire).parasite() == old(wire).parasite(),
    {
        self.read_temperature(wire, delay)
    }
}

/// A scratchpad whose last byte was generated as the CRC-8 of the device's
/// address and the first eight bytes passes the check and decodes.
pub proof fn lemma_generated_scratchpad_accepted<E>(address: Seq<u8>, data: Seq<u8>)
    requires
        data.len() == 8,
    ensures
        scratchpad_reading::<E>(address, data.push(crc8(address + data))) == Ok::<u16, Error<E>>(
            le_u16(data[0], data[1]),
        ),
{
    assert(data.push(crc8(address + data)).take(8) =~= data);
}

/// Changing any one byte of a scratchpad that passed its CRC-8 check makes
/// the check fail, and the mismatch reports the CRC-8 of the changed data
/// and the changed check byte.
pub proof fn lemma_corrupted_scratchpad_detected<E>(address: Seq<u8>, sp: Seq<u8>, bad: Seq<u8>, k: int)
    requires
        sp.len() == 9,
        bad.len() == 9,
        0 <= k < 9,
        bad[k] != sp[k],
        forall|i: int| 0 <= i < 9 && i != k ==> bad[i] == sp[i],
        scratchpad_reading::<E>(address, sp) is Ok,
    ensures
        scratchpad_reading::<E>(address, bad) == Err::<u16, Error<E>>(
            Error::CrcMismatch { computed: crc8(address + bad.take(8)), expected: bad[8] },
        ),
{
    let good = address + sp.take(8);
    let changed = address + bad.take(8);
    if k < 8 {
        assert forall|i: int| 0 <= i < good.len() && i != address.len() + k implies good[i]
            == changed[i] by {
            if i >= address.len() {
                assert(good[i] == sp[i - address.len()]);
                assert(changed[i] == bad[i - address.len()]);
            }
        }
        lemma_crc8_detects_single_byte_change(good, changed, address.len() + k);
    } else {
        assert(good =~= changed);
    }
}

/// A raw temperature as the signed count of 1/16 °C it encodes in two's
/// complement.
pub open spec fn raw_sixteenths(temperature: u16) -> int {
    if temperature < 0x8000 {
        temperature as int
    } else {
        temperature as int - 0x10000
    }
}

/// Splits a raw temperature (two's complement, 1/16 °C) into a whole part
/// and a fraction in 1/10000 °C: both carry the sign of the temperature, and
/// `whole + fraction / 10000` is the exact value.
pub fn split_temp(temperature: u16) -> (r: (i16, i16))
    ensures
        r.0 as int * 10000 + r.1 as int == raw_sixteenths(temperature) * 625,
        -10000 < r.1 < 10000,
        raw_sixteenths(temperature) >= 0 ==> r.0 >= 0 && r.1 >= 0,
        raw_sixteenths(temperature) < 0 ==> r.0 <= 0 && r.1 <= 0,
{
    let value: i32 = if temperature < 0x8000 {
        temperature as i32
    } else {
        temperature as i32 - 0x10000
    };
    if value >= 0 {
        let whole: i32 = value / 16;
        let fraction: i32 = value % 16 * 625;
        (whole as i16, fraction as i16)
    } else {
        let abs: i32 = -value;
        let whole: i32 = abs / 16;
        let fraction: i32 = abs % 16 * 625;
        (-whole as i16, -fraction as i16)
    }
}

} // verus!
