//! A bit-banged 1-Wire bus master over a single open-drain pin, with the
//! ROM search algorithm, CRC-8 validation and a DS18B20 temperature driver.
//!
//! The timing of each bus slot is stated over a ghost trace of pin events,
//! the search cursor is modelled bit by bit (with a proof that successive
//! searches enumerate every device once, in order), and the checksum is
//! stated as the Dallas/Maxim CRC-8 it computes.
pub mod bus;
pub mod crc;
pub mod device;
pub mod ds18b20;
pub mod enumeration;
pub mod error;
pub mod search;

pub use crate::bus::{BusEvent, Command, Delay, OneWire, OpenDrainOutput};
pub use crate::crc::{compute_crc8, ensure_correct_rcr8};
pub use crate::device::{Device, MalformedAddress, ADDRESS_BITS, ADDRESS_BYTES};
pub use crate::ds18b20::DS18B20;
pub use crate::error::Error;
pub use crate::search::{DeviceSearch, SearchState, SearchView};
