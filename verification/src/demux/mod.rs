//! Containers: from file bytes to codec packets.
pub mod container_laws;
pub mod ds2;
pub mod dss;
pub mod dss_laws;
pub mod framing;
pub mod grundig;
pub mod packet;

use crate::bytes;
use vstd::prelude::*;

verus! {

/// The formats that a file can have.
#[derive(Debug, Clone, Copy, PartialEq, Eq, Structural)]
pub enum AudioFormat {
    DssSp,
    Ds2Sp,
    Ds2Qp,
    Ds2Qp7,
    GrundigSp,
}

/// The samples per second of a format.
pub open spec fn rate_of(format: AudioFormat) -> u32 {
    match format {
        AudioFormat::DssSp => 11025,
        AudioFormat::Ds2Sp => 12000,
        AudioFormat::Ds2Qp => 16000,
        AudioFormat::Ds2Qp7 => 16000,
        AudioFormat::GrundigSp => 16000,
    }
}

impl AudioFormat {
    /// The samples per second that the decoder gives.
    pub fn native_sample_rate(&self) -> (r: u32)
        ensures
            r == rate_of(*self),
    {
        match self {
            AudioFormat::DssSp => 11025,
            AudioFormat::Ds2Sp => 12000,
            AudioFormat::Ds2Qp => 16000,
            AudioFormat::Ds2Qp7 => 16000,
            AudioFormat::GrundigSp => 16000,
        }
    }
}

/// The format of a DS2 file, from the mode byte of its first block.
pub open spec fn ds2_format(mode: u8) -> AudioFormat {
    if mode == 7 {
        AudioFormat::Ds2Qp7
    } else if mode >= 6 {
        AudioFormat::Ds2Qp
    } else {
        AudioFormat::Ds2Sp
    }
}

/// The format of a file. A DS2 file that ends before its first mode byte counts as SP.
pub open spec fn format_of(data: Seq<u8>) -> Option<AudioFormat> {
    if data.len() < 4 {
        None
    } else if data[1] == 0x64 && data[2] == 0x73 && data[3] == 0x73 {
        if data[0] == 2 || data[0] == 3 {
            Some(AudioFormat::DssSp)
        } else if data[0] == 6 {
            Some(AudioFormat::GrundigSp)
        } else {
            None
        }
    } else if data[0] == 3 && ((data[1] == 0x64 && data[2] == 0x73 && data[3] == 0x32) || (data[1]
        == 0x65 && data[2] == 0x6e && data[3] == 0x63)) {
        Some(ds2_format(bytes::padded(data, 0x604)))
    } else {
        None
    }
}

/// Detects the format of a file from its bytes.
pub fn detect_format(data: &[u8]) -> (r: Option<AudioFormat>)
    ensures
        r == format_of(data@),
{
    if data.len() < 4 {
        return None;
    }
    if data[1] == 0x64 && data[2] == 0x73 && data[3] == 0x73 {
        return match data[0] {
            2 | 3 => Some(AudioFormat::DssSp),
            6 => Some(AudioFormat::GrundigSp),
            _ => None,
        };
    }
    let plain: bool = data[1] == 0x64 && data[2] == 0x73 && data[3] == 0x32;
    let encrypted: bool = data[1] == 0x65 && data[2] == 0x6e && data[3] == 0x63;
    if data[0] == 3 && (plain || encrypted) {
        let mode: u8 = if data.len() > 0x604 {
            data[0x604]
        } else {
            0
        };
        if mode == 7 {
            Some(AudioFormat::Ds2Qp7)
        } else if mode >= 6 {
            Some(AudioFormat::Ds2Qp)
        } else {
            Some(AudioFormat::Ds2Sp)
        }
    } else {
        None
    }
}

} // verus!
