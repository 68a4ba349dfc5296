//! Marker codes (Table A.2).
use vstd::prelude::*;

verus! {

/// Start of codestream - 'SOC'.
pub const SOC: u8 = 0x4F;
/// Start of tile-part - 'SOT'.
pub const SOT: u8 = 0x90;
/// Start of data - 'SOD'.
pub const SOD: u8 = 0x93;
/// End of codestream - 'EOC'.
pub const EOC: u8 = 0xD9;
/// Image and tile size - 'SIZ'.
pub const SIZ: u8 = 0x51;
/// Coding style default - 'COD'.
pub const COD: u8 = 0x52;
/// Coding component - 'COC'.
pub const COC: u8 = 0x53;
/// Region-of-interest - 'RGN'.
pub const RGN: u8 = 0x5E;
/// Quantization default - 'QCD'.
pub const QCD: u8 = 0x5C;
/// Quantization component - 'QCC'.
pub const QCC: u8 = 0x5D;
/// Progression order change - 'POC'.
pub const POC: u8 = 0x5F;
/// Tile-part lengths - 'TLM'.
pub const TLM: u8 = 0x55;
/// Packet length, main header - 'PLM'.
pub const PLM: u8 = 0x57;
/// Packet length, tile-part header - 'PLT'.
pub const PLT: u8 = 0x58;
/// Packed packet headers, main header - 'PPM'.
pub const PPM: u8 = 0x60;
/// Packed packet headers, tile-part header - 'PPT'.
pub const PPT: u8 = 0x61;
/// Start of packet - 'SOP'.
pub const SOP: u8 = 0x91;
/// End of packet header - 'EPH'.
pub const EPH: u8 = 0x92;
/// Component registration - 'CRG'.
pub const CRG: u8 = 0x63;
/// Comment - 'COM'.
pub const COM: u8 = 0x64;

/// The three-letter name of a marker code.
pub open spec fn marker_name(marker: u8) -> &'static str {
    if marker == SOC { "SOC" }
    else if marker == SOT { "SOT" }
    else if marker == SOD { "SOD" }
    else if marker == EOC { "EOC" }
    else if marker == SIZ { "SIZ" }
    else if marker == COD { "COD" }
    else if marker == COC { "COC" }
    else if marker == RGN { "RGN" }
    else if marker == QCD { "QCD" }
    else if marker == QCC { "QCC" }
    else if marker == POC { "POC" }
    else if marker == TLM { "TLM" }
    else if marker == PLM { "PLM" }
    else if marker == PLT { "PLT" }
    else if marker == PPM { "PPM" }
    else if marker == PPT { "PPT" }
    else if marker == SOP { "SOP" }
    else if marker == EPH { "EPH" }
    else if marker == CRG { "CRG" }
    else if marker == COM { "COM" }
    else { "UNKNOWN" }
}

/// The name of a marker code, or "UNKNOWN".
pub fn to_string(marker: u8) -> (r: &'static str)
    ensures
        r == marker_name(marker),
{
    match marker {
        // Delimiting markers.
        SOC => "SOC",
        SOT => "SOT",
        SOD => "SOD",
        EOC => "EOC",
        // Fixed information.
        SIZ => "SIZ",
        // Functional markers.
        COD => "COD",
        COC => "COC",
        RGN => "RGN",
        QCD => "QCD",
        QCC => "QCC",
        POC => "POC",
        // Pointer markers.
        TLM => "TLM",
        PLM => "PLM",
        PLT => "PLT",
        PPM => "PPM",
        PPT => "PPT",
        // In-bit-stream markers.
        SOP => "SOP",
        EPH => "EPH",
        // Informational markers.
        CRG => "CRG",
        COM => "COM",
        _ => "UNKNOWN",
    }
}

} // verus!
