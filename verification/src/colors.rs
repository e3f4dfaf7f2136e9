//! Color scheme of the explorer: light and dark palettes. A color is packed
//! as `0xRRGGBBAA`.

use vstd::prelude::*;

verus! {

/// Color scheme for the explorer UI, in a light and a dark palette.
pub struct ExplorerColors;

impl ExplorerColors {
    // Light mode colors
    pub const BACKGROUND: u32 = 0xF8F8F8FF;
    pub const CARD_BACKGROUND: u32 = 0xFFFFFFFF;
    pub const SIDEBAR: u32 = 0xF2F2F7FF;
    pub const PRIMARY: u32 = 0x007AFFFF;
    pub const PRIMARY_HOVER: u32 = 0x0066D9FF;
    pub const SUCCESS: u32 = 0x34C759FF;
    pub const WARNING: u32 = 0xFF9500FF;
    pub const ERROR: u32 = 0xFF3B30FF;
    pub const TEXT_PRIMARY: u32 = 0x1C1C1EFF;
    pub const TEXT_SECONDARY: u32 = 0x3C3C43FF;
    pub const SEPARATOR: u32 = 0x0000001A;
    pub const SELECTED_BACKGROUND: u32 = 0x007AFF19;
    pub const TEXT_TERTIARY: u32 = 0x636366FF;
    pub const SURFACE: u32 = 0xFAFAFAFF;
    // Dark mode colors
    pub const DARK_BACKGROUND: u32 = 0x2D2D2DFF;
    pub const DARK_CARD_BACKGROUND: u32 = 0x4B4B4BFF;
    pub const DARK_SIDEBAR: u32 = 0x373737FF;
    pub const DARK_PRIMARY: u32 = 0x0A84FFFF;
    pub const DARK_PRIMARY_HOVER: u32 = 0x409CFFFF;
    pub const DARK_SUCCESS: u32 = 0x30D158FF;
    pub const DARK_WARNING: u32 = 0xFF9F0AFF;
    pub const DARK_ERROR: u32 = 0xFF453AFF;
    pub const DARK_TEXT_PRIMARY: u32 = 0xFFFFFFFF;
    pub const DARK_TEXT_SECONDARY: u32 = 0xC8C8C8FF;
    pub const DARK_SEPARATOR: u32 = 0xFFFFFF1E;
    pub const DARK_SELECTED_BACKGROUND: u32 = 0x0A84FF28;
    pub const DARK_TEXT_TERTIARY: u32 = 0xB4B4B4FF;
    pub const DARK_SURFACE: u32 = 0x3C3C3CFF;
}

/// The red, green, blue and alpha channels of a packed color.
pub open spec fn spec_channels(c: u32) -> (u8, u8, u8, u8) {
    ((c / 0x1000000) as u8, ((c / 0x10000) % 256) as u8, ((c / 0x100) % 256) as u8, (c % 256) as u8)
}

/// The red, green, blue and alpha channels of a packed color.
pub fn channels(c: u32) -> (res: (u8, u8, u8, u8))
    ensures
        res == spec_channels(c),
{
    ((c / 0x1000000) as u8, ((c / 0x10000) % 256) as u8, ((c / 0x100) % 256) as u8, (c % 256) as u8)
}

} // verus!
