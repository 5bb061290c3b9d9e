//! The credits screen's textual content.  The drawing shell around it —
//! fonts, the return button, the screen stack — is presentation and stays
//! outside the engine; this is only the state it reads.

use vstd::prelude::*;

verus! {

/// The message the credits screen shows.  The version is written out here
/// because a compile-time environment lookup cannot stand in verified
/// source; it matches the crate's own version.
pub const CREDITS_TEXT: &'static str = "HAXAGON v0.1.0\nA FALLING COLORS GAME BY PETRAKAT\nWRITTEN IN RUST WITH MACROQUAD\n\nSPECIAL THANKS TO:\n- FEDOR FOR MAKING MACROQUAD AND \n  PROVIDING TECH SUPPORT\n- DPC FOR THEIR HEX_2D CRATE\n  AND REDBLOBGAMES FOR THEIR HEX\n  GRID ARTICLE, FOR FUELING MY\n  HEXAGON ADDICTION\n- ZACH BARTH FOR MAKING HACK*MATCH\n  AND JONATHON BLOW FOR MAKING\n  THE WITNESS, THE TWO MAIN \n  INSPIRATIONS FOR THIS GAME\n- CASS CUTTLEFISH FOR WRITING HER\n  GUEST TRACK, <name todo>\n\nTHIS GAME IS OPEN SOURCE ON GITHUB\nGITHUB.COM/GAMMA-DELTA/HAXAGON";

/// The credits screen: a fixed message to display.
pub struct ModeCredits {
    pub message: &'static str,
}

impl ModeCredits {
    pub fn new() -> (r: ModeCredits)
        ensures
            r.message == CREDITS_TEXT,
    {
        ModeCredits { message: CREDITS_TEXT }
    }
}

} // verus!
