//! The ESP32 backend: displays found over mDNS and driven over HTTP.
use vstd::prelude::*;
use crate::discovery::{self, DisplayInfo, is_all_target, target_matches};
use crate::error::PaintressError;

verus! {

/// ESP32-based backend: mDNS discovery, HTTP transport, espota/esptool OTA.
pub struct Esp32Backend;

impl Esp32Backend {
    /// The backend.
    pub fn new() -> (b: Self) {
        Esp32Backend
    }

    /// Resolve a user-supplied target ("all", an id, a hostname or its prefix,
    /// an IP) to matching displays; ESP32 displays match as `discovery::resolve_target` says.
    pub fn resolve_target<'a>(&self, displays: &'a [DisplayInfo], target: &str) -> (r: Result<
        Vec<&'a DisplayInfo>,
        PaintressError,
    >)
        ensures
            is_all_target(target@) ==> match r {
                Ok(v) => displays@.len() > 0 && v@.len() == displays@.len() && forall|i: int|
                    0 <= i < v@.len() ==> *v@[i] == displays@[i],
                Err(e) => displays@.len() == 0 && e is NoDisplaysFound,
            },
            !is_all_target(target@) ==> match r {
                Ok(v) => v@.len() == 1 && exists|i: int|
                    0 <= i < displays@.len() && target_matches(displays@[i], target@) && (forall|
                        j: int,
                    |
                        0 <= j < i ==> !target_matches(#[trigger] displays@[j], target@))
                        && *v@[0] == displays@[i],
                Err(e) => {
                    &&& forall|i: int|
                        0 <= i < displays@.len() ==> !target_matches(
                            #[trigger] displays@[i],
                            target@,
                        )
                    &&& e matches PaintressError::DisplayNotFound(s) && s@ == target@
                },
            },
    {
        discovery::resolve_target(displays, target)
    }
}

} // verus!
