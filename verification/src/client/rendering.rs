//! What the heads-up display shows, decided from the netcode state; drawing
//! it is left to the renderer.

use vstd::prelude::*;

verus! {

/// The netcode state a frame is rendered with.
#[derive(Debug, Clone, Copy, PartialEq, Eq, Structural)]
pub struct RenderConfig {
    pub client_id: Option<u32>,
    pub prediction_enabled: bool,
    pub reconciliation_enabled: bool,
    pub interpolation_enabled: bool,
    pub ping_ms: u64,
    pub fake_ping_ms: u64,
}

/// The netcode state and player count shown in the heads-up display.
#[derive(Debug, Clone, Copy, PartialEq, Eq, Structural)]
pub struct UiConfig {
    pub client_id: Option<u32>,
    pub prediction_enabled: bool,
    pub reconciliation_enabled: bool,
    pub interpolation_enabled: bool,
    pub ping_ms: u64,
    pub fake_ping_ms: u64,
    pub player_count: usize,
}

/// How good a ping is: below 50 ms, below 100 ms, or worse.
#[derive(Debug, Clone, Copy, PartialEq, Eq, Structural)]
pub enum PingQuality {
    Good,
    Fair,
    Poor,
}

/// The colors of the small squares that mark player ids.
#[derive(Debug, Clone, Copy, PartialEq, Eq, Structural)]
pub enum IdColor {
    White,
    Red,
    Green,
    Blue,
    Yellow,
    Magenta,
    Cyan,
    Gray,
}

/// What the heads-up display shows.
#[derive(Debug, Clone, Copy, PartialEq, Eq, Structural)]
pub struct UiSummary {
    /// Connected (an id is assigned); otherwise a reconnect hint is shown.
    pub connected: bool,
    /// The ping shown: the artificial latency when one is set, else the
    /// measured ping.
    pub total_ping_ms: u64,
    /// How many of the ten ping bars are lit: one per 20 ms.
    pub ping_bars: i32,
    pub ping_quality: PingQuality,
    /// How many player squares are drawn: one per player, at most eight.
    pub player_squares: usize,
}

/// The number of ping bars.
pub const PING_BAR_COUNT: u64 = 10;

/// The quality class of a ping of `ms` milliseconds.
pub open spec fn spec_ping_quality(ms: u64) -> PingQuality {
    if ms < 50 {
        PingQuality::Good
    } else if ms < 100 {
        PingQuality::Fair
    } else {
        PingQuality::Poor
    }
}

/// What the heads-up display shows for `config`.
pub fn ui_summary(config: &UiConfig) -> (r: UiSummary)
    ensures
        r.connected == (config.client_id is Some),
        r.total_ping_ms == if config.fake_ping_ms > 0 {
            config.fake_ping_ms
        } else {
            config.ping_ms
        },
        r.ping_bars == if r.total_ping_ms / 20 <= PING_BAR_COUNT {
            r.total_ping_ms / 20
        } else {
            PING_BAR_COUNT
        },
        r.ping_quality == spec_ping_quality(r.total_ping_ms),
        r.player_squares == if config.player_count <= 8 {
            config.player_count
        } else {
            8
        },
{
    let total_ping_ms = if config.fake_ping_ms > 0 {
        config.fake_ping_ms
    } else {
        config.ping_ms
    };
    let bars: u64 = if total_ping_ms / 20 <= PING_BAR_COUNT {
        total_ping_ms / 20
    } else {
        PING_BAR_COUNT
    };
    let ping_quality = if total_ping_ms < 50 {
        PingQuality::Good
    } else if total_ping_ms < 100 {
        PingQuality::Fair
    } else {
        PingQuality::Poor
    };
    UiSummary {
        connected: config.client_id.is_some(),
        total_ping_ms,
        ping_bars: bars as i32,
        ping_quality,
        player_squares: if config.player_count <= 8 {
            config.player_count
        } else {
            8
        },
    }
}

/// The color marking player `id`: white, red, green, blue, yellow, magenta,
/// cyan, gray, cycled by id.
pub fn player_id_color(id: u32) -> (r: IdColor)
    ensures
        r == match id % 8 {
            0 => IdColor::White,
            1 => IdColor::Red,
            2 => IdColor::Green,
            3 => IdColor::Blue,
            4 => IdColor::Yellow,
            5 => IdColor::Magenta,
            6 => IdColor::Cyan,
            _ => IdColor::Gray,
        },
{
    match id % 8 {
        0 => IdColor::White,
        1 => IdColor::Red,
        2 => IdColor::Green,
        3 => IdColor::Blue,
        4 => IdColor::Yellow,
        5 => IdColor::Magenta,
        6 => IdColor::Cyan,
        _ => IdColor::Gray,
    }
}

} // verus!
