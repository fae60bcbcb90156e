//! The integer and text settings of the driver, and how command-line
//! overrides are laid over them.

use vstd::prelude::*;

verus! {

/// The settings that drive capture and the device: LED layout, capture grid,
/// border width, frame rate, brightness and monitor choice.
pub struct Settings {
    /// LEDs along the top edge.
    pub top: usize,
    /// LEDs along the right edge.
    pub right: usize,
    /// LEDs along the left edge.
    pub left: usize,
    /// Capture grid width.
    pub cap_w: usize,
    /// Capture grid height.
    pub cap_h: usize,
    /// Thickness, in grid cells, of the band sampled along each edge.
    pub border: usize,
    /// Target frames per second.
    pub fps: u32,
    /// Global brightness sent to the device.
    pub brightness: u8,
    /// Monitor to capture (index or name); `None` selects the primary one.
    pub monitor: Option<String>,
}

impl Settings {
    /// Total number of LEDs on the strip.
    pub fn leds(&self) -> (n: usize)
        requires
            self.top + self.right + self.left <= usize::MAX,
        ensures
            n == self.top + self.right + self.left,
    {
        self.top + self.right + self.left
    }
}

impl Default for Settings {
    /// The default layout of the strip (29 top, 17 right, 17 left = 63 LEDs),
    /// an 80x45 capture grid with a 3-cell border, 60 fps, brightness 200,
    /// primary monitor.
    fn default() -> (s: Self)
        ensures
            s.top == 29 && s.right == 17 && s.left == 17,
            s.cap_w == 80 && s.cap_h == 45 && s.border == 3,
            s.fps == 60 && s.brightness == 200,
            s.monitor is None,
    {
        Settings {
            top: 29,
            right: 17,
            left: 17,
            cap_w: 80,
            cap_h: 45,
            border: 3,
            fps: 60,
            brightness: 200,
            monitor: None,
        }
    }
}

/// Values given on the command line; each one that is present replaces the
/// corresponding setting.
pub struct Overrides {
    pub monitor: Option<String>,
    pub fps: Option<u32>,
    pub resolution: Option<(usize, usize)>,
    pub brightness: Option<u8>,
    pub border: Option<usize>,
    pub top: Option<usize>,
    pub right: Option<usize>,
    pub left: Option<usize>,
}

/// `o`'s value where present, else `d`.
pub open spec fn or_keep<T>(o: Option<T>, d: T) -> T {
    match o {
        Some(v) => v,
        None => d,
    }
}

impl Overrides {
    /// Lays the given values over `cfg`, leaving the others as they were.
    pub fn apply(&self, cfg: &mut Settings)
        ensures
            final(cfg).monitor == (match self.monitor {
                Some(m) => Some(m),
                None => old(cfg).monitor,
            }),
            final(cfg).fps == or_keep(self.fps, old(cfg).fps),
            final(cfg).cap_w == (match self.resolution {
                Some((w, h)) => w,
                None => old(cfg).cap_w,
            }),
            final(cfg).cap_h == (match self.resolution {
                Some((w, h)) => h,
                None => old(cfg).cap_h,
            }),
            final(cfg).brightness == or_keep(self.brightness, old(cfg).brightness),
            final(cfg).border == or_keep(self.border, old(cfg).border),
            final(cfg).top == or_keep(self.top, old(cfg).top),
            final(cfg).right == or_keep(self.right, old(cfg).right),
            final(cfg).left == or_keep(self.left, old(cfg).left),
    {
        if let Some(v) = &self.monitor {
            cfg.monitor = Some(v.clone());
        }
        if let Some(v) = self.fps {
            cfg.fps = v;
        }
        if let Some((w, h)) = self.resolution {
            cfg.cap_w = w;
            cfg.cap_h = h;
        }
        if let Some(v) = self.brightness {
            cfg.brightness = v;
        }
        if let Some(v) = self.border {
            cfg.border = v;
        }
        if let Some(v) = self.top {
            cfg.top = v;
        }
        if let Some(v) = self.right {
            cfg.right = v;
        }
        if let Some(v) = self.left {
            cfg.left = v;
        }
    }
}

} // verus!
