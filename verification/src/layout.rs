//! Layout - pagination and display configuration

use vstd::prelude::*;

verus! {

/// Spread configuration (single or double page)
#[derive(Debug, Clone, Copy, PartialEq, Eq, Structural)]
pub enum Spread {
    /// Single page display
    Single,
    /// Always show two pages
    Always,
    /// Automatic based on viewport
    Auto,
}

impl Default for Spread {
    fn default() -> (s: Spread)
        ensures
            s == Spread::Single,
    {
        Spread::Single
    }
}

/// Layout options
#[derive(Debug, Clone)]
pub struct LayoutOptions {
    /// Width of each column/page in pixels
    pub width: Option<u32>,
    /// Height of the viewport in pixels
    pub height: Option<u32>,
    /// Spread mode
    pub spread: Spread,
    /// Minimum spread width (for auto mode)
    pub min_spread_width: u32,
    /// Column gap in pixels
    pub gap: u32,
    /// Padding in pixels
    pub padding: u32,
}

/// The options a layout starts from: no fixed size, single pages, spreads
/// from 800px, 20px gap and padding.
pub open spec fn default_options() -> LayoutOptions {
    LayoutOptions {
        width: None,
        height: None,
        spread: Spread::Single,
        min_spread_width: 800,
        gap: 20,
        padding: 20,
    }
}

impl LayoutOptions {
    pub fn new() -> (o: Self)
        ensures
            o == default_options(),
    {
        Self::default()
    }
}

impl Default for LayoutOptions {
    fn default() -> (o: Self)
        ensures
            o == default_options(),
    {
        Self {
            width: None,
            height: None,
            spread: Spread::Single,
            min_spread_width: 800,
            gap: 20,
            padding: 20,
        }
    }
}

/// Calculated layout values
#[derive(Debug, Clone)]
pub struct Layout {
    /// Column width in pixels
    column_width: u32,
    /// Column gap in pixels
    column_gap: u32,
    /// Padding in pixels
    padding: u32,
    /// Viewport width
    viewport_width: u32,
    /// Viewport height
    viewport_height: u32,
    /// Whether spread mode is active
    spread_active: bool,
}

/// The viewport width the options give (800 when unset).
pub open spec fn spec_viewport_width(o: LayoutOptions) -> u32 {
    match o.width {
        Some(w) => w,
        None => 800,
    }
}

/// The viewport height the options give (600 when unset).
pub open spec fn spec_viewport_height(o: LayoutOptions) -> u32 {
    match o.height {
        Some(h) => h,
        None => 600,
    }
}

/// Whether two pages are shown side by side.
pub open spec fn spec_spread_active(o: LayoutOptions) -> bool {
    match o.spread {
        Spread::Single => false,
        Spread::Always => true,
        Spread::Auto => spec_viewport_width(o) >= o.min_spread_width,
    }
}

/// Width left for text once the padding on both sides is taken off.
pub open spec fn spec_available_width(o: LayoutOptions) -> int {
    spec_viewport_width(o) - 2 * o.padding
}

/// Column width: the available width, or half of it less the gap in a spread.
pub open spec fn spec_column_width(o: LayoutOptions) -> int {
    if spec_spread_active(o) {
        (spec_available_width(o) - o.gap) / 2
    } else {
        spec_available_width(o)
    }
}

/// Options whose padding (and gap, in a spread) fit in the viewport.
pub open spec fn options_fit(o: LayoutOptions) -> bool {
    &&& spec_available_width(o) >= 0
    &&& spec_spread_active(o) ==> spec_available_width(o) >= o.gap
}

impl Default for Layout {
    fn default() -> (l: Self)
        ensures
            l.column_width_view() == 600,
            l.column_gap_view() == 20,
            l.padding_view() == 20,
            l.viewport_width_view() == 800,
            l.viewport_height_view() == 600,
            !l.spread_view(),
    {
        Self {
            column_width: 600,
            column_gap: 20,
            padding: 20,
            viewport_width: 800,
            viewport_height: 600,
            spread_active: false,
        }
    }
}

impl Layout {
    pub closed spec fn column_width_view(&self) -> u32 {
        self.column_width
    }

    pub closed spec fn column_gap_view(&self) -> u32 {
        self.column_gap
    }

    pub closed spec fn padding_view(&self) -> u32 {
        self.padding
    }

    pub closed spec fn viewport_width_view(&self) -> u32 {
        self.viewport_width
    }

    pub closed spec fn viewport_height_view(&self) -> u32 {
        self.viewport_height
    }

    pub closed spec fn spread_view(&self) -> bool {
        self.spread_active
    }

    /// Create layout from options. The padding on both sides (and, in a
    /// spread, the gap) must fit in the viewport width.
    pub fn from_options(options: LayoutOptions) -> (l: Self)
        requires
            options_fit(options),
        ensures
            l.viewport_width_view() == spec_viewport_width(options),
            l.viewport_height_view() == spec_viewport_height(options),
            l.spread_view() == spec_spread_active(options),
            l.column_width_view() == spec_column_width(options),
            l.column_gap_view() == options.gap,
            l.padding_view() == options.padding,
    {
        let viewport_width = match options.width {
            Some(w) => w,
            None => 800,
        };
        let viewport_height = match options.height {
            Some(h) => h,
            None => 600,
        };

        let spread_active = match options.spread {
            Spread::Single => false,
            Spread::Always => true,
            Spread::Auto => viewport_width >= options.min_spread_width,
        };

        let available_width = viewport_width - (options.padding * 2);
        let column_width = if spread_active {
            (available_width - options.gap) / 2
        } else {
            available_width
        };

        Self {
            column_width,
            column_gap: options.gap,
            padding: options.padding,
            viewport_width,
            viewport_height,
            spread_active,
        }
    }

    /// Get column width
    pub fn column_width(&self) -> (r: u32)
        ensures
            r == self.column_width_view(),
    {
        self.column_width
    }

    /// Get column gap
    pub fn column_gap(&self) -> (r: u32)
        ensures
            r == self.column_gap_view(),
    {
        self.column_gap
    }

    /// Get padding
    pub fn padding(&self) -> (r: u32)
        ensures
            r == self.padding_view(),
    {
        self.padding
    }

    /// Get viewport width
    pub fn viewport_width(&self) -> (r: u32)
        ensures
            r == self.viewport_width_view(),
    {
        self.viewport_width
    }

    /// Get viewport height
    pub fn viewport_height(&self) -> (r: u32)
        ensures
            r == self.viewport_height_view(),
    {
        self.viewport_height
    }

    /// Check if spread mode is active
    pub fn is_spread(&self) -> (r: bool)
        ensures
            r == self.spread_view(),
    {
        self.spread_active
    }
}

/// In a spread, two columns and the gap never take more than the width
/// left inside the padding; a single column takes exactly that width.
pub proof fn law_columns_fit(options: LayoutOptions)
    requires
        options_fit(options),
    ensures
        spec_spread_active(options) ==> 2 * spec_column_width(options) + options.gap
            <= spec_available_width(options),
        !spec_spread_active(options) ==> spec_column_width(options) == spec_available_width(
            options,
        ),
        spec_column_width(options) >= 0,
{
}

} // verus!
