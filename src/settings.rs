use crate::image::MandelPixel;
use vstd::prelude::*;

verus! {

/// The colour schemes a frame can be drawn with.
#[derive(Clone, Copy, Debug, PartialEq, Eq)]
pub enum ColorScheme {
    Green,
    Rainbow,
    Redish,
    Blue,
}

/// A change that the user asked for.
#[derive(Clone, Copy, Debug, PartialEq, Eq)]
pub enum SettingsEvent {
    /// Nothing to do.
    Idle,
    /// Leave the renderer.
    Quit,
    /// The view or the iteration budget changed: the image is stale.
    ViewChanged,
    /// Draw with another colour scheme.
    Scheme(ColorScheme),
    /// Switch between raw and equalized counts.
    ToggleHistogram,
    /// Switch between the image and the overview of colour schemes.
    ToggleColorschemes,
}

/// What the renderer draws, and what it has still to recompute.
#[derive(Clone, Copy, Debug, PartialEq, Eq)]
pub struct DrawSettings {
    /// Whether the renderer keeps running.
    pub run: bool,
    /// Whether the image must be generated and equalized again.
    pub update_image: bool,
    /// Whether the image must be coloured again.
    pub update_texture: bool,
    /// Whether pixels are coloured by their equalized counts.
    pub use_histogram: bool,
    /// Whether the overview of colour schemes is shown instead of the image.
    pub show_colors: bool,
    pub color_scheme: ColorScheme,
}

impl DrawSettings {
    /// Settings at start: running, with the image and its colouring still
    /// to compute, raw counts, the image shown, in green.
    pub fn new() -> (r: Self)
        ensures
            r == (DrawSettings {
                run: true,
                update_image: true,
                update_texture: true,
                use_histogram: false,
                show_colors: false,
                color_scheme: ColorScheme::Green,
            }),
    {
        DrawSettings {
            run: true,
            update_image: true,
            update_texture: true,
            use_histogram: false,
            show_colors: false,
            color_scheme: ColorScheme::Green,
        }
    }

    /// The settings after `event`.
    pub open spec fn after(self, event: SettingsEvent) -> DrawSettings {
        match event {
            SettingsEvent::Idle => self,
            SettingsEvent::Quit => DrawSettings { run: false, ..self },
            SettingsEvent::ViewChanged => DrawSettings { update_image: true, ..self },
            SettingsEvent::Scheme(scheme) => DrawSettings {
                color_scheme: scheme,
                update_texture: true,
                ..self
            },
            SettingsEvent::ToggleHistogram => DrawSettings {
                use_histogram: !self.use_histogram,
                update_texture: true,
                ..self
            },
            SettingsEvent::ToggleColorschemes => DrawSettings {
                show_colors: !self.show_colors,
                ..self
            },
        }
    }

    /// Takes in what the user asked for.
    pub fn apply(&mut self, event: SettingsEvent)
        ensures
            *final(self) == old(self).after(event),
    {
        match event {
            SettingsEvent::Idle => {},
            SettingsEvent::Quit => {
                self.run = false;
            },
            SettingsEvent::ViewChanged => {
                self.update_image = true;
            },
            SettingsEvent::Scheme(scheme) => {
                self.color_scheme = scheme;
                self.update_texture = true;
            },
            SettingsEvent::ToggleHistogram => {
                self.use_histogram = !self.use_histogram;
                self.update_texture = true;
            },
            SettingsEvent::ToggleColorschemes => {
                self.show_colors = !self.show_colors;
            },
        }
    }

    /// Records that the image was generated and equalized: it has now to be
    /// coloured.
    pub fn image_updated(&mut self)
        ensures
            *final(self) == (DrawSettings {
                update_image: false,
                update_texture: true,
                ..*old(self)
            }),
    {
        self.update_image = false;
        self.update_texture = true;
    }

    /// Records that the image was coloured.
    pub fn texture_updated(&mut self)
        ensures
            *final(self) == (DrawSettings { update_texture: false, ..*old(self) }),
    {
        self.update_texture = false;
    }

    /// The count by which `pixel` is coloured: the equalized one where the
    /// histogram is in use, else the raw one.
    pub fn shown_count(&self, pixel: &MandelPixel) -> (r: u32)
        ensures
            r == if self.use_histogram {
                pixel.iterations_equalized
            } else {
                pixel.iterations
            },
    {
        if self.use_histogram {
            pixel.iterations_equalized
        } else {
            pixel.iterations
        }
    }
}

} // verus!
