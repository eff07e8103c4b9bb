//! Themes: named style collections with a fluent builder, light/dark pairs,
//! and the reference type render-time consumers select a theme through.

use vstd::prelude::*;

use crate::assoc::spec_assoc;
use crate::style::ChainFate;
use crate::style::StyleValidationError;
use crate::style::StyleValue;
use crate::style::Styles;
use crate::style::spec_resolves;

verus! {

/// A named collection of styles used when rendering templates: a thin
/// builder around [`Styles`].
#[derive(Debug, Clone)]
pub struct Theme {
    styles: Styles,
}

impl Theme {
    /// The theme's styles, by name.
    pub closed spec fn spec_styles(self) -> Styles {
        self.styles
    }

    /// Creates an empty theme.
    pub fn new() -> (r: Theme)
        ensures
            r.spec_styles().entries_view().len() == 0,
    {
        Theme { styles: Styles::new() }
    }

    /// Creates a theme from an existing style collection.
    pub fn from_styles(styles: Styles) -> (r: Theme)
        ensures
            r.spec_styles() == styles,
    {
        Theme { styles }
    }

    /// Adds a named style — concrete or an alias to another style name —
    /// returning the updated theme for chaining.
    pub fn add(self, name: &str, value: StyleValue) -> (r: Theme)
        ensures
            spec_assoc(r.spec_styles().entries_view(), name@) == Some(value),
            forall|k: Seq<char>|
                k != name@ ==> #[trigger] spec_assoc(r.spec_styles().entries_view(), k)
                    == spec_assoc(self.spec_styles().entries_view(), k),
    {
        let Theme { styles } = self;
        Theme { styles: styles.add(name, value) }
    }

    /// Returns the underlying styles.
    pub fn styles(&self) -> (r: &Styles)
        ensures
            *r == self.spec_styles(),
    {
        &self.styles
    }

    /// Validates that all style aliases in this theme resolve to concrete
    /// styles without cycles.
    pub fn validate(&self) -> (r: Result<(), StyleValidationError>)
        requires
            self.spec_styles().entries_view().len() < usize::MAX,
        ensures
            r is Ok <==> (forall|i: int|
                0 <= i < self.spec_styles().entries_view().len() ==> spec_resolves(
                    self.spec_styles().entries_view(),
                    (#[trigger] self.spec_styles().entries_view()[i]).1,
                    (self.spec_styles().entries_view().len() + 1) as nat,
                )),
            r matches Err(e) ==> exists|i: int|
                {
                    let fuel = (self.spec_styles().entries_view().len() + 1) as nat;
                    &&& 0 <= i < self.spec_styles().entries_view().len()
                    &&& forall|j: int|
                        0 <= j < i ==> spec_resolves(
                            self.spec_styles().entries_view(),
                            (#[trigger] self.spec_styles().entries_view()[j]).1,
                            fuel,
                        )
                    &&& ((e is UnresolvedAlias) <==> crate::style::spec_chain_fate(
                        self.spec_styles().entries_view(),
                        (#[trigger] self.spec_styles().entries_view()[i]).1,
                        fuel,
                    ) == ChainFate::MissingTarget)
                    &&& ((e is CycleDetected) <==> crate::style::spec_chain_fate(
                        self.spec_styles().entries_view(),
                        self.spec_styles().entries_view()[i].1,
                        fuel,
                    ) == ChainFate::FuelSpent)
                },
    {
        let r = self.styles.validate();
        proof {
            assert(self.spec_styles() == self.styles);
        }
        r
    }
}

impl Default for Theme {
    /// An empty theme.
    fn default() -> (r: Theme)
        ensures
            r.spec_styles().entries_view().len() == 0,
    {
        Theme::new()
    }
}

/// The user's preferred color mode.
#[derive(Debug, Clone, Copy, PartialEq, Eq, Structural)]
pub enum ColorMode {
    Light,
    Dark,
}

/// A light/dark theme pair; the caller detects the color mode and selects
/// the matching variant.
#[derive(Debug, Clone)]
pub struct AdaptiveTheme {
    light: Theme,
    dark: Theme,
}

impl AdaptiveTheme {
    /// The light variant.
    pub closed spec fn spec_light(self) -> Theme {
        self.light
    }

    /// The dark variant.
    pub closed spec fn spec_dark(self) -> Theme {
        self.dark
    }

    /// Creates an adaptive theme with separate light and dark variants.
    pub fn new(light: Theme, dark: Theme) -> (r: AdaptiveTheme)
        ensures
            r.spec_light() == light,
            r.spec_dark() == dark,
    {
        AdaptiveTheme { light, dark }
    }

    /// The variant for a color mode.
    pub fn select(&self, mode: ColorMode) -> (r: &Theme)
        ensures
            mode == ColorMode::Light ==> *r == self.spec_light(),
            mode == ColorMode::Dark ==> *r == self.spec_dark(),
    {
        match mode {
            ColorMode::Light => &self.light,
            ColorMode::Dark => &self.dark,
        }
    }
}

/// Reference to either a fixed theme or an adaptive light/dark pair, for
/// render functions that accept both.
#[derive(Debug)]
pub enum ThemeChoice<'a> {
    /// A fixed theme that doesn't change with the color mode.
    Theme(&'a Theme),
    /// An adaptive theme: the color mode picks the variant.
    Adaptive(&'a AdaptiveTheme),
}

impl<'a> ThemeChoice<'a> {
    /// Resolves to a concrete theme under the given color mode.
    pub fn resolve(&self, mode: ColorMode) -> (r: &'a Theme)
        ensures
            self matches ThemeChoice::Theme(t) ==> r == *t,
            self matches ThemeChoice::Adaptive(a) ==> (mode == ColorMode::Light ==> *r
                == a.spec_light()) && (mode == ColorMode::Dark ==> *r == a.spec_dark()),
    {
        match self {
            ThemeChoice::Theme(t) => t,
            ThemeChoice::Adaptive(a) => a.select(mode),
        }
    }
}

} // verus!
