//! UI-page handles and render-layer flags the client exposes; the
//! drawing itself is an outside collaborator.

use vstd::prelude::*;

verus! {

/// The head-up display page.
pub struct HudUi {}

impl HudUi {
    pub fn new() -> (r: Self)
        ensures
            true,
    {
        HudUi {}
    }

    /// The HUD draws over the scene without blurring it.
    pub fn has_blur(&self) -> (r: bool)
        ensures
            r == false,
    {
        false
    }
}

/// The scoreboard page.
pub struct ScoreboardUi {}

impl ScoreboardUi {
    pub fn new() -> (r: Self)
        ensures
            true,
    {
        ScoreboardUi {}
    }

    /// The scoreboard blurs the scene behind it.
    pub fn has_blur(&self) -> (r: bool)
        ensures
            r == true,
    {
        true
    }
}

/// What a top menu button shows and whether it is the active tab.
pub struct MenuTopButtonProps {
    /// Whether this button names the currently active tab.
    pub active: bool,
    /// The button's label.
    pub text: String,
}

impl MenuTopButtonProps {
    /// Builds the props of one button: it is active exactly when its
    /// label names the currently active tab.
    pub fn new(text: String, current_active: &Option<String>) -> (r: Self)
        ensures
            r.text == text,
            r.active == (match current_active {
                Some(cur) => cur@ == text@,
                None => false,
            }),
    {
        let active = match current_active {
            Some(cur) => *cur == text,
            None => false,
        };
        MenuTopButtonProps { active, text }
    }
}

/// Options the main menu render honors.
#[derive(Clone, Copy, Debug, PartialEq, Eq, Structural)]
pub struct RenderOptions {
    /// Hide the icons on buttons.
    pub hide_buttons_icons: bool,
}

/// What the main menu asks of its surrounding page.
pub trait MainMenuInterface {
    /// Reload the server list.
    fn refresh(&mut self);

    /// Reload the demo list from the given directory.
    fn refresh_demo_list(&mut self, path: &String);
}

/// How a map layer is rendered.
#[derive(Clone, Copy, Debug, PartialEq, Eq, Structural)]
pub enum LayerRenderFlag {
    Opaque,
    Transparent,
}

impl LayerRenderFlag {
    /// The bit this flag occupies in a render mask.
    pub fn bit(&self) -> (r: u32)
        ensures
            r == (match self {
                LayerRenderFlag::Opaque => 1u32,
                LayerRenderFlag::Transparent => 2u32,
            }),
    {
        match self {
            LayerRenderFlag::Opaque => 1,
            LayerRenderFlag::Transparent => 2,
        }
    }
}

/// How a tile is rendered.
#[derive(Clone, Copy, Debug, PartialEq, Eq, Structural)]
pub enum TileRenderFlag {
    Extend,
}

impl TileRenderFlag {
    /// The bit this flag occupies in a render mask.
    pub fn bit(&self) -> (r: u32)
        ensures
            r == 4u32,
    {
        4
    }
}

/// Map-render helpers; the drawing itself happens outside.
pub struct RenderTools {}

} // verus!
