use vstd::prelude::*;

verus! {

/// Suffix of every page title.
pub const TITLE_SUFFIX: &'static str = "Kavik.cz";

/// Path part of the about page.
pub const ABOUT: &'static str = "about";

/// Whether the menu is shown.
#[derive(Debug, Clone, Copy, PartialEq, Eq, Structural)]
pub enum Visibility {
    Visible,
    Hidden,
}

impl Visibility {
    /// Shows a hidden menu and hides a shown one.
    pub fn toggle(&mut self)
        ensures
            *final(self) == (match *old(self) {
                Visibility::Visible => Visibility::Hidden,
                Visibility::Hidden => Visibility::Visible,
            }),
    {
        *self = match self {
            Visibility::Visible => Visibility::Hidden,
            Visibility::Hidden => Visibility::Visible,
        }
    }
}

/// The pages of the site.
#[derive(Debug, Clone, Copy, PartialEq, Eq, Structural)]
pub enum Page {
    Home,
    About,
    NotFound,
}

impl Page {
    /// The page that a URL's remaining path parts lead to: none is the home
    /// page, the single part `about` the about page, anything else no page.
    pub fn from_path_parts(parts: &Vec<String>) -> (p: Page)
        ensures
            p == (if parts@.len() == 0 {
                Page::Home
            } else if parts@.len() == 1 && parts@[0]@ == ABOUT@ {
                Page::About
            } else {
                Page::NotFound
            }),
    {
        if parts.len() == 0 {
            Page::Home
        } else if parts.len() == 1 && parts[0] == ABOUT.to_owned() {
            Page::About
        } else {
            Page::NotFound
        }
    }

    /// The document title of the page.
    pub fn title(&self) -> (t: &'static str)
        ensures
            t@ == (match *self {
                Page::Home => TITLE_SUFFIX@,
                Page::About => "About - Kavik.cz"@,
                Page::NotFound => "404 - Kavik.cz"@,
            }),
    {
        match self {
            Page::Home => TITLE_SUFFIX,
            Page::About => "About - Kavik.cz",
            Page::NotFound => "404 - Kavik.cz",
        }
    }
}

} // verus!
