//! What a message offers its reader.

use vstd::prelude::*;

verus! {

/// The ways out of a mailing list that a message announces.
#[derive(Debug, Clone, PartialEq, Eq)]
pub struct Unsubscribe {
    /// The https handle that takes the one-click POST.
    pub one_click: Option<String>,
    /// The `mailto:` handle to write to.
    pub mailto: Option<String>,
    /// The page to visit.
    pub web: Option<String>,
    /// The key the list is remembered by; empty where it has none.
    pub list_id: String,
}

/// The text of an [`Unsubscribe`].
#[verifier::ext_equal]
pub struct UnsubscribeText {
    pub one_click: Option<Seq<char>>,
    pub mailto: Option<Seq<char>>,
    pub web: Option<Seq<char>>,
    pub list_id: Seq<char>,
}

impl UnsubscribeText {
    /// A route that needs no browser: the one-click POST or a mail.
    pub open spec fn is_direct(self) -> bool {
        self.one_click is Some || self.mailto is Some
    }
}

impl DeepView for Unsubscribe {
    type V = UnsubscribeText;

    open spec fn deep_view(&self) -> UnsubscribeText {
        UnsubscribeText {
            one_click: self.one_click.deep_view(),
            mailto: self.mailto.deep_view(),
            web: self.web.deep_view(),
            list_id: self.list_id@,
        }
    }
}

impl Unsubscribe {
    /// Whether the list can be left without a browser.
    pub fn direct(&self) -> (r: bool)
        ensures
            r == self.deep_view().is_direct(),
    {
        self.one_click.is_some() || self.mailto.is_some()
    }
}

} // verus!
