//! Identifier newtypes: what a string *is*, checked by the compiler instead
//! of remembered by the reader. Each one views as its characters.

use vstd::prelude::*;

verus! {

/// A reference designator ("R101"): a part's identity across revisions.
#[derive(Debug, PartialEq, Eq, PartialOrd, Ord, Hash)]
pub struct Reference(String);

impl View for Reference {
    type V = Seq<char>;

    closed spec fn view(&self) -> Seq<char> {
        self.0@
    }
}

impl Reference {
    /// The identifier holding `s`.
    pub fn new(s: &str) -> (r: Self)
        ensures
            r@ == s@,
    {
        Reference(s.to_owned())
    }

    /// The identifier holding the string `s`.
    pub fn from_string(s: String) -> (r: Self)
        ensures
            r@ == s@,
    {
        Reference(s)
    }

    /// The identifier's text.
    pub fn as_str(&self) -> (r: &str)
        ensures
            r@ == self@,
    {
        self.0.as_str()
    }
}

impl Clone for Reference {
    fn clone(&self) -> (r: Self)
        ensures
            r == *self,
    {
        Reference(self.0.clone())
    }
}

/// A pin number on a part ("17", "A1"), meaningful only next to a [`Reference`].
#[derive(Debug, PartialEq, Eq, PartialOrd, Ord, Hash)]
pub struct Pin(String);

impl View for Pin {
    type V = Seq<char>;

    closed spec fn view(&self) -> Seq<char> {
        self.0@
    }
}

impl Pin {
    /// The identifier holding `s`.
    pub fn new(s: &str) -> (r: Self)
        ensures
            r@ == s@,
    {
        Pin(s.to_owned())
    }

    /// The identifier holding the string `s`.
    pub fn from_string(s: String) -> (r: Self)
        ensures
            r@ == s@,
    {
        Pin(s)
    }

    /// The identifier's text.
    pub fn as_str(&self) -> (r: &str)
        ensures
            r@ == self@,
    {
        self.0.as_str()
    }
}

impl Clone for Pin {
    fn clone(&self) -> (r: Self)
        ensures
            r == *self,
    {
        Pin(self.0.clone())
    }
}

/// A net name as exported ("/Power Switch/GATE"); unescape via `short_net`
/// before showing it to a person.
#[derive(Debug, PartialEq, Eq, PartialOrd, Ord, Hash)]
pub struct NetName(String);

impl View for NetName {
    type V = Seq<char>;

    closed spec fn view(&self) -> Seq<char> {
        self.0@
    }
}

impl NetName {
    /// The identifier holding `s`.
    pub fn new(s: &str) -> (r: Self)
        ensures
            r@ == s@,
    {
        NetName(s.to_owned())
    }

    /// The identifier holding the string `s`.
    pub fn from_string(s: String) -> (r: Self)
        ensures
            r@ == s@,
    {
        NetName(s)
    }

    /// The identifier's text.
    pub fn as_str(&self) -> (r: &str)
        ensures
            r@ == self@,
    {
        self.0.as_str()
    }
}

impl Clone for NetName {
    fn clone(&self) -> (r: Self)
        ensures
            r == *self,
    {
        NetName(self.0.clone())
    }
}

/// The name of a report page - a schematic sheet ("Root sheet") or a board
/// layer ("F.Cu"). Changes navigate by carrying the page name they belong to.
#[derive(Debug, PartialEq, Eq, PartialOrd, Ord, Hash)]
pub struct PageName(String);

impl View for PageName {
    type V = Seq<char>;

    closed spec fn view(&self) -> Seq<char> {
        self.0@
    }
}

impl PageName {
    /// The identifier holding `s`.
    pub fn new(s: &str) -> (r: Self)
        ensures
            r@ == s@,
    {
        PageName(s.to_owned())
    }

    /// The identifier holding the string `s`.
    pub fn from_string(s: String) -> (r: Self)
        ensures
            r@ == s@,
    {
        PageName(s)
    }

    /// The identifier's text.
    pub fn as_str(&self) -> (r: &str)
        ensures
            r@ == self@,
    {
        self.0.as_str()
    }
}

impl Clone for PageName {
    fn clone(&self) -> (r: Self)
        ensures
            r == *self,
    {
        PageName(self.0.clone())
    }
}

/// A project's sidebar label (its repo-relative dir, or its bare name).
#[derive(Debug, PartialEq, Eq, PartialOrd, Ord, Hash)]
pub struct ProjectLabel(String);

impl View for ProjectLabel {
    type V = Seq<char>;

    closed spec fn view(&self) -> Seq<char> {
        self.0@
    }
}

impl ProjectLabel {
    /// The identifier holding `s`.
    pub fn new(s: &str) -> (r: Self)
        ensures
            r@ == s@,
    {
        ProjectLabel(s.to_owned())
    }

    /// The identifier holding the string `s`.
    pub fn from_string(s: String) -> (r: Self)
        ensures
            r@ == s@,
    {
        ProjectLabel(s)
    }

    /// The identifier's text.
    pub fn as_str(&self) -> (r: &str)
        ensures
            r@ == self@,
    {
        self.0.as_str()
    }
}

impl Clone for ProjectLabel {
    fn clone(&self) -> (r: Self)
        ensures
            r == *self,
    {
        ProjectLabel(self.0.clone())
    }
}

/// A part's identity key: the footprint UUID on boards, instance path plus
/// symbol UUID on schematics.
#[derive(Debug, PartialEq, Eq, PartialOrd, Ord, Hash)]
pub struct EntityId(String);

impl View for EntityId {
    type V = Seq<char>;

    closed spec fn view(&self) -> Seq<char> {
        self.0@
    }
}

impl EntityId {
    /// The identifier holding `s`.
    pub fn new(s: &str) -> (r: Self)
        ensures
            r@ == s@,
    {
        EntityId(s.to_owned())
    }

    /// The identifier holding the string `s`.
    pub fn from_string(s: String) -> (r: Self)
        ensures
            r@ == s@,
    {
        EntityId(s)
    }

    /// The identifier's text.
    pub fn as_str(&self) -> (r: &str)
        ensures
            r@ == self@,
    {
        self.0.as_str()
    }
}

impl Clone for EntityId {
    fn clone(&self) -> (r: Self)
        ensures
            r == *self,
    {
        EntityId(self.0.clone())
    }
}

} // verus!
