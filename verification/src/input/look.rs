//! How the text is coloured: which language and theme, and when the colours are out
//! of date.

use vstd::prelude::*;

use crate::input::edit::{BoxV, InputBox};
use crate::input::hunks::{same_text, text_v};

verus! {

/// How the text is coloured.
pub struct Look {
    /// The language id (e.g. "cs") to highlight with, or None for plain uniform color.
    pub language: Option<String>,
    /// Whether to use the dark highlight theme.
    pub dark: bool,
    /// The generation of the text that the colours belong to.
    pub generation: u64,
    /// Whether the lines need their colours anew.
    pub attrs_dirty: bool,
}

/// How the text is coloured.
#[verifier::ext_equal]
pub ghost struct LookV {
    pub language: Option<Seq<char>>,
    pub dark: bool,
    pub generation: u64,
    pub attrs_dirty: bool,
}

impl View for Look {
    type V = LookV;

    open spec fn view(&self) -> LookV {
        LookV {
            language: text_v(self.language),
            dark: self.dark,
            generation: self.generation,
            attrs_dirty: self.attrs_dirty,
        }
    }
}

impl Look {
    pub fn new() -> (r: Self)
        ensures
            r@ == (LookV { language: None, dark: true, generation: u64::MAX, attrs_dirty: true }),
    {
        Look { language: None, dark: true, generation: u64::MAX, attrs_dirty: true }
    }
}

impl InputBox {
    /// Enable code-editor highlighting with a language id (e.g. "cs"), or None for
    /// plain uniform color. Returns whether the language changed, so that the
    /// highlighter is built anew.
    pub fn set_language(&mut self, lang: Option<String>) -> (r: bool)
        ensures
            r == (text_v(lang) != old(self)@.look.language),
            final(self)@ == (if r {
                BoxV {
                    look: LookV { language: text_v(lang), generation: u64::MAX, ..old(self)@.look },
                    ..old(self)@
                }
            } else {
                old(self)@
            }),
    {
        if same_text(&self.look.language, &lang) {
            return false;
        }
        self.look.language = lang;
        self.look.generation = u64::MAX; // force re-highlight
        true
    }

    /// Choose the dark or light highlight theme.
    pub fn set_dark(&mut self, dark: bool)
        ensures
            final(self)@ == (BoxV {
                look: LookV {
                    dark,
                    generation: if dark != old(self)@.look.dark { u64::MAX } else { old(self)@.look.generation },
                    ..old(self)@.look
                },
                ..old(self)@
            }),
    {
        if dark != self.look.dark {
            self.look.dark = dark;
            self.look.generation = u64::MAX;
        }
    }

    /// The base colour or the font changed, which feeds every line's colours.
    pub fn restyle(&mut self)
        ensures
            final(self)@ == (BoxV { look: LookV { attrs_dirty: true, ..old(self)@.look }, ..old(self)@ }),
    {
        self.look.attrs_dirty = true;
    }

    /// Whether the text is to be highlighted anew: once per edit, not per frame.
    pub fn highlight_is_stale(&self) -> (r: bool)
        ensures
            r == (self@.look.generation != self@.edit_gen),
    {
        self.look.generation != self.edit_gen
    }

    /// The current text was highlighted: every line takes its colours anew.
    pub fn highlighted(&mut self)
        ensures
            final(self)@ == (BoxV {
                look: LookV { generation: old(self)@.edit_gen, attrs_dirty: true, ..old(self)@.look },
                ..old(self)@
            }),
    {
        self.look.generation = self.edit_gen;
        self.look.attrs_dirty = true;
    }

    /// Whether the lines are to take their colours anew; asking clears it.
    pub fn take_attrs_dirty(&mut self) -> (r: bool)
        ensures
            r == old(self)@.look.attrs_dirty,
            final(self)@ == (BoxV { look: LookV { attrs_dirty: false, ..old(self)@.look }, ..old(self)@ }),
    {
        let was = self.look.attrs_dirty;
        self.look.attrs_dirty = false;
        was
    }
}

} // verus!
