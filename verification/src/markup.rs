//! Markup preparation for the opaque-handoff strategy.
//!
//! Instead of mutating the live document after the fact, a code block's
//! markup can be computed off the critical path and handed to the renderer
//! as one opaque blob to place verbatim. The static phase lacks the
//! external highlighter, so it paints the raw code, HTML-escaped; when the
//! interactive phase recomputes the interior with the real transform, the
//! result differs from the static paint, and it must then be written
//! through a renderer-native update — writing it by direct document
//! mutation before hydration is the fatal structural mismatch the
//! coordination core exists to prevent.

use vstd::prelude::*;

verus! {

/// What one character contributes to HTML-escaped text.
pub open spec fn escaped_char(c: char) -> Seq<char> {
    if c == '&' {
        seq!['&', 'a', 'm', 'p', ';']
    } else if c == '<' {
        seq!['&', 'l', 't', ';']
    } else if c == '>' {
        seq!['&', 'g', 't', ';']
    } else {
        seq![c]
    }
}

/// Text with `&`, `<` and `>` replaced by their entities, character by
/// character, everything else kept as it is.
pub open spec fn escaped(s: Seq<char>) -> Seq<char>
    decreases s.len(),
{
    if s.len() == 0 {
        Seq::empty()
    } else {
        escaped_char(s.first()) + escaped(s.drop_first())
    }
}

/// Relies on html_escape::encode_text: it replaces exactly `&` by `&amp;`,
/// `<` by `&lt;` and `>` by `&gt;`, and leaves every other character
/// unchanged.
#[verifier::external_body]
fn encode_text(s: &str) -> (r: String)
    ensures
        r@ == escaped(s@),
{
    html_escape::encode_text(s).into_owned()
}

/// How the interactive phase may apply a freshly computed interior to a
/// subtree the renderer placed.
#[derive(Clone, Copy, Debug, PartialEq, Eq, Structural)]
pub enum InteriorPlan {
    /// The new interior equals what was painted: it may stand verbatim, no
    /// mutation is needed at all.
    PlaceVerbatim,
    /// The new interior differs from the painted one: it must be written
    /// through a renderer-native update after hydration, never by direct
    /// document mutation, or the renderer meets unexpected content while
    /// reconciling — a fatal structural mismatch.
    RendererUpdate,
}

/// Prepares one code block for the opaque-markup handoff. The first
/// component is the markup the static phase paints: the raw code,
/// HTML-escaped. `highlighted` is what the interactive phase's transform
/// produced, if that capability was present; the second component says how
/// that result may be applied to the painted subtree.
pub fn prepare_code_block(code: &str, highlighted: Option<String>) -> (r: (String, InteriorPlan))
    ensures
        r.0@ == escaped(code@),
        r.1 == (match highlighted {
            Option::Some(h) => if h@ == escaped(code@) {
                InteriorPlan::PlaceVerbatim
            } else {
                InteriorPlan::RendererUpdate
            },
            Option::None => InteriorPlan::PlaceVerbatim,
        }),
{
    let painted = encode_text(code);
    let plan = match highlighted {
        Option::Some(h) => if h == painted {
            InteriorPlan::PlaceVerbatim
        } else {
            InteriorPlan::RendererUpdate
        },
        Option::None => InteriorPlan::PlaceVerbatim,
    };
    (painted, plan)
}

} // verus!
