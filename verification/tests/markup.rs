//! Checks of the opaque-markup handoff: escaping for the static paint and
//! the plan for applying the interactive phase's recomputed interior.

use converge::markup::prepare_code_block;
use converge::markup::InteriorPlan;

#[test]
fn static_markup_is_escaped() {
    let (painted, plan) = prepare_code_block("if a < b && c > d { &e }", None);
    assert_eq!(painted, "if a &lt; b &amp;&amp; c &gt; d { &amp;e }");
    assert_eq!(plan, InteriorPlan::PlaceVerbatim);
}

#[test]
fn plain_text_is_left_alone() {
    let (painted, _) = prepare_code_block("let x = 1;", None);
    assert_eq!(painted, "let x = 1;");
}

#[test]
fn matching_interactive_markup_may_stand_verbatim() {
    let (painted, plan) =
        prepare_code_block("a < b", Some(String::from("a &lt; b")));
    assert_eq!(painted, "a &lt; b");
    assert_eq!(plan, InteriorPlan::PlaceVerbatim);
}

#[test]
fn differing_interactive_markup_needs_renderer_update() {
    let highlighted = String::from("<span class=\"keyword\">let</span> x");
    let (_, plan) = prepare_code_block("let x", Some(highlighted));
    assert_eq!(plan, InteriorPlan::RendererUpdate);
}

#[test]
fn empty_input_stays_empty() {
    let (painted, plan) = prepare_code_block("", None);
    assert_eq!(painted, "");
    assert_eq!(plan, InteriorPlan::PlaceVerbatim);
}
