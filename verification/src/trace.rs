//! Outlining a glyph, as the host does it.
//!
//! A font's curves come as floating-point calls on an outline builder, so the
//! host makes them: it hands in a function that takes a glyph's number and a
//! fresh builder, and gives the builder back when the outline is in it.
use vstd::prelude::*;

verus! {

/// The function outlines every glyph, into every builder.
pub open spec fn outlines_all<T: View, O: Fn(u16, T) -> T>(outline: O) -> bool {
    forall|glyph: u16, t: T| #[trigger] call_requires(outline, (glyph, t))
}

/// A glyph always gives like builders the same outline.
pub open spec fn outlines_alike<T: View, O: Fn(u16, T) -> T>(outline: O) -> bool {
    forall|glyph: u16, s: T, t: T, a: T, b: T|
        s@ == t@ && #[trigger] call_ensures(outline, (glyph, s), a) && #[trigger] call_ensures(
            outline,
            (glyph, t),
            b,
        ) ==> a@ == b@
}

/// The function turns some builder like `start` into `t`.
pub open spec fn draws<T: View, O: Fn(u16, T) -> T>(
    outline: O,
    glyph: u16,
    start: T::V,
    t: T,
) -> bool {
    exists|s: T| s@ == start && #[trigger] call_ensures(outline, (glyph, s), t)
}

/// What a builder like `start` holds when the glyph has been outlined.
pub open spec fn outlined<T: View, O: Fn(u16, T) -> T>(
    outline: O,
    glyph: u16,
    start: T::V,
) -> T::V {
    (choose|t: T| draws(outline, glyph, start, t))@
}

/// Outlines one glyph.
pub fn trace<T: View, O: Fn(u16, T) -> T>(outline: &O, glyph: u16, start: T) -> (t: T)
    requires
        outlines_all(*outline),
        outlines_alike(*outline),
    ensures
        t@ == outlined(*outline, glyph, start@),
        call_ensures(*outline, (glyph, start), t),
{
    let ghost begun = start@;
    let ghost first = start;
    let t = outline(glyph, start);
    proof {
        assert(draws(*outline, glyph, begun, t));
        let other = choose|t: T| draws(*outline, glyph, begun, t);
        let s = choose|s: T|
            s@ == begun && #[trigger] call_ensures(*outline, (glyph, s), other);
        assert(call_ensures(*outline, (glyph, first), t));
    }
    t
}

} // verus!
