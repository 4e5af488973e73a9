//! What is drawn for a scene: one stamp per node, at the place of the node
//! and painted by its depth.

use vstd::prelude::*;
use crate::fixed::Fixed;
use crate::node::Node;
use crate::normalizer::{
    manual_ramp, normalize, ramp, spec_normalize, ColorRGB, NormalizeError, Ratio,
};

verus! {

/// How a shade becomes a color.
#[derive(Clone, Copy, Debug, PartialEq, Eq, Structural)]
pub enum Policy {
    /// The green-dominant linear ramp.
    ManualRamp,
    /// A color map that the renderer looks the shade up in.
    Colormap,
}

/// The paint of one stamp.
#[derive(Clone, Copy, Debug, PartialEq, Eq, Structural)]
pub enum Paint {
    /// The color itself.
    Color(ColorRGB),
    /// The shade that the renderer looks up in its color map.
    Lookup(Ratio),
}

/// One draw of the quad: where it is moved to, and its paint.
#[derive(Clone, Copy, Debug, PartialEq, Eq, Structural)]
pub struct Stamp {
    pub x: Fixed,
    pub y: Fixed,
    pub paint: Paint,
}

/// The depth of each node.
pub open spec fn depths(nodes: Seq<Node>) -> Seq<Fixed> {
    Seq::new(nodes.len(), |i: int| nodes[i].z)
}

/// The paint that a policy gives a shade.
pub open spec fn spec_paint(policy: Policy, shade: Ratio) -> Paint {
    match policy {
        Policy::ManualRamp => Paint::Color(ramp(shade)),
        Policy::Colormap => Paint::Lookup(shade),
    }
}

/// The paint of each value under a policy: that of its share of the range
/// of the whole sequence.
pub open spec fn spec_colorize(z: Seq<Fixed>, policy: Policy) -> Seq<Paint> {
    Seq::new(z.len(), |i: int| spec_paint(policy, spec_normalize(z)[i]))
}

/// One stamp per node, in the order of the nodes: at the place of the node,
/// painted by its depth normalized against the depths of all nodes.
pub open spec fn spec_draw_list(nodes: Seq<Node>, policy: Policy) -> Seq<Stamp> {
    Seq::new(
        nodes.len(),
        |i: int|
            Stamp {
                x: nodes[i].x,
                y: nodes[i].y,
                paint: spec_colorize(depths(nodes), policy)[i],
            },
    )
}

/// The depth of each node, in the order of the nodes.
pub fn z_coords(nodes: &Vec<Node>) -> (r: Vec<Fixed>)
    ensures
        r@ == depths(nodes@),
{
    let mut out: Vec<Fixed> = Vec::with_capacity(nodes.len());
    let mut i: usize = 0;
    while i < nodes.len()
        invariant
            i <= nodes.len(),
            out.len() == i,
            forall|k: int| 0 <= k < i ==> #[trigger] out[k] == nodes[k].z,
        decreases nodes.len() - i,
    {
        out.push(nodes[i].z);
        i += 1;
    }
    assert(out@ =~= depths(nodes@));
    out
}

/// The paint that a policy gives a shade: its ramp color, or the shade
/// itself for the renderer to look up.
pub fn paint_of(policy: Policy, shade: Ratio) -> (r: Paint)
    requires
        shade.is_shade(),
    ensures
        r == spec_paint(policy, shade),
{
    match policy {
        Policy::ManualRamp => Paint::Color(manual_ramp(shade)),
        Policy::Colormap => Paint::Lookup(shade),
    }
}

/// The paint of each value under a policy, in the order of the values:
/// each value is normalized against the range of the whole sequence, and
/// its shade becomes a color or is handed out for the lookup. An empty
/// sequence has no range and is refused.
pub fn colorize(values: &Vec<Fixed>, policy: Policy) -> (r: Result<Vec<Paint>, NormalizeError>)
    ensures
        values.len() == 0 ==> r == Err::<Vec<Paint>, NormalizeError>(NormalizeError::InvalidInput),
        values.len() > 0 ==> r is Ok,
        r matches Ok(out) ==> out@ == spec_colorize(values@, policy),
{
    let shades = match normalize(values) {
        Ok(shades) => shades,
        Err(e) => {
            return Err(e);
        },
    };
    let mut out: Vec<Paint> = Vec::with_capacity(shades.len());
    let mut i: usize = 0;
    while i < shades.len()
        invariant
            i <= shades.len(),
            out.len() == i,
            shades@ == spec_normalize(values@),
            forall|k: int| 0 <= k < shades.len() ==> (#[trigger] shades[k]).is_shade(),
            forall|k: int| 0 <= k < i ==> #[trigger] out[k] == spec_paint(policy, shades[k]),
        decreases shades.len() - i,
    {
        out.push(paint_of(policy, shades[i]));
        i += 1;
    }
    assert(out@ =~= spec_colorize(values@, policy));
    Ok(out)
}

/// What is drawn for the nodes: one stamp each, in their order. A scene
/// without nodes has no range of depths and is refused.
pub fn draw_list(nodes: &Vec<Node>, policy: Policy) -> (r: Result<Vec<Stamp>, NormalizeError>)
    ensures
        nodes.len() == 0 ==> r == Err::<Vec<Stamp>, NormalizeError>(NormalizeError::InvalidInput),
        nodes.len() > 0 ==> r is Ok,
        r matches Ok(out) ==> out@ == spec_draw_list(nodes@, policy),
{
    let zs = z_coords(nodes);
    let paints = match colorize(&zs, policy) {
        Ok(paints) => paints,
        Err(e) => {
            return Err(e);
        },
    };
    let mut out: Vec<Stamp> = Vec::with_capacity(nodes.len());
    let mut i: usize = 0;
    while i < nodes.len()
        invariant
            i <= nodes.len(),
            out.len() == i,
            paints.len() == nodes.len(),
            paints@ == spec_colorize(depths(nodes@), policy),
            forall|k: int| 0 <= k < i ==> #[trigger] out[k] == spec_draw_list(nodes@, policy)[k],
        decreases nodes.len() - i,
    {
        let node = nodes[i];
        out.push(Stamp { x: node.x, y: node.y, paint: paints[i] });
        i += 1;
    }
    assert(out@ =~= spec_draw_list(nodes@, policy));
    Ok(out)
}

/// The two triangles that cover a rectangle, as the x and the y of their six
/// corners: the rectangle reaches from `(x, y)` over `width` and `height`.
pub open spec fn spec_quad_corners(x: u32, y: u32, width: u32, height: u32) -> Seq<u64> {
    let x1 = x as u64;
    let y1 = y as u64;
    let x2 = (x + width) as u64;
    let y2 = (y + height) as u64;
    seq![x1, y1, x2, y1, x1, y2, x1, y2, x2, y1, x2, y2]
}

/// The corners of the quad that is stamped once per node: two triangles
/// that cover the rectangle from `(x, y)` over `width` and `height`.
pub fn quad_corners(x: u32, y: u32, width: u32, height: u32) -> (r: [u64; 12])
    ensures
        r@ == spec_quad_corners(x, y, width, height),
{
    let x1 = x as u64;
    let y1 = y as u64;
    let x2 = x as u64 + width as u64;
    let y2 = y as u64 + height as u64;
    let r = [x1, y1, x2, y1, x1, y2, x1, y2, x2, y1, x2, y2];
    assert(r@ =~= spec_quad_corners(x, y, width, height));
    r
}

} // verus!
