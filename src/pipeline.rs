use vstd::prelude::*;

verus! {

/// Render-mode flag: draw the edges of each triangle.
pub const RENDER_STATE_WIREFRAME: i32 = 1;

/// Render-mode flag: fill triangles with the texture.
pub const RENDER_STATE_TEXTURE: i32 = 2;

/// Render-mode flag: fill triangles with their interpolated vertex colors.
pub const RENDER_STATE_COLOR: i32 = 4;

/// Whether render mode `mode` has `flag` set.
pub open spec fn has_flag(mode: i32, flag: i32) -> bool {
    mode & flag != 0
}

/// How the pixels of a filled triangle get their color.
#[derive(Clone, Copy, Debug, PartialEq, Eq, Structural)]
pub enum Fill {
    Nothing,
    Colored,
    Textured,
}

/// The fill of render mode `mode`: the texture wins where both fill flags
/// are set.
pub fn fill_of(mode: i32) -> (f: Fill)
    ensures
        f == (if has_flag(mode, RENDER_STATE_TEXTURE) {
            Fill::Textured
        } else if has_flag(mode, RENDER_STATE_COLOR) {
            Fill::Colored
        } else {
            Fill::Nothing
        }),
{
    if mode & RENDER_STATE_TEXTURE != 0 {
        Fill::Textured
    } else if mode & RENDER_STATE_COLOR != 0 {
        Fill::Colored
    } else {
        Fill::Nothing
    }
}

/// Whether render mode `mode` draws triangle edges.
pub fn draws_wireframe(mode: i32) -> (r: bool)
    ensures
        r == has_flag(mode, RENDER_STATE_WIREFRAME),
{
    mode & RENDER_STATE_WIREFRAME != 0
}

/// Where a clip-space position `(x, y, z, w)` lies against the six planes of
/// the clip volume; each field is true when the position is outside:
/// `near` for `z < 0`, `far` for `z > w`, `left` for `x < -w`, `right` for
/// `x > w`, `bottom` for `y < -w` and `top` for `y > w`.
#[derive(Clone, Copy, Debug, PartialEq, Eq, Structural)]
pub struct ClipTests {
    pub near: bool,
    pub far: bool,
    pub left: bool,
    pub right: bool,
    pub bottom: bool,
    pub top: bool,
}

pub open spec fn bit(b: bool, value: int) -> int {
    if b {
        value
    } else {
        0
    }
}

/// The six-bit clip code of `t`: bit 0 for `near`, then `far`, `left`,
/// `right`, `bottom` and `top`; zero means inside the clip volume.
pub open spec fn cvv_mask(t: ClipTests) -> int {
    bit(t.near, 1) + bit(t.far, 2) + bit(t.left, 4) + bit(t.right, 8) + bit(t.bottom, 16) + bit(
        t.top,
        32,
    )
}

/// Whether a triangle whose vertices have clip codes `m1`, `m2`, `m3` is
/// drawn: only when every vertex lies inside the clip volume.
pub open spec fn cvv_accepts(m1: int, m2: int, m3: int) -> bool {
    m1 == 0 && m2 == 0 && m3 == 0
}

/// The clip code of one vertex.
pub fn check_cvv(t: ClipTests) -> (m: i32)
    ensures
        m == cvv_mask(t),
        m == 0 <==> !(t.near || t.far || t.left || t.right || t.bottom || t.top),
{
    let mut check: i32 = 0;
    if t.near {
        check = check + 1;
    }
    if t.far {
        check = check + 2;
    }
    if t.left {
        check = check + 4;
    }
    if t.right {
        check = check + 8;
    }
    if t.bottom {
        check = check + 16;
    }
    if t.top {
        check = check + 32;
    }
    check
}

/// Whether a triangle with vertex clip codes `m1`, `m2`, `m3` is drawn: a
/// triangle with any vertex outside the clip volume is dropped whole.
pub fn triangle_accepted(m1: i32, m2: i32, m3: i32) -> (r: bool)
    ensures
        r == cvv_accepts(m1 as int, m2 as int, m3 as int),
{
    m1 == 0 && m2 == 0 && m3 == 0
}

/// A triangle whose three vertices all lie in front of the near plane
/// (`z < 0`) is never drawn.
pub proof fn lemma_near_plane_rejects(t1: ClipTests, t2: ClipTests, t3: ClipTests)
    requires
        t1.near,
        t2.near,
        t3.near,
    ensures
        !cvv_accepts(cvv_mask(t1), cvv_mask(t2), cvv_mask(t3)),
{
}

} // verus!
