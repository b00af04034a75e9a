//! A duck that falls, glides and flaps across the screen.
//!
//! All of the toy's state lives in one `DuckWorld`, which every function
//! takes. Positions are 16-bit numbers and wrap around as such.

use vstd::prelude::*;

verus! {

/// How far the duck moves sideways in one stride.
pub const DUCK_SPEED: i16 = 3;

/// How far the duck falls in one frame.
pub const GRAVITY: i16 = 2;

/// The strip at the left of the screen that the duck keeps out of.
pub const BUFFER_WIDTH: i16 = 150;

/// How many frames a flap lasts.
pub const BOOST_FRAMES: i16 = 40;

/// The duck, the screen it flies on, and the last key pressed.
#[derive(Clone, Copy, PartialEq, Eq, Structural, Debug)]
pub struct DuckWorld {
    /// The width of the canvas in pixels.
    pub screen_width: u32,
    /// The height of the canvas in pixels.
    pub screen_height: u32,
    /// The last input: 1 for right, 2 for left, 3 for space.
    pub input: u32,
    pub duck_x: i16,
    pub duck_y: i16,
    /// The frames of lift that are left.
    pub boost_frames: i16,
    /// The direction of flight: -1 or 1.
    pub boost_dir: i16,
    /// Whether the duck is flapping.
    pub flap: bool,
    /// Whether the duck stands on the ground.
    pub standing: bool,
}

/// The world before anything has happened.
pub open spec fn initial_world() -> DuckWorld {
    DuckWorld {
        screen_width: 0,
        screen_height: 0,
        input: 1,
        duck_x: 400,
        duck_y: 200,
        boost_frames: 0,
        boost_dir: -1i16,
        flap: false,
        standing: false,
    }
}

/// The height of the ground line: fifty pixels above the bottom of the screen.
pub open spec fn ground(w: DuckWorld) -> i16 {
    (w.screen_height as i16).wrapping_sub(50)
}

/// The right edge of the screen.
pub open spec fn right_edge(w: DuckWorld) -> i16 {
    w.screen_width as i16
}

/// One stride of the duck in its direction of flight.
pub open spec fn stride(w: DuckWorld) -> i16 {
    DUCK_SPEED.wrapping_mul(w.boost_dir)
}

/// The world after the fall: the duck drops by `GRAVITY` until it stands on the ground.
pub open spec fn after_fall(w: DuckWorld) -> DuckWorld {
    if w.duck_y >= ground(w) {
        DuckWorld { duck_y: ground(w), standing: true, ..w }
    } else {
        DuckWorld { duck_y: w.duck_y.wrapping_add(GRAVITY), standing: false, ..w }
    }
}

/// The world after the glide: the duck stays between the left buffer and
/// the right edge, and moves one stride while it is in the air.
pub open spec fn after_glide(w: DuckWorld) -> DuckWorld {
    if w.duck_x <= BUFFER_WIDTH {
        DuckWorld { duck_x: BUFFER_WIDTH, ..w }
    } else if w.duck_x < right_edge(w) {
        if w.duck_y < ground(w) {
            DuckWorld { duck_x: w.duck_x.wrapping_add(stride(w)), ..w }
        } else {
            w
        }
    } else {
        DuckWorld { duck_x: right_edge(w), ..w }
    }
}

/// The world after the lift: while frames of lift are left, the duck moves
/// one more stride and rises; after that it stops flapping.
pub open spec fn after_lift(w: DuckWorld) -> DuckWorld {
    if w.boost_frames > 0 {
        DuckWorld {
            duck_x: w.duck_x.wrapping_add(stride(w)),
            duck_y: w.duck_y.wrapping_sub((DUCK_SPEED + 3) as i16),
            boost_frames: (w.boost_frames - 1) as i16,
            ..w
        }
    } else {
        DuckWorld { flap: false, ..w }
    }
}

/// The world one frame later.
pub open spec fn after_gravity(w: DuckWorld) -> DuckWorld {
    after_lift(after_glide(after_fall(w)))
}

/// The world after a key has been pressed.
pub open spec fn after_input(w: DuckWorld, input: u32) -> DuckWorld {
    if input == 1 {
        DuckWorld { input: 1, boost_frames: BOOST_FRAMES, boost_dir: -1i16, flap: true, ..w }
    } else if input == 2 {
        DuckWorld { input: 2, boost_frames: BOOST_FRAMES, boost_dir: 1, flap: true, ..w }
    } else if input == 3 {
        DuckWorld { input: 3, ..w }
    } else {
        DuckWorld { input: 1, ..w }
    }
}

/// A coordinate as it is packed: a negative one counts as zero.
pub open spec fn clamped(v: i16) -> u32 {
    if v < 0 {
        0
    } else {
        v as u32
    }
}

/// Both coordinates in one number: x in the upper half, y in the lower.
pub open spec fn packed(w: DuckWorld) -> u32 {
    (clamped(w.duck_x) << 16) | (clamped(w.duck_y) & 0xFFFF)
}

/// The state of the duck in three bits: bit 0 for its direction, bit 1 for
/// flapping, bit 2 for standing.
pub open spec fn states(w: DuckWorld) -> u8 {
    (if w.boost_dir != -1 {
        1u8
    } else {
        0u8
    }) | (if w.flap {
        2u8
    } else {
        0u8
    }) | (if w.standing {
        4u8
    } else {
        0u8
    })
}

impl DuckWorld {
    /// The world before anything has happened: the duck at (400, 200),
    /// facing left, on a screen without size.
    pub fn new() -> (w: DuckWorld)
        ensures
            w == initial_world(),
    {
        DuckWorld {
            screen_width: 0,
            screen_height: 0,
            input: 1,
            duck_x: 400,
            duck_y: 200,
            boost_frames: 0,
            boost_dir: -1,
            flap: false,
            standing: false,
        }
    }
}

/// Tells the world the size of the canvas.
pub fn set_canvas_dimensions(world: &mut DuckWorld, width: u32, height: u32)
    ensures
        *final(world) == (DuckWorld { screen_width: width, screen_height: height, ..*old(world) }),
{
    world.screen_width = width;
    world.screen_height = height;
}

/// Moves the world on by one frame and returns where the duck then is,
/// both coordinates packed into one number.
pub fn get_duck_co(world: &mut DuckWorld) -> (co: u32)
    ensures
        *final(world) == after_gravity(*old(world)),
        co == packed(*final(world)),
{
    apply_gravity(world);
    let x: u32 = if world.duck_x < 0 {
        0
    } else {
        world.duck_x as u32
    };
    let y: u32 = if world.duck_y < 0 {
        0
    } else {
        world.duck_y as u32
    };
    (x << 16) | (y & 0xFFFF)
}

/// The state of the duck in three bits.
pub fn get_duck_states(world: &DuckWorld) -> (bits: u8)
    ensures
        bits == states(*world),
{
    let dir: u8 = if world.boost_dir != -1 {
        1
    } else {
        0
    };
    let flap: u8 = if world.flap {
        2
    } else {
        0
    };
    let stand: u8 = if world.standing {
        4
    } else {
        0
    };
    dir | flap | stand
}

/// Takes a key press: 1 turns the duck right and 2 left, and either makes
/// it flap; 3 is noted; anything else counts as no more than a 1 noted.
pub fn set_user_input(world: &mut DuckWorld, input: u32)
    ensures
        *final(world) == after_input(*old(world), input),
{
    if input == 1 {
        world.input = 1;
        world.boost_frames = BOOST_FRAMES;
        world.boost_dir = -1;
        world.flap = true;
    } else if input == 2 {
        world.input = 2;
        world.boost_frames = BOOST_FRAMES;
        world.boost_dir = 1;
        world.flap = true;
    } else if input == 3 {
        world.input = 3;
    } else {
        world.input = 1;
    }
}

/// Moves the world on by one frame: the duck falls, glides, and is lifted
/// while it flaps.
pub fn apply_gravity(world: &mut DuckWorld)
    ensures
        *final(world) == after_gravity(*old(world)),
{
    let height: i16 = (#[verifier::truncate] (world.screen_height as i16)).wrapping_sub(50);
    let width: i16 = #[verifier::truncate] (world.screen_width as i16);
    if world.duck_y >= height {
        world.duck_y = height;
        world.standing = true;
    } else {
        world.duck_y = world.duck_y.wrapping_add(GRAVITY);
        world.standing = false;
    }
    let step = DUCK_SPEED.wrapping_mul(world.boost_dir);
    if world.duck_x <= BUFFER_WIDTH {
        world.duck_x = BUFFER_WIDTH;
    } else if world.duck_x < width {
        if world.duck_y < height {
            world.duck_x = world.duck_x.wrapping_add(step);
        }
    } else {
        world.duck_x = width;
    }
    if world.boost_frames > 0 {
        world.duck_x = world.duck_x.wrapping_add(step);
        world.duck_y = world.duck_y.wrapping_sub(DUCK_SPEED + 3);
        world.boost_frames = world.boost_frames - 1;
    } else {
        world.flap = false;
    }
}

} // verus!
