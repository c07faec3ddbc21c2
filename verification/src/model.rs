//! The application model around the chain: the commands an input adapter
//! produces, the canvas state, and the dispatcher that feeds the core one
//! command at a time.

use vstd::prelude::*;
use vstd::pervasive::unreached;
use vstd::string::StringExecFns;
use crate::geom::{dist2, in_range, Point, Target};
use crate::limb::{
    anchored, limb_wf, move_map, rotate_map, settle_spec, total_len, Direction, Limb,
};
use crate::num::{ANCHOR_MAX, MOVE_STEP};
use crate::segment::Segment;
use crate::solver::{fold_n, straighten_model};
use crate::trig::atan2_spec;

verus! {

/// A command for the core: move the target, nudge the anchor, rotate the
/// chain, refresh the cached reach, or aim at a point.
#[derive(Clone, Debug)]
pub enum Message {
    MoveTarget(Point),
    Move(Direction),
    RotateLimb(i64),
    GetLength,
    Aim(Point),
}

/// The canvas state: the chain and the optional target.
#[derive(Clone, Debug)]
pub struct Circle {
    pub limbs: Limb,
    pub target: Option<Target>,
}

/// The application state around the canvas.
#[derive(Clone, Debug)]
pub struct Hello {
    pub show_grid: bool,
    pub state: Circle,
}

impl Hello {
    /// The demonstration chain: three segments of 100, 100 and 50 units,
    /// anchored at (500, 300), with initial orientations of 30, 0 and 30
    /// degrees; no target yet.
    pub fn new() -> (h: Hello)
        ensures
            limb_wf(h.state.limbs),
            anchored(h.state.limbs),
            h.state.limbs.limbs@.len() == 3,
            total_len(h.state.limbs.limbs@) == 2_500_000,
            h.state.limbs.origin == Some(Point { x: 5_000_000, y: 3_000_000 }),
            h.state.target is None,
            !h.show_grid,
    {
        let mut segments: Vec<Segment> = Vec::new();
        segments.push(
            Segment::new(Some(Point { x: 5_000_000, y: 3_000_000 }), 1_000_000, 30_000),
        );
        segments.push(Segment::new(None, 1_000_000, 0));
        segments.push(Segment::new(None, 500_000, 30_000));
        proof {
            reveal_with_fuel(crate::limb::prefix_total, 5);
            assert(total_len(segments@) == 2_500_000);
        }
        let limbs = match Limb::new(segments) {
            Ok(l) => l,
            Err(_) => unreached(),
        };
        Hello { show_grid: false, state: Circle { limbs, target: None } }
    }

    /// The window title.
    pub fn title(&self) -> (r: String)
        ensures
            r@ == "Hello"@,
    {
        String::from_str("Hello")
    }

    /// The dispatcher: applies one command to the core. Each command's
    /// effect on the chain and the target is the corresponding core
    /// operation's effect; the chain stays well-formed throughout.
    pub fn update(&mut self, message: Message)
        requires
            limb_wf(old(self).state.limbs),
            (message matches Message::MoveTarget(p) ==> in_range(p, ANCHOR_MAX as int)),
            (message matches Message::Aim(p) ==> in_range(p, ANCHOR_MAX as int)),
            (message matches Message::RotateLimb(d) ==> d > i64::MIN),
            ((message matches Message::Move(_) && anchored(old(self).state.limbs)) ==> in_range(
                old(self).state.limbs.limbs@[0].start_point->Some_0,
                ANCHOR_MAX - MOVE_STEP,
            )),
        ensures
            limb_wf(final(self).state.limbs),
            final(self).show_grid == old(self).show_grid,
            (message matches Message::MoveTarget(p) ==> final(self).state.limbs
                == old(self).state.limbs && final(self).state.target == Some(
                Target { position: p },
            )),
            (message matches Message::Move(dir) ==> ({
                &&& final(self).state.target == old(self).state.target
                &&& (!anchored(old(self).state.limbs) ==> final(self).state.limbs == old(
                    self,
                ).state.limbs)
                &&& (anchored(old(self).state.limbs) ==> final(self).state.limbs.limbs@
                    == settle_spec(move_map(old(self).state.limbs.limbs@, dir)))
            })),
            (message matches Message::RotateLimb(d) ==> ({
                &&& final(self).state.target == old(self).state.target
                &&& final(self).state.limbs.limbs@ == settle_spec(
                    rotate_map(old(self).state.limbs.limbs@, d as int, 0),
                )
                &&& final(self).state.limbs.origin == old(self).state.limbs.origin
            })),
            (message matches Message::GetLength ==> ({
                &&& final(self).state.target == old(self).state.target
                &&& final(self).state.limbs.limbs == old(self).state.limbs.limbs
                &&& final(self).state.limbs.origin == old(self).state.limbs.origin
                &&& final(self).state.limbs.length == Some(
                    total_len(old(self).state.limbs.limbs@) as i64,
                )
            })),
            (message matches Message::Aim(p) ==> ({
                let l = old(self).state.limbs;
                &&& final(self).state.target == Some(Target { position: p })
                &&& (!anchored(l) ==> final(self).state.limbs == l)
                &&& (anchored(l) ==> ({
                    let o = l.origin->Some_0;
                    let d2 = dist2(o, p);
                    let reach = total_len(l.limbs@);
                    &&& (d2 <= reach * reach ==> final(self).state.limbs.limbs@ == fold_n(
                        l.limbs@,
                        o,
                        p,
                        10,
                    ))
                    &&& (d2 > reach * reach ==> final(self).state.limbs.limbs@
                        == straighten_model(l.limbs@, atan2_spec(p.y - o.y, p.x - o.x) as int))
                    &&& final(self).state.limbs.origin == l.origin
                    &&& final(self).state.limbs.length == l.length
                }))
            })),
    {
        match message {
            Message::Move(x) => self.state.limbs.move_origin(x),
            Message::RotateLimb(x) => self.state.limbs.rotate(x, None),
            Message::MoveTarget(x) => {
                self.state.target = Some(Target { position: x });
            },
            Message::GetLength => self.state.limbs.get_total_length(),
            Message::Aim(x) => {
                self.state.target = Some(Target { position: x });
                let target = Target { position: x };
                self.state.limbs.aim_target(&target);
            },
        }
    }
}

} // verus!
