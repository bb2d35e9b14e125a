//! Scene construction for rendering a problem and a solution.
//!
//! A room holds a stage, attendees, pillars and, when a solution is shown,
//! one circle per placed musician, coloured by instrument and dimmed when
//! muted. This module computes the exact list of shapes; writing them out
//! as SVG or onto a canvas is the caller's business.
use vstd::prelude::*;

use vstd::arithmetic::div_mod::lemma_mul_mod_noop_left;

verus! {

/// A position in the room.
#[derive(Debug, Clone, Copy, PartialEq, Eq, Structural)]
pub struct Point {
    pub x: i64,
    pub y: i64,
}

/// An obstructing pillar.
#[derive(Debug, Clone, Copy, PartialEq, Eq, Structural)]
pub struct Pillar {
    pub center: Point,
    pub radius: i64,
}

/// A concert problem: the room, the stage, the audience, the pillars and
/// the instrument of each musician.
pub struct Problem {
    pub room_width: i64,
    pub room_height: i64,
    pub stage_bottom_left: Point,
    pub stage_width: i64,
    pub stage_height: i64,
    pub attendees: Vec<Point>,
    pub pillars: Vec<Pillar>,
    pub musicians: Vec<u64>,
}

/// A placement of the musicians: where each stands and how loud it plays.
pub struct Solution {
    pub placements: Vec<Point>,
    pub volumes: Vec<i64>,
}

/// What a shape is drawn as.
#[derive(Debug, Clone, Copy, PartialEq, Eq, Structural)]
pub enum ShapeKind {
    /// A rectangle from `(x, y)` spanning `w` by `h`.
    Rect,
    /// A circle at `(x, y)` with radius `w`; `h` is unused and zero.
    Circle,
}

/// One drawable shape with its colour; `dim` asks for reduced opacity.
#[derive(Debug, Clone, Copy, PartialEq, Eq, Structural)]
pub struct Shape {
    pub kind: ShapeKind,
    pub x: i64,
    pub y: i64,
    pub w: i64,
    pub h: i64,
    pub red: u8,
    pub green: u8,
    pub blue: u8,
    pub dim: bool,
}

/// The white backdrop covering the room.
pub open spec fn background_shape(p: Problem) -> Shape {
    Shape {
        kind: ShapeKind::Rect,
        x: 0,
        y: 0,
        w: p.room_width,
        h: p.room_height,
        red: 255,
        green: 255,
        blue: 255,
        dim: false,
    }
}

/// The stage rectangle, drawn dimmed gray.
pub open spec fn stage_shape(p: Problem) -> Shape {
    Shape {
        kind: ShapeKind::Rect,
        x: p.stage_bottom_left.x,
        y: p.stage_bottom_left.y,
        w: p.stage_width,
        h: p.stage_height,
        red: 204,
        green: 204,
        blue: 204,
        dim: true,
    }
}

/// An attendee: a small blue circle.
pub open spec fn attendee_shape(a: Point) -> Shape {
    Shape {
        kind: ShapeKind::Circle,
        x: a.x,
        y: a.y,
        w: 5,
        h: 0,
        red: 0,
        green: 0,
        blue: 255,
        dim: true,
    }
}

/// A pillar: a gray circle of its own radius.
pub open spec fn pillar_shape(pl: Pillar) -> Shape {
    Shape {
        kind: ShapeKind::Circle,
        x: pl.center.x,
        y: pl.center.y,
        w: pl.radius,
        h: 0,
        red: 128,
        green: 128,
        blue: 128,
        dim: true,
    }
}

/// The byte whose colour stands for an instrument.
pub open spec fn instrument_byte(inst: u64) -> u8 {
    ((inst * 19) % 256) as u8
}

/// The colour channels of a byte: three bits of red, three of green, two of
/// blue, each scaled to the full channel.
pub open spec fn rgb_spec(n: u8) -> (u8, u8, u8) {
    (((n % 8) * 32) as u8, (((n / 8) % 8) * 32) as u8, (((n / 64) % 4) * 64) as u8)
}

/// A placed musician: a small circle in its instrument's colour, dimmed
/// when its volume is zero.
pub open spec fn musician_shape(pl: Point, vol: i64, inst: u64) -> Shape {
    Shape {
        kind: ShapeKind::Circle,
        x: pl.x,
        y: pl.y,
        w: 5,
        h: 0,
        red: rgb_spec(instrument_byte(inst)).0,
        green: rgb_spec(instrument_byte(inst)).1,
        blue: rgb_spec(instrument_byte(inst)).2,
        dim: vol == 0,
    }
}

/// How many musicians are drawn: placements, volumes and instruments are
/// walked together and the shortest list ends the walk.
pub open spec fn musicians_drawn(p: Problem, s: Solution) -> int {
    let a = s.placements@.len() as int;
    let b = s.volumes@.len() as int;
    let c = p.musicians@.len() as int;
    if a <= b && a <= c {
        a
    } else if b <= c {
        b
    } else {
        c
    }
}

/// The whole scene, in drawing order: backdrop, stage, attendees, pillars,
/// and the musicians of the solution when one is shown.
pub open spec fn scene_spec(p: Problem, s: Option<Solution>) -> Seq<Shape> {
    seq![background_shape(p), stage_shape(p)] + Seq::new(
        p.attendees@.len(),
        |i: int| attendee_shape(p.attendees@[i]),
    ) + Seq::new(p.pillars@.len(), |i: int| pillar_shape(p.pillars@[i])) + (match s {
        None => Seq::<Shape>::empty(),
        Some(sol) => Seq::new(
            musicians_drawn(p, sol) as nat,
            |i: int| musician_shape(sol.placements@[i], sol.volumes@[i], p.musicians@[i]),
        ),
    })
}

/// The colour channels of a byte, as drawn.
pub fn convert_to_rgb(n: u8) -> (r: (u8, u8, u8))
    ensures
        r == rgb_spec(n),
{
    let red = (n % 8) * 32;
    let green = ((n / 8) % 8) * 32;
    let blue = ((n / 64) % 4) * 64;
    (red, green, blue)
}

/// The colour byte of an instrument, computed without overflowing.
fn instrument_byte_exec(inst: u64) -> (r: u8)
    ensures
        r == instrument_byte(inst),
{
    proof {
        lemma_mul_mod_noop_left(inst as int, 19, 256);
    }
    (((inst % 256) * 19) % 256) as u8
}

/// Builds the scene of a problem and an optional solution, shape by shape,
/// exactly as [`scene_spec`] lays it out.
pub fn render_svg(problem: &Problem, solution: Option<&Solution>) -> (r: Vec<Shape>)
    ensures
        solution matches Some(s) ==> r@ == scene_spec(*problem, Some(*s)),
        solution is None ==> r@ == scene_spec(*problem, None::<Solution>),
{
    let mut out: Vec<Shape> = Vec::new();
    out.push(
        Shape {
            kind: ShapeKind::Rect,
            x: 0,
            y: 0,
            w: problem.room_width,
            h: problem.room_height,
            red: 255,
            green: 255,
            blue: 255,
            dim: false,
        },
    );
    out.push(
        Shape {
            kind: ShapeKind::Rect,
            x: problem.stage_bottom_left.x,
            y: problem.stage_bottom_left.y,
            w: problem.stage_width,
            h: problem.stage_height,
            red: 204,
            green: 204,
            blue: 204,
            dim: true,
        },
    );
    let ghost head = seq![background_shape(*problem), stage_shape(*problem)];
    proof {
        assert(out@ =~= head);
    }
    let mut i: usize = 0;
    let na = problem.attendees.len();
    while i < na
        invariant
            na == problem.attendees@.len(),
            0 <= i <= na,
            out@ =~= head + Seq::new(i as nat, |k: int| attendee_shape(problem.attendees@[k])),
        decreases na - i,
    {
        let a = problem.attendees[i];
        out.push(
            Shape {
                kind: ShapeKind::Circle,
                x: a.x,
                y: a.y,
                w: 5,
                h: 0,
                red: 0,
                green: 0,
                blue: 255,
                dim: true,
            },
        );
        i += 1;
        proof {
            assert(out@ =~= head + Seq::new(
                i as nat,
                |k: int| attendee_shape(problem.attendees@[k]),
            ));
        }
    }
    let ghost head2 = head + Seq::new(
        problem.attendees@.len(),
        |k: int| attendee_shape(problem.attendees@[k]),
    );
    proof {
        assert(out@ =~= head2);
    }
    let mut j: usize = 0;
    let np = problem.pillars.len();
    while j < np
        invariant
            np == problem.pillars@.len(),
            0 <= j <= np,
            out@ =~= head2 + Seq::new(j as nat, |k: int| pillar_shape(problem.pillars@[k])),
        decreases np - j,
    {
        let pl = problem.pillars[j];
        out.push(
            Shape {
                kind: ShapeKind::Circle,
                x: pl.center.x,
                y: pl.center.y,
                w: pl.radius,
                h: 0,
                red: 128,
                green: 128,
                blue: 128,
                dim: true,
            },
        );
        j += 1;
        proof {
            assert(out@ =~= head2 + Seq::new(
                j as nat,
                |k: int| pillar_shape(problem.pillars@[k]),
            ));
        }
    }
    let ghost head3 = head2 + Seq::new(
        problem.pillars@.len(),
        |k: int| pillar_shape(problem.pillars@[k]),
    );
    proof {
        assert(out@ =~= head3);
    }
    match solution {
        None => {
            proof {
                assert(out@ =~= scene_spec(*problem, None::<Solution>));
            }
            out
        },
        Some(sol) => {
            let mut m: usize = 0;
            let mut nm = sol.placements.len();
            if sol.volumes.len() < nm {
                nm = sol.volumes.len();
            }
            if problem.musicians.len() < nm {
                nm = problem.musicians.len();
            }
            proof {
                assert(nm as int == musicians_drawn(*problem, *sol));
            }
            while m < nm
                invariant
                    nm as int == musicians_drawn(*problem, *sol),
                    nm <= sol.placements@.len(),
                    nm <= sol.volumes@.len(),
                    nm <= problem.musicians@.len(),
                    0 <= m <= nm,
                    out@ =~= head3 + Seq::new(
                        m as nat,
                        |k: int| musician_shape(
                            sol.placements@[k],
                            sol.volumes@[k],
                            problem.musicians@[k],
                        ),
                    ),
                decreases nm - m,
            {
                let pl = sol.placements[m];
                let vol = sol.volumes[m];
                let inst = problem.musicians[m];
                let (red, green, blue) = convert_to_rgb(instrument_byte_exec(inst));
                out.push(
                    Shape {
                        kind: ShapeKind::Circle,
                        x: pl.x,
                        y: pl.y,
                        w: 5,
                        h: 0,
                        red,
                        green,
                        blue,
                        dim: vol == 0,
                    },
                );
                m += 1;
                proof {
                    assert(out@ =~= head3 + Seq::new(
                        m as nat,
                        |k: int| musician_shape(
                            sol.placements@[k],
                            sol.volumes@[k],
                            problem.musicians@[k],
                        ),
                    ));
                }
            }
            proof {
                assert(out@ =~= scene_spec(*problem, Some(*sol)));
            }
            out
        },
    }
}

/// The scene of a problem alone, with no solution drawn.
pub fn render_problem(problem: &Problem) -> (r: Vec<Shape>)
    ensures
        r@ == scene_spec(*problem, None::<Solution>),
{
    render_svg(problem, None)
}

/// The scene of a problem with a solution's musicians drawn on it.
pub fn render_solution(problem: &Problem, solution: &Solution) -> (r: Vec<Shape>)
    ensures
        r@ == scene_spec(*problem, Some(*solution)),
{
    render_svg(problem, Some(solution))
}

} // verus!
