use icfp2024::render::Pillar;
use icfp2024::render::Point;
use icfp2024::render::Problem;
use icfp2024::render::ShapeKind;
use icfp2024::render::Solution;
use icfp2024::render::convert_to_rgb;
use icfp2024::render::render_problem;
use icfp2024::render::render_solution;

fn sample_problem() -> Problem {
    Problem {
        room_width: 100,
        room_height: 50,
        stage_bottom_left: Point { x: 10, y: 20 },
        stage_width: 30,
        stage_height: 40,
        attendees: vec![Point { x: 1, y: 2 }],
        pillars: vec![Pillar { center: Point { x: 5, y: 6 }, radius: 7 }],
        musicians: vec![1, 2],
    }
}

#[test]
fn rgb_channels_of_a_byte() {
    assert_eq!(convert_to_rgb(19), (96, 64, 0));
    assert_eq!(convert_to_rgb(0), (0, 0, 0));
    assert_eq!(convert_to_rgb(255), (224, 224, 192));
}

#[test]
fn problem_scene_shapes() {
    let p = sample_problem();
    let scene = render_problem(&p);
    assert_eq!(scene.len(), 4);
    assert_eq!(scene[0].kind, ShapeKind::Rect);
    assert_eq!((scene[0].w, scene[0].h), (100, 50));
    assert_eq!((scene[0].red, scene[0].green, scene[0].blue), (255, 255, 255));
    assert_eq!(scene[1].kind, ShapeKind::Rect);
    assert_eq!((scene[1].x, scene[1].y, scene[1].w, scene[1].h), (10, 20, 30, 40));
    assert_eq!(scene[2].kind, ShapeKind::Circle);
    assert_eq!((scene[2].x, scene[2].y, scene[2].w), (1, 2, 5));
    assert_eq!(scene[3].kind, ShapeKind::Circle);
    assert_eq!((scene[3].x, scene[3].y, scene[3].w), (5, 6, 7));
}

#[test]
fn solution_scene_draws_musicians() {
    let p = sample_problem();
    let sol = Solution {
        placements: vec![Point { x: 3, y: 4 }, Point { x: 8, y: 9 }],
        volumes: vec![0, 10],
    };
    let scene = render_solution(&p, &sol);
    assert_eq!(scene.len(), 6);
    // First musician: instrument 1, colour byte 19, muted and so dimmed.
    assert_eq!((scene[4].x, scene[4].y), (3, 4));
    assert_eq!((scene[4].red, scene[4].green, scene[4].blue), (96, 64, 0));
    assert!(scene[4].dim);
    // Second musician: instrument 2, colour byte 38, playing.
    assert_eq!((scene[5].red, scene[5].green, scene[5].blue), (192, 128, 0));
    assert!(!scene[5].dim);
}

#[test]
fn musicians_walk_ends_at_shortest_list() {
    let p = sample_problem();
    let sol = Solution { placements: vec![Point { x: 3, y: 4 }], volumes: vec![5] };
    let scene = render_solution(&p, &sol);
    assert_eq!(scene.len(), 5);
}
