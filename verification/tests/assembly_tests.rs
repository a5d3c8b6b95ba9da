use rasterizer::assembly::{assemble_primitives, check_index_list, outline_segments, IndexFault};
use rasterizer::input::{camera_action, CameraAction};
use rasterizer::math::ivec2;

#[test]
fn vertices_taken_three_at_a_time() {
    assert_eq!(assemble_primitives(6, None), vec![vec![0, 1, 2], vec![3, 4, 5]]);
    assert_eq!(assemble_primitives(7, None), vec![vec![0, 1, 2], vec![3, 4, 5], vec![6]]);
    assert_eq!(assemble_primitives(8, None), vec![vec![0, 1, 2], vec![3, 4, 5], vec![6, 7]]);
    assert_eq!(assemble_primitives(0, None), Vec::<Vec<usize>>::new());
    assert_eq!(assemble_primitives(36, None).len(), 12);
}

#[test]
fn indices_taken_three_at_a_time() {
    let ind: [u32; 6] = [2, 0, 1, 3, 3, 0];
    assert_eq!(assemble_primitives(4, Some(&ind)), vec![vec![2, 0, 1], vec![3, 3, 0]]);
    let none: [u32; 0] = [];
    assert_eq!(assemble_primitives(4, Some(&none)), Vec::<Vec<usize>>::new());
}

#[test]
fn outline_of_full_triangle_is_closed() {
    let a = ivec2(0, 0);
    let b = ivec2(5, 0);
    let c = ivec2(0, 5);
    let segs = outline_segments([Some(a), Some(b), Some(c)]);
    let ends: Vec<_> = segs.iter().map(|(p, q)| ((p.x, p.y), (q.x, q.y))).collect();
    assert_eq!(ends, vec![((0, 0), (5, 0)), ((5, 0), (0, 5)), ((0, 5), (0, 0))]);
}

#[test]
fn outline_skips_sides_with_a_missing_end() {
    let a = ivec2(1, 1);
    let c = ivec2(3, 4);
    let segs = outline_segments([Some(a), None, Some(c)]);
    let ends: Vec<_> = segs.iter().map(|(p, q)| ((p.x, p.y), (q.x, q.y))).collect();
    assert_eq!(ends, vec![((3, 4), (1, 1))]);
    let segs = outline_segments([Some(a), Some(c), None]);
    let ends: Vec<_> = segs.iter().map(|(p, q)| ((p.x, p.y), (q.x, q.y))).collect();
    assert_eq!(ends, vec![((1, 1), (3, 4))]);
    assert!(outline_segments([None, Some(a), None]).is_empty());
    assert!(outline_segments([None, None, None]).is_empty());
}

#[test]
fn key_bindings() {
    assert_eq!(camera_action(0x71, 1 << 2), CameraAction::Quit);
    assert_eq!(camera_action(0x71, 0), CameraAction::Nothing);
    assert_eq!(camera_action(0x77, 0), CameraAction::MoveForward);
    assert_eq!(camera_action(0x73, 4), CameraAction::MoveBackward);
    assert_eq!(camera_action(0x64, 0), CameraAction::MoveRight);
    assert_eq!(camera_action(0x61, 0), CameraAction::MoveLeft);
    assert_eq!(camera_action(0xff52, 0), CameraAction::TiltUp);
    assert_eq!(camera_action(0xff54, 0), CameraAction::TiltDown);
    assert_eq!(camera_action(0xff51, 0), CameraAction::PanLeft);
    assert_eq!(camera_action(0xff53, 0), CameraAction::PanRight);
    assert_eq!(camera_action(0x20, 0), CameraAction::MoveUp);
    assert_eq!(camera_action(0xffe3, 0), CameraAction::MoveDown);
    assert_eq!(camera_action(0x68, 0), CameraAction::WidenFov);
    assert_eq!(camera_action(0x6c, 0), CameraAction::NarrowFov);
    assert_eq!(camera_action(0x41, 0), CameraAction::Nothing);
}

#[test]
fn whole_valid_index_list_is_drawn_whole() {
    assert_eq!(check_index_list(&[0, 1, 2, 2, 1, 0], 3), (6, None));
    assert_eq!(check_index_list(&[], 0), (0, None));
}

#[test]
fn triangles_before_a_bad_index_are_drawn() {
    assert_eq!(check_index_list(&[0, 1, 2, 1, 5, 7], 3), (3, Some(IndexFault::OutOfRange(5))));
    assert_eq!(check_index_list(&[9, 1, 2], 3), (0, Some(IndexFault::OutOfRange(9))));
}

#[test]
fn short_last_triangle_is_reported() {
    assert_eq!(check_index_list(&[0, 1, 2, 1, 2], 3), (3, Some(IndexFault::Incomplete(2))));
    assert_eq!(check_index_list(&[0, 1, 2, 4], 3), (3, Some(IndexFault::OutOfRange(4))));
    assert_eq!(check_index_list(&[0], 3), (0, Some(IndexFault::Incomplete(1))));
}
