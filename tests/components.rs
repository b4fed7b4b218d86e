use tiled_arena::{Direction, LifeCycle, MovementAxis, RotationAxis};

#[test]
fn movement_axis_from_move() {
    assert!(matches!(MovementAxis::from_move_xz((1, 1), (2, 1)), MovementAxis::X(Direction::Positive)));
    assert!(matches!(MovementAxis::from_move_xz((1, 1), (0, 5)), MovementAxis::X(Direction::Negative)));
    assert!(matches!(MovementAxis::from_move_xz((1, 1), (1, 2)), MovementAxis::Z(Direction::Positive)));
    assert!(matches!(MovementAxis::from_move_xz((1, 1), (1, 0)), MovementAxis::Z(Direction::Negative)));
}

#[test]
fn rotation_axis_from_movement() {
    assert_eq!(
        RotationAxis::from_movement_axis(&MovementAxis::X(Direction::Positive)),
        RotationAxis::Z(Direction::Negative)
    );
    assert_eq!(
        RotationAxis::from_movement_axis(&MovementAxis::Z(Direction::Negative)),
        RotationAxis::X(Direction::Positive)
    );
}

#[test]
fn life_cycle() {
    let mut lc = LifeCycle::default();
    assert_eq!(lc.health(), 100);
    assert!(lc.is_alive());
    lc.deduct(30);
    assert_eq!(lc.health(), 70);
    lc.terminate();
    assert!(!lc.is_alive());
}
