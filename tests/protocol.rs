use swarm_bot::block::BlockLocation;
use swarm_bot::protocol::{Face, MouseButton};

#[test]
fn faces() {
    assert!(Face::PosX.is_x() && Face::NegX.is_x() && !Face::PosY.is_x());
    assert!(Face::NegY.is_y() && !Face::PosZ.is_y());
    assert!(Face::PosZ.is_z() && !Face::NegX.is_z());
    assert_eq!(Face::NegY.change(), BlockLocation::new(0, -1, 0));
    assert_eq!(Face::PosX.change(), BlockLocation::new(1, 0, 0));
    assert_eq!(Face::from_index(3), Face::PosZ);
    assert_eq!(MouseButton::Right.code(), 1);
    assert_eq!(MouseButton::Left.code(), 0);
}
