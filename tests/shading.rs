use raytracer::shading::{past_max_depth, secondary_depth, MAX_DEPTH};

#[test]
fn secondary_rays_stop_at_max_depth() {
    assert_eq!(MAX_DEPTH, 2);
    assert_eq!(secondary_depth(0), Some(1));
    assert_eq!(secondary_depth(1), Some(2));
    assert_eq!(secondary_depth(2), None);
    assert_eq!(secondary_depth(u32::MAX), None);
}

#[test]
fn depth_past_limit_gets_background() {
    assert!(!past_max_depth(0));
    assert!(!past_max_depth(2));
    assert!(past_max_depth(3));
}

#[test]
fn recursion_chain_terminates() {
    let mut depth = 0u32;
    let mut rays = 1u32;
    while let Some(next) = secondary_depth(depth) {
        depth = next;
        rays += 1;
    }
    assert_eq!(rays, 3);
    assert_eq!(depth, MAX_DEPTH);
}
