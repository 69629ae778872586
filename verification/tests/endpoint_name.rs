use nodus::endpoint_name::{endpoint_carries_ring, parse_ring_id, ring_id_in};

#[test]
fn ring_id_from_topology_paths() {
    assert_eq!(parse_ring_id(r"\\?\root#media#0005#{g}\WaveCap-3"), Some(3));
    assert_eq!(parse_ring_id(r"{2}.\\?\ROOT#MEDIA#0007\TopologyCap-12"), Some(12));
    assert_eq!(parse_ring_id(r"...\Wave-1"), Some(1));
    assert_eq!(parse_ring_id(r"...\Topology-8"), Some(8));
    assert_eq!(parse_ring_id(r"...\Realtek#0001"), None);
}

#[test]
fn ring_id_needs_lower_case_input() {
    assert_eq!(ring_id_in(r"...\wavecap-7"), Some(7));
    assert_eq!(ring_id_in(r"...\WaveCap-7"), None);
}
