use eta_graph::handles::types::{VHandle, Weight};
use eta_graph::handles::{pack, set_vh, set_wgt, vh, vh_pack, wgt};

#[test]
fn handle_test_vert_id(){
    let handle = pack(1, 2);
    assert_eq!(vh(handle), 1);
    assert_eq!(wgt(handle), 2);

    let handle = pack(7, 2);
    assert_eq!(vh(handle), 7);
    assert_eq!(wgt(handle), 2);

    let handle = pack(VHandle::MAX, 2);
    assert_eq!(vh(handle), VHandle::MAX);
    assert_eq!(wgt(handle), 2);
}
#[test]
fn handle_test_weight(){
    let handle = pack(1, 7);
    assert_eq!(vh(handle), 1);
    assert_eq!(wgt(handle), 7);

    let handle = pack(7, Weight::MAX);
    assert_eq!(vh(handle), 7);
    assert_eq!(wgt(handle), Weight::MAX);
}

#[test]
fn handle_test_weight_negative(){
    let handle = pack(1, -7);
    assert_eq!(vh(handle), 1);
    assert_eq!(wgt(handle), -7);

    let handle = pack(7, -Weight::MAX);
    assert_eq!(vh(handle), 7);
    assert_eq!(wgt(handle), -Weight::MAX);
}

#[test]
fn handle_test_weight_combined(){
    let handle = pack(1, 7);
    assert_eq!(vh(handle), 1);
    assert_eq!(wgt(handle), 7);

    let handle = pack(VHandle::MAX, Weight::MAX);
    assert_eq!(vh(handle), VHandle::MAX);
    assert_eq!(wgt(handle), Weight::MAX);
}
#[test]
fn set_vert_id_test(){
    let mut handle = pack(1, 7);
    handle = set_vh(handle, 8);
    assert_eq!(vh(handle), 8);
    assert_eq!(wgt(handle), 7);

    handle = set_vh(handle, VHandle::MAX);
    assert_eq!(vh(handle), VHandle::MAX);
    assert_eq!(wgt(handle), 7);

    handle = set_vh(handle, 8);
    assert_eq!(vh(handle), 8);
    assert_eq!(wgt(handle), 7);

    handle = set_vh(handle, 15);
    assert_eq!(vh(handle), 15);
    assert_eq!(wgt(handle), 7);

    handle = set_vh(handle, 127);
    assert_eq!(vh(handle), 127);
    assert_eq!(wgt(handle), 7);

    handle = set_vh(handle, 1);
    assert_eq!(vh(handle), 1);
    assert_eq!(wgt(handle), 7);
}

#[test]
fn set_weight_test(){
    let mut handle = pack(1, 7);
    handle = set_wgt(handle, 8);
    assert_eq!(vh(handle), 1);
    assert_eq!(wgt(handle), 8);

    handle = set_wgt(handle, Weight::MAX);
    assert_eq!(vh(handle), 1);
    assert_eq!(wgt(handle), Weight::MAX);

    handle = set_wgt(handle, 8);
    assert_eq!(vh(handle), 1);
    assert_eq!(wgt(handle), 8);

    handle = set_wgt(handle, -15);
    assert_eq!(vh(handle), 1);
    assert_eq!(wgt(handle), -15);

    handle = set_wgt(handle, -Weight::MAX);
    assert_eq!(vh(handle), 1);
    assert_eq!(wgt(handle), -Weight::MAX);

    handle = set_wgt(handle, 1);
    assert_eq!(vh(handle), 1);
    assert_eq!(wgt(handle), 1);
}

#[test]
fn combined_set_test(){
    let mut handle = pack(1, 1);
    handle = set_vh(handle, 8);
    handle = set_wgt(handle, 8);

    assert_eq!(vh(handle), 8);
    assert_eq!(wgt(handle), 8);

    handle = set_vh(handle, VHandle::MAX);
    handle = set_wgt(handle, Weight::MAX);

    assert_eq!(vh(handle), VHandle::MAX);
    assert_eq!(wgt(handle), Weight::MAX);

    handle = set_vh(handle, 1231);
    handle = set_wgt(handle, 8997);

    assert_eq!(vh(handle), 1231);
    assert_eq!(wgt(handle), 8997);

    handle = set_vh(handle, VHandle::MAX);
    handle = set_wgt(handle, -Weight::MAX);

    assert_eq!(vh(handle), VHandle::MAX);
    assert_eq!(wgt(handle), -Weight::MAX);
}

#[test]
fn vh_pack_test(){
    let handle = vh_pack(5);
    assert_eq!(vh(handle), 5);
    assert_eq!(wgt(handle), 0);
}
#[test]
fn handle_pack_min_weight_roundtrip() {
    let handle = pack(3, Weight::MIN);
    assert_eq!(vh(handle), 3);
    assert_eq!(wgt(handle), Weight::MIN);
    assert_eq!(handle, 3u64 | (0x8000_0000u64 << 32));
}

#[test]
fn handle_unpack_pack_law() {
    for &e in [0u64, 1, 0xFFFF_FFFF, 0x1_0000_0000, 0xDEAD_BEEF_1234_5678, u64::MAX].iter() {
        assert_eq!(pack(vh(e), wgt(e)), e);
    }
}

#[test]
fn handle_set_fields_law() {
    let e = pack(42, -9);
    assert_eq!(vh(set_wgt(e, 100)), 42);
    assert_eq!(wgt(set_vh(e, 7)), -9);
    assert_eq!(vh_pack(9), pack(9, 0));
}

#[test]
fn handle_vhu_test() {
    assert_eq!(eta_graph::handles::vhu(pack(12, -3)), 12usize);
}
