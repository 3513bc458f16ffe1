use kv_store::btree::outline::{outline_prefix, OutlineLine};
use kv_store::load::{check_response, choose_request, next_qps, read_share_per_mille, LoadType, RequestKind, ResponseCheck};

#[test]
fn reads_take_the_stored_value_and_writes_a_fresh_one() {
    assert_eq!(choose_request(LoadType::ReadDominant, true, false), (RequestKind::Get, true));
    assert_eq!(choose_request(LoadType::ReadDominant, false, true), (RequestKind::Put, false));
    assert_eq!(choose_request(LoadType::WriteDominant, false, false), (RequestKind::Put, false));
    assert_eq!(choose_request(LoadType::Balanced, false, true), (RequestKind::Delete, true));
    assert_eq!(choose_request(LoadType::Balanced, false, false), (RequestKind::Put, false));
    assert_eq!(choose_request(LoadType::Balanced, true, true), (RequestKind::Get, true));
}

#[test]
fn read_shares_follow_the_load_type() {
    assert_eq!(read_share_per_mille(LoadType::ReadDominant), 900);
    assert_eq!(read_share_per_mille(LoadType::WriteDominant), 100);
    assert_eq!(read_share_per_mille(LoadType::Balanced), 100);
}

#[test]
fn rate_rises_by_tiers_until_the_maximum() {
    assert_eq!(next_qps(1, 1000, 50_000), Some(1001));
    assert_eq!(next_qps(49_001, 1000, 50_000), None);
    assert_eq!(next_qps(49_000, 1000, 50_000), Some(50_000));
    assert_eq!(next_qps(u32::MAX, 1, u32::MAX), None);
}

#[test]
fn answers_are_judged_by_status_and_value() {
    assert_eq!(check_response(false, true, b"x", b"x"), ResponseCheck::StatusError);
    assert_eq!(check_response(true, true, b"y", b"x"), ResponseCheck::ValueMismatch);
    assert_eq!(check_response(true, true, b"", b"x"), ResponseCheck::Fine);
    assert_eq!(check_response(true, true, b"x", b"x"), ResponseCheck::Fine);
    assert_eq!(check_response(true, false, b"y", b"x"), ResponseCheck::Fine);
}

#[test]
fn outline_prefixes_draw_bars_and_branches() {
    assert_eq!(outline_prefix(&OutlineLine::Page { page: 0, depth: 0 }), b"".to_vec());
    assert_eq!(outline_prefix(&OutlineLine::Page { page: 2, depth: 2 }), b"|  |__".to_vec());
    assert_eq!(
        outline_prefix(&OutlineLine::Entry { leaf: 2, index: 0, depth: 1, under_last: true }),
        b"|  |__".to_vec()
    );
    assert_eq!(
        outline_prefix(&OutlineLine::Entry { leaf: 2, index: 0, depth: 2, under_last: true }),
        b"|      |__".to_vec()
    );
    assert_eq!(
        outline_prefix(&OutlineLine::Entry { leaf: 2, index: 0, depth: 2, under_last: false }),
        b"|  |  |__".to_vec()
    );
}
