use rgb_core::status::{Failure, Info, Status, Validity, Warning};
use rgb_core::types::{OpId, Txid};

fn opid(n: u8) -> OpId {
    OpId([n; 32])
}

fn txid(n: u8) -> Txid {
    Txid([n; 32])
}

#[test]
fn empty_status_is_valid() {
    let st = Status::new();
    assert!(st.failures.is_empty());
    assert!(st.warnings.is_empty());
    assert!(st.info.is_empty());
    assert_eq!(st.validity(), Validity::Valid);
}

#[test]
fn validity_truth_table() {
    // failures empty, unresolved empty
    let st = Status::new();
    assert_eq!(st.validity(), Validity::Valid);

    // failures empty, unresolved non-empty (still no failures)
    let mut st = Status::new();
    st.add_unresolved_txid(txid(1));
    assert_eq!(st.validity(), Validity::Valid);

    // failures present, unresolved empty
    let mut st = Status::new();
    st.add_failure(Failure::OperationAbsent(opid(1)));
    assert_eq!(st.validity(), Validity::Invalid);

    // failures present, unresolved non-empty
    let mut st = Status::new();
    st.add_failure(Failure::OperationAbsent(opid(1)));
    st.add_unresolved_txid(txid(1));
    assert_eq!(st.validity(), Validity::UnresolvedTransactions);
}

#[test]
fn validity_unmined_endpoints_override() {
    // failures empty + unmined endpoints non-empty => ValidExceptEndpoints,
    // regardless of the unresolved list
    let mut st = Status::new();
    st.add_unmined_endpoint_txid(txid(2));
    assert_eq!(st.validity(), Validity::ValidExceptEndpoints);

    let mut st = Status::new();
    st.add_unmined_endpoint_txid(txid(2));
    st.add_unresolved_txid(txid(3));
    assert_eq!(st.validity(), Validity::ValidExceptEndpoints);
}

#[test]
fn single_failure_constructors() {
    let f = Failure::OperationAbsent(opid(9));
    let a = Status::from_error(f.clone());
    assert_eq!(a.failures, vec![f.clone()]);
    assert!(a.warnings.is_empty());
    assert!(a.info.is_empty());
    assert!(a.unresolved_txids.is_empty());
    assert!(a.unmined_endpoint_txids.is_empty());

    let b = Status::with_failure(f.clone());
    assert_eq!(b.failures, a.failures);

    let c = Status::from_failures(vec![f.clone(), Failure::Custom(String::from("x"))]);
    assert_eq!(c.failures.len(), 2);
}

#[test]
fn adders_chain_in_order() {
    let mut st = Status::new();
    st.add_failure(Failure::OperationAbsent(opid(1)));
    st.add_failure(Failure::TransitionAbsent(opid(2)));
    st.add_warning(Warning::ExcessiveNode(opid(3)));
    st.add_info(Info::Custom(String::from("note")));
    assert_eq!(
        st.failures,
        vec![Failure::OperationAbsent(opid(1)), Failure::TransitionAbsent(opid(2))]
    );
    assert_eq!(st.warnings, vec![Warning::ExcessiveNode(opid(3))]);
    assert_eq!(st.info, vec![Info::Custom(String::from("note"))]);
}

fn sample(n: u8) -> Status {
    let mut st = Status::new();
    st.add_failure(Failure::OperationAbsent(opid(n)));
    st.add_warning(Warning::ExcessiveNode(opid(n)));
    st.add_info(Info::Custom(format!("i{n}")));
    st.add_unresolved_txid(txid(n));
    st.add_unmined_endpoint_txid(txid(n));
    st
}

fn status_eq(a: &Status, b: &Status) -> bool {
    a.unresolved_txids == b.unresolved_txids
        && a.unmined_endpoint_txids == b.unmined_endpoint_txids && a.failures == b.failures
        && a.warnings == b.warnings && a.info == b.info
}

#[test]
fn merge_is_associative_and_order_preserving() {
    let a0 = sample(1);
    let b0 = sample(2);
    let c0 = sample(3);

    // (a += b) += c
    let mut left = a0.clone();
    left.add_assign(b0.clone());
    left.add_assign(c0.clone());

    // a += (b += c)
    let mut bc = b0.clone();
    bc.add_assign(c0.clone());
    let mut right = a0.clone();
    right.add_assign(bc);

    assert!(status_eq(&left, &right));
    assert_eq!(
        left.failures,
        vec![
            Failure::OperationAbsent(opid(1)),
            Failure::OperationAbsent(opid(2)),
            Failure::OperationAbsent(opid(3)),
        ]
    );
    assert_eq!(left.unresolved_txids, vec![txid(1), txid(2), txid(3)]);
    assert_eq!(left.unmined_endpoint_txids, vec![txid(1), txid(2), txid(3)]);
}

#[test]
fn merge_keeps_all_five_sequences() {
    let mut a = Status::new();
    a.add_failure(Failure::Custom(String::from("f1")));
    let mut b = Status::new();
    b.add_warning(Warning::Custom(String::from("w1")));
    b.add_unresolved_txid(txid(7));
    a.add_assign(b);
    assert_eq!(a.failures, vec![Failure::Custom(String::from("f1"))]);
    assert_eq!(a.warnings, vec![Warning::Custom(String::from("w1"))]);
    assert_eq!(a.unresolved_txids, vec![txid(7)]);
}
