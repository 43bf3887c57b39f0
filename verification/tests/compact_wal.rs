use vault::error::AppError;
use vault::wal::CompactOperation;
use vault::wal::CompactOperation::{
    CopyDataTo, CopyIndexTo, CreateData, CreateIndex, ReplaceData, ReplaceIndex,
};
use vault::wal::Operation;

#[test]
fn test_every_enum_to_and_from_bytes() {
    let all_operations = vec![
        (CreateData, 1),
        (CreateIndex, 2),
        (CopyDataTo, 3),
        (CopyIndexTo, 4),
        (ReplaceData, 5),
        (ReplaceIndex, 6),
    ];

    for (op, expected_byte) in all_operations {
        let bytes = op.to_bytes();
        assert_eq!(
            bytes[0], expected_byte,
            "Failed mapping serialization for {:?}",
            op
        );

        let decoded = CompactOperation::from_bytes(bytes).unwrap();
        assert_eq!(decoded, op);
    }
}

#[test]
fn test_unknown_operation_byte() {
    let invalid_bytes_1 = [0u8];
    let invalid_bytes_2 = [99u8];

    assert!(matches!(
        CompactOperation::from_bytes(invalid_bytes_1).unwrap_err(),
        AppError::UnknownCompactOperation
    ));
    assert!(matches!(
        CompactOperation::from_bytes(invalid_bytes_2).unwrap_err(),
        AppError::UnknownCompactOperation
    ));
}

#[test]
fn test_writing_each_operation_produces_exactly_1_byte() {
    let operations = vec![
        CreateData,
        CreateIndex,
        CopyDataTo,
        CopyIndexTo,
        ReplaceData,
        ReplaceIndex,
    ];
    for op in operations {
        let bytes = op.to_bytes();
        assert_eq!(bytes.len(), 1, "Operation {:?} must be exactly 1 byte", op);
        assert_eq!(CompactOperation::from_bytes(bytes).unwrap(), op);
    }
}

#[test]
fn test_advancing_each_state_produces_the_expected_next_state() {
    let transition_matrix = vec![
        (CreateData, CreateIndex),
        (CreateIndex, CopyDataTo),
        (CopyDataTo, CopyIndexTo),
        (CopyIndexTo, ReplaceData),
        (ReplaceData, ReplaceIndex),
    ];

    for (current, expected_next) in transition_matrix {
        let next = current.next_step().unwrap();
        assert_eq!(
            next.to_bytes(),
            expected_next.to_bytes(),
            "Advancing from {:?} did not yield expected state {:?}",
            current,
            expected_next
        );
    }
}

#[test]
fn test_index_temp_replaced_clears_the_wal() {
    assert_eq!(ReplaceIndex.to_bytes().len(), 1);
    assert_eq!(ReplaceIndex.next_step(), None);
}

#[test]
fn test_put_operation_bytes() {
    assert_eq!(Operation::WriteInDb.to_bytes(), [1u8]);
    assert_eq!(Operation::WriteInIndex.to_bytes(), [2u8]);
}
