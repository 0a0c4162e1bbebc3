//! Tests of the sizing arithmetic.

use casper_db_utils::{chunk_count_after_partition, CHUNK_SIZE_BYTES};

#[test]
fn check_chunk_count_after_partition() {
    assert_eq!(chunk_count_after_partition(0), 0);
    assert_eq!(chunk_count_after_partition(1), 1);
    assert_eq!(chunk_count_after_partition(CHUNK_SIZE_BYTES / 2), 1);
    assert_eq!(chunk_count_after_partition(CHUNK_SIZE_BYTES - 1), 1);
    assert_eq!(chunk_count_after_partition(CHUNK_SIZE_BYTES), 1);
    assert_eq!(chunk_count_after_partition(CHUNK_SIZE_BYTES + 1), 2);
    assert_eq!(chunk_count_after_partition((CHUNK_SIZE_BYTES * 3) / 2), 2);
    assert_eq!(chunk_count_after_partition(2 * CHUNK_SIZE_BYTES - 1), 2);
    assert_eq!(chunk_count_after_partition(2 * CHUNK_SIZE_BYTES), 2);
    assert_eq!(chunk_count_after_partition(2 * CHUNK_SIZE_BYTES + 1), 3);
}
