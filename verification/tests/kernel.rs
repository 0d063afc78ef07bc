use rustures::{
    cosine_dimensions, distinct_pair_count, gram_prefix_layout, square_index, CosineKernel,
    Error, GramLayout, KernelBackend, LinearKernel, GRAM_VALUE_BYTES,
};

#[test]
fn gram_prefix_memory_limit_is_explicit() {
    assert_eq!(
        gram_prefix_layout(3, 8),
        Err(Error::GramMemoryLimit { requested: 160, maximum: 8 })
    );
    assert_eq!(
        gram_prefix_layout(3, 160),
        Ok(GramLayout { side: 4, entries: 16, bytes: 160 })
    );
    assert_eq!(
        gram_prefix_layout(usize::MAX, usize::MAX),
        Err(Error::NumericalFailure { context: "computing Gram prefix dimensions" })
    );
    assert_eq!(GRAM_VALUE_BYTES, 8);
}

#[test]
fn prefix_indices_are_row_major() {
    assert_eq!(square_index(4, 2, 3), 11);
    assert_eq!(square_index(4, 0, 0), 0);
    assert_eq!(square_index(4, 3, 3), 15);
}

#[test]
fn cosine_embedding_adds_one_coordinate() {
    assert_eq!(cosine_dimensions(3, 2), Ok((3, 9)));
    assert_eq!(
        cosine_dimensions(2, usize::MAX),
        Err(Error::NumericalFailure { context: "computing normalized cosine dimensions" })
    );
}

#[test]
fn exact_median_reads_every_unordered_pair() {
    assert_eq!(distinct_pair_count(4), Some(6));
    assert_eq!(distinct_pair_count(1), Some(0));
    assert_eq!(distinct_pair_count(0), Some(0));
    assert_eq!(distinct_pair_count(usize::MAX), None);
}

#[test]
fn kernels_and_backends_are_plain_values() {
    let _linear: LinearKernel = LinearKernel::default();
    let _cosine: CosineKernel = CosineKernel;
    assert_ne!(KernelBackend::FullGram, KernelBackend::Streaming);
}
