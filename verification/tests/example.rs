use storage::example::ExampleVec;

#[test]
fn example_vec_encodes_big_endian() {
    let e = ExampleVec { vec_data: 0x0102_0304_0506_0708 };
    assert_eq!(e.to_bytes(), vec![1, 2, 3, 4, 5, 6, 7, 8]);
    assert_eq!(ExampleVec { vec_data: 255 }.to_bytes(), vec![0, 0, 0, 0, 0, 0, 0, 255]);
}

#[test]
fn example_vec_decodes_its_encoding() {
    for v in [0u64, 1, 255, 256, u64::MAX, 0x1234_5678_9abc_def0] {
        let bytes = ExampleVec { vec_data: v }.to_bytes();
        assert_eq!(ExampleVec::from_bytes(&bytes).vec_data, v);
    }
    assert_eq!(ExampleVec::from_bytes(&[0, 0, 0, 0, 0, 0, 1, 0, 9, 9]).vec_data, 256);
}
