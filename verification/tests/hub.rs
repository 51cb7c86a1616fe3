use silero_rs::utils::hub_file_path;

#[test]
fn file_without_folder_is_its_own_path() {
    assert_eq!(hub_file_path(None, "silero_vad_16k_op15.onnx"), "silero_vad_16k_op15.onnx");
}

#[test]
fn folder_and_file_are_joined_by_a_slash() {
    assert_eq!(hub_file_path(Some("onnx"), "model.onnx"), "onnx/model.onnx");
    assert_eq!(hub_file_path(Some("a/b"), "c"), "a/b/c");
    assert_eq!(hub_file_path(Some(""), "c"), "/c");
}
