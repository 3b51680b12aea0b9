use medical_ann::upload::{
    resolve_extension, resolve_file_name, resolve_target_path, upload_message,
};

#[test]
fn named_png_upload_targets_png_slot() {
    assert_eq!(resolve_target_path(Some("scan.png")), "uploaded_image.png");
}

#[test]
fn nameless_upload_targets_jpg_slot() {
    assert_eq!(resolve_target_path(None), "uploaded_image.jpg");
}

#[test]
fn extensionless_name_targets_jpg_slot() {
    assert_eq!(resolve_target_path(Some("report")), "uploaded_image.jpg");
}

#[test]
fn empty_name_falls_back_to_jpg_slot() {
    assert_eq!(resolve_target_path(Some("")), "uploaded_image.jpg");
}

#[test]
fn last_extension_wins() {
    assert_eq!(resolve_target_path(Some("archive.tar.gz")), "uploaded_image.gz");
}

#[test]
fn leading_dot_alone_is_no_extension() {
    assert_eq!(resolve_target_path(Some(".bashrc")), "uploaded_image.jpg");
}

#[test]
fn file_name_falls_back_when_absent_or_empty() {
    assert_eq!(resolve_file_name(Some("scan.png")), "scan.png");
    assert_eq!(resolve_file_name(Some("")), "uploaded_image");
    assert_eq!(resolve_file_name(None), "uploaded_image");
}

#[test]
fn extension_is_taken_after_the_last_dot() {
    assert_eq!(resolve_extension("scan.png"), "png");
    assert_eq!(resolve_extension("report"), "jpg");
    assert_eq!(resolve_extension("a.b.c"), "c");
}

#[test]
fn upload_messages_depend_only_on_the_outcome() {
    assert_eq!(upload_message(true), "File uploaded successfully!");
    assert_eq!(upload_message(false), "File upload failed.");
}
