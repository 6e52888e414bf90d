use image_cache::reqimage::{ratio_pathname, scaled_width, strip_ratio, RequestedImage};

#[test]
fn strip_ratio_drops_digits_and_underscores() {
    assert_eq!(strip_ratio("cat_50.png"), "cat.png");
    assert_eq!(strip_ratio("photos/dog.jpg"), "photos/dog.jpg");
    assert_eq!(strip_ratio("a1_b2_c3.gif"), "abc.gif");
    assert_eq!(strip_ratio(""), "");
    assert_eq!(strip_ratio("été_35.png"), "été.png");
}

#[test]
fn ratio_pathname_formats_name() {
    assert_eq!(ratio_pathname("/srv/static", "cat", 50, "png"), "/srv/static/cat_50.png");
    assert_eq!(ratio_pathname("/srv/static", "cat", 5, "png"), "/srv/static/cat_5.png");
    assert_eq!(ratio_pathname("/srv/static", "cat", 0, "png"), "/srv/static/cat_0.png");
    assert_eq!(ratio_pathname("root", "dog", 100, "jpg"), "root/dog_100.jpg");
    assert_eq!(ratio_pathname("root", "dog", 255, "jpg"), "root/dog_255.jpg");
}

#[test]
fn scaled_width_rounds_down() {
    assert_eq!(scaled_width(1000, 35), 350);
    assert_eq!(scaled_width(99, 50), 49);
    assert_eq!(scaled_width(640, 0), 0);
    assert_eq!(scaled_width(640, 100), 640);
}

#[test]
fn requested_image_names_source_and_copy() {
    let img = RequestedImage::new("cat_50.png", "/srv/static", 50).unwrap();
    assert_eq!(img.path, "/srv/static/cat.png");
    assert_eq!(img.new_pathname, "/srv/static/cat_50.png");
    assert_eq!(img.extension, Some("png".to_string()));
    assert_eq!(img.ratio, 50);
}

#[test]
fn requested_image_without_ratio_is_the_source() {
    let img = RequestedImage::new("photos/dog_20.jpg", "/srv/static", 0).unwrap();
    assert_eq!(img.path, "/srv/static/photos/dog.jpg");
    assert_eq!(img.new_pathname, "/srv/static/photos/dog.jpg");
    assert_eq!(img.extension, Some("jpg".to_string()));
}

#[test]
fn requested_copy_lives_in_root() {
    let img = RequestedImage::new("photos/dog.jpg", "/srv/static", 75).unwrap();
    assert_eq!(img.path, "/srv/static/photos/dog.jpg");
    assert_eq!(img.new_pathname, "/srv/static/dog_75.jpg");
}

#[test]
fn requested_image_without_extension() {
    assert!(RequestedImage::new("README", "/srv/static", 20).is_none());
    let img = RequestedImage::new("README", "/srv/static", 0).unwrap();
    assert_eq!(img.extension, None);
    assert_eq!(img.new_pathname, "/srv/static/README");
}
