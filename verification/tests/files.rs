use taghint::files::extension_of;
use taghint::files::file_stem_of;
use taghint::files::is_image_exist;
use taghint::files::is_image_file;
use taghint::files::is_isolated_txt;
use taghint::files::listdir_images;
use taghint::files::read_tags;
use taghint::files::ImageSet;

#[test]
fn image_path_yields_record() {
    let td = read_tags("dir/pic.PNG", Some("a, b")).expect("png is an image");
    assert_eq!(td.name, "dir/pic.PNG");
    assert_eq!(td.tags, vec!["a".to_string(), "b".to_string()]);
}

#[test]
fn non_image_yields_none() {
    assert!(read_tags("dir/doc.txt", Some("a")).is_none());
    assert!(read_tags("noext", None).is_none());
}

#[test]
fn missing_sidecar_yields_empty_tags() {
    let td = read_tags("img.jpg", None).expect("jpg is an image");
    assert!(td.tags.is_empty());
}

#[test]
fn extension_rules() {
    assert_eq!(extension_of("a/b/c.tar.gz"), Some("gz".to_string()));
    assert_eq!(extension_of(".gitignore"), None);
    assert_eq!(extension_of("foo."), Some(String::new()));
    assert_eq!(extension_of("dir.d/file"), None);
    assert_eq!(extension_of(""), None);
}

#[test]
fn stem_rules() {
    assert_eq!(file_stem_of("a/b.txt"), "b");
    assert_eq!(file_stem_of("a/.hidden"), ".hidden");
    assert_eq!(file_stem_of("plain"), "plain");
}

#[test]
fn image_extensions_any_case() {
    assert!(is_image_file("png"));
    assert!(is_image_file("JPEG"));
    assert!(is_image_file("WebP"));
    assert!(!is_image_file("txt"));
    assert!(!is_image_file("pngx"));
}

#[test]
fn isolated_txt_detection() {
    let mut images = ImageSet::new();
    images.add("pic".to_string());
    assert!(!is_isolated_txt(&images, "pic.txt"));
    assert!(is_isolated_txt(&images, "other.txt"));
    assert!(!is_isolated_txt(&images, "other.png"));
    assert!(is_image_exist(&images, "pic.jpg"));
    assert!(!is_image_exist(&images, "other.jpg"));
}

#[test]
fn listing_filters_and_strips() {
    let files = vec![
        "base/a.png".to_string(),
        "base/b.txt".to_string(),
        "base/sub/c.JPG".to_string(),
        "other/d.png".to_string(),
    ];
    assert_eq!(
        listdir_images("base", &files),
        vec!["a.png".to_string(), "sub/c.JPG".to_string()]
    );
}
