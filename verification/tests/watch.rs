use astrium::watch::{paths_equal, Watcher};

#[test]
fn first_wallpaper_is_new() {
    let w = Watcher::new();
    assert!(w.is_new("/home/u/Wallpaper/a.jpg"));
}

#[test]
fn themed_wallpaper_is_not_new_again() {
    let mut w = Watcher::new();
    w.themed("/home/u/Wallpaper/a.jpg");
    assert!(!w.is_new("/home/u/Wallpaper/a.jpg"));
    assert!(!w.is_new("/home//u/./Wallpaper/a.jpg/"));
    assert!(w.is_new("/home/u/Wallpaper/b.jpg"));
    w.themed("/home/u/Wallpaper/b.jpg");
    assert!(w.is_new("/home/u/Wallpaper/a.jpg"));
}

#[test]
fn paths_compare_by_components() {
    assert!(paths_equal("a//b/", "a/b"));
    assert!(paths_equal("a/./b", "a/b"));
    assert!(!paths_equal("./a", "a"));
    assert!(paths_equal("./a", ".//a"));
    assert!(!paths_equal("/a", "a"));
    assert!(!paths_equal("a/../b", "b"));
    assert!(paths_equal("/", "//"));
    assert!(paths_equal("", ""));
    assert!(!paths_equal(".", ""));
}
