use walls::library::{
    check_wallpaper_file, collect_dir, current_background_link, has_image_ext, list_wallpapers,
    sort_by_name, theme_backgrounds_dir, user_backgrounds_dir, validate_removable, was_current,
    DirFile, WallpaperFile,
};

fn file(dir: &str, name: &str) -> DirFile {
    DirFile { path: format!("{dir}/{name}"), name: name.to_string() }
}

#[test]
fn lists_user_and_theme_sections_sorted() {
    let user = vec![file("/tmp/t/user", "b.jpg"), file("/tmp/t/user", "a.png")];
    let theme = vec![file("/tmp/t/theme", "s.jpg"), file("/tmp/t/theme", "notes.txt")];

    let mut out = Vec::new();
    collect_dir(&user, "user", None, &mut out);
    let mut out = sort_by_name(out);
    let mut stock = Vec::new();
    collect_dir(&theme, "theme", None, &mut stock);
    out.append(&mut sort_by_name(stock));

    assert_eq!(out.len(), 3);
    assert_eq!(out[0].name, "a.png");
    assert_eq!(out[1].name, "b.jpg");
    assert_eq!(out[2].name, "s.jpg");
    assert_eq!(out[0].source, "user");
    assert_eq!(out[2].source, "theme");
    assert!(!out[0].is_current);
}

#[test]
fn marks_current_background() {
    let p = "/tmp/cur/user/cur.jpg";
    let mut out = Vec::new();
    collect_dir(&vec![file("/tmp/cur/user", "cur.jpg")], "user", Some(p), &mut out);
    assert!(out[0].is_current);
}

#[test]
fn remove_validation_blocks_outside_paths() {
    // Anything outside the user backgrounds dir must be refused, including
    // stock theme files and traversal attempts.
    let home = "/home/u";
    let allowed = user_backgrounds_dir(home, "gruvbox");
    assert!(validate_removable("/etc/passwd", Some("/etc/passwd"), &allowed).is_err());
    let stock = format!("{}/whatever.jpg", theme_backgrounds_dir(home));
    assert!(validate_removable(&stock, Some(&stock), &allowed).is_err());
    assert!(validate_removable("", None, &allowed).is_err());
}

#[test]
fn removal_accepts_files_inside_the_user_directory() {
    let allowed = "/home/u/.config/omarchy/backgrounds/gruvbox";
    assert_eq!(
        validate_removable("x.jpg", Some("/home/u/.config/omarchy/backgrounds/gruvbox/x.jpg"), allowed),
        Ok("/home/u/.config/omarchy/backgrounds/gruvbox/x.jpg".to_string())
    );
    assert_eq!(
        validate_removable("y.jpg", Some("/home/u/.config/omarchy/backgrounds/gruvbox-old/y.jpg"), allowed),
        Err("refusing to remove /home/u/.config/omarchy/backgrounds/gruvbox-old/y.jpg: only files inside /home/u/.config/omarchy/backgrounds/gruvbox are managed by Walls".to_string())
    );
    assert_eq!(validate_removable("gone.jpg", None, allowed), Err("file not found: gone.jpg".to_string()));
}

#[test]
fn removal_refuses_the_backgrounds_directory_itself() {
    let allowed = "/home/u/.config/omarchy/backgrounds/gruvbox";
    assert_eq!(
        validate_removable(allowed, Some(allowed), allowed),
        Err("refusing to remove /home/u/.config/omarchy/backgrounds/gruvbox: only files inside /home/u/.config/omarchy/backgrounds/gruvbox are managed by Walls".to_string())
    );
    assert!(validate_removable("x", Some("/home/u/.config/omarchy/backgrounds/gruvbox/"), allowed).is_err());
    assert!(validate_removable("x", Some("/home/u/.config/omarchy/backgrounds/gruvbox/./"), allowed).is_err());
}

#[test]
fn image_extensions_follow_path_rules() {
    assert!(has_image_ext("a.JPG"));
    assert!(has_image_ext("archive.tar.webp"));
    assert!(has_image_ext("x.Jpeg"));
    assert!(!has_image_ext(".png"));
    assert!(!has_image_ext("png"));
    assert!(!has_image_ext("a.png.sh"));
    assert!(!has_image_ext(".."));
    assert!(!has_image_ext("a."));
}

#[test]
fn sort_is_stable_for_equal_names() {
    let mk = |path: &str, name: &str| WallpaperFile {
        path: path.to_string(),
        name: name.to_string(),
        source: "user".to_string(),
        is_current: false,
    };
    let sorted = sort_by_name(vec![mk("1", "b"), mk("2", "a"), mk("3", "b"), mk("4", "B"), mk("5", "é")]);
    let paths: Vec<&str> = sorted.iter().map(|w| w.path.as_str()).collect();
    assert_eq!(paths, vec!["4", "2", "1", "3", "5"]);
}

#[test]
fn listing_puts_user_files_first() {
    let user = vec![file("/u", "z.png"), file("/u", "m.gif")];
    let stock = vec![file("/t", "a.jpg"), file("/t", "b.txt")];
    let out = list_wallpapers("gruvbox", Some("/t/./a.jpg"), &user, &stock);
    assert_eq!(out.theme, "gruvbox");
    assert_eq!(out.current.as_deref(), Some("/t/./a.jpg"));
    let names: Vec<&str> = out.wallpapers.iter().map(|w| w.name.as_str()).collect();
    assert_eq!(names, vec!["m.gif", "z.png", "a.jpg"]);
    assert!(out.wallpapers[2].is_current);
    assert!(!out.wallpapers[0].is_current);
    assert_eq!(out.wallpapers[2].source, "theme");
}

#[test]
fn wallpaper_file_checks() {
    assert!(check_wallpaper_file("/x/a.png", true, Some("a.png")).is_ok());
    assert_eq!(
        check_wallpaper_file("/x/a.txt", true, Some("a.txt")),
        Err("not a wallpaper file: /x/a.txt".to_string())
    );
    assert!(check_wallpaper_file("/x/a.png", false, Some("a.png")).is_err());
    assert!(check_wallpaper_file("/x/..", true, None).is_err());
}

#[test]
fn directories_under_home() {
    assert_eq!(user_backgrounds_dir("/home/u", "gruvbox"), "/home/u/.config/omarchy/backgrounds/gruvbox");
    assert_eq!(user_backgrounds_dir("/home/u/", "/abs"), "/abs");
    assert_eq!(theme_backgrounds_dir("/"), "/.local/state/omarchy/current/theme/backgrounds");
    assert_eq!(current_background_link("/home/u"), "/home/u/.local/state/omarchy/current/background");
}

#[test]
fn current_background_comparison_is_component_wise() {
    assert!(was_current(Some("/a//b/./c.jpg"), "/a/b/c.jpg"));
    assert!(!was_current(Some("/a/b/c.jpg"), "a/b/c.jpg"));
    assert!(!was_current(None, "/a/b/c.jpg"));
}
