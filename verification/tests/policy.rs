use dirscan::path::{file_name, parent};
use dirscan::policy::{treat_as_file, treat_as_ignore, treat_as_script};

#[test]
fn test_treat_as_ignore() {
    let path = "D:\\$RECYCLE.BIN";
    assert_eq!(treat_as_ignore(path), true);
}

#[test]
fn ignore_goes_by_the_last_component() {
    assert!(treat_as_ignore("/r/$trash"));
    assert!(treat_as_ignore("D:\\Config.Msi"));
    assert!(treat_as_ignore("D:\\System Volume Information"));
    assert!(treat_as_ignore("/mnt/MyConfig.Msi"));
    assert!(!treat_as_ignore("/r/$trash/file"));
    assert!(!treat_as_ignore("D:\\Scoop"));
    assert!(!treat_as_ignore("/"));
    assert!(!treat_as_ignore(""));
    assert!(!treat_as_ignore("/r/a$"));
}

#[test]
fn scripts_go_by_their_ending() {
    for ending in [".exe", ".dll", ".bat", ".vbs", ".ps1"] {
        assert!(treat_as_script(&format!("/r/tool{}", ending)));
    }
    assert!(!treat_as_script("/r/tool.EXE"));
    assert!(!treat_as_script("/r/tool.exe.txt"));
    assert!(!treat_as_script("/r/exe"));
    assert!(!treat_as_script(""));
}

#[test]
fn nothing_is_an_opaque_leaf() {
    assert!(!treat_as_file("/r/.git"));
    assert!(!treat_as_file(".hidden"));
}

#[test]
fn parents_of_slash_paths() {
    assert_eq!(parent("/r/b/c"), Some("/r/b".to_string()));
    assert_eq!(parent("/r/b"), Some("/r".to_string()));
    assert_eq!(parent("/r"), Some("/".to_string()));
    assert_eq!(parent("/"), None);
    assert_eq!(parent(""), None);
    assert_eq!(parent("/r/b/"), Some("/r".to_string()));
    assert_eq!(parent("/r//b"), Some("/r".to_string()));
    assert_eq!(parent("//r"), Some("/".to_string()));
    assert_eq!(parent("a/b"), Some("a".to_string()));
    assert_eq!(parent("a"), Some("".to_string()));
}

#[test]
fn parents_of_drive_paths() {
    assert_eq!(parent("D:\\Scoop\\apps"), Some("D:\\Scoop".to_string()));
    assert_eq!(parent("D:\\Scoop"), Some("D:\\".to_string()));
    assert_eq!(parent("D:\\"), None);
    assert_eq!(parent("D:"), None);
    assert_eq!(parent("D:/Scoop"), Some("D:/".to_string()));
    assert_eq!(parent("D:Scoop"), Some("D:".to_string()));
}

#[test]
fn names_are_last_components() {
    assert_eq!(file_name("/r/b/c.txt"), "c.txt");
    assert_eq!(file_name("D:\\$RECYCLE.BIN"), "$RECYCLE.BIN");
    assert_eq!(file_name("D:\\"), "");
    assert_eq!(file_name("/"), "");
    assert_eq!(file_name("/r/b/"), "b");
    assert_eq!(file_name("héllo/wörld"), "wörld");
}
