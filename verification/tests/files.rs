use lpm::alternatives::{alternative_candidates, alternative_name, fallback_choice, fallback_matches, file_name_of, needs_ldconfig};
use lpm::fs_install::{
    component_count_of, dirs_to_remove, executable_mode, is_bin_path, is_safe_to_rmdir, maintainer_script_path,
    postinst_args, preinst_args, purge_path,
};
use lpm::keyring::Keyring;

fn s(v: &[&str]) -> Vec<String> {
    v.iter().map(|x| x.to_string()).collect()
}

fn count(p: &str) -> usize {
    component_count_of(&p.chars().collect::<Vec<char>>())
}

#[test]
fn components_count_like_path_components() {
    assert_eq!(count("/usr/share/doc/vim"), 5);
    assert_eq!(count("/usr//share/./doc/"), 4);
    assert_eq!(count("./a/b"), 3);
    assert_eq!(count("a/../b"), 3);
    assert_eq!(count(""), 0);
    assert_eq!(count("/"), 1);
}

#[test]
fn protected_and_shallow_directories_stay() {
    assert!(!is_safe_to_rmdir("/usr/share/doc"));
    assert!(!is_safe_to_rmdir("/usr/lib/x"));
    assert!(is_safe_to_rmdir("/usr/lib/x/y"));
    assert!(!is_safe_to_rmdir("/var/cache"));
}

#[test]
fn emptied_directories_are_removed_deepest_first() {
    let files = s(&["/usr/share/doc/vim/a", "/usr/share/doc/vim/b", "/usr/share/vim/vim90/syntax/c.vim", "/usr/bin/vim", "/opt/x/y/z/f"]);
    let d = dirs_to_remove(&files);
    assert_eq!(d, s(&["/usr/share/vim/vim90/syntax", "/usr/share/doc/vim", "/opt/x/y/z"]));
}

#[test]
fn binaries_become_executable() {
    assert!(is_bin_path("/usr/bin/vim"));
    assert!(is_bin_path("/usr/lib/libexec/helper"));
    assert!(!is_bin_path("/usr/share/binary/x"));
    assert_eq!(executable_mode(0o644), 0o755);
    assert_eq!(executable_mode(0o600), 0o700);
}

#[test]
fn maintainer_scripts_get_their_arguments() {
    assert_eq!(maintainer_script_path("vim", "postinst"), "/tmp/lpm-vim-postinst");
    assert_eq!(preinst_args(true, &Some("1.0".to_string())), s(&["upgrade", "1.0"]));
    assert_eq!(preinst_args(false, &None), s(&["install", ""]));
    assert_eq!(postinst_args(&None), s(&["configure", ""]));
    assert_eq!(purge_path("vim"), "/etc/vim");
    assert_eq!(purge_path("/abs"), "/abs");
}

#[test]
fn file_names_follow_path_rules() {
    assert_eq!(file_name_of("/usr/bin/vim").as_deref(), Some("vim"));
    assert_eq!(file_name_of("/usr/bin/").as_deref(), Some("bin"));
    assert_eq!(file_name_of("/usr/.."), None);
    assert_eq!(file_name_of("/"), None);
    assert_eq!(file_name_of("a/b/."), Some("b".to_string()));
}

#[test]
fn broken_alternatives_find_candidates() {
    assert_eq!(alternative_name("/etc/alternatives/editor").as_deref(), Some("editor"));
    assert_eq!(alternative_name("/usr/bin/vim"), None);
    let c = alternative_candidates("/usr/bin/vi", "vi").unwrap();
    assert_eq!(
        c,
        s(&["/usr/bin/vi.basic", "/usr/bin/vi.tiny", "/usr/bin/vi.nox", "/usr/bin/vi.gtk", "/usr/bin/vi.gnome", "/usr/bin/vieditor", "/usr/lib/vi/vi"])
    );
    assert!(alternative_candidates("/", "vi").is_none());
    assert!(fallback_matches("vim.tiny", "vim"));
    assert!(fallback_matches("vimdiff", "vim"));
    assert!(!fallback_matches("vim", "vim"));
    assert!(!fallback_matches("gvim", "vim"));
    let files = s(&["/usr/share/vim", "/usr/bin/gvim", "/usr/bin/vim.basic"]);
    assert_eq!(fallback_choice(&files, "vim"), Some(2));
    assert_eq!(fallback_choice(&files, "emacs"), None);
}

#[test]
fn shared_libraries_need_ldconfig() {
    assert!(needs_ldconfig(&s(&["/usr/share/doc/x", "/usr/lib/x86_64-linux-gnu/libz.so.1"])));
    assert!(needs_ldconfig(&s(&["/lib64/ld.so"])));
    assert!(!needs_ldconfig(&s(&["/usr/bin/so", "/usr/lib/python3/x.py"])));
}

#[test]
fn keys_are_kept_under_the_keyring_directory() {
    assert_eq!(Keyring::key_destination("/tmp/debian.gpg"), "/etc/apt/trusted.gpg.d/lpm_debian.gpg");
    assert_eq!(Keyring::key_destination("https://x.org/keys/"), "/etc/apt/trusted.gpg.d/lpm_keys");
    assert_eq!(Keyring::key_destination("/"), "/etc/apt/trusted.gpg.d/lpm_unknown");
    assert!(Keyring::is_remote_key("https://x"));
    assert!(!Keyring::is_remote_key("ftp://x"));
    assert!(Keyring::is_keyring_file("/etc/apt/trusted.gpg.d/a.gpg"));
    assert!(!Keyring::is_keyring_file("/etc/apt/trusted.gpg.d/.gpg"));
    assert!(!Keyring::is_keyring_file("/etc/apt/trusted.gpg.d/a.asc"));
    assert_eq!(Keyring::key_path("x.gpg"), "/etc/apt/trusted.gpg.d/x.gpg");
}
