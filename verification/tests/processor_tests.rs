use image_ffi::layout::rgba_buffer_len;
use image_ffi::processor::{
    ensure_rgba_buffer_len, library_file_name, resolve_library_path, TargetOs,
};

#[test]
fn rgba_len_checks() {
    assert!(ensure_rgba_buffer_len(3, 2, 24).is_ok());
    let e = ensure_rgba_buffer_len(3, 2, 23).unwrap_err();
    assert_eq!((e.expected, e.actual), (24, 23));
    assert!(ensure_rgba_buffer_len(0, 7, 0).is_ok());
}

#[test]
fn rgba_buffer_len_values() {
    assert_eq!(rgba_buffer_len(3, 2), Some(24));
    assert_eq!(rgba_buffer_len(0, 9), Some(0));
    if usize::BITS == 64 {
        assert_eq!(rgba_buffer_len(u32::MAX, u32::MAX), None);
        assert_eq!(rgba_buffer_len(65536, 65536), Some(1 << 34));
    }
}

#[test]
fn library_names() {
    assert_eq!(library_file_name("blur_plugin", TargetOs::OtherUnix), "libblur_plugin.so");
    assert_eq!(library_file_name("blur_plugin", TargetOs::MacOs), "libblur_plugin.dylib");
    assert_eq!(library_file_name("blur_plugin", TargetOs::Windows), "blur_plugin.dll");
}

#[test]
fn library_paths() {
    assert_eq!(
        resolve_library_path("target/debug", "mirror_plugin", TargetOs::OtherUnix),
        "target/debug/libmirror_plugin.so"
    );
    assert_eq!(
        resolve_library_path("target/debug/", "mirror_plugin", TargetOs::OtherUnix),
        "target/debug/libmirror_plugin.so"
    );
    assert_eq!(resolve_library_path("", "m", TargetOs::MacOs), "libm.dylib");
    assert_eq!(resolve_library_path("C:\\plugins", "m", TargetOs::Windows), "C:\\plugins\\m.dll");
    assert_eq!(resolve_library_path("C:\\plugins/", "m", TargetOs::Windows), "C:\\plugins/m.dll");
}

#[test]
fn windows_library_paths_follow_prefix_rules() {
    let w = TargetOs::Windows;
    // A bare drive takes no separator.
    assert_eq!(resolve_library_path("C:", "m", w), "C:m.dll");
    assert_eq!(resolve_library_path("C:/", "m", w), "C:/m.dll");
    assert_eq!(resolve_library_path("", "m", w), "m.dll");
    // A name with a drive prefix replaces the directory.
    assert_eq!(resolve_library_path("C:\\plugins", "D:m", w), "D:m.dll");
    // A rooted name keeps only the directory's prefix.
    assert_eq!(resolve_library_path("C:\\plugins", "\\m", w), "C:\\m.dll");
    assert_eq!(resolve_library_path("plugins", "/m", w), "/m.dll");
    assert_eq!(resolve_library_path("\\\\srv\\share\\dir", "\\m", w), "\\\\srv\\share\\m.dll");
    assert_eq!(resolve_library_path("\\\\.\\pipe\\x", "/m", w), "\\\\.\\pipe/m.dll");
    // A UNC name replaces the directory; without a share it is only rooted.
    assert_eq!(resolve_library_path("C:\\plugins", "\\\\srv\\sh\\m", w), "\\\\srv\\sh\\m.dll");
    assert_eq!(resolve_library_path("C:\\plugins", "\\\\srv", w), "C:\\\\srv.dll");
    // Slashes inside a name on Unix stay relative.
    assert_eq!(resolve_library_path("dir", "a/b", TargetOs::OtherUnix), "dir/liba/b.so");
}

#[test]
fn windows_verbatim_directory_is_laid_out_again() {
    let w = TargetOs::Windows;
    assert_eq!(resolve_library_path("\\\\?\\A:\\x\\y", "/foo", w), "\\\\?\\A:\\foo.dll");
    assert_eq!(resolve_library_path("\\\\?\\A:", "..\\foo", w), "\\\\?\\A:\\foo.dll");
    assert_eq!(resolve_library_path("\\\\?\\A:\\x\\y", ".\\foo", w), "\\\\?\\A:\\x\\y\\foo.dll");
    assert_eq!(resolve_library_path("\\\\?\\C:\\a\\b", "..\\m", w), "\\\\?\\C:\\a\\m.dll");
    assert_eq!(resolve_library_path("\\\\?\\C:\\a\\b\\", "m", w), "\\\\?\\C:\\a\\b\\m.dll");
    // In the verbatim directory `.` stays and only `\` separates.
    assert_eq!(resolve_library_path("\\\\?\\C:\\a\\.\\b", "m", w), "\\\\?\\C:\\a\\.\\b\\m.dll");
    assert_eq!(resolve_library_path("\\\\?\\C:\\a/b", "m", w), "\\\\?\\C:\\a/b\\m.dll");
    // `..` never climbs past the prefix.
    assert_eq!(
        resolve_library_path("\\\\?\\UNC\\srv\\sh\\x", "..\\..\\m", w),
        "\\\\?\\UNC\\srv\\sh\\m.dll"
    );
}
