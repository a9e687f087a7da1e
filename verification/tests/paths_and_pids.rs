use saveowl::gpu::parse_pid;
use saveowl::paths::{canonical_key, is_candidate_path};

#[test]
fn saves_under_the_profile_are_candidates() {
    assert!(is_candidate_path(r"C:\Users\ann\Documents\My Games\Owl\save1.sav"));
    assert!(is_candidate_path(r"\Device\HarddiskVolume3\Users\ann\AppData\Roaming\Owl\slot.dat"));
    assert!(is_candidate_path(r"C:\USERS\ann\Saved Games\owl\profile"));
}

#[test]
fn paths_outside_profiles_are_not() {
    assert!(!is_candidate_path(r"C:\Program Files\Owl\save1.sav"));
    assert!(!is_candidate_path(r"C:\usersdata\save.sav"));
    assert!(!is_candidate_path(""));
}

#[test]
fn caches_temp_logs_and_dumps_are_not() {
    assert!(!is_candidate_path(r"C:\Users\ann\AppData\Local\Temp\x.sav"));
    assert!(!is_candidate_path(r"C:\Users\ann\AppData\Local\Owl\Cache\a.bin"));
    assert!(!is_candidate_path(r"C:\Users\ann\AppData\Local\Owl\Caches\a.bin"));
    assert!(!is_candidate_path(r"C:\Users\ann\AppData\Local\NVIDIA\ShaderCache\a.bin"));
    assert!(!is_candidate_path(r"C:\Users\ann\AppData\Local\Owl\shader_cache\a.bin"));
    assert!(!is_candidate_path(r"C:\Users\ann\Owl\Logs\a.txt"));
    assert!(!is_candidate_path(r"C:\Users\ann\AppData\Local\CrashDumps\owl.dmp"));
}

#[test]
fn log_temp_dump_and_trace_files_are_not() {
    assert!(!is_candidate_path(r"C:\Users\ann\Owl\game.log"));
    assert!(!is_candidate_path(r"C:\Users\ann\Owl\game.LOG"));
    assert!(!is_candidate_path(r"C:\Users\ann\Owl\x.tmp"));
    assert!(!is_candidate_path(r"C:\Users\ann\Owl\x.dmp"));
    assert!(!is_candidate_path(r"C:\Users\ann\Owl\x.etl"));
    assert!(!is_candidate_path(r"C:\Users\ann\Owl/trace.Etl"));
}

#[test]
fn extension_edge_cases() {
    // only the last component's last extension counts
    assert!(is_candidate_path(r"C:\Users\ann\Owl\game.log.bak"));
    assert!(!is_candidate_path(r"C:\Users\ann\Owl\game.bak.log"));
    // a leading dot is no extension
    assert!(is_candidate_path(r"C:\Users\ann\Owl\.log"));
    // trailing separators and `.` components are passed over
    assert!(!is_candidate_path(r"C:\Users\ann\Owl\a.log\"));
    assert!(!is_candidate_path(r"C:\Users\ann\Owl\a.log\."));
    // `..` has no name
    assert!(is_candidate_path(r"C:\Users\ann\a.log\.."));
    // a directory with a dot does not give the file an extension
    assert!(is_candidate_path(r"C:\Users\ann\dir.log\save"));
    assert!(is_candidate_path(r"C:\Users\ann\Owl\save."));
}

#[test]
fn keys_prefer_the_resolved_path() {
    assert_eq!(canonical_key(r"a\b.sav", Some(r"\\?\C:\x\a\b.sav".to_string())), r"\\?\C:\x\a\b.sav");
    assert_eq!(canonical_key(r"a\b.sav", None), r"a\b.sav");
}

#[test]
fn pids_from_counter_instances() {
    assert_eq!(parse_pid("pid_1234_luid_0x00000000_0x0000C1F2_phys_0_eng_0_engtype_3D"), Some(1234));
    assert_eq!(parse_pid("PID_42_luid"), Some(42));
    assert_eq!(parse_pid("pid_7"), Some(7));
    assert_eq!(parse_pid("pid_+7_x"), Some(7));
    assert_eq!(parse_pid("pid_4294967295_x"), Some(u32::MAX));
}

#[test]
fn malformed_counter_instances() {
    assert_eq!(parse_pid("luid_0x1_phys_0"), None);
    assert_eq!(parse_pid("pid__luid"), None);
    assert_eq!(parse_pid("pid_4294967296_x"), None);
    assert_eq!(parse_pid("pid_-1_x"), None);
    assert_eq!(parse_pid("pid_+_x"), None);
    assert_eq!(parse_pid("pid_12a_x"), None);
    // the text up to the next `pid_` is read, then up to `_`
    assert_eq!(parse_pid("pid_12pid_34"), Some(12));
    assert_eq!(parse_pid("xpid_9"), Some(9));
}

#[test]
fn prefixes_are_not_file_names() {
    // a UNC share with nothing after it has no file name, so no extension
    assert!(is_candidate_path(r"\\users\share.log"));
    assert!(!is_candidate_path(r"\\server\users\x.log"));
    // a device prefix
    assert!(!is_candidate_path(r"\\.\users\a.log"));
    // verbatim paths: only `\` separates, and `.` is a component with no name
    assert!(!is_candidate_path(r"\\?\C:\Users\ann\b.log"));
    assert!(is_candidate_path(r"\\?\C:\Users\ann\file.log/."));
    assert!(is_candidate_path(r"\\?\C:\Users\ann\file.log\."));
    assert!(!is_candidate_path(r"\\?\UNC\srv\share\Users\a.dmp"));
    // a drive prefix: `.log` right after `C:` is a name without an extension
    assert!(is_candidate_path(r"C:.log\Users\x\.log"));
}
