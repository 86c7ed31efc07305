use rap::args::{rap_clean_setting, split_args_by_double_dash, Arguments};
use rap::cargo_rap::{
    cargo_rap_action, compile_time_sysroot, parse_rap_args, prepare_compiler_args, rap_args_env, rap_command_args,
    rustc_wrapper_action, select_phase, CargoRapAction, Phase, RapError, TargetInfo, TargetKind, WrapperAction,
};

fn strings(v: &[&str]) -> Vec<String> {
    v.iter().map(|s| s.to_string()).collect()
}

#[test]
fn clean_setting_is_off_only_for_false() {
    assert!(rap_clean_setting(None));
    assert!(rap_clean_setting(Some("true")));
    assert!(!rap_clean_setting(Some(" FALSE ")));
    assert!(!rap_clean_setting(Some("false")));
}

#[test]
fn arguments_split_at_the_double_dash() {
    let (a, b) = split_args_by_double_dash(&strings(&["cargo-rap", "rap", "-F", "--", "--lib"]));
    assert_eq!(a, strings(&["-F"]));
    assert_eq!(b, strings(&["--lib"]));
    let (c1, c2) = split_args_by_double_dash(&strings(&["cargo-rap", "rap", "-F", "-M"]));
    assert_eq!(c1, strings(&["-F", "-M"]));
    assert!(c2.is_empty());
    let args = Arguments::new(strings(&["cargo-rap", "rap", "-F", "--", "--lib"]), String::from("/bin/cargo-rap"), None);
    let (r, c) = args.rap_and_cargo_args();
    assert_eq!(r, &strings(&["-F"]));
    assert_eq!(c, &strings(&["--lib"]));
    assert_eq!(args.get_arg(1), Some("rap"));
    assert_eq!(args.skip2(), strings(&["-F", "--", "--lib"]));
    assert_eq!(args.current_exe_path(), "/bin/cargo-rap");
}

#[test]
fn phases_and_actions() {
    let cargo = Arguments::new(strings(&["/bin/cargo-rap", "rap", "-V"]), String::new(), None);
    assert_eq!(select_phase(&cargo), Ok(Phase::CargoRap));
    assert_eq!(cargo_rap_action(&cargo), CargoRapAction::ShowVersion);
    let help = Arguments::new(strings(&["/bin/cargo-rap", "rap", "--help"]), String::new(), None);
    assert_eq!(cargo_rap_action(&help), CargoRapAction::ShowHelp);
    let bare = Arguments::new(strings(&["/bin/cargo-rap", "rap"]), String::new(), None);
    assert_eq!(cargo_rap_action(&bare), CargoRapAction::MissingCommand);
    let other = Arguments::new(strings(&["/bin/cargo-rap", "build"]), String::new(), None);
    assert_eq!(select_phase(&other), Err(RapError::UnknownPhase));
    let wrapper = Arguments::new(
        strings(&["/bin/cargo-rap", "/usr/bin/rustc", "--crate-name", "x", "src/lib.rs"]),
        String::new(),
        None,
    );
    assert_eq!(select_phase(&wrapper), Ok(Phase::RustcWrapper));
    assert_eq!(rustc_wrapper_action(&wrapper), WrapperAction::RunRap);
    let dep = Arguments::new(
        strings(&["/bin/cargo-rap", "/usr/bin/rustc", "/home/u/.cargo/registry/x/src/lib.rs"]),
        String::new(),
        None,
    );
    assert_eq!(rustc_wrapper_action(&dep), WrapperAction::RunRustc);
}

#[test]
fn tool_arguments_round_trip_through_json() {
    let rap_args = strings(&["-F", "-M"]);
    let json = rap_args_env(&rap_args).unwrap();
    assert_eq!(json, "[\"-F\",\"-M\"]");
    let args = Arguments::new(strings(&["/bin/cargo-rap", "/usr/bin/rustc", "src/main.rs"]), String::new(), None);
    assert_eq!(rap_command_args(&args, &json), Ok(strings(&["src/main.rs", "-F", "-M"])));
    assert_eq!(rap_command_args(&args, "not json"), Err(RapError::DeserializeArgs));
}

#[test]
fn tool_arguments_json_escapes_quotes_backslashes_and_controls() {
    assert_eq!(rap_args_env(&Vec::new()).unwrap(), "[]");
    let rap_args = strings(&["a\"b", "c\\d", "e\nf", "g\u{1}h", "\u{8}\t\u{c}\r"]);
    let json = rap_args_env(&rap_args).unwrap();
    assert_eq!(json, "[\"a\\\"b\",\"c\\\\d\",\"e\\nf\",\"g\\u0001h\",\"\\b\\t\\f\\r\"]");
}

#[test]
fn target_kinds() {
    assert!(TargetKind::is_lib_str("rlib"));
    assert!(!TargetKind::is_lib_str("bin"));
    assert_eq!(TargetKind::from_kinds(&strings(&["lib"])), TargetKind::Library);
    assert_eq!(TargetKind::from_kinds(&strings(&["bin"])), TargetKind::Bin);
    let t = TargetInfo { name: String::from("x"), kinds: strings(&["bin"]) };
    assert_eq!(t.name, "x");
}

#[test]
fn compiler_arguments_get_the_analysis_flags() {
    let args = strings(&["rustc", "src/lib.rs"]);
    let out = prepare_compiler_args(&args, Some(String::from("/sysroot")));
    assert_eq!(
        out,
        strings(&["rustc", "-Zalways-encode-mir", "-Zmir-opt-level=0", "--cfg=rap", "src/lib.rs", "--sysroot", "/sysroot"])
    );
    let with = strings(&["rustc", "--sysroot", "/s", "a.rs"]);
    assert_eq!(
        prepare_compiler_args(&with, Some(String::from("/other"))),
        strings(&["rustc", "-Zalways-encode-mir", "-Zmir-opt-level=0", "--cfg=rap", "--sysroot", "/s", "a.rs"])
    );
}

#[test]
fn analyzer_options_select_analyses() {
    let opts = parse_rap_args(&strings(&["rap", "-F", "-alias=mop", "-debug", "src/lib.rs"]));
    assert!(opts.callback.is_safedrop_enabled());
    assert!(opts.callback.is_mop_enabled());
    assert!(!opts.callback.is_rcanary_enabled());
    assert!(opts.debug);
    assert_eq!(opts.rustc_args, strings(&["rap", "src/lib.rs"]));
    let leak = parse_rap_args(&strings(&["rap", "-M"]));
    assert!(leak.callback.is_rcanary_enabled());
}

#[test]
fn sysroot_prefers_the_explicit_setting() {
    let r = compile_time_sysroot(None, None, None, Some("/explicit"));
    assert_eq!(r, Some(String::from("/explicit")));
    let t = compile_time_sysroot(None, Some("/home/u/.rustup"), Some("nightly"), None);
    assert_eq!(t, Some(String::from("/home/u/.rustup/toolchains/nightly")));
    assert_eq!(compile_time_sysroot(Some("stage1"), None, None, None), None);
}
