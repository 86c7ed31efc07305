use vstd::prelude::*;
use crate::args::{strs, clone_strings, Arguments, flag_value, first_source_file, is_relative_path};
use crate::callback::{RapCallback, CallbackFlags, rap_default_args};
use crate::text::{is_suffix, ends_with, str_eq};

verus! {

#[verifier::external_type_specification]
#[verifier::external_body]
pub struct ExJsonError(serde_json::Error);

/// The lowercase hexadecimal digit of `n` (below 16).
pub open spec fn hex_digit(n: int) -> char {
    (if n < 10 { 48 + n } else { 87 + n }) as char
}

/// How one character stands inside a JSON string: a quote and a backslash
/// are escaped, backspace, tab, line feed, form feed and carriage return
/// by their letter, any other control character below 0x20 as `\u00XX`;
/// every other character stands for itself.
pub open spec fn json_char(c: char) -> Seq<char> {
    let n = c as int;
    if c == '"' {
        seq!['\\', '"']
    } else if c == '\\' {
        seq!['\\', '\\']
    } else if n == 8 {
        seq!['\\', 'b']
    } else if n == 9 {
        seq!['\\', 't']
    } else if n == 10 {
        seq!['\\', 'n']
    } else if n == 12 {
        seq!['\\', 'f']
    } else if n == 13 {
        seq!['\\', 'r']
    } else if n < 32 {
        seq!['\\', 'u', '0', '0', hex_digit(n / 16), hex_digit(n % 16)]
    } else {
        seq![c]
    }
}

/// The escaped characters of a string, without the quotes.
pub open spec fn json_str_body(s: Seq<char>) -> Seq<char>
    decreases s.len(),
{
    if s.len() == 0 {
        Seq::empty()
    } else {
        json_str_body(s.drop_last()) + json_char(s.last())
    }
}

/// The strings as JSON strings, separated by commas.
pub open spec fn json_items(items: Seq<Seq<char>>) -> Seq<char>
    decreases items.len(),
{
    if items.len() == 0 {
        Seq::empty()
    } else {
        let last = seq!['"'] + json_str_body(items.last()) + seq!['"'];
        if items.len() == 1 {
            last
        } else {
            json_items(items.drop_last()) + seq![','] + last
        }
    }
}

/// The JSON text `serde_json` writes for a list of strings: the quoted,
/// escaped strings between brackets, separated by commas, with no space.
pub open spec fn json_string_array(items: Seq<Seq<char>>) -> Seq<char> {
    seq!['['] + json_items(items) + seq![']']
}

/// The list of strings `serde_json` reads from a JSON text, if it holds one.
pub uninterp spec fn parse_json_string_array(text: Seq<char>) -> Option<Seq<Seq<char>>>;

/// Calls `serde_json::to_string` on a list of strings, which cannot fail
/// (strings always serialize, and the writer is a `Vec`); the text is
/// `json_string_array` of the strings.
#[verifier::external_body]
fn json_encode_strings(items: &[String]) -> (res: Result<String, serde_json::Error>)
    ensures
        res is Ok,
        res matches Ok(s) ==> s@ == json_string_array(strs(items@)),
{
    serde_json::to_string(items)
}

/// Calls `serde_json::from_str::<Vec<String>>`; succeeds exactly when the
/// text holds a list of strings, which is then the one named
/// `parse_json_string_array` of the text.
#[verifier::external_body]
fn json_decode_strings(text: &str) -> (res: Result<Vec<String>, serde_json::Error>)
    ensures
        match res {
            Ok(v) => parse_json_string_array(text@) == Some(strs(v@)),
            Err(_) => parse_json_string_array(text@) is None,
        },
{
    serde_json::from_str::<Vec<String>>(text)
}

/// Errors of the command-line driver.
#[derive(Debug, PartialEq, Eq, Structural, Copy, Clone)]
pub enum RapError {
    /// The tool was called neither as `rap` nor as `rustc`.
    UnknownPhase,
    /// The tool's arguments could not be written as JSON.
    SerializeArgs,
    /// The tool's arguments could not be read back from JSON.
    DeserializeArgs,
}

/// The kind of a cargo target.
#[derive(Debug, PartialEq, Eq, Structural, Copy, Clone)]
pub enum TargetKind {
    Library,
    Bin,
    Unspecified,
}

/// A cargo target: its name and the kinds cargo lists for it.
pub struct TargetInfo {
    pub name: String,
    pub kinds: Vec<String>,
}

pub open spec fn lib_word(s: Seq<char>) -> bool {
    s == "lib"@ || s == "rlib"@ || s == "staticlib"@
}

/// The kind of a target with these kinds: a library if any kind is a
/// library kind, else a binary if any is `bin`.
pub open spec fn kind_of(kinds: Seq<Seq<char>>) -> TargetKind {
    if exists|i: int| 0 <= i < kinds.len() && lib_word(kinds[i]) {
        TargetKind::Library
    } else if exists|i: int| 0 <= i < kinds.len() && kinds[i] == "bin"@ {
        TargetKind::Bin
    } else {
        TargetKind::Unspecified
    }
}

impl TargetKind {
    pub fn is_lib_str(s: &str) -> (res: bool)
        ensures
            res == lib_word(s@),
    {
        str_eq(s, "lib") || str_eq(s, "rlib") || str_eq(s, "staticlib")
    }

    /// The kind of a target.
    pub fn from_kinds(kinds: &Vec<String>) -> (res: TargetKind)
        ensures
            res == kind_of(strs(kinds@)),
    {
        let ghost ks = strs(kinds@);
        let mut i: usize = 0;
        while i < kinds.len()
            invariant
                ks == strs(kinds@),
                i <= kinds@.len(),
                forall|j: int| 0 <= j < i ==> !lib_word(ks[j]),
            decreases kinds@.len() - i,
        {
            assert(ks[i as int] == kinds@[i as int]@);
            if TargetKind::is_lib_str(kinds[i].as_str()) {
                return TargetKind::Library;
            }
            i = i + 1;
        }
        let mut i: usize = 0;
        while i < kinds.len()
            invariant
                ks == strs(kinds@),
                i <= kinds@.len(),
                forall|j: int| 0 <= j < kinds@.len() ==> !lib_word(ks[j]),
                forall|j: int| 0 <= j < i ==> ks[j] != "bin"@,
            decreases kinds@.len() - i,
        {
            assert(ks[i as int] == kinds@[i as int]@);
            if str_eq(kinds[i].as_str(), "bin") {
                return TargetKind::Bin;
            }
            i = i + 1;
        }
        TargetKind::Unspecified
    }

    /// The position of the kind in the build order (libraries first).
    pub open spec fn rank(self) -> u8 {
        match self {
            TargetKind::Library => 0,
            TargetKind::Bin => 1,
            TargetKind::Unspecified => 2,
        }
    }

    /// The name a kind is displayed under.
    pub fn to_string(&self) -> (res: String)
        ensures
            res@ == match *self {
                TargetKind::Library => "lib"@,
                TargetKind::Bin => "bin"@,
                TargetKind::Unspecified => "unspecified"@,
            },
    {
        match *self {
            TargetKind::Library => String::from_str("lib"),
            TargetKind::Bin => String::from_str("bin"),
            TargetKind::Unspecified => String::from_str("unspecified"),
        }
    }
}

/// The positions of the targets of one kind, in order.
pub open spec fn positions_of_kind(ts: Seq<TargetInfo>, k: TargetKind, upto: int) -> Seq<int>
    decreases upto,
{
    if upto <= 0 {
        Seq::empty()
    } else if kind_of(strs(ts[upto - 1].kinds@)) == k {
        positions_of_kind(ts, k, upto - 1).push(upto - 1)
    } else {
        positions_of_kind(ts, k, upto - 1)
    }
}

/// The order in which targets are checked: all libraries, then all binaries,
/// then the rest, each group in the order given (a stable sort by kind).
pub open spec fn check_order(ts: Seq<TargetInfo>) -> Seq<int> {
    positions_of_kind(ts, TargetKind::Library, ts.len() as int) + positions_of_kind(
        ts,
        TargetKind::Bin,
        ts.len() as int,
    ) + positions_of_kind(ts, TargetKind::Unspecified, ts.len() as int)
}

fn push_positions(ts: &Vec<TargetInfo>, k: TargetKind, out: &mut Vec<usize>)
    ensures
        final(out)@.map_values(|x: usize| x as int) == old(out)@.map_values(|x: usize| x as int)
            + positions_of_kind(ts@, k, ts@.len() as int),
        final(out)@.len() >= old(out)@.len(),
        forall|j: int| 0 <= j < old(out)@.len() ==> #[trigger] final(out)@[j] == old(out)@[j],
        forall|j: int| old(out)@.len() <= j < final(out)@.len() ==> #[trigger] final(out)@[j] < ts@.len(),
{
    let ghost o0 = out@.map_values(|x: usize| x as int);
    let ghost start = out@;
    let mut i: usize = 0;
    while i < ts.len()
        invariant
            i <= ts@.len(),
            out@.map_values(|x: usize| x as int) == o0 + positions_of_kind(ts@, k, i as int),
            o0 == start.map_values(|x: usize| x as int),
            start == old(out)@,
            out@.len() >= start.len(),
            forall|j: int| 0 <= j < start.len() ==> #[trigger] out@[j] == start[j],
            forall|j: int| start.len() <= j < out@.len() ==> #[trigger] out@[j] < i,
        decreases ts@.len() - i,
    {
        let ghost before = out@.map_values(|x: usize| x as int);
        if TargetKind::from_kinds(&ts[i].kinds) == k {
            out.push(i);
            assert(out@.map_values(|x: usize| x as int) =~= before.push(i as int));
            assert(out@.map_values(|x: usize| x as int) =~= o0 + positions_of_kind(ts@, k, i + 1));
        } else {
            assert(positions_of_kind(ts@, k, i + 1) == positions_of_kind(ts@, k, i as int));
        }
        i = i + 1;
    }
}

/// The order in which the targets of a package are checked (libraries before
/// binaries), as positions in `targets`.
pub fn order_targets(targets: &Vec<TargetInfo>) -> (res: Vec<usize>)
    ensures
        res@.map_values(|x: usize| x as int) == check_order(targets@),
        forall|j: int| 0 <= j < res@.len() ==> #[trigger] res@[j] < targets@.len(),
{
    let mut out: Vec<usize> = Vec::new();
    push_positions(targets, TargetKind::Library, &mut out);
    push_positions(targets, TargetKind::Bin, &mut out);
    push_positions(targets, TargetKind::Unspecified, &mut out);
    assert(out@.map_values(|x: usize| x as int) =~= check_order(targets@));
    out
}

/// The `cargo check` options that select a target: `--lib` for a library,
/// `--bin <name>` for a binary, none (the target is skipped) otherwise.
pub open spec fn target_selector(kind: TargetKind, name: Seq<char>) -> Option<Seq<Seq<char>>> {
    match kind {
        TargetKind::Library => Some(seq!["--lib"@]),
        TargetKind::Bin => Some(seq!["--bin"@, name]),
        TargetKind::Unspecified => None,
    }
}

pub fn is_identified_target(target: &TargetInfo) -> (res: Option<Vec<String>>)
    ensures
        match res {
            Some(v) => target_selector(kind_of(strs(target.kinds@)), target.name@) == Some(strs(v@)),
            None => target_selector(kind_of(strs(target.kinds@)), target.name@) is None,
        },
{
    match TargetKind::from_kinds(&target.kinds) {
        TargetKind::Library => {
            let mut v: Vec<String> = Vec::new();
            v.push(String::from_str("--lib"));
            assert(strs(v@) =~= seq!["--lib"@]);
            Some(v)
        },
        TargetKind::Bin => {
            let mut v: Vec<String> = Vec::new();
            v.push(String::from_str("--bin"));
            v.push(target.name.clone());
            assert(strs(v@) =~= seq!["--bin"@, target.name@]);
            Some(v)
        },
        TargetKind::Unspecified => None,
    }
}

/// The `cargo check` command line for a target: `check`, the target selector,
/// then the options for cargo. `None` for a target that is skipped.
pub fn cargo_check_args(target: &TargetInfo, cargo_args: &Vec<String>) -> (res: Option<Vec<String>>)
    ensures
        match res {
            Some(v) => target_selector(kind_of(strs(target.kinds@)), target.name@) matches Some(sel)
                && strs(v@) == seq!["check"@] + sel + strs(cargo_args@),
            None => target_selector(kind_of(strs(target.kinds@)), target.name@) is None,
        },
{
    match is_identified_target(target) {
        None => None,
        Some(sel) => {
            let mut v: Vec<String> = Vec::new();
            v.push(String::from_str("check"));
            let mut i: usize = 0;
            while i < sel.len()
                invariant
                    i <= sel@.len(),
                    strs(v@) == seq!["check"@] + strs(sel@).take(i as int),
                decreases sel@.len() - i,
            {
                let ghost before = strs(v@);
                v.push(sel[i].clone());
                assert(strs(v@) =~= before.push(sel@[i as int]@));
                assert(strs(sel@).take(i + 1) =~= strs(sel@).take(i as int).push(sel@[i as int]@));
                assert(strs(v@) =~= seq!["check"@] + strs(sel@).take(i + 1));
                i = i + 1;
            }
            assert(strs(sel@).take(sel@.len() as int) =~= strs(sel@));
            let mut j: usize = 0;
            while j < cargo_args.len()
                invariant
                    j <= cargo_args@.len(),
                    strs(v@) == seq!["check"@] + strs(sel@) + strs(cargo_args@).take(j as int),
                decreases cargo_args@.len() - j,
            {
                let ghost before = strs(v@);
                v.push(cargo_args[j].clone());
                assert(strs(v@) =~= before.push(cargo_args@[j as int]@));
                assert(strs(cargo_args@).take(j + 1) =~= strs(cargo_args@).take(j as int).push(cargo_args@[j as int]@));
                assert(strs(v@) =~= seq!["check"@] + strs(sel@) + strs(cargo_args@).take(j + 1));
                j = j + 1;
            }
            assert(strs(cargo_args@).take(cargo_args@.len() as int) =~= strs(cargo_args@));
            Some(v)
        },
    }
}

/// The value of `RAP_ARGS` handed to the compiler wrapper: the tool's options
/// as a JSON list.
pub fn rap_args_env(rap_args: &Vec<String>) -> (res: Result<String, RapError>)
    ensures
        res matches Ok(s) && s@ == json_string_array(strs(rap_args@)),
{
    match json_encode_strings(rap_args.as_slice()) {
        Ok(s) => Ok(s),
        Err(_) => Err(RapError::SerializeArgs),
    }
}

/// The command line of the analyzer in the compiler-wrapper phase: the
/// compiler arguments (after the program and the compiler path) followed by the
/// tool's options read back from `RAP_ARGS`.
pub fn rap_command_args(args: &Arguments, rap_args_json: &str) -> (res: Result<Vec<String>, RapError>)
    ensures
        match parse_json_string_array(rap_args_json@) {
            Some(extra) => res matches Ok(v) && strs(v@) == (if args.args@.len() >= 2 {
                strs(args.args@.skip(2))
            } else {
                Seq::empty()
            }) + extra,
            None => res == Err::<Vec<String>, RapError>(RapError::DeserializeArgs),
        },
{
    let mut base = args.skip2();
    match json_decode_strings(rap_args_json) {
        Err(_) => Err(RapError::DeserializeArgs),
        Ok(mut extra) => {
            let ghost b0 = base@;
            let ghost e0 = extra@;
            base.append(&mut extra);
            assert(strs(base@) =~= strs(b0) + strs(e0));
            Ok(base)
        },
    }
}

/// The two phases of the cargo subcommand.
#[derive(Debug, PartialEq, Eq, Structural, Copy, Clone)]
pub enum Phase {
    CargoRap,
    RustcWrapper,
}

/// The phase from the first argument: a path ending in `rap` runs the cargo
/// phase, one ending in `rustc` the compiler-wrapper phase.
pub open spec fn phase_of(args: Seq<Seq<char>>) -> Result<Phase, RapError> {
    if args.len() >= 2 && is_suffix("rap"@, args[1]) {
        Ok(Phase::CargoRap)
    } else if args.len() >= 2 && is_suffix("rustc"@, args[1]) {
        Ok(Phase::RustcWrapper)
    } else {
        Err(RapError::UnknownPhase)
    }
}

pub fn select_phase(args: &Arguments) -> (res: Result<Phase, RapError>)
    ensures
        res == phase_of(strs(args.args@)),
{
    match args.get_arg(1) {
        Some(s) => {
            if ends_with(s, "rap") {
                Ok(Phase::CargoRap)
            } else if ends_with(s, "rustc") {
                Ok(Phase::RustcWrapper)
            } else {
                Err(RapError::UnknownPhase)
            }
        },
        None => Err(RapError::UnknownPhase),
    }
}

/// What the cargo phase does.
#[derive(Debug, PartialEq, Eq, Structural, Copy, Clone)]
pub enum CargoRapAction {
    MissingCommand,
    ShowVersion,
    ShowHelp,
    CheckTargets,
}

pub open spec fn cargo_rap_action_of(args: Seq<Seq<char>>) -> CargoRapAction {
    if args.len() <= 2 {
        CargoRapAction::MissingCommand
    } else if args[2] == "-V"@ || args[2] == "-version"@ {
        CargoRapAction::ShowVersion
    } else if args[2] == "-H"@ || args[2] == "-help"@ || args[2] == "--help"@ {
        CargoRapAction::ShowHelp
    } else {
        CargoRapAction::CheckTargets
    }
}

/// The action of the cargo phase from the argument after `cargo rap`.
pub fn cargo_rap_action(args: &Arguments) -> (res: CargoRapAction)
    ensures
        res == cargo_rap_action_of(strs(args.args@)),
{
    match args.get_arg(2) {
        None => CargoRapAction::MissingCommand,
        Some(a) => {
            if str_eq(a, "-V") || str_eq(a, "-version") {
                CargoRapAction::ShowVersion
            } else if str_eq(a, "-H") || str_eq(a, "-help") || str_eq(a, "--help") {
                CargoRapAction::ShowHelp
            } else {
                CargoRapAction::CheckTargets
            }
        },
    }
}

/// What the compiler-wrapper phase runs.
#[derive(Debug, PartialEq, Eq, Structural, Copy, Clone)]
pub enum WrapperAction {
    RunRap,
    RunRustc,
}

/// The analyzer runs on the local crate (its entry file is a relative path);
/// other crates are compiled by rustc.
pub fn rustc_wrapper_action(args: &Arguments) -> (res: WrapperAction)
    ensures
        res == (if (match first_source_file(strs(args.args_group1@)) {
            Some(p) => is_relative_path(p),
            None => false,
        }) {
            WrapperAction::RunRap
        } else {
            WrapperAction::RunRustc
        }),
{
    if args.is_current_compile_crate() {
        WrapperAction::RunRap
    } else {
        WrapperAction::RunRustc
    }
}

/// The sysroot the analyzer uses by default: none when built as part of
/// rustc, else the rustup toolchain directory, else the configured sysroot.
pub open spec fn default_sysroot(
    rustc_stage: Option<Seq<char>>,
    home: Option<Seq<char>>,
    toolchain: Option<Seq<char>>,
    sysroot: Option<Seq<char>>,
) -> Option<Seq<char>> {
    if rustc_stage is Some {
        None
    } else if home is Some && toolchain is Some {
        Some(home.unwrap() + "/toolchains/"@ + toolchain.unwrap())
    } else {
        sysroot
    }
}

pub open spec fn opt_view(o: Option<&str>) -> Option<Seq<char>> {
    match o {
        Some(s) => Some(s@),
        None => None,
    }
}

/// The default sysroot from the build-time settings `RUSTC_STAGE`,
/// `RUSTUP_HOME` (or `MULTIRUST_HOME`), `RUSTUP_TOOLCHAIN` (or
/// `MULTIRUST_TOOLCHAIN`) and `RUST_SYSROOT`.
pub fn compile_time_sysroot(
    rustc_stage: Option<&str>,
    home: Option<&str>,
    toolchain: Option<&str>,
    rust_sysroot: Option<&str>,
) -> (res: Option<String>)
    requires
        rustc_stage is None && !(home is Some && toolchain is Some) ==> rust_sysroot is Some,
    ensures
        match res {
            Some(s) => default_sysroot(opt_view(rustc_stage), opt_view(home), opt_view(toolchain), opt_view(rust_sysroot)) == Some(s@),
            None => default_sysroot(opt_view(rustc_stage), opt_view(home), opt_view(toolchain), opt_view(rust_sysroot)) is None,
        },
{
    if rustc_stage.is_some() {
        return None;
    }
    match (home, toolchain) {
        (Some(h), Some(t)) => {
            let s = String::from_str(h);
            let s = s.concat("/toolchains/");
            let s = s.concat(t);
            Some(s)
        },
        _ => match rust_sysroot {
            Some(r) => Some(String::from_str(r)),
            None => None,
        },
    }
}

/// Whether some argument is exactly `flag`.
pub open spec fn has_exact(args: Seq<Seq<char>>, flag: Seq<char>) -> bool {
    exists|i: int| 0 <= i < args.len() && args[i] == flag
}

/// The compiler command line: the sysroot is added at the end when one is
/// known and none is given, then the default flags go right after the program.
pub open spec fn compiler_args(args: Seq<Seq<char>>, sysroot: Option<Seq<char>>) -> Seq<Seq<char>> {
    let with_sysroot = match sysroot {
        Some(s) => if !has_exact(args, "--sysroot"@) {
            args + seq!["--sysroot"@, s]
        } else {
            args
        },
        None => args,
    };
    seq![with_sysroot[0]] + seq!["-Zalways-encode-mir"@, "-Zmir-opt-level=0"@, "--cfg=rap"@]
        + with_sysroot.skip(1)
}

pub fn prepare_compiler_args(args: &Vec<String>, sysroot: Option<String>) -> (res: Vec<String>)
    requires
        args@.len() >= 1,
    ensures
        strs(res@) == compiler_args(strs(args@), match sysroot { Some(s) => Some(s@), None => None }),
{
    let ghost a = strs(args@);
    let mut full = clone_strings(args.as_slice());
    match sysroot {
        Some(s) => {
            let mut found = false;
            let mut i: usize = 0;
            while i < args.len()
                invariant
                    a == strs(args@),
                    i <= args@.len(),
                    found == exists|j: int| 0 <= j < i && a[j] == "--sysroot"@,
                decreases args@.len() - i,
            {
                assert(a[i as int] == args@[i as int]@);
                if str_eq(args[i].as_str(), "--sysroot") {
                    found = true;
                }
                i = i + 1;
            }
            if !found {
                full.push(String::from_str("--sysroot"));
                full.push(s);
                assert(strs(full@) =~= a + seq!["--sysroot"@, s@]);
            }
        },
        None => {},
    }
    let ghost w = strs(full@);
    let mut res: Vec<String> = Vec::new();
    res.push(full[0].clone());
    let mut defaults = rap_default_args();
    res.append(&mut defaults);
    let mut i: usize = 1;
    while i < full.len()
        invariant
            w == strs(full@),
            1 <= i <= full@.len(),
            strs(res@) == seq![w[0]] + seq!["-Zalways-encode-mir"@, "-Zmir-opt-level=0"@, "--cfg=rap"@]
                + w.subrange(1, i as int),
        decreases full@.len() - i,
    {
        let ghost before = strs(res@);
        res.push(full[i].clone());
        assert(strs(res@) =~= before.push(w[i as int]));
        assert(w.subrange(1, i + 1) =~= w.subrange(1, i as int).push(w[i as int]));
        assert(strs(res@) =~= seq![w[0]] + seq!["-Zalways-encode-mir"@, "-Zmir-opt-level=0"@, "--cfg=rap"@]
            + w.subrange(1, i + 1));
        i = i + 1;
    }
    assert(w.subrange(1, w.len() as int) =~= w.skip(1));
    res
}

/// The options of the analyzer binary: the analyses turned on, the arguments
/// left for the compiler, and whether debug logging is on.
pub struct RapOptions {
    pub callback: RapCallback,
    pub rustc_args: Vec<String>,
    pub debug: bool,
}

/// The effect of one command-line argument of the analyzer binary on its
/// settings; `None` for an argument that is passed on to the compiler.
pub open spec fn option_effect(f: CallbackFlags, debug: bool, a: Seq<char>) -> Option<(CallbackFlags, bool)> {
    if a == "-F"@ || a == "-uaf"@ || a == "-uaf=backend"@ {
        Some((CallbackFlags { safedrop: true, ..f }, debug))
    } else if a == "-M"@ || a == "-mleak"@ {
        Some((CallbackFlags { rcanary: true, ..f }, debug))
    } else if a == "-alias=mop"@ {
        Some((CallbackFlags { mop: true, ..f }, debug))
    } else if a == "-dataflow"@ {
        Some((CallbackFlags { dataflow: 1, ..f }, debug))
    } else if a == "-UI"@ || a == "-uig"@ {
        Some((CallbackFlags { unsafety_isolation: 1, ..f }, debug))
    } else if a == "-doc"@ {
        Some((CallbackFlags { unsafety_isolation: 2, ..f }, debug))
    } else if a == "-upg"@ {
        Some((CallbackFlags { unsafety_isolation: 3, ..f }, debug))
    } else if a == "-ucons"@ {
        Some((CallbackFlags { unsafety_isolation: 4, ..f }, debug))
    } else if a == "-senryx"@ {
        Some((CallbackFlags { senryx: true, ..f }, debug))
    } else if a == "-callgraph"@ {
        Some((CallbackFlags { callgraph: true, ..f }, debug))
    } else if a == "-mir"@ {
        Some((CallbackFlags { show_mir: true, ..f }, debug))
    } else if a == "-debug"@ {
        Some((f, true))
    } else if a == "-adt"@ || a == "-z3"@ || a == "-meta"@ {
        Some((f, debug))
    } else {
        None
    }
}

/// Each option for the unsafety isolation analyses selects its own
/// analysis, whatever was set before and wherever it stands among the
/// arguments: "-UI" and "-uig" set 1 (the isolation graph), "-doc" 2,
/// "-upg" 3 (the propagation graph) and "-ucons" 4, leaving every other
/// setting as it was; the last such option read decides.
pub proof fn lemma_isolation_options(f: CallbackFlags, d: bool, args: Seq<Seq<char>>)
    ensures
        option_effect(f, d, "-UI"@) == Some((CallbackFlags { unsafety_isolation: 1, ..f }, d)),
        option_effect(f, d, "-uig"@) == Some((CallbackFlags { unsafety_isolation: 1, ..f }, d)),
        option_effect(f, d, "-doc"@) == Some((CallbackFlags { unsafety_isolation: 2, ..f }, d)),
        option_effect(f, d, "-upg"@) == Some((CallbackFlags { unsafety_isolation: 3, ..f }, d)),
        option_effect(f, d, "-ucons"@) == Some((CallbackFlags { unsafety_isolation: 4, ..f }, d)),
        parse_options(args.push("-UI"@)).0.unsafety_isolation == 1,
        parse_options(args.push("-uig"@)).0.unsafety_isolation == 1,
        parse_options(args.push("-doc"@)).0.unsafety_isolation == 2,
        parse_options(args.push("-upg"@)).0.unsafety_isolation == 3,
        parse_options(args.push("-ucons"@)).0.unsafety_isolation == 4,
{
    reveal_strlit("-F");
    reveal_strlit("-uaf");
    reveal_strlit("-uaf=backend");
    reveal_strlit("-M");
    reveal_strlit("-mleak");
    reveal_strlit("-alias=mop");
    reveal_strlit("-dataflow");
    reveal_strlit("-UI");
    reveal_strlit("-uig");
    reveal_strlit("-doc");
    reveal_strlit("-upg");
    reveal_strlit("-ucons");
    assert("-UI"@ != "-F"@) by {
        assert("-UI"@.len() != "-F"@.len());
    }
    assert("-UI"@ != "-uaf"@) by {
        assert("-UI"@.len() != "-uaf"@.len());
    }
    assert("-UI"@ != "-uaf=backend"@) by {
        assert("-UI"@.len() != "-uaf=backend"@.len());
    }
    assert("-UI"@ != "-M"@) by {
        assert("-UI"@.len() != "-M"@.len());
    }
    assert("-UI"@ != "-mleak"@) by {
        assert("-UI"@.len() != "-mleak"@.len());
    }
    assert("-UI"@ != "-alias=mop"@) by {
        assert("-UI"@.len() != "-alias=mop"@.len());
    }
    assert("-UI"@ != "-dataflow"@) by {
        assert("-UI"@.len() != "-dataflow"@.len());
    }
    assert("-uig"@ != "-F"@) by {
        assert("-uig"@.len() != "-F"@.len());
    }
    assert("-uig"@ != "-uaf"@) by {
        assert("-uig"@[2] != "-uaf"@[2]);
    }
    assert("-uig"@ != "-uaf=backend"@) by {
        assert("-uig"@.len() != "-uaf=backend"@.len());
    }
    assert("-uig"@ != "-M"@) by {
        assert("-uig"@.len() != "-M"@.len());
    }
    assert("-uig"@ != "-mleak"@) by {
        assert("-uig"@.len() != "-mleak"@.len());
    }
    assert("-uig"@ != "-alias=mop"@) by {
        assert("-uig"@.len() != "-alias=mop"@.len());
    }
    assert("-uig"@ != "-dataflow"@) by {
        assert("-uig"@.len() != "-dataflow"@.len());
    }
    assert("-uig"@ != "-UI"@) by {
        assert("-uig"@.len() != "-UI"@.len());
    }
    assert("-doc"@ != "-F"@) by {
        assert("-doc"@.len() != "-F"@.len());
    }
    assert("-doc"@ != "-uaf"@) by {
        assert("-doc"@[1] != "-uaf"@[1]);
    }
    assert("-doc"@ != "-uaf=backend"@) by {
        assert("-doc"@.len() != "-uaf=backend"@.len());
    }
    assert("-doc"@ != "-M"@) by {
        assert("-doc"@.len() != "-M"@.len());
    }
    assert("-doc"@ != "-mleak"@) by {
        assert("-doc"@.len() != "-mleak"@.len());
    }
    assert("-doc"@ != "-alias=mop"@) by {
        assert("-doc"@.len() != "-alias=mop"@.len());
    }
    assert("-doc"@ != "-dataflow"@) by {
        assert("-doc"@.len() != "-dataflow"@.len());
    }
    assert("-doc"@ != "-UI"@) by {
        assert("-doc"@.len() != "-UI"@.len());
    }
    assert("-doc"@ != "-uig"@) by {
        assert("-doc"@[1] != "-uig"@[1]);
    }
    assert("-upg"@ != "-F"@) by {
        assert("-upg"@.len() != "-F"@.len());
    }
    assert("-upg"@ != "-uaf"@) by {
        assert("-upg"@[2] != "-uaf"@[2]);
    }
    assert("-upg"@ != "-uaf=backend"@) by {
        assert("-upg"@.len() != "-uaf=backend"@.len());
    }
    assert("-upg"@ != "-M"@) by {
        assert("-upg"@.len() != "-M"@.len());
    }
    assert("-upg"@ != "-mleak"@) by {
        assert("-upg"@.len() != "-mleak"@.len());
    }
    assert("-upg"@ != "-alias=mop"@) by {
        assert("-upg"@.len() != "-alias=mop"@.len());
    }
    assert("-upg"@ != "-dataflow"@) by {
        assert("-upg"@.len() != "-dataflow"@.len());
    }
    assert("-upg"@ != "-UI"@) by {
        assert("-upg"@.len() != "-UI"@.len());
    }
    assert("-upg"@ != "-uig"@) by {
        assert("-upg"@[2] != "-uig"@[2]);
    }
    assert("-upg"@ != "-doc"@) by {
        assert("-upg"@[1] != "-doc"@[1]);
    }
    assert("-ucons"@ != "-F"@) by {
        assert("-ucons"@.len() != "-F"@.len());
    }
    assert("-ucons"@ != "-uaf"@) by {
        assert("-ucons"@.len() != "-uaf"@.len());
    }
    assert("-ucons"@ != "-uaf=backend"@) by {
        assert("-ucons"@.len() != "-uaf=backend"@.len());
    }
    assert("-ucons"@ != "-M"@) by {
        assert("-ucons"@.len() != "-M"@.len());
    }
    assert("-ucons"@ != "-mleak"@) by {
        assert("-ucons"@[1] != "-mleak"@[1]);
    }
    assert("-ucons"@ != "-alias=mop"@) by {
        assert("-ucons"@.len() != "-alias=mop"@.len());
    }
    assert("-ucons"@ != "-dataflow"@) by {
        assert("-ucons"@.len() != "-dataflow"@.len());
    }
    assert("-ucons"@ != "-UI"@) by {
        assert("-ucons"@.len() != "-UI"@.len());
    }
    assert("-ucons"@ != "-uig"@) by {
        assert("-ucons"@.len() != "-uig"@.len());
    }
    assert("-ucons"@ != "-doc"@) by {
        assert("-ucons"@.len() != "-doc"@.len());
    }
    assert("-ucons"@ != "-upg"@) by {
        assert("-ucons"@.len() != "-upg"@.len());
    }
    assert(args.push("-UI"@).drop_last() =~= args);
    assert(args.push("-uig"@).drop_last() =~= args);
    assert(args.push("-doc"@).drop_last() =~= args);
    assert(args.push("-upg"@).drop_last() =~= args);
    assert(args.push("-ucons"@).drop_last() =~= args);
}

/// The settings after reading `args` from the start.
pub open spec fn parse_options(args: Seq<Seq<char>>) -> (CallbackFlags, Seq<Seq<char>>, bool)
    decreases args.len(),
{
    if args.len() == 0 {
        (
            CallbackFlags {
                rcanary: false,
                safedrop: false,
                senryx: false,
                unsafety_isolation: 0,
                mop: false,
                callgraph: false,
                show_mir: false,
                dataflow: 0,
            },
            Seq::empty(),
            false,
        )
    } else {
        let (f, rest, d) = parse_options(args.drop_last());
        match option_effect(f, d, args.last()) {
            Some((f2, d2)) => (f2, rest, d2),
            None => (f, rest.push(args.last()), d),
        }
    }
}

fn apply_option(cb: &mut RapCallback, debug: &mut bool, a: &str) -> (passed: bool)
    ensures
        match option_effect(old(cb)@, *old(debug), a@) {
            Some((f2, d2)) => !passed && final(cb)@ == f2 && *final(debug) == d2,
            None => passed && final(cb)@ == old(cb)@ && *final(debug) == *old(debug),
        },
{
    if str_eq(a, "-F") || str_eq(a, "-uaf") || str_eq(a, "-uaf=backend") {
        cb.enable_safedrop();
    } else if str_eq(a, "-M") || str_eq(a, "-mleak") {
        cb.enable_rcanary();
    } else if str_eq(a, "-alias=mop") {
        cb.enable_mop();
    } else if str_eq(a, "-dataflow") {
        cb.enable_dataflow(1);
    } else if str_eq(a, "-UI") || str_eq(a, "-uig") {
        cb.enable_unsafety_isolation(1);
    } else if str_eq(a, "-doc") {
        cb.enable_unsafety_isolation(2);
    } else if str_eq(a, "-upg") {
        cb.enable_unsafety_isolation(3);
    } else if str_eq(a, "-ucons") {
        cb.enable_unsafety_isolation(4);
    } else if str_eq(a, "-senryx") {
        cb.enable_senryx();
    } else if str_eq(a, "-callgraph") {
        cb.enable_callgraph();
    } else if str_eq(a, "-mir") {
        cb.enable_show_mir();
    } else if str_eq(a, "-debug") {
        *debug = true;
    } else if str_eq(a, "-adt") || str_eq(a, "-z3") || str_eq(a, "-meta") {
    } else {
        return true;
    }
    false
}

/// Reads the analyzer's options from its command line; the arguments that
/// are not options are passed on to the compiler, in order.
pub fn parse_rap_args(args: &Vec<String>) -> (res: RapOptions)
    ensures
        parse_options(strs(args@)) == (res.callback@, strs(res.rustc_args@), res.debug),
{
    let ghost a = strs(args@);
    let mut cb = RapCallback::default();
    let mut debug = false;
    let mut rest: Vec<String> = Vec::new();
    let mut i: usize = 0;
    assert(a.take(0) =~= Seq::<Seq<char>>::empty());
    while i < args.len()
        invariant
            a == strs(args@),
            i <= args@.len(),
            parse_options(a.take(i as int)) == (cb@, strs(rest@), debug),
        decreases args@.len() - i,
    {
        assert(a.take(i + 1).drop_last() =~= a.take(i as int));
        assert(a.take(i + 1).last() == args@[i as int]@);
        if apply_option(&mut cb, &mut debug, args[i].as_str()) {
            rest.push(args[i].clone());
            assert(strs(rest@) =~= strs(rest@.drop_last()).push(args@[i as int]@));
        }
        i = i + 1;
    }
    assert(a.take(args@.len() as int) =~= a);
    RapOptions { callback: cb, rustc_args: rest, debug }
}

} // verus!
