use vstd::prelude::*;
use crate::text::{is_prefix, is_suffix, starts_with, ends_with, str_eq};

verus! {

/// The characters that `char::is_whitespace` accepts (Unicode `White_Space`).
pub open spec fn is_white(c: char) -> bool {
    let u = c as u32;
    ||| 0x09 <= u <= 0x0D
    ||| u == 0x20
    ||| u == 0x85
    ||| u == 0xA0
    ||| u == 0x1680
    ||| 0x2000 <= u <= 0x200A
    ||| u == 0x2028
    ||| u == 0x2029
    ||| u == 0x202F
    ||| u == 0x205F
    ||| u == 0x3000
}

pub fn is_white_exec(c: char) -> (res: bool)
    ensures
        res == is_white(c),
{
    let u = c as u32;
    (0x09 <= u && u <= 0x0D) || u == 0x20 || u == 0x85 || u == 0xA0 || u == 0x1680 || (0x2000 <= u
        && u <= 0x200A) || u == 0x2028 || u == 0x2029 || u == 0x202F || u == 0x205F || u == 0x3000
}

/// The setting of the cleaning step from the text of its environment
/// variable: only `false` (ignoring surrounding whitespace and ASCII case)
/// turns it off.
pub open spec fn clean_setting(v: Option<Seq<char>>) -> bool {
    match v {
        Some(s) => !is_false_word(s),
        None => true,
    }
}

/// `s`, trimmed of whitespace, is `false` in any ASCII case.
pub open spec fn is_false_word(s: Seq<char>) -> bool {
    exists|a: int, b: int|
        0 <= a <= b <= s.len() && (forall|i: int| 0 <= i < a ==> is_white(#[trigger] s[i])) && (
        forall|i: int| b <= i < s.len() ==> is_white(#[trigger] s[i])) && lower_is(
            s.subrange(a, b),
            "false"@,
        )
}

/// Lowercasing the ASCII letters of `s` gives `t`.
pub open spec fn lower_is(s: Seq<char>, t: Seq<char>) -> bool {
    s.len() == t.len() && forall|i: int| 0 <= i < s.len() ==> ascii_lower(#[trigger] s[i]) == t[i]
}

pub open spec fn ascii_lower(c: char) -> char {
    if 'A' <= c <= 'Z' {
        ((c as u32) + 32) as char
    } else {
        c
    }
}

/// Whether the cleaning step runs, given the value of `RAP_CLEAN` (if set).
pub fn rap_clean_setting(value: Option<&str>) -> (res: bool)
    ensures
        res == clean_setting(match value { Some(s) => Some(s@), None => None }),
{
    match value {
        None => true,
        Some(s) => {
            let n = s.unicode_len();
            let mut a: usize = 0;
            while a < n && is_white_exec(s.get_char(a))
                invariant
                    n == s@.len(),
                    a <= n,
                    forall|i: int| 0 <= i < a ==> is_white(s@[i]),
                decreases n - a,
            {
                a = a + 1;
            }
            let mut b: usize = n;
            while b > a && is_white_exec(s.get_char(b - 1))
                invariant
                    n == s@.len(),
                    a <= b <= n,
                    forall|i: int| b <= i < n ==> is_white(s@[i]),
                decreases b,
            {
                b = b - 1;
            }
            proof {
                reveal_strlit("false");
            }
            let word = "false";
            let mut is_false = b - a == 5;
            let mut i: usize = 0;
            while is_false && i < 5
                invariant
                    n == s@.len(),
                    a <= b <= n,
                    word@ == "false"@,
                    word@.len() == 5,
                    i <= 5,
                    is_false ==> b - a == 5 && forall|j: int| 0 <= j < i ==> ascii_lower(s@[a + j]) == word@[j],
                    !is_false ==> b - a != 5 || exists|j: int| 0 <= j < i && ascii_lower(s@[a + j]) != word@[j],
                decreases 5 - i,
            {
                let c = s.get_char(a + i);
                let lc = if 'A' <= c && c <= 'Z' { ((c as u8) + 32) as char } else { c };
                assert(lc == ascii_lower(c));
                if lc != word.get_char(i) {
                    is_false = false;
                }
                i = i + 1;
            }
            proof {
                let sv = s@;
                assert(a == n || !is_white(sv[a as int]));
                assert(b == a || !is_white(sv[b - 1]));
                if is_false {
                    assert(lower_is(sv.subrange(a as int, b as int), "false"@));
                    assert(is_false_word(sv));
                } else {
                    if is_false_word(sv) {
                        let (a2, b2) = choose|a2: int, b2: int|
                            0 <= a2 <= b2 <= sv.len() && (forall|i: int|
                                0 <= i < a2 ==> is_white(#[trigger] sv[i])) && (forall|i: int|
                                b2 <= i < sv.len() ==> is_white(#[trigger] sv[i])) && lower_is(
                                sv.subrange(a2, b2),
                                "false"@,
                            );
                        assert(b2 - a2 == 5);
                        assert(sv.subrange(a2, b2)[0] == sv[a2]);
                        assert(sv.subrange(a2, b2)[4] == sv[b2 - 1]);
                        assert(ascii_lower(sv[a2]) == 'f');
                        assert(ascii_lower(sv[b2 - 1]) == 'e');
                        assert(!is_white(sv[a2]));
                        assert(!is_white(sv[b2 - 1]));
                        assert(a2 == a as int) by {
                            if a2 < a {
                                assert(is_white(sv[a2]));
                            }
                            if (a as int) < a2 {
                                assert(is_white(sv[a as int]));
                            }
                        }
                        assert(b2 == b as int) by {
                            if b2 < b {
                                assert(is_white(sv[b as int - 1]));
                            }
                            if (b as int) < b2 {
                                assert(is_white(sv[b2 - 1]));
                            }
                        }
                        assert forall|j: int| 0 <= j < 5 implies ascii_lower(sv[a + j]) == "false"@[j] by {
                            assert(sv.subrange(a2, b2)[j] == sv[a + j]);
                        }
                        assert(b - a == 5);
                        let j = choose|j: int| 0 <= j < 5 && ascii_lower(sv[a + j]) != "false"@[j];
                        assert(false);
                    }
                }
            }
            !is_false
        },
    }
}


/// The characters of each string.
pub open spec fn strs(v: Seq<String>) -> Seq<Seq<char>> {
    v.map_values(|s: String| s@)
}

/// The index of the first `--` in `s`, or its length.
pub open spec fn double_dash_pos(s: Seq<Seq<char>>) -> int
    decreases s.len(),
{
    if s.len() == 0 {
        0
    } else if s[0] == "--"@ {
        0
    } else {
        1 + double_dash_pos(s.drop_first())
    }
}

/// The arguments after the first two (the program and the subcommand).
pub open spec fn after_two(s: Seq<Seq<char>>) -> Seq<Seq<char>> {
    if s.len() >= 2 {
        s.skip(2)
    } else {
        Seq::empty()
    }
}

/// The options before the first `--`.
pub open spec fn first_group(s: Seq<Seq<char>>) -> Seq<Seq<char>> {
    s.take(double_dash_pos(s))
}

/// The options after the first `--` (none when there is no `--`).
pub open spec fn second_group(s: Seq<Seq<char>>) -> Seq<Seq<char>> {
    if double_dash_pos(s) < s.len() {
        s.skip(double_dash_pos(s) + 1)
    } else {
        Seq::empty()
    }
}

/// The value of flag `name` among `args`: the first argument that starts with
/// `name` and is either exactly `name` (the value is the next argument) or
/// `name=value`.
pub open spec fn flag_value(args: Seq<Seq<char>>, name: Seq<char>) -> Option<Seq<char>>
    decreases args.len(),
{
    if args.len() == 0 {
        None
    } else {
        let a = args[0];
        if !is_prefix(name, a) {
            flag_value(args.drop_first(), name)
        } else if a.len() == name.len() {
            if args.len() > 1 {
                Some(args[1])
            } else {
                None
            }
        } else if a[name.len() as int] == '=' {
            Some(a.skip(name.len() as int + 1))
        } else {
            flag_value(args.drop_first(), name)
        }
    }
}

/// The first argument that ends with `.rs`, if any.
pub open spec fn first_source_file(args: Seq<Seq<char>>) -> Option<Seq<char>>
    decreases args.len(),
{
    if args.len() == 0 {
        None
    } else if is_suffix(".rs"@, args[0]) {
        Some(args[0])
    } else {
        first_source_file(args.drop_first())
    }
}

/// A (Unix) path is relative when it does not start at the root.
pub open spec fn is_relative_path(p: Seq<char>) -> bool {
    !(p.len() > 0 && p[0] == '/')
}

pub fn clone_strings(v: &[String]) -> (res: Vec<String>)
    ensures
        res@ == v@,
{
    let mut out: Vec<String> = Vec::new();
    let mut i: usize = 0;
    while i < v.len()
        invariant
            i <= v@.len(),
            out@ == v@.take(i as int),
        decreases v@.len() - i,
    {
        out.push(v[i].clone());
        assert(v@.take(i + 1) =~= v@.take(i as int).push(v@[i as int]));
        i = i + 1;
    }
    assert(v@.take(v@.len() as int) =~= v@);
    out
}

/// Splits the arguments after the first two at the first `--`: the options
/// for the tool and the options for cargo.
pub fn split_args_by_double_dash(args: &Vec<String>) -> (res: (Vec<String>, Vec<String>))
    ensures
        strs(res.0@) == first_group(after_two(strs(args@))),
        strs(res.1@) == second_group(after_two(strs(args@))),
{
    let ghost rest = after_two(strs(args@));
    let mut g1: Vec<String> = Vec::new();
    let mut g2: Vec<String> = Vec::new();
    if args.len() < 2 {
        assert(rest =~= Seq::<Seq<char>>::empty());
        assert(strs(g1@) =~= first_group(rest));
        assert(strs(g2@) =~= second_group(rest));
        return (g1, g2);
    }
    assert(rest =~= strs(args@.skip(2)));
    let ghost pos = double_dash_pos(rest);
    proof {
        lemma_dash_pos_range(rest);
    }
    let mut i: usize = 2;
    let mut found = false;
    while i < args.len()
        invariant
            2 <= i <= args@.len(),
            rest == strs(args@).skip(2),
            0 <= double_dash_pos(rest) <= rest.len(),
            !found ==> forall|j: int| 0 <= j < i - 2 ==> rest[j] != "--"@,
            !found ==> strs(g1@) == rest.take(i - 2),
            !found ==> g2@.len() == 0,
            found ==> double_dash_pos(rest) + 3 <= i,
            found ==> double_dash_pos(rest) < rest.len() && strs(g1@) == first_group(rest) && strs(g2@)
                == rest.subrange(double_dash_pos(rest) + 1, i - 2),
        decreases args@.len() - i,
    {
        let a = args[i].as_str();
        assert(rest.len() == args@.len() - 2);
        if !found && str_eq(a, "--") {
            found = true;
            proof {
                lemma_dash_pos(rest, i - 2);
                assert(rest.subrange(i - 1, i - 1) =~= Seq::<Seq<char>>::empty());
                assert(strs(g2@) =~= Seq::<Seq<char>>::empty());
            }
        } else if !found {
            g1.push(args[i].clone());
            assert(rest[i - 2] == args@[i as int]@);
            assert(strs(g1@) =~= rest.take(i - 1));
        } else {
            let ghost old_g2 = strs(g2@);
            assert(old_g2 == rest.subrange(double_dash_pos(rest) + 1, i - 2));
            g2.push(args[i].clone());
            assert(rest[i - 2] == args@[i as int]@);
            assert(strs(g2@) =~= old_g2.push(args@[i as int]@));
            assert(rest.subrange(double_dash_pos(rest) + 1, i - 1) =~= rest.subrange(double_dash_pos(rest) + 1, i - 2).push(rest[i - 2]));
            assert(strs(g2@) =~= rest.subrange(double_dash_pos(rest) + 1, i - 1));
        }
        i = i + 1;
    }
    proof {
        assert(rest.len() == args@.len() - 2);
        if !found {
            lemma_no_dash(rest);
            assert(rest.take(rest.len() as int) =~= rest);
            assert(strs(g2@) =~= second_group(rest));
        } else {
            assert(rest.subrange(double_dash_pos(rest) + 1, rest.len() as int) =~= second_group(rest));
        }
    }
    (g1, g2)
}

proof fn lemma_dash_pos(s: Seq<Seq<char>>, k: int)
    requires
        0 <= k < s.len(),
        s[k] == "--"@,
        forall|j: int| 0 <= j < k ==> s[j] != "--"@,
    ensures
        double_dash_pos(s) == k,
    decreases k,
{
    if k > 0 {
        lemma_dash_pos(s.drop_first(), k - 1);
    }
}

proof fn lemma_dash_pos_range(s: Seq<Seq<char>>)
    ensures
        0 <= double_dash_pos(s) <= s.len(),
    decreases s.len(),
{
    if s.len() > 0 && s[0] != "--"@ {
        lemma_dash_pos_range(s.drop_first());
    }
}

proof fn lemma_no_dash(s: Seq<Seq<char>>)
    requires
        forall|j: int| 0 <= j < s.len() ==> s[j] != "--"@,
    ensures
        double_dash_pos(s) == s.len(),
    decreases s.len(),
{
    if s.len() > 0 {
        lemma_no_dash(s.drop_first());
    }
}

/// The value of flag `name` among `args` (see `flag_value`).
pub fn flag_value_in<'a>(args: &'a [String], name: &str) -> (res: Option<&'a str>)
    ensures
        match res {
            Some(v) => flag_value(strs(args@), name@) == Some(v@),
            None => flag_value(strs(args@), name@) is None,
        },
{
    let ghost all = strs(args@);
    let n = name.unicode_len();
    let mut i: usize = 0;
    assert(all.skip(0) =~= all);
    while i < args.len()
        invariant
            n == name@.len(),
            all == strs(args@),
            i <= args@.len(),
            flag_value(all, name@) == flag_value(all.skip(i as int), name@),
        decreases args@.len() - i,
    {
        let arg = args[i].as_str();
        let ghost rest = all.skip(i as int);
        assert(rest[0] == arg@);
        assert(rest.drop_first() =~= all.skip(i + 1));
        if starts_with(arg, name) {
            let m = arg.unicode_len();
            if m == n {
                if i + 1 < args.len() {
                    assert(rest[1] == args@[i + 1]@);
                    return Some(args[i + 1].as_str());
                } else {
                    return None;
                }
            }
            if arg.get_char(n) == '=' {
                let v = arg.substring_char(n + 1, m);
                assert(v@ =~= arg@.skip(n + 1));
                return Some(v);
            }
        }
        i = i + 1;
    }
    None
}

/// The first argument ending in `.rs`, if any.
pub fn first_source_file_in<'a>(args: &'a [String]) -> (res: Option<&'a str>)
    ensures
        match res {
            Some(v) => first_source_file(strs(args@)) == Some(v@),
            None => first_source_file(strs(args@)) is None,
        },
{
    let ghost all = strs(args@);
    let mut i: usize = 0;
    assert(all.skip(0) =~= all);
    while i < args.len()
        invariant
            all == strs(args@),
            i <= args@.len(),
            first_source_file(all) == first_source_file(all.skip(i as int)),
        decreases args@.len() - i,
    {
        let arg = args[i].as_str();
        let ghost rest = all.skip(i as int);
        assert(rest[0] == arg@);
        assert(rest.drop_first() =~= all.skip(i + 1));
        if ends_with(arg, ".rs") {
            return Some(arg);
        }
        i = i + 1;
    }
    None
}

/// Whether a (Unix) path is relative.
pub fn is_relative(path: &str) -> (res: bool)
    ensures
        res == is_relative_path(path@),
{
    !(path.unicode_len() > 0 && path.get_char(0) == '/')
}

/// The command line of the cargo subcommand, split for its two consumers.
pub struct Arguments {
    pub args: Vec<String>,
    pub args_group1: Vec<String>,
    pub args_group2: Vec<String>,
    pub current_exe_path: String,
    pub rap_clean: bool,
}

impl Arguments {
    /// The arguments are well formed: the two groups are the split of `args`.
    pub open spec fn wf(&self) -> bool {
        &&& strs(self.args_group1@) == first_group(after_two(strs(self.args@)))
        &&& strs(self.args_group2@) == second_group(after_two(strs(self.args@)))
    }

    /// Builds the arguments from the command line, the path of the running
    /// executable and the value of `RAP_CLEAN` (if set).
    pub fn new(args: Vec<String>, current_exe_path: String, rap_clean_env: Option<&str>) -> (res: Self)
        ensures
            res.wf(),
            res.args@ == args@,
            res.current_exe_path == current_exe_path,
            res.rap_clean == clean_setting(match rap_clean_env { Some(s) => Some(s@), None => None }),
    {
        let (g1, g2) = split_args_by_double_dash(&args);
        let clean = rap_clean_setting(rap_clean_env);
        Arguments { args, args_group1: g1, args_group2: g2, current_exe_path, rap_clean: clean }
    }

    /// Value from `name=val` or `name val` among the options for the tool.
    pub fn get_arg_flag_value(&self, name: &str) -> (res: Option<&str>)
        ensures
            match res {
                Some(v) => flag_value(strs(self.args_group1@), name@) == Some(v@),
                None => flag_value(strs(self.args_group1@), name@) is None,
            },
    {
        flag_value_in(self.args_group1.as_slice(), name)
    }

    /// Whether the crate being compiled is the local one: cargo passes its
    /// entry file as a relative path.
    pub fn is_current_compile_crate(&self) -> (res: bool)
        ensures
            res == match first_source_file(strs(self.args_group1@)) {
                Some(p) => is_relative_path(p),
                None => false,
            },
    {
        match first_source_file_in(self.args_group1.as_slice()) {
            Some(path) => is_relative(path),
            None => false,
        }
    }

    /// Whether the cleaning step runs.
    pub fn rap_clean(&self) -> (res: bool)
        ensures
            res == self.rap_clean,
    {
        self.rap_clean
    }

    /// The options for the tool and the options for cargo.
    pub fn rap_and_cargo_args(&self) -> (res: (&Vec<String>, &Vec<String>))
        ensures
            res.0 == self.args_group1,
            res.1 == self.args_group2,
    {
        (&self.args_group1, &self.args_group2)
    }

    /// The argument at position `pos`, if there is one.
    pub fn get_arg(&self, pos: usize) -> (res: Option<&str>)
        ensures
            pos < self.args@.len() ==> (res matches Some(v) && v@ == self.args@[pos as int]@),
            pos >= self.args@.len() ==> res is None,
    {
        if pos < self.args.len() {
            Some(self.args[pos].as_str())
        } else {
            None
        }
    }

    /// The arguments after the first two.
    pub fn skip2(&self) -> (res: Vec<String>)
        ensures
            self.args@.len() >= 2 ==> res@ == self.args@.skip(2),
            self.args@.len() < 2 ==> res@.len() == 0,
    {
        if self.args.len() >= 2 {
            let v = clone_strings(self.args.as_slice());
            let mut out: Vec<String> = Vec::new();
            let mut i: usize = 2;
            while i < v.len()
                invariant
                    v@ == self.args@,
                    2 <= i <= v@.len(),
                    out@ == v@.subrange(2, i as int),
                decreases v@.len() - i,
            {
                out.push(v[i].clone());
                assert(v@.subrange(2, i + 1) =~= v@.subrange(2, i as int).push(v@[i as int]));
                i = i + 1;
            }
            assert(v@.subrange(2, v@.len() as int) =~= v@.skip(2));
            out
        } else {
            Vec::new()
        }
    }

    /// The path of the running executable.
    pub fn current_exe_path(&self) -> (res: &str)
        ensures
            res@ == self.current_exe_path@,
    {
        self.current_exe_path.as_str()
    }

    /// Whether the crate type being compiled is one the tool checks: not a
    /// proc-macro crate and not a build script.
    pub fn filter_crate_type(&self) -> (res: bool)
        ensures
            res == match flag_value(strs(self.args_group1@), "--crate-type"@) {
                Some(t) => !(t == "proc-macro"@ || (t == "bin"@ && flag_value(
                    strs(self.args_group1@),
                    "--crate-name"@,
                ) == Some("build_script_build"@))),
                None => true,
            },
    {
        match self.get_arg_flag_value("--crate-type") {
            Some(s) => {
                if str_eq(s, "proc-macro") {
                    false
                } else if str_eq(s, "bin") {
                    match self.get_arg_flag_value("--crate-name") {
                        Some(n) => !str_eq(n, "build_script_build"),
                        None => true,
                    }
                } else {
                    true
                }
            },
            None => true,
        }
    }
}

} // verus!
