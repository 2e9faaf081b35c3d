//! External commands run on the clipboard: which commands apply to a
//! clipboard text, how their argument line is split, and what exactly is to
//! be launched.
use vstd::prelude::*;
use vstd::string::StringExecFns;

use crate::pattern::{pattern_filter_matches, Pattern};
use crate::text::{char_is_whitespace, chars_of, is_whitespace, starts_with, string_of, trim, trim_chars};
use crate::transforms::{replace_exec, replace_spec};

verus! {

/// The placeholder that arguments, the path and the working directory may
/// hold for the clipboard text.
pub const CLIPBOARD_PLACEHOLDER: &'static str = "{clipboard}";

/// A configured command.
#[derive(Clone, Debug)]
pub struct ExecCommand {
    pub id: String,
    pub name: String,
    pub enabled: bool,
    /// A regex the clipboard must match; blank means any clipboard.
    pub pattern: String,
    pub path: String,
    /// The argument line, split as a shell would (see `parse_args`).
    pub args: String,
    /// Blank means the current directory.
    pub working_dir: String,
    /// Whether the clipboard text is written to the command's stdin.
    pub pipe_stdin: bool,
}

/// Whether the command applies to the clipboard text: its pattern is blank,
/// or it compiles and matches (an invalid pattern never matches).
pub fn command_matches(cmd: &ExecCommand, clipboard: &str) -> (r: bool)
    ensures
        r == pattern_filter_matches(cmd.pattern@, clipboard@),
{
    let t = trim_chars(&chars_of(cmd.pattern.as_str()));
    if t.len() == 0 {
        return true;
    }
    match Pattern::compile(cmd.pattern.as_str()) {
        Ok(p) => p.is_match(clipboard),
        Err(_) => false,
    }
}

/// For each command, whether it applies to the clipboard text.
pub fn exec_match_commands(commands: Vec<ExecCommand>, clipboard: String) -> (r: Vec<bool>)
    ensures
        r@.len() == commands@.len(),
        forall|k: int|
            0 <= k < r@.len() ==> r@[k] == pattern_filter_matches(
                #[trigger] commands@[k].pattern@,
                clipboard@,
            ),
{
    let mut out: Vec<bool> = Vec::new();
    let mut i: usize = 0;
    while i < commands.len()
        invariant
            i <= commands.len(),
            out@.len() == i,
            forall|k: int|
                0 <= k < i ==> out@[k] == pattern_filter_matches(
                    #[trigger] commands@[k].pattern@,
                    clipboard@,
                ),
        decreases commands.len() - i,
    {
        out.push(command_matches(&commands[i], clipboard.as_str()));
        i += 1;
    }
    out
}

/// The arguments of an argument line read from the left, where `cur` is the
/// argument read so far, `in_arg` whether one has started and `quote` the
/// open quote, if any: whitespace outside quotes ends an argument, `'` and `"`
/// open a quote that the same character closes (the quotes themselves are
/// dropped, and `""` makes an empty argument), everything else is part of the
/// argument.
pub open spec fn args_from(cur: Seq<char>, in_arg: bool, quote: Option<char>, s: Seq<char>) -> Seq<
    Seq<char>,
>
    decreases s.len(),
{
    if s.len() == 0 {
        if in_arg {
            seq![cur]
        } else {
            seq![]
        }
    } else {
        let c = s[0];
        match quote {
            Some(q) => if c == q {
                args_from(cur, in_arg, None, s.drop_first())
            } else {
                args_from(cur.push(c), in_arg, quote, s.drop_first())
            },
            None => if c == '\'' || c == '"' {
                args_from(cur, true, Some(c), s.drop_first())
            } else if char_is_whitespace(c) {
                if in_arg {
                    seq![cur] + args_from(seq![], false, None, s.drop_first())
                } else {
                    args_from(cur, false, None, s.drop_first())
                }
            } else {
                args_from(cur.push(c), true, None, s.drop_first())
            },
        }
    }
}

/// The arguments of an argument line, each with the clipboard placeholder
/// replaced by the clipboard text.
pub open spec fn parse_args_spec(args: Seq<char>, clipboard: Seq<char>) -> Seq<Seq<char>> {
    args_from(seq![], false, None, args).map_values(
        |a: Seq<char>| replace_spec(a, CLIPBOARD_PLACEHOLDER@, clipboard),
    )
}

/// Inside a quote, everything up to the same quote character is taken as
/// it is, the other quote character and whitespace included.
pub proof fn lemma_quoted_run(cur: Seq<char>, q: char, w: Seq<char>, t: Seq<char>)
    requires
        forall|i: int| 0 <= i < w.len() ==> #[trigger] w[i] != q,
    ensures
        args_from(cur, true, Some(q), w + seq![q] + t) == args_from(cur + w, true, None, t),
    decreases w.len(),
{
    let s = w + seq![q] + t;
    if w.len() == 0 {
        assert(s[0] == q);
        assert(s.drop_first() =~= t);
        assert(cur + w =~= cur);
    } else {
        assert(s[0] == w[0]);
        assert(s.drop_first() =~= w.drop_first() + seq![q] + t);
        lemma_quoted_run(cur.push(w[0]), q, w.drop_first(), t);
        assert(cur.push(w[0]) + w.drop_first() =~= cur + w);
    }
}

/// Quoting: a line that is one quoted text, opened and closed by the same
/// quote character (`'` or `"`), is one argument, the text exactly, however
/// many spaces or quotes of the other kind it holds.
pub proof fn lemma_quoted_argument(q: char, w: Seq<char>, clipboard: Seq<char>)
    requires
        q == '\'' || q == '"',
        forall|i: int| 0 <= i < w.len() ==> #[trigger] w[i] != q,
    ensures
        args_from(seq![], false, None, seq![q] + w + seq![q]) == seq![w],
        parse_args_spec(seq![q] + w + seq![q], clipboard) == seq![
            replace_spec(w, CLIPBOARD_PLACEHOLDER@, clipboard),
        ],
{
    let line = seq![q] + w + seq![q];
    assert(line[0] == q);
    assert(line.drop_first() =~= w + seq![q] + Seq::<char>::empty());
    lemma_quoted_run(seq![], q, w, Seq::<char>::empty());
    assert(seq![] + w =~= w);
    assert(args_from(seq![], false, None, line) == seq![w]);
    assert(parse_args_spec(line, clipboard) =~= seq![replace_spec(w, CLIPBOARD_PLACEHOLDER@, clipboard)]);
}

/// Replacing a pattern by itself changes nothing.
pub proof fn lemma_replace_self(s: Seq<char>, p: Seq<char>)
    ensures
        replace_spec(s, p, p) == s,
    decreases s.len(),
{
    if p.len() == 0 || s.len() == 0 {
    } else if starts_with(s, p) {
        lemma_replace_self(s.skip(p.len() as int), p);
        assert(p + s.skip(p.len() as int) =~= s);
    } else {
        lemma_replace_self(s.drop_first(), p);
        assert(seq![s[0]] + s.drop_first() =~= s);
    }
}

/// Split first, substitute after: the arguments of a line are those it has
/// with the placeholder left in, each with the placeholder then replaced by
/// the clipboard text; so no clipboard text, whatever spaces or quotes it
/// holds, adds or splits an argument.
pub proof fn lemma_split_then_substitute(args: Seq<char>, clipboard: Seq<char>)
    ensures
        parse_args_spec(args, clipboard) == parse_args_spec(args, CLIPBOARD_PLACEHOLDER@).map_values(
            |a: Seq<char>| replace_spec(a, CLIPBOARD_PLACEHOLDER@, clipboard),
        ),
        parse_args_spec(args, clipboard).len() == parse_args_spec(args, seq![]).len(),
{
    let raw = args_from(seq![], false, None, args);
    let ph = CLIPBOARD_PLACEHOLDER@;
    let with_ph = parse_args_spec(args, ph);
    assert forall|i: int| 0 <= i < raw.len() implies #[trigger] with_ph[i] == raw[i] by {
        lemma_replace_self(raw[i], ph);
    }
    assert(with_ph =~= raw);
    assert(parse_args_spec(args, clipboard) =~= with_ph.map_values(
        |a: Seq<char>| replace_spec(a, ph, clipboard),
    ));
}

/// Splits an argument line (see `args_from`) and substitutes the clipboard
/// placeholder in each argument; a substituted text stays one argument.
pub fn parse_args(args: &str, clipboard: &str) -> (r: Vec<String>)
    ensures
        r@.map_values(|s: String| s@) == parse_args_spec(args@, clipboard@),
{
    let v = chars_of(args);
    let mut raw: Vec<Vec<char>> = Vec::new();
    let mut cur: Vec<char> = Vec::new();
    let mut in_arg = false;
    let mut quote: Option<char> = None;
    let mut i: usize = 0;
    assert(v@.skip(0) =~= v@);
    assert(raw@.map_values(|a: Vec<char>| a@) =~= Seq::<Seq<char>>::empty());
    while i < v.len()
        invariant
            i <= v.len(),
            args_from(seq![], false, None, v@) == raw@.map_values(|a: Vec<char>| a@) + args_from(
                cur@,
                in_arg,
                quote,
                v@.skip(i as int),
            ),
        decreases v.len() - i,
    {
        let c = v[i];
        assert(v@.skip(i as int)[0] == c);
        assert(v@.skip(i as int).drop_first() =~= v@.skip(i + 1));
        match quote {
            Some(q) => {
                if c == q {
                    quote = None;
                } else {
                    cur.push(c);
                }
            },
            None => {
                if c == '\'' || c == '"' {
                    quote = Some(c);
                    in_arg = true;
                } else if is_whitespace(c) {
                    if in_arg {
                        let ghost b = raw@.map_values(|a: Vec<char>| a@);
                        let ghost w = cur@;
                        raw.push(cur);
                        assert(raw@.map_values(|a: Vec<char>| a@) =~= b.push(w));
                        cur = Vec::new();
                        assert(cur@ =~= Seq::<char>::empty());
                        assert(b + (seq![w] + args_from(seq![], false, None, v@.skip(i + 1)))
                            =~= b.push(w) + args_from(seq![], false, None, v@.skip(i + 1)));
                        in_arg = false;
                    }
                } else {
                    cur.push(c);
                    in_arg = true;
                }
            },
        }
        i += 1;
    }
    if in_arg {
        let ghost b = raw@.map_values(|a: Vec<char>| a@);
        let ghost w = cur@;
        raw.push(cur);
        assert(raw@.map_values(|a: Vec<char>| a@) =~= b.push(w));
    }
    assert(args_from(seq![], false, None, v@) =~= raw@.map_values(|a: Vec<char>| a@));
    let ghost rv = raw@.map_values(|a: Vec<char>| a@);
    let placeholder = chars_of(CLIPBOARD_PLACEHOLDER);
    let clip = chars_of(clipboard);
    proof {
        reveal_strlit("{clipboard}");
    }
    let mut out: Vec<String> = Vec::new();
    let mut k: usize = 0;
    while k < raw.len()
        invariant
            k <= raw.len(),
            rv == raw@.map_values(|a: Vec<char>| a@),
            placeholder@ == CLIPBOARD_PLACEHOLDER@,
            placeholder@.len() > 0,
            clip@ == clipboard@,
            out@.map_values(|s: String| s@) == rv.take(k as int).map_values(
                |a: Seq<char>| replace_spec(a, CLIPBOARD_PLACEHOLDER@, clipboard@),
            ),
        decreases raw.len() - k,
    {
        let ghost b = out@.map_values(|s: String| s@);
        let rep = replace_exec(&raw[k], &placeholder, &clip);
        let s = string_of(&rep);
        out.push(s);
        assert(out@.map_values(|s: String| s@) =~= b.push(rep@));
        assert(rv.take(k + 1).map_values(
            |a: Seq<char>| replace_spec(a, CLIPBOARD_PLACEHOLDER@, clipboard@),
        ) =~= rv.take(k as int).map_values(
            |a: Seq<char>| replace_spec(a, CLIPBOARD_PLACEHOLDER@, clipboard@),
        ).push(replace_spec(rv[k as int], CLIPBOARD_PLACEHOLDER@, clipboard@)));
        k += 1;
    }
    assert(rv.take(k as int) =~= rv);
    out
}

/// What is to be launched for a command: the program, its arguments, the
/// working directory (none for the current one) and the text for stdin
/// (none when stdin is closed).
#[derive(Clone, Debug)]
pub struct CommandPlan {
    pub program: String,
    pub args: Vec<String>,
    pub working_dir: Option<String>,
    pub stdin: Option<String>,
}

/// The message for a command whose path is blank.
pub open spec fn empty_path_message() -> Seq<char> {
    "Command path is empty"@
}

/// Plans a command run on the clipboard text: an error when the path is
/// blank; otherwise the path and a non-blank working directory with the
/// placeholder substituted, the parsed arguments, and the clipboard as stdin
/// when the command asks for it.
pub fn plan_command(cmd: &ExecCommand, clipboard: &str) -> (r: Result<CommandPlan, String>)
    ensures
        trim(cmd.path@).len() == 0 <==> r is Err,
        r matches Err(e) ==> e@ == empty_path_message(),
        r matches Ok(p) ==> {
            &&& p.program@ == replace_spec(cmd.path@, CLIPBOARD_PLACEHOLDER@, clipboard@)
            &&& p.args@.map_values(|s: String| s@) == parse_args_spec(cmd.args@, clipboard@)
            &&& (trim(cmd.working_dir@).len() == 0 ==> p.working_dir is None)
            &&& (trim(cmd.working_dir@).len() > 0 ==> (p.working_dir is Some
                && p.working_dir->0@ == replace_spec(
                cmd.working_dir@,
                CLIPBOARD_PLACEHOLDER@,
                clipboard@,
            )))
            &&& (cmd.pipe_stdin ==> (p.stdin is Some && p.stdin->0@ == clipboard@))
            &&& (!cmd.pipe_stdin ==> p.stdin is None)
        },
{
    let path_v = chars_of(cmd.path.as_str());
    if trim_chars(&path_v).len() == 0 {
        return Err(String::from_str("Command path is empty"));
    }
    proof {
        reveal_strlit("{clipboard}");
    }
    let placeholder = chars_of(CLIPBOARD_PLACEHOLDER);
    let clip = chars_of(clipboard);
    let program = string_of(&replace_exec(&path_v, &placeholder, &clip));
    let args = parse_args(cmd.args.as_str(), clipboard);
    let wd_v = chars_of(cmd.working_dir.as_str());
    let working_dir = if trim_chars(&wd_v).len() == 0 {
        None
    } else {
        Some(string_of(&replace_exec(&wd_v, &placeholder, &clip)))
    };
    let stdin = if cmd.pipe_stdin {
        Some(String::from_str(clipboard))
    } else {
        None
    };
    Ok(CommandPlan { program, args, working_dir, stdin })
}

} // verus!
