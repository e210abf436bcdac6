use vstd::prelude::*;
use crate::text::chars_of;

verus! {

/// What the command line asks for.
pub struct Command {
    pub input: String,
    pub output: Option<String>,
    pub no_color: bool,
}

pub open spec fn opt_view(o: Option<String>) -> Option<Seq<char>> {
    match o {
        Some(s) => Some(s@),
        None => None,
    }
}

/// The effect of the single-letter flags in `arg[k..]` (after a leading
/// `-`): `c` turns colors off, `h` asks for help, `V` for the version, and
/// every other character is ignored.
pub open spec fn short_flags(arg: Seq<char>, k: nat, no_color: bool) -> Result<bool, Seq<char>>
    decreases arg.len() - k,
{
    if k >= arg.len() {
        Ok(no_color)
    } else if arg[k as int] == 'c' {
        short_flags(arg, k + 1, true)
    } else if arg[k as int] == 'h' {
        Err("print help"@)
    } else if arg[k as int] == 'V' {
        Err("print version"@)
    } else {
        short_flags(arg, k + 1, no_color)
    }
}

/// Reads the arguments from index `i` on, with what was read so far:
/// `Ok((input, output, no_color))`, or the error message.
pub open spec fn command_from(
    a: Seq<Seq<char>>,
    i: nat,
    input: Option<Seq<char>>,
    output: Option<Seq<char>>,
    no_color: bool,
) -> Result<(Seq<char>, Option<Seq<char>>, bool), Seq<char>>
    decreases a.len() - i,
{
    if i >= a.len() {
        match input {
            None => Err("Expected input path"@),
            Some(inp) => Ok((inp, output, no_color)),
        }
    } else {
        let arg = a[i as int];
        if arg == "--output"@ || arg == "-o"@ {
            if i + 1 < a.len() && output is None {
                command_from(a, i + 2, input, Some(a[i + 1int]), no_color)
            } else if output is Some {
                Err("Output path already defined"@)
            } else {
                Err("Expected output path after `"@ + arg + "` argument"@)
            }
        } else if arg == "--no-color"@ {
            command_from(a, i + 1, input, output, true)
        } else if arg.len() > 0 && arg[0] == '-' {
            match short_flags(arg, 1, no_color) {
                Err(m) => Err(m),
                Ok(nc) => command_from(a, i + 1, input, output, nc),
            }
        } else if arg == "--help"@ {
            Err("print help"@)
        } else if arg == "--version"@ {
            Err("print version"@)
        } else if input is None {
            command_from(a, i + 1, Some(arg), output, no_color)
        } else {
            Err("Input path already defined"@)
        }
    }
}

/// The views of a list of strings.
pub open spec fn views(args: Seq<String>) -> Seq<Seq<char>> {
    args.map_values(|s: String| s@)
}

/// Whether two character vectors hold the same characters.
fn same_chars(a: &Vec<char>, b: &Vec<char>) -> (r: bool)
    ensures
        r == (a@ == b@),
{
    if a.len() != b.len() {
        return false;
    }
    let mut k: usize = 0;
    while k < a.len()
        invariant
            a@.len() == b@.len(),
            k <= a@.len(),
            forall|q: int| 0 <= q < k ==> a@[q] == b@[q],
        decreases a@.len() - k,
    {
        if a[k] != b[k] {
            return false;
        }
        k = k + 1;
    }
    assert(a@ =~= b@);
    true
}

/// Whether the characters `arg` spell the text `lit`.
fn spells(arg: &Vec<char>, lit: &str) -> (r: bool)
    ensures
        r == (arg@ == lit@),
{
    let l = chars_of(lit);
    same_chars(arg, &l)
}

/// The effect of the single-letter flags of `arg` from index `k` on.
fn scan_short_flags(arg: &Vec<char>, k: usize, no_color: bool) -> (r: Result<bool, String>)
    requires
        k <= arg@.len(),
    ensures
        match (r, short_flags(arg@, k as nat, no_color)) {
            (Ok(a), Ok(b)) => a == b,
            (Err(a), Err(b)) => a@ == b,
            _ => false,
        },
{
    let mut q = k;
    let mut nc = no_color;
    while q < arg.len()
        invariant
            k <= q <= arg@.len(),
            short_flags(arg@, q as nat, nc) == short_flags(arg@, k as nat, no_color),
        decreases arg@.len() - q,
    {
        let ch = arg[q];
        if ch == 'c' {
            nc = true;
        } else if ch == 'h' {
            return Err(String::from_str("print help"));
        } else if ch == 'V' {
            return Err(String::from_str("print version"));
        }
        q = q + 1;
    }
    Ok(nc)
}

/// Reads the command line `args`, whose first item is the program's name:
/// the input path, the output path (`--output` or `-o`, at most once), and
/// whether colors are off (`--no-color`, or `c` among short flags). A
/// request for help or the version comes back as the error `print help` or
/// `print version`.
pub fn parse_command(args: Vec<String>) -> (res: Result<Command, String>)
    ensures
        match command_from(views(args@), 1, None, None, false) {
            Ok((inp, out, nc)) => res matches Ok(c) && c.input@ == inp && opt_view(c.output) == out
                && c.no_color == nc,
            Err(m) => res matches Err(e) && e@ == m,
        },
{
    let ghost a = views(args@);
    let mut input: Option<String> = None;
    let mut output: Option<String> = None;
    let mut no_color = false;
    let mut i: usize = 1;
    while i < args.len()
        invariant
            a == views(args@),
            a.len() == args@.len(),
            1 <= i,
            command_from(a, i as nat, opt_view(input), opt_view(output), no_color) == command_from(a, 1, None, None, false),
        decreases args@.len() - i,
    {
        let arg = args[i].clone();
        let cs = chars_of(arg.as_str());
        assert(cs@ == a[i as int]);
        if spells(&cs, "--output") || spells(&cs, "-o") {
            if i + 1 < args.len() && output.is_none() {
                output = Some(args[i + 1].clone());
                i = i + 2;
            } else if output.is_some() {
                return Err(String::from_str("Output path already defined"));
            } else {
                let mut msg = String::from_str("Expected output path after `");
                msg.append(arg.as_str());
                msg.append("` argument");
                return Err(msg);
            }
        } else if spells(&cs, "--no-color") {
            no_color = true;
            i = i + 1;
        } else if cs.len() > 0 && cs[0] == '-' {
            match scan_short_flags(&cs, 1, no_color) {
                Err(m) => {
                    return Err(m);
                },
                Ok(nc) => {
                    no_color = nc;
                    i = i + 1;
                },
            }
        } else if spells(&cs, "--help") {
            return Err(String::from_str("print help"));
        } else if spells(&cs, "--version") {
            return Err(String::from_str("print version"));
        } else if input.is_none() {
            input = Some(arg);
            i = i + 1;
        } else {
            return Err(String::from_str("Input path already defined"));
        }
    }
    match input {
        None => Err(String::from_str("Expected input path")),
        Some(inp) => Ok(Command { input: inp, output, no_color }),
    }
}

} // verus!
