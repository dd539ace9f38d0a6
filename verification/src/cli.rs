//! What the command line means: options, commands and the wording of errors.

use crate::carrier::Technique;
use crate::error::{fault_text, Fault, ZolalError};
use crate::payload::bundle::texts;
use crate::text::same_text;
use vstd::prelude::*;

verus! {

/// What follows the command.
#[derive(Debug)]
pub struct Args {
    /// What is no option.
    pub positional: Vec<String>,
    /// The value of `--pass`.
    pub pass: Option<String>,
    /// The value of `--technique`.
    pub technique: Option<String>,
}

/// [`Args`] as contracts speak of them.
pub ghost struct Options {
    /// What is no option.
    pub positional: Seq<Seq<char>>,
    /// The value of `--pass`.
    pub pass: Option<Seq<char>>,
    /// The value of `--technique`.
    pub technique: Option<Seq<char>>,
}

/// The characters of a text, if there is one.
pub open spec fn text_of(text: Option<String>) -> Option<Seq<char>> {
    match text {
        Some(t) => Some(t@),
        None => None,
    }
}

impl View for Args {
    type V = Options;

    open spec fn view(&self) -> Options {
        Options {
            positional: texts(self.positional@),
            pass: text_of(self.pass),
            technique: text_of(self.technique),
        }
    }
}

/// Whether an argument is meant as an option.
pub open spec fn is_flag(arg: Seq<char>) -> bool {
    arg.len() >= 2 && arg[0] == '-' && arg[1] == '-'
}

/// What the arguments from the `i`th on add to `so_far`, or what is wrong with them.
pub open spec fn options(args: Seq<Seq<char>>, i: nat, so_far: Options) -> Result<Options, Seq<char>>
    decreases args.len() - i,
{
    if i >= args.len() {
        Ok(so_far)
    } else {
        let arg = args[i as int];
        if arg == "--pass"@ {
            if i + 1 >= args.len() {
                Err("--pass needs a value"@)
            } else {
                options(args, i + 2, Options { pass: Some(args[i as int + 1]), ..so_far })
            }
        } else if arg == "--technique"@ {
            if i + 1 >= args.len() {
                Err("--technique needs a value"@)
            } else {
                options(args, i + 2, Options { technique: Some(args[i as int + 1]), ..so_far })
            }
        } else if is_flag(arg) {
            Err("unknown option "@ + arg)
        } else {
            options(args, i + 1, Options { positional: so_far.positional.push(arg), ..so_far })
        }
    }
}

/// No options at all.
pub open spec fn no_options() -> Options {
    Options { positional: Seq::empty(), pass: None, technique: None }
}

fn begins_flag(arg: &str) -> (r: bool)
    ensures
        r == is_flag(arg@),
{
    arg.unicode_len() >= 2 && arg.get_char(0) == '-' && arg.get_char(1) == '-'
}

/// Read the arguments after the command. The error is what to tell the user.
pub fn parse(args: &Vec<String>) -> (r: Result<Args, String>)
    ensures
        match r {
            Ok(out) => options(texts(args@), 0, no_options()) == Ok::<Options, Seq<char>>(out@),
            Err(text) => options(texts(args@), 0, no_options()) == Err::<Options, Seq<char>>(text@),
        },
{
    let ghost all = texts(args@);
    let ghost whole = options(all, 0, no_options());
    let mut out = Args { positional: Vec::new(), pass: None, technique: None };
    assert(out@.positional =~= no_options().positional);
    let mut i: usize = 0;
    while i < args.len()
        invariant
            i <= args@.len(),
            all == texts(args@),
            whole == options(all, 0, no_options()),
            whole == options(all, i as nat, out@),
        decreases args@.len() - i,
    {
        let arg = args[i].as_str();
        assert(all[i as int] == arg@);
        let ghost before = out@;
        if same_text(arg, "--pass") {
            if args.len() - i < 2 {
                return Err("--pass needs a value".to_owned());
            }
            out.pass = Some(args[i + 1].as_str().to_owned());
            assert(all[i + 1] == args@[i + 1]@);
            assert(out@ == Options { pass: Some(all[i + 1]), ..before });
            i = i + 2;
        } else if same_text(arg, "--technique") {
            if args.len() - i < 2 {
                return Err("--technique needs a value".to_owned());
            }
            out.technique = Some(args[i + 1].as_str().to_owned());
            assert(all[i + 1] == args@[i + 1]@);
            assert(out@ == Options { technique: Some(all[i + 1]), ..before });
            i = i + 2;
        } else if begins_flag(arg) {
            let mut text = "unknown option ".to_owned();
            text.append(arg);
            return Err(text);
        } else {
            out.positional.push(arg.to_owned());
            assert(out@.positional =~= before.positional.push(arg@));
            i = i + 1;
        }
    }
    Ok(out)
}

/// The passphrase to use: the option's, or else the environment's, unless that is empty.
pub open spec fn passphrase_of(pass: Option<Seq<char>>, environment: Option<Seq<char>>) -> Option<Seq<char>> {
    let chosen = if pass is Some {
        pass
    } else {
        environment
    };
    match chosen {
        Some(text) => if text.len() > 0 {
            Some(text)
        } else {
            None
        },
        None => None,
    }
}

/// The passphrase to use. The error is what to tell the user.
pub fn passphrase(pass: Option<String>, environment: Option<String>) -> (r: Result<String, String>)
    ensures
        match r {
            Ok(text) => passphrase_of(text_of(pass), text_of(environment)) == Some(text@),
            Err(text) => {
                &&& passphrase_of(text_of(pass), text_of(environment)) is None
                &&& text@ == "a passphrase is required (--pass or ZOLAL_PASS)"@
            },
        },
{
    let chosen = match pass {
        Some(text) => Some(text),
        None => environment,
    };
    match chosen {
        Some(text) => if text.as_str().unicode_len() > 0 {
            Ok(text)
        } else {
            Err("a passphrase is required (--pass or ZOLAL_PASS)".to_owned())
        },
        None => Err("a passphrase is required (--pass or ZOLAL_PASS)".to_owned()),
    }
}

/// The technique that `--technique` names. The error is what to tell the user.
pub fn technique_named(name: &Option<String>) -> (r: Result<Technique, String>)
    ensures
        match *name {
            None => r == Ok::<Technique, String>(Technique::Auto),
            Some(text) => if text@ == "trailer"@ {
                r == Ok::<Technique, String>(Technique::JpegTrailer)
            } else if text@ == "app15"@ {
                r == Ok::<Technique, String>(Technique::JpegApp15)
            } else {
                r matches Err(message) && message@ == "unknown technique "@ + text@
            },
        },
{
    match name {
        None => Ok(Technique::Auto),
        Some(text) => if same_text(text.as_str(), "trailer") {
            Ok(Technique::JpegTrailer)
        } else if same_text(text.as_str(), "app15") {
            Ok(Technique::JpegApp15)
        } else {
            let mut message = "unknown technique ".to_owned();
            message.append(text.as_str());
            Err(message)
        },
    }
}

/// What the command line can ask for.
#[derive(Debug, Clone, Copy, PartialEq, Eq, Structural)]
pub enum Command {
    /// Hide one or more files inside a carrier.
    Hide,
    /// Recover the hidden files.
    Reveal,
    /// Write a copy of the carrier with its hidden files removed.
    Clean,
    /// Report the format, and whether a region that could hold data exists.
    Probe,
}

/// The word for a command.
pub open spec fn command_word(command: Command) -> Seq<char> {
    match command {
        Command::Hide => "hide"@,
        Command::Reveal => "reveal"@,
        Command::Clean => "clean"@,
        Command::Probe => "probe"@,
    }
}

/// The command that a word names.
pub fn command_named(word: &str) -> (r: Option<Command>)
    ensures
        r matches Some(command) ==> word@ == command_word(command),
        r is None ==> forall|command: Command| word@ != #[trigger] command_word(command),
{
    if same_text(word, "hide") {
        Some(Command::Hide)
    } else if same_text(word, "reveal") {
        Some(Command::Reveal)
    } else if same_text(word, "clean") {
        Some(Command::Clean)
    } else if same_text(word, "probe") {
        Some(Command::Probe)
    } else {
        None
    }
}

/// What is wrong with the number of arguments, if something is.
pub open spec fn count_fault(command: Command, n: nat) -> Option<Seq<char>> {
    match command {
        Command::Hide => if n < 2 {
            Some("hide needs <carrier> <output> <payload...>"@)
        } else if n == 2 {
            Some("hide needs at least one payload file"@)
        } else {
            None
        },
        Command::Reveal => if n != 2 {
            Some("reveal needs <carrier> <output-dir>"@)
        } else {
            None
        },
        Command::Clean => if n != 2 {
            Some("clean needs <carrier> <output>"@)
        } else {
            None
        },
        Command::Probe => if n != 1 {
            Some("probe needs <carrier>"@)
        } else {
            None
        },
    }
}

/// Check the number of arguments of a command. The error is what to tell the user.
pub fn check_count(command: Command, n: usize) -> (r: Result<(), String>)
    ensures
        match r {
            Ok(()) => count_fault(command, n as nat) is None,
            Err(text) => count_fault(command, n as nat) == Some(text@),
        },
{
    match command {
        Command::Hide => if n < 2 {
            Err("hide needs <carrier> <output> <payload...>".to_owned())
        } else if n == 2 {
            Err("hide needs at least one payload file".to_owned())
        } else {
            Ok(())
        },
        Command::Reveal => if n != 2 {
            Err("reveal needs <carrier> <output-dir>".to_owned())
        } else {
            Ok(())
        },
        Command::Clean => if n != 2 {
            Err("clean needs <carrier> <output>".to_owned())
        } else {
            Ok(())
        },
        Command::Probe => if n != 1 {
            Err("probe needs <carrier>".to_owned())
        } else {
            Ok(())
        },
    }
}

/// An error as the user should read it, with the sizes in words.
pub open spec fn explanation(fault: Fault, output: Seq<char>, limit: Seq<char>) -> Seq<char> {
    match fault {
        Fault::WrongPassphrase => "wrong passphrase"@,
        Fault::NoHiddenData { carrier_looks_reencoded } => if carrier_looks_reencoded {
            "nothing hidden in this file. It looks re-encoded: if it was sent as a photo, the hidden content was stripped in transit. Ask for it as a file or a .zip."@
        } else {
            "nothing hidden in this file"@
        },
        Fault::DamagedPayload => "the passphrase is right, but the hidden data is damaged or incomplete (was the file cut short in transfer?)"@,
        Fault::PayloadTooLarge { suggestion, .. } => {
            "too big to hide in this file: the result would be "@ + output + " (the limit is "@ + limit
                + "), and a file that size may not open at all. Hide it in a video ("@
                + suggestion.label() + ") instead."@
        },
        _ => fault_text(fault),
    }
}

/// An error as the user should read it. `output` and `limit` are the sizes of a
/// [`ZolalError::PayloadTooLarge`] in words.
pub fn explain(e: &ZolalError, output: &str, limit: &str) -> (r: String)
    ensures
        r@ == explanation(e@, output@, limit@),
{
    match e {
        ZolalError::WrongPassphrase => "wrong passphrase".to_owned(),
        ZolalError::NoHiddenData { carrier_looks_reencoded } => if *carrier_looks_reencoded {
            "nothing hidden in this file. It looks re-encoded: if it was sent as a photo, the hidden content was stripped in transit. Ask for it as a file or a .zip.".to_owned()
        } else {
            "nothing hidden in this file".to_owned()
        },
        ZolalError::DamagedPayload => {
            "the passphrase is right, but the hidden data is damaged or incomplete (was the file cut short in transfer?)".to_owned()
        },
        ZolalError::PayloadTooLarge { suggestion, .. } => {
            let mut text = "too big to hide in this file: the result would be ".to_owned();
            text.append(output);
            text.append(" (the limit is ");
            text.append(limit);
            text.append("), and a file that size may not open at all. Hide it in a video (");
            text.append(suggestion.name());
            text.append(") instead.");
            text
        },
        _ => e.message(),
    }
}

/// How far an operation has come, in hundredths, and never nothing.
pub fn percent(done: u64, total: u64) -> (r: u64)
    requires
        total > 0,
        done * 100 <= u64::MAX,
    ensures
        done * 100 >= total ==> r == done * 100 / (total as int),
        done * 100 < total ==> r == 1,
{
    let n: u64 = done * 100 / total;
    proof {
        let d = done * 100;
        let t = total as int;
        assert(d >= t ==> d / t >= 1) by (nonlinear_arith)
            requires
                t > 0,
        ;
        assert(0 <= d < t ==> d / t == 0) by (nonlinear_arith)
            requires
                t > 0,
        ;
    }
    if n > 1 {
        n
    } else {
        1
    }
}

} // verus!
