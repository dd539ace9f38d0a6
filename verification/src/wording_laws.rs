//! What users and callers are told: the words for errors, the numbers for outcomes, and what a command line
//! means.

use crate::carrier::{technique_label, CarrierFormat, Technique};
use crate::cli::{command_word, count_fault, explanation, no_options, options, passphrase_of, Command, Options};
use crate::codes::{c_text, detail_text, format_number, status, technique_number, verdict_number};
use crate::error::{fault_text, Fault, IoErrorKind, IoFault};
use crate::ops::{hex, hex_digit, temporary, Verdict};
use crate::text::{decimal, decimal_text, padded};
use vstd::prelude::*;

verus! {

/// The words for each error.
pub proof fn errors_have_their_words(fault: Fault, text: Seq<char>, n: nat, limit: nat, kind: IoErrorKind)
    ensures
        fault_text(Fault::WrongPassphrase) == "wrong passphrase"@,
        fault_text(Fault::NoHiddenData { carrier_looks_reencoded: true })
            == "no hidden data found (carrier looks re-encoded: true)"@,
        fault_text(Fault::NoHiddenData { carrier_looks_reencoded: false })
            == "no hidden data found (carrier looks re-encoded: false)"@,
        fault_text(Fault::DamagedPayload) == "the hidden data is damaged or incomplete"@,
        fault_text(Fault::UnsupportedFormat { detected: text }) == "unsupported carrier format: "@ + text,
        fault_text(
            Fault::PayloadTooLarge { output_size: n, limit, suggestion: CarrierFormat::Mp4 },
        ) == "the result would be "@ + decimal_text(n) + " bytes, over the "@ + decimal_text(limit)
            + "-byte limit for this carrier; use a "@ + "MP4"@ + " carrier instead"@,
        fault_text(Fault::CarrierTooSmall) == "carrier file is too small or truncated"@,
        fault_text(Fault::MalformedContainer { format: "MP4"@, detail: text }) == "malformed "@ + "MP4"@
            + " container: "@ + text,
        fault_text(Fault::CorruptBundle(text)) == "payload bundle is corrupt: "@ + text,
        fault_text(Fault::InvalidRequest(text)) == "invalid request: "@ + text,
        fault_text(Fault::Cancelled) == "operation cancelled"@,
        fault_text(Fault::Io { kind, cause: IoFault::Message(text) }) == "io error: "@ + text,
        fault_text(Fault::Io { kind, cause: IoFault::Wrapped(Box::new(fault)) }) == "io error: "@ + fault_text(
            fault,
        ),
{
    reveal_with_fuel(fault_text, 2);
    reveal_with_fuel(crate::error::io_fault_text, 2);
}

/// On the command line, a wrong passphrase, nothing to find, damage and an output that is too large are told
/// apart and explained; everything else is said in the words of the error.
pub proof fn errors_are_explained(fault: Fault, output: Seq<char>, limit: Seq<char>, size: nat, max: nat)
    ensures
        explanation(Fault::WrongPassphrase, output, limit) == "wrong passphrase"@,
        explanation(Fault::NoHiddenData { carrier_looks_reencoded: false }, output, limit)
            == "nothing hidden in this file"@,
        explanation(Fault::NoHiddenData { carrier_looks_reencoded: true }, output, limit)
            == "nothing hidden in this file. It looks re-encoded: if it was sent as a photo, the hidden content was stripped in transit. Ask for it as a file or a .zip."@,
        explanation(Fault::DamagedPayload, output, limit)
            == "the passphrase is right, but the hidden data is damaged or incomplete (was the file cut short in transfer?)"@,
        explanation(
            Fault::PayloadTooLarge { output_size: size, limit: max, suggestion: CarrierFormat::Mp4 },
            output,
            limit,
        ) == "too big to hide in this file: the result would be "@ + output + " (the limit is "@ + limit
            + "), and a file that size may not open at all. Hide it in a video ("@ + "MP4"@ + ") instead."@,
        fault !is WrongPassphrase && fault !is NoHiddenData && fault !is DamagedPayload
            && fault !is PayloadTooLarge ==> explanation(fault, output, limit) == fault_text(fault),
{
}

/// The status that a caller in C sees for each error.
pub proof fn errors_have_their_numbers(fault: Fault)
    ensures
        status(fault) == (match fault {
            Fault::WrongPassphrase => 1i32,
            Fault::NoHiddenData { .. } => 2i32,
            Fault::DamagedPayload => 3i32,
            Fault::UnsupportedFormat { .. } => 4i32,
            Fault::PayloadTooLarge { .. } => 5i32,
            Fault::CarrierTooSmall => 6i32,
            Fault::MalformedContainer { .. } => 7i32,
            Fault::CorruptBundle(_) => 8i32,
            Fault::InvalidRequest(_) => 9i32,
            Fault::Cancelled => 10i32,
            Fault::Io { .. } => 11i32,
        }),
        fault is WrongPassphrase || fault is NoHiddenData || fault is DamagedPayload || fault is CarrierTooSmall
            || fault is Cancelled ==> detail_text(fault) is None,
        fault matches Fault::UnsupportedFormat { detected } ==> detail_text(fault) == c_text(detected),
        fault is PayloadTooLarge || fault is MalformedContainer || fault is CorruptBundle
            || fault is InvalidRequest || fault is Io ==> detail_text(fault) == c_text(fault_text(fault)),
{
}

/// A message goes to C unless it holds a NUL character.
pub proof fn messages_without_nul_reach_c(text: Seq<char>)
    ensures
        (forall|i: int| 0 <= i < text.len() ==> #[trigger] text[i] != '\0') ==> c_text(text) == Some(text),
        (exists|i: int| 0 <= i < text.len() && #[trigger] text[i] == '\0') ==> c_text(text) is None,
{
}

/// The numbers that stand for formats, techniques and verdicts.
pub proof fn choices_have_their_numbers(format: CarrierFormat, technique: Technique, verdict: Verdict)
    ensures
        format_number(format) == (match format {
            CarrierFormat::Jpeg => 0u8,
            CarrierFormat::Mp4 => 1u8,
            CarrierFormat::Pdf => 2u8,
            CarrierFormat::Mp3 => 3u8,
        }),
        technique_number(technique) == (match technique {
            Technique::Auto => 0u8,
            Technique::JpegTrailer => 1u8,
            Technique::JpegApp15 => 2u8,
            Technique::Mp4FreeBox => 3u8,
            Technique::PdfObject => 4u8,
            Technique::Mp3Id3 => 5u8,
        }),
        verdict_number(verdict) == (match verdict {
            Verdict::Natural => 0u8,
            Verdict::Noticeable => 1u8,
            Verdict::Suspicious => 2u8,
            Verdict::TooLarge => 3u8,
        }),
{
}

/// Arguments that do not begin with two dashes are kept in order, and are no options.
pub proof fn plain_arguments_are_kept(args: Seq<Seq<char>>, i: nat, so_far: Options)
    requires
        i <= args.len(),
        forall|k: int|
            i <= k < args.len() ==> (#[trigger] args[k]).len() < 2 || args[k][0] != '-' || args[k][1] != '-',
    ensures
        options(args, i, so_far) == Ok::<Options, Seq<char>>(
            Options { positional: so_far.positional + args.skip(i as int), ..so_far },
        ),
    decreases args.len() - i,
{
    let rest = args.skip(i as int);
    reveal_strlit("--pass");
    reveal_strlit("--technique");
    if i < args.len() {
        let arg = args[i as int];
        assert(arg.len() < 2 || arg[0] != '-' || arg[1] != '-');
        plain_arguments_are_kept(
            args,
            i + 1,
            Options { positional: so_far.positional.push(arg), ..so_far },
        );
        assert(so_far.positional.push(arg) + args.skip(i as int + 1) =~= so_far.positional + rest);
    } else {
        assert(so_far.positional + rest =~= so_far.positional);
    }
}

/// `--pass` and `--technique` take the argument behind them, which is no argument of its own then; without
/// one they are refused, and so is any other option.
pub proof fn options_take_their_values(args: Seq<Seq<char>>, i: nat, so_far: Options)
    requires
        i < args.len(),
    ensures
        args[i as int] == seq!['-', '-', 'p', 'a', 's', 's'] ==> options(args, i, so_far) == (if i + 1 < args.len() {
            options(args, i + 2, Options { pass: Some(args[i as int + 1]), ..so_far })
        } else {
            Err("--pass needs a value"@)
        }),
        args[i as int] == seq!['-', '-', 't', 'e', 'c', 'h', 'n', 'i', 'q', 'u', 'e'] ==> options(args, i, so_far)
            == (if i + 1 < args.len() {
            options(args, i + 2, Options { technique: Some(args[i as int + 1]), ..so_far })
        } else {
            Err("--technique needs a value"@)
        }),
        args[i as int] != seq!['-', '-', 'p', 'a', 's', 's'] && args[i as int] != seq![
            '-',
            '-',
            't',
            'e',
            'c',
            'h',
            'n',
            'i',
            'q',
            'u',
            'e',
        ] && args[i as int].len() >= 2 && args[i as int][0] == '-' && args[i as int][1] == '-' ==> options(
            args,
            i,
            so_far,
        ) == Err::<Options, Seq<char>>("unknown option "@ + args[i as int]),
        no_options().pass is None && no_options().technique is None && no_options().positional.len() == 0,
{
    reveal_strlit("--pass");
    reveal_strlit("--technique");
    let pass = seq!['-', '-', 'p', 'a', 's', 's'];
    let technique = seq!['-', '-', 't', 'e', 'c', 'h', 'n', 'i', 'q', 'u', 'e'];
    assert("--pass"@ =~= pass);
    assert("--technique"@ =~= technique);
    assert(pass.len() != technique.len());
}

/// The passphrase is the option's, or the environment's where there is no option, and never empty.
pub proof fn passphrases_are_not_empty(pass: Seq<char>, environment: Option<Seq<char>>, other: Seq<char>)
    ensures
        pass.len() > 0 ==> passphrase_of(Some(pass), environment) == Some(pass),
        pass.len() == 0 ==> passphrase_of(Some(pass), environment) is None,
        other.len() > 0 ==> passphrase_of(None, Some(other)) == Some(other),
        other.len() == 0 ==> passphrase_of(None, Some(other)) is None,
        passphrase_of(None, None) is None,
{
}

/// How many arguments each command takes.
pub proof fn commands_count_their_arguments(n: nat)
    ensures
        count_fault(Command::Hide, n) is None <==> n >= 3,
        count_fault(Command::Reveal, n) is None <==> n == 2,
        count_fault(Command::Clean, n) is None <==> n == 2,
        count_fault(Command::Probe, n) is None <==> n == 1,
        n < 2 ==> count_fault(Command::Hide, n) == Some("hide needs <carrier> <output> <payload...>"@),
        count_fault(Command::Hide, 2) == Some("hide needs at least one payload file"@),
        n != 2 ==> count_fault(Command::Reveal, n) == Some("reveal needs <carrier> <output-dir>"@),
        n != 2 ==> count_fault(Command::Clean, n) == Some("clean needs <carrier> <output>"@),
        n != 1 ==> count_fault(Command::Probe, n) == Some("probe needs <carrier>"@),
{
}

/// The names of formats, techniques and commands.
pub proof fn choices_have_their_names(format: CarrierFormat, technique: Technique, command: Command)
    ensures
        format.label() == (match format {
            CarrierFormat::Jpeg => "JPEG"@,
            CarrierFormat::Mp4 => "MP4"@,
            CarrierFormat::Pdf => "PDF"@,
            CarrierFormat::Mp3 => "MP3"@,
        }),
        technique_label(technique) == (match technique {
            Technique::Auto => "Auto"@,
            Technique::JpegTrailer => "JpegTrailer"@,
            Technique::JpegApp15 => "JpegApp15"@,
            Technique::Mp4FreeBox => "Mp4FreeBox"@,
            Technique::PdfObject => "PdfObject"@,
            Technique::Mp3Id3 => "Mp3Id3"@,
        }),
        command_word(command) == (match command {
            Command::Hide => "hide"@,
            Command::Reveal => "reveal"@,
            Command::Clean => "clean"@,
            Command::Probe => "probe"@,
        }),
{
}

/// The sixteen digits.
pub open spec fn sixteen() -> Seq<char> {
    seq!['0', '1', '2', '3', '4', '5', '6', '7', '8', '9', 'a', 'b', 'c', 'd', 'e', 'f']
}

proof fn lemma_hex_digit(n: u8)
    requires
        n < 16,
    ensures
        hex_digit(n) == sixteen()[n as int],
{
}

/// Bytes are written as two hexadecimal digits each, the higher one first, and in order. A temporary name is
/// a dot, the prefix, these digits and `.tmp`.
pub proof fn temporary_names_are_hexadecimal(prefix: Seq<char>, bytes: Seq<u8>)
    ensures
        hex(bytes).len() == 2 * bytes.len(),
        forall|i: int|
            0 <= i < bytes.len() ==> hex(bytes)[2 * i] == sixteen()[(#[trigger] bytes[i]) as int / 16] && hex(
                bytes,
            )[2 * i + 1] == sixteen()[bytes[i] as int % 16],
        temporary(prefix, bytes) == seq!['.'] + prefix + hex(bytes) + seq!['.', 't', 'm', 'p'],
    decreases bytes.len(),
{
    reveal_strlit(".");
    reveal_strlit(".tmp");
    assert("."@ =~= seq!['.']);
    assert(".tmp"@ =~= seq!['.', 't', 'm', 'p']);
    if bytes.len() > 0 {
        let less = bytes.drop_last();
        temporary_names_are_hexadecimal(prefix, less);
        lemma_hex_digit(bytes.last() / 16);
        lemma_hex_digit(bytes.last() % 16);
        assert forall|i: int| 0 <= i < bytes.len() implies hex(bytes)[2 * i] == sixteen()[(
        #[trigger] bytes[i]) as int / 16] && hex(bytes)[2 * i + 1] == sixteen()[bytes[i] as int % 16] by {
            if i < less.len() {
                assert(less[i] == bytes[i]);
            }
        }
    }
}

/// Numbers are written in decimal, without zeros before them unless they are filled up to a width.
pub proof fn numbers_are_decimal(n: nat, d: nat, width: nat)
    requires
        d < 10,
    ensures
        decimal(d) == seq![(0x30 + d) as u8],
        n > 0 ==> decimal(10 * n + d) == decimal(n) + seq![(0x30 + d) as u8],
        decimal_text(n).len() == decimal(n).len(),
        forall|i: int| 0 <= i < decimal(n).len() ==> #[trigger] decimal_text(n)[i] == decimal(n)[i] as char,
        decimal(n).len() <= width ==> padded(n, width).len() == width && padded(n, width).skip(
            width - decimal(n).len(),
        ) == decimal(n),
        forall|i: int|
            0 <= i < width - decimal(n).len() ==> #[trigger] padded(n, width)[i] == 0x30,
{
    if n > 0 {
        let m = 10 * n + d;
        assert(m / 10 == n && m % 10 == d);
        assert(decimal(m) =~= decimal(n) + seq![(0x30 + d) as u8]);
    }
    if decimal(n).len() <= width {
        assert(padded(n, width).skip(width - decimal(n).len()) =~= decimal(n));
    }
}

} // verus!
