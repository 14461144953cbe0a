//! The offline administrative command `reset-platform-key`: its flags and
//! the confirmation answer it accepts.

use vstd::prelude::*;

use crate::store::hex_digit;
use crate::text::{ascii_lower_seq, ascii_lowercase, chars_of, push_all, trim, trim_chars};

verus! {

broadcast use vstd::string::group_string_axioms;

/// How the new key is printed.
#[derive(Debug, Clone, Copy, PartialEq, Eq, Structural)]
pub enum OutputFormat {
    Human,
    Json,
    Quiet,
}

/// The parsed flags.
#[derive(Debug, Clone, Copy, PartialEq, Eq, Structural)]
pub struct Options {
    /// Skip the interactive confirmation.
    pub yes: bool,
    pub format: OutputFormat,
}

/// What the flags parse to, or the error message.
pub open spec fn parse_args_spec(args: Seq<Seq<char>>) -> Result<Options, Seq<char>>
    decreases args.len(),
{
    if args.len() == 0 {
        Ok(Options { yes: false, format: OutputFormat::Human })
    } else {
        match parse_args_spec(args.drop_last()) {
            Err(e) => Err(e),
            Ok(o) => {
                let a = args.last();
                if a == "--yes"@ {
                    Ok(Options { yes: true, format: o.format })
                } else if a == "--json"@ || a == "--quiet"@ {
                    if o.format != OutputFormat::Human {
                        Err("--json and --quiet are mutually exclusive"@)
                    } else {
                        Ok(
                            Options {
                                yes: o.yes,
                                format: if a == "--json"@ {
                                    OutputFormat::Json
                                } else {
                                    OutputFormat::Quiet
                                },
                            },
                        )
                    }
                } else {
                    Err("unknown argument: "@ + a)
                }
            },
        }
    }
}

pub open spec fn arg_views(args: Seq<String>) -> Seq<Seq<char>> {
    args.map_values(|a: String| a@)
}

/// Parses the flags after the subcommand: `--yes`, and at most one of
/// `--json` and `--quiet`; anything else is an error.
pub fn parse_args(args: &[String]) -> (r: Result<Options, String>)
    ensures
        match parse_args_spec(arg_views(args@)) {
            Ok(o) => r == Ok::<Options, String>(o),
            Err(m) => r matches Err(e) && e@ == m,
        },
{
    let mut opts = Options { yes: false, format: OutputFormat::Human };
    let yes = "--yes".to_string();
    let json = "--json".to_string();
    let quiet = "--quiet".to_string();
    let mut i: usize = 0;
    while i < args.len()
        invariant
            i <= args.len(),
            yes@ == "--yes"@,
            json@ == "--json"@,
            quiet@ == "--quiet"@,
            parse_args_spec(arg_views(args@).take(i as int)) == Ok::<Options, Seq<char>>(opts),
        decreases args.len() - i,
    {
        let arg = &args[i];
        proof {
            assert(arg_views(args@).take(i + 1).drop_last() =~= arg_views(args@).take(i as int));
            assert(arg_views(args@).take(i + 1).last() == arg@);
        }
        if *arg == yes {
            opts = Options { yes: true, format: opts.format };
        } else if *arg == json || *arg == quiet {
            if opts.format != OutputFormat::Human {
                proof {
                    lemma_parse_args_error_sticks(arg_views(args@), i as int + 1);
                }
                return Err("--json and --quiet are mutually exclusive".to_string());
            }
            opts = Options {
                yes: opts.yes,
                format: if *arg == json {
                    OutputFormat::Json
                } else {
                    OutputFormat::Quiet
                },
            };
        } else {
            let mut m = "unknown argument: ".to_string();
            push_all(&mut m, &chars_of(arg.as_str()));
            proof {
                lemma_parse_args_error_sticks(arg_views(args@), i as int + 1);
            }
            return Err(m);
        }
        i = i + 1;
    }
    assert(arg_views(args@).take(args.len() as int) =~= arg_views(args@));
    Ok(opts)
}

/// Once a prefix fails, the whole argument list fails with the same message.
proof fn lemma_parse_args_error_sticks(args: Seq<Seq<char>>, k: int)
    requires
        0 <= k <= args.len(),
        parse_args_spec(args.take(k)) is Err,
    ensures
        parse_args_spec(args) == parse_args_spec(args.take(k)),
    decreases args.len() - k,
{
    if k < args.len() {
        assert(args.take(k + 1).drop_last() =~= args.take(k));
        lemma_parse_args_error_sticks(args, k + 1);
    } else {
        assert(args.take(k) =~= args);
    }
}

/// The answers that confirm the reset: `y` or `yes`, in any ASCII case,
/// surrounded by any white space.
pub open spec fn confirms(line: Seq<char>) -> bool {
    let a = ascii_lower_seq(trim(line));
    a == "y"@ || a == "yes"@
}

/// Judges the answer read after the confirmation prompt.
pub fn confirm_interactive(line: &str) -> (r: Result<(), String>)
    ensures
        r is Ok <==> confirms(line@),
        r matches Err(m) ==> m@ == "bootstrap platform key reset cancelled"@,
{
    let answer = ascii_lowercase(&trim_chars(&chars_of(line)));
    let y = chars_of("y");
    let yes = chars_of("yes");
    if crate::text::chars_eq(&answer, &y) || crate::text::chars_eq(&answer, &yes) {
        Ok(())
    } else {
        Err("bootstrap platform key reset cancelled".to_string())
    }
}

/// How `serde_json` writes one char inside a string literal: `"` and `\`
/// behind a backslash, the five control chars with short escapes as such,
/// the other control chars below U+0020 as `\u00` and two lowercase hex
/// digits, every other char as itself.
pub open spec fn json_escape(c: char) -> Seq<char> {
    let u = c as u32;
    if c == '"' {
        seq!['\\', '"']
    } else if c == '\\' {
        seq!['\\', '\\']
    } else if u == 0x08 {
        seq!['\\', 'b']
    } else if u == 0x09 {
        seq!['\\', 't']
    } else if u == 0x0a {
        seq!['\\', 'n']
    } else if u == 0x0c {
        seq!['\\', 'f']
    } else if u == 0x0d {
        seq!['\\', 'r']
    } else if u < 0x20 {
        seq!['\\', 'u', '0', '0', hex_digit((u / 16) as int), hex_digit((u % 16) as int)]
    } else {
        seq![c]
    }
}

/// The chars of `s`, each escaped by `json_escape`.
pub open spec fn json_escaped(s: Seq<char>) -> Seq<char>
    decreases s.len(),
{
    if s.len() == 0 {
        Seq::empty()
    } else {
        json_escaped(s.drop_last()) + json_escape(s.last())
    }
}

/// The string literal that `serde_json` writes for a string: its escaped
/// chars between double quotes.
pub open spec fn json_string_literal(s: Seq<char>) -> Seq<char> {
    seq!['"'] + json_escaped(s) + seq!['"']
}

/// Serialises a string slice with `serde_json::to_string` (its
/// `format_escaped_str` and `ESCAPE` table give the literal above). Writing
/// a `str` into memory has no failure path in `serde_json`, so the contract
/// has no error case.
#[verifier::external_body]
fn json_string(s: &str) -> (r: String)
    ensures
        r@ == json_string_literal(s@),
{
    serde_json::to_string(s).unwrap_or_default()
}

/// The heading printed before the key in the human format.
pub open spec fn human_heading() -> Seq<char> {
    "New bootstrap platform API key (save this now, it will not be shown again):\n  "@
}

/// What is printed for the new key, line ending aside.
pub open spec fn output_spec(format: OutputFormat, key: Seq<char>) -> Seq<char> {
    match format {
        OutputFormat::Human => human_heading() + key,
        OutputFormat::Json => "{\"platform_key\":"@ + json_string_literal(key) + "}"@,
        OutputFormat::Quiet => key,
    }
}

/// The text printed for the new key in the chosen format: a heading and the
/// key, a JSON object with the key under `platform_key`, or the bare key.
pub fn output_text(format: OutputFormat, raw_key: &str) -> (r: String)
    ensures
        r@ == output_spec(format, raw_key@),
{
    match format {
        OutputFormat::Human => {
            let mut out = String::new();
            push_all(&mut out, &chars_of("New bootstrap platform API key (save this now, it will not be shown again):\n  "));
            push_all(&mut out, &chars_of(raw_key));
            out
        },
        OutputFormat::Json => {
            let mut out = String::new();
            push_all(&mut out, &chars_of("{\"platform_key\":"));
            let lit = json_string(raw_key);
            push_all(&mut out, &chars_of(lit.as_str()));
            push_all(&mut out, &chars_of("}"));
            out
        },
        OutputFormat::Quiet => {
            let mut out = String::new();
            push_all(&mut out, &chars_of(raw_key));
            out
        },
    }
}

} // verus!
