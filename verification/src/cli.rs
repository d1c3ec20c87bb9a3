//! The rules of the `rustype` command line: `rustype check <file.rpy>`.
use vstd::prelude::*;
use vstd::string::StringSliceAdditionalSpecFns;
use crate::ast::{diagnostics_view, FileId};
use crate::lexer::lex;
use crate::lexer_spec::lex_source;
use crate::parser::{parse_module, ParseOutput, MAX_SOURCE_BYTES};
use crate::parser_spec::parse_source;
use crate::text::{append_literal, chars_of, matches_literal, owned};

verus! {

/// The usage line.
pub open spec fn usage_text() -> Seq<char> {
    "usage: rustype check <file.rpy>"@
}

/// The usage line of the command.
pub fn usage() -> (s: String)
    ensures
        s@ == usage_text(),
{
    owned("usage: rustype check <file.rpy>")
}

/// The extension of `path` as `std::path::Path::extension` finds it (the
/// part of the file name after its last `.`), as text.
pub uninterp spec fn path_extension(path: Seq<char>) -> Option<Seq<char>>;

/// Calls `std::path::Path::extension` on `path` and turns the result into a
/// `String`. The extension depends on the path alone; the contract names it
/// and states nothing of how it is found.
#[verifier::external_body]
fn extension_of(path: &str) -> (r: Option<String>)
    ensures
        r matches Some(e) ==> path_extension(path@) == Some(e@),
        r is None ==> path_extension(path@) is None,
{
    match std::path::Path::new(path).extension() {
        Some(extension) => match extension.to_str() {
            Some(text) => Some(text.to_owned()),
            None => None,
        },
        None => None,
    }
}

/// The arguments as text.
pub open spec fn arguments_view(args: Seq<String>) -> Seq<Seq<char>> {
    args.map_values(|a: String| a@)
}

/// The extension found in a path, as text.
pub open spec fn extension_view(extension: Option<String>) -> Option<Seq<char>> {
    match extension {
        Some(e) => Some(e@),
        None => None,
    }
}

/// The file to check, or the message to show, for the path `path` whose
/// extension is `extension`: only `rpy` files are checked.
pub open spec fn rpy_verdict(path: Seq<char>, extension: Option<Seq<char>>) -> Result<
    Seq<char>,
    Seq<char>,
> {
    if extension == Some("rpy"@) {
        Ok(path)
    } else {
        Err("expected a .rpy file: "@ + path)
    }
}

/// The file to check, or the message to show, for the command-line
/// arguments `args` (the program name left out).
pub open spec fn checked_path(args: Seq<Seq<char>>) -> Result<Seq<char>, Seq<char>> {
    if args.len() == 0 {
        Err(usage_text())
    } else if args[0] != "check"@ {
        Err("unknown command `"@ + args[0] + "`\n\n"@ + usage_text())
    } else if args.len() == 1 {
        Err("missing .rpy file\n\n"@ + usage_text())
    } else if args.len() > 2 {
        Err("too many arguments\n\n"@ + usage_text())
    } else {
        rpy_verdict(args[1], path_extension(args[1]))
    }
}

/// Whether the text of `s` is the text of `lit`.
fn is_text(s: &String, lit: &str) -> (b: bool)
    ensures
        b == (s@ == lit@),
{
    let cs = chars_of(s.as_str());
    let b = matches_literal(&cs, 0, cs.len(), lit);
    assert(cs@.subrange(0, cs.len() as int) =~= cs@);
    b
}

/// Accepts `path` as the file to check when its extension `extension` is
/// `rpy`; otherwise gives the message to show.
pub fn accept_rpy_path(path: &String, extension: Option<String>) -> (r: Result<String, String>)
    ensures
        match r {
            Ok(p) => rpy_verdict(path@, extension_view(extension)) == Ok::<Seq<char>, Seq<char>>(
                p@,
            ),
            Err(message) => rpy_verdict(path@, extension_view(extension)) == Err::<
                Seq<char>,
                Seq<char>,
            >(message@),
        },
{
    let is_rpy = match &extension {
        Some(e) => is_text(e, "rpy"),
        None => false,
    };
    if !is_rpy {
        let mut message = owned("expected a .rpy file: ");
        message.append(path.as_str());
        return Err(message);
    }
    Ok(path.clone())
}

/// Checks the arguments of `rustype` (the program name left out): the
/// command must be `check`, followed by exactly one `.rpy` file.
pub fn check_arguments(args: &Vec<String>) -> (r: Result<String, String>)
    ensures
        match r {
            Ok(path) => checked_path(arguments_view(args@)) == Ok::<Seq<char>, Seq<char>>(path@),
            Err(message) => checked_path(arguments_view(args@)) == Err::<Seq<char>, Seq<char>>(
                message@,
            ),
        },
{
    let ghost a = arguments_view(args@);
    if args.len() == 0 {
        return Err(usage());
    }
    let command = &args[0];
    if !is_text(command, "check") {
        let mut message = owned("unknown command `");
        message.append(command.as_str());
        append_literal(&mut message, "`\n\n");
        message.append(usage().as_str());
        return Err(message);
    }
    if args.len() == 1 {
        let mut message = owned("missing .rpy file\n\n");
        message.append(usage().as_str());
        return Err(message);
    }
    if args.len() > 2 {
        let mut message = owned("too many arguments\n\n");
        message.append(usage().as_str());
        return Err(message);
    }
    let path = &args[1];
    let extension = extension_of(path.as_str());
    accept_rpy_path(path, extension)
}

/// What `rustype check` reports on `source`: the parsed module, and the
/// lexer's diagnostics followed by the parser's.
pub fn check_source(file: FileId, source: &str) -> (out: ParseOutput)
    requires
        source.spec_bytes().len() <= MAX_SOURCE_BYTES,
    ensures
        out@.module == parse_source(file, source@).module,
        out@.diagnostics == lex_source(file, source@).diagnostics + parse_source(
            file,
            source@,
        ).diagnostics,
{
    let lexed = lex(file, source);
    let parsed = parse_module(file, source);
    let mut diagnostics = lexed.diagnostics;
    let mut more = parsed.diagnostics;
    let ghost first = diagnostics@;
    let ghost second = more@;
    diagnostics.append(&mut more);
    assert(diagnostics_view(diagnostics@) =~= diagnostics_view(first) + diagnostics_view(second));
    ParseOutput { module: parsed.module, diagnostics }
}
} // verus!
