use crate::args::forwarded_args;
use crate::constants::{
    default_password, spec_default_password, spec_extension, PASSWORD_MODE_DEFAULT,
};
use crate::crypto::derived_key;
use crate::error::PackError;
use crate::format::{header_roundtrip, parse_header, HeaderModel};
use crate::prompt::password_pair_outcome;
use crate::text::{concat_str, ends_with, ends_with_spec, str_eq, str_trim, trim};
use vstd::prelude::*;
use vstd::utf8::encode_utf8;

verus! {

/// The archive name chosen at the prompt: the suggestion when nothing was
/// entered, the entry itself when it already ends with `.minipacked`, else
/// the entry with `.minipacked` added.
pub open spec fn output_name_spec(entered: Seq<char>, suggested: Seq<char>) -> Seq<char> {
    if trim(entered).len() == 0 {
        suggested
    } else if ends_with_spec(entered, spec_extension()) {
        entered
    } else {
        entered + spec_extension()
    }
}

/// See [`output_name_spec`].
pub fn choose_output_name(entered: String, suggested: String) -> (r: String)
    ensures
        r@ == output_name_spec(entered@, suggested@),
{
    proof {
        reveal_strlit(".minipacked");
        assert(".minipacked"@ =~= spec_extension());
    }
    if str_trim(entered.as_str()).unicode_len() == 0 {
        suggested
    } else if ends_with(entered.as_str(), ".minipacked") {
        entered
    } else {
        concat_str(entered.as_str(), ".minipacked")
    }
}

/// Every archive name the prompt settles on ends with `.minipacked`, as long
/// as the suggestion does (which [`suggested_archive_name`] guarantees).
///
/// [`suggested_archive_name`]: crate::archive::suggested_archive_name
pub proof fn chosen_names_carry_extension(entered: Seq<char>, suggested: Seq<char>)
    requires
        ends_with_spec(suggested, spec_extension()),
    ensures
        ends_with_spec(output_name_spec(entered, suggested), spec_extension()),
{
    if trim(entered).len() != 0 && !ends_with_spec(entered, spec_extension()) {
        let name = entered + spec_extension();
        assert(name.skip(name.len() - spec_extension().len()) =~= spec_extension());
    }
}

/// The subcommand of `minipacked`, with the arguments it is run with.
pub enum RootCommand {
    Pack(Vec<String>),
    Unpack(Vec<String>),
    Usage,
}

pub open spec fn word_pack() -> Seq<char> {
    seq!['p', 'a', 'c', 'k']
}

pub open spec fn word_unpack() -> Seq<char> {
    seq!['u', 'n', 'p', 'a', 'c', 'k']
}

pub open spec fn name_minipack() -> Seq<char> {
    seq!['m', 'i', 'n', 'i', 'p', 'a', 'c', 'k']
}

pub open spec fn name_miniunpack() -> Seq<char> {
    seq!['m', 'i', 'n', 'i', 'u', 'n', 'p', 'a', 'c', 'k']
}

/// Picks the subcommand named by the first argument: `pack` runs `minipack`
/// and `unpack` runs `miniunpack` on the remaining arguments; anything else
/// (or nothing) asks for the usage text.
pub fn root_command(args: &[String]) -> (r: RootCommand)
    ensures
        args@.len() > 1 && args@[1]@ == word_pack() ==> (r matches RootCommand::Pack(f) && f@[0]@
            == name_minipack() && f@.len() == args@.len() - 1 && forall|k: int|
            1 <= k < f@.len() ==> #[trigger] f@[k] == args@[k + 1]),
        args@.len() > 1 && args@[1]@ == word_unpack() ==> (r matches RootCommand::Unpack(f)
            && f@[0]@ == name_miniunpack() && f@.len() == args@.len() - 1 && forall|k: int|
            1 <= k < f@.len() ==> #[trigger] f@[k] == args@[k + 1]),
        args@.len() <= 1 || (args@[1]@ != word_pack() && args@[1]@ != word_unpack()) ==> r is Usage,
{
    proof {
        reveal_strlit("pack");
        reveal_strlit("unpack");
        reveal_strlit("minipack");
        reveal_strlit("miniunpack");
        assert("pack"@ =~= word_pack());
        assert("unpack"@ =~= word_unpack());
        assert("minipack"@ =~= name_minipack());
        assert("miniunpack"@ =~= name_miniunpack());
    }
    if args.len() <= 1 {
        return RootCommand::Usage;
    }
    let word = args[1].as_str();
    if str_eq(word, "pack") {
        RootCommand::Pack(forwarded_args(args, "minipack"))
    } else if str_eq(word, "unpack") {
        RootCommand::Unpack(forwarded_args(args, "miniunpack"))
    } else {
        RootCommand::Usage
    }
}

/// The archive named on a `miniunpack` command line, which takes exactly one.
pub fn unpack_input(args: &[String]) -> (r: Result<String, PackError>)
    ensures
        args@.len() != 2 ==> r == Err::<String, PackError>(PackError::UnpackUsage),
        args@.len() == 2 ==> r == Ok::<String, PackError>(args@[1]),
{
    if args.len() != 2 {
        return Err(PackError::UnpackUsage);
    }
    Ok(args[1].clone())
}

/// The password an archive can be opened with without asking: the built-in
/// one for archives packed without a password.
pub open spec fn stored_password_spec(mode: u8) -> Option<Seq<char>> {
    if mode == PASSWORD_MODE_DEFAULT {
        Some(spec_default_password())
    } else {
        None
    }
}

/// See [`stored_password_spec`]; `None` means the password must be asked for.
pub fn stored_password(mode: u8) -> (r: Option<String>)
    ensures
        r matches Some(p) ==> stored_password_spec(mode) == Some(p@),
        r is None ==> stored_password_spec(mode) is None,
{
    if mode == PASSWORD_MODE_DEFAULT {
        Some(default_password())
    } else {
        None
    }
}

/// An archive opens with the password it was packed with: when no password
/// was chosen, unpacking uses the same built-in one without asking; when one
/// was chosen, unpacking asks for it.
pub proof fn unpack_uses_pack_password(first: Seq<char>, repeat: Seq<char>)
    ensures
        password_pair_outcome(first, repeat) matches Ok((p, m)) ==> {
            ||| stored_password_spec(m) == Some(p)
            ||| (stored_password_spec(m) is None && p == first && first.len() > 0)
        },
{
}


/// An archive opens under the key it was sealed with. Packing chose the
/// password `p` from the entries `first` and `repeat`, stored its mode in the
/// header and derived the key from `p` and the header's salt. Reading that
/// header back (whatever follows it) gives the same salt and mode, and the
/// password unpacking uses, the built-in one taken without asking for an
/// archive packed without a password, else what the user enters when it is
/// `p`, derives the very same key.
pub proof fn archive_opens_with_pack_key(
    h: HeaderModel,
    rest: Seq<u8>,
    first: Seq<char>,
    repeat: Seq<char>,
    entered: Seq<char>,
)
    requires
        h.wf(),
        password_pair_outcome(first, repeat) is Ok,
        h.password_mode == password_pair_outcome(first, repeat)->Ok_0.1,
    ensures
        parse_header(h.encoding() + rest) == Ok::<HeaderModel, PackError>(h),
        ({
            let p = password_pair_outcome(first, repeat)->Ok_0.0;
            &&& stored_password_spec(h.password_mode) matches Some(q) ==> derived_key(
                encode_utf8(q),
                h.salt,
            ) == derived_key(encode_utf8(p), h.salt)
            &&& stored_password_spec(h.password_mode) is None && entered == p ==> derived_key(
                encode_utf8(entered),
                h.salt,
            ) == derived_key(encode_utf8(p), h.salt)
        }),
{
    header_roundtrip(h, rest);
    unpack_uses_pack_password(first, repeat);
}


/// How the prompt settles the archive name, for every entry and suggestion:
/// a blank entry gives the suggestion; any other entry is kept as typed at
/// the start of the name, the suggestion plays no part, and the name ends
/// with `.minipacked`, adding it only when the entry lacks it.
pub proof fn chosen_name_follows_entry(entered: Seq<char>, suggested: Seq<char>, other: Seq<char>)
    ensures
        trim(entered).len() == 0 ==> output_name_spec(entered, suggested) == suggested,
        trim(entered).len() != 0 ==> {
            let name = output_name_spec(entered, suggested);
            &&& name == output_name_spec(entered, other)
            &&& name.len() >= entered.len()
            &&& name.take(entered.len() as int) =~= entered
            &&& ends_with_spec(name, spec_extension())
            &&& ends_with_spec(entered, spec_extension()) ==> name == entered
            &&& !ends_with_spec(entered, spec_extension()) ==> name.len() == entered.len()
                + spec_extension().len()
        },
{
    if trim(entered).len() != 0 && !ends_with_spec(entered, spec_extension()) {
        let name = entered + spec_extension();
        assert(name.skip(name.len() - spec_extension().len()) =~= spec_extension());
    }
}

} // verus!
