//! Root ceremonies from the command line: what the arguments ask for, which
//! files a ceremony makes, and what is reported of it. Reading and writing the
//! files is left to the caller.

use vstd::prelude::*;

use crate::sets::texts;
use crate::text::{
    cat2, cat3, cat4, cat5, cat6, cat7, chars_of, count, decimal, number, same_text, unhex,
    unhex_text,
};
use crate::threshold::{
    ceremony, coefficients, dealt_group, dealt_share, degenerate_error, generate, group_file,
    group_in, joined_numbers, number_list, share_check, share_file, share_in, share_views, sign,
    signature_check, signature_file, signature_in, verify, verify_share, GroupKey,
    GroupSignature, GroupView, MemberShare, ShareView,
};
use crate::json::json_pretty;

verus! {

/// What the arguments of a command say.
#[derive(Debug, Clone, PartialEq, Eq)]
pub struct Options {
    /// How many members have to sign.
    pub threshold: Option<usize>,
    /// How many members there are.
    pub members: Option<usize>,
    /// The seed, in hexadecimal.
    pub seed: Option<String>,
    /// Where the output goes.
    pub out: Option<String>,
    /// The group file.
    pub group: Option<String>,
    /// The share files.
    pub shares: Vec<String>,
    /// The message file.
    pub message: Option<String>,
    /// The signature file.
    pub signature: Option<String>,
}

/// Options as a mathematical value.
#[verifier::ext_equal]
pub struct OptionsView {
    /// See [`Options::threshold`].
    pub threshold: Option<usize>,
    /// See [`Options::members`].
    pub members: Option<usize>,
    /// See [`Options::seed`].
    pub seed: Option<Seq<char>>,
    /// See [`Options::out`].
    pub out: Option<Seq<char>>,
    /// See [`Options::group`].
    pub group: Option<Seq<char>>,
    /// See [`Options::shares`].
    pub shares: Seq<Seq<char>>,
    /// See [`Options::message`].
    pub message: Option<Seq<char>>,
    /// See [`Options::signature`].
    pub signature: Option<Seq<char>>,
}

impl View for Options {
    type V = OptionsView;

    open spec fn view(&self) -> OptionsView {
        OptionsView {
            threshold: self.threshold,
            members: self.members,
            seed: crate::canon::option_text(self.seed),
            out: crate::canon::option_text(self.out),
            group: crate::canon::option_text(self.group),
            shares: texts(self.shares@),
            message: crate::canon::option_text(self.message),
            signature: crate::canon::option_text(self.signature),
        }
    }
}

/// No options.
pub open spec fn no_options() -> OptionsView {
    OptionsView {
        threshold: None,
        members: None,
        seed: None,
        out: None,
        group: None,
        shares: Seq::empty(),
        message: None,
        signature: None,
    }
}

/// The flags that take a value.
#[derive(Debug, Clone, Copy, PartialEq, Eq, Structural)]
pub enum Flag {
    /// `--threshold`
    Threshold,
    /// `--members`
    Members,
    /// `--seed`
    Seed,
    /// `--out`
    Out,
    /// `--group`
    Group,
    /// `--share`
    Share,
    /// `--message`
    Message,
    /// `--signature`
    Signature,
}

impl Flag {
    /// How the flag is written.
    pub open spec fn spec_token(self) -> Seq<char> {
        match self {
            Flag::Threshold => "--threshold"@,
            Flag::Members => "--members"@,
            Flag::Seed => "--seed"@,
            Flag::Out => "--out"@,
            Flag::Group => "--group"@,
            Flag::Share => "--share"@,
            Flag::Message => "--message"@,
            Flag::Signature => "--signature"@,
        }
    }

    /// How the flag is written.
    pub fn token(self) -> (r: &'static str)
        ensures
            r@ == self.spec_token(),
    {
        match self {
            Flag::Threshold => "--threshold",
            Flag::Members => "--members",
            Flag::Seed => "--seed",
            Flag::Out => "--out",
            Flag::Group => "--group",
            Flag::Share => "--share",
            Flag::Message => "--message",
            Flag::Signature => "--signature",
        }
    }
}

/// The flag that a text writes.
pub open spec fn flag_of(text: Seq<char>) -> Option<Flag> {
    if text == "--threshold"@ {
        Some(Flag::Threshold)
    } else if text == "--members"@ {
        Some(Flag::Members)
    } else if text == "--seed"@ {
        Some(Flag::Seed)
    } else if text == "--out"@ {
        Some(Flag::Out)
    } else if text == "--group"@ {
        Some(Flag::Group)
    } else if text == "--share"@ {
        Some(Flag::Share)
    } else if text == "--message"@ {
        Some(Flag::Message)
    } else if text == "--signature"@ {
        Some(Flag::Signature)
    } else {
        None
    }
}

fn read_flag(text: &str) -> (r: Option<Flag>)
    ensures
        r == flag_of(text@),
{
    if same_text(text, "--threshold") {
        Some(Flag::Threshold)
    } else if same_text(text, "--members") {
        Some(Flag::Members)
    } else if same_text(text, "--seed") {
        Some(Flag::Seed)
    } else if same_text(text, "--out") {
        Some(Flag::Out)
    } else if same_text(text, "--group") {
        Some(Flag::Group)
    } else if same_text(text, "--share") {
        Some(Flag::Share)
    } else if same_text(text, "--message") {
        Some(Flag::Message)
    } else if same_text(text, "--signature") {
        Some(Flag::Signature)
    } else {
        None
    }
}

/// The number that decimal digits write.
pub open spec fn digits_value(s: Seq<char>) -> nat
    decreases s.len(),
{
    if s.len() == 0 {
        0
    } else {
        (digits_value(s.drop_last()) * 10 + (s.last() as nat - '0' as nat)) as nat
    }
}

/// Whether all characters are decimal digits.
pub open spec fn all_digits(s: Seq<char>) -> bool {
    forall|i: int| 0 <= i < s.len() ==> '0' <= #[trigger] s[i] && s[i] <= '9'
}

/// A text without a plus sign in front.
pub open spec fn unsigned(s: Seq<char>) -> Seq<char> {
    if s.len() > 0 && s[0] == '+' {
        s.skip(1)
    } else {
        s
    }
}

/// The number that a text writes: decimal digits, with or without a plus sign
/// in front, for a number that a machine word can hold.
pub open spec fn number_in(s: Seq<char>) -> Option<usize> {
    let d = unsigned(s);
    if d.len() > 0 && all_digits(d) && digits_value(d) <= usize::MAX {
        Some(digits_value(d) as usize)
    } else {
        None
    }
}

fn read_number(text: &str) -> (r: Option<usize>)
    ensures
        r == number_in(text@),
{
    let c = chars_of(text);
    let start: usize = if c.len() > 0 && c[0] == '+' {
        1
    } else {
        0
    };
    let ghost d = unsigned(text@);
    assert(d =~= c@.skip(start as int));
    if c.len() == start {
        return None;
    }
    let mut n: usize = 0;
    let mut big = false;
    let mut i: usize = start;
    assert(d.take(0) =~= Seq::<char>::empty());
    while i < c.len()
        invariant
            start <= i <= c.len(),
            start <= 1,
            d == unsigned(text@),
            d == c@.skip(start as int),
            forall|k: int| 0 <= k < i - start ==> '0' <= #[trigger] d[k] && d[k] <= '9',
            big ==> digits_value(d.take(i - start)) > usize::MAX,
            !big ==> n == digits_value(d.take(i - start)),
        decreases c.len() - i,
    {
        let x = c[i];
        assert(d[i - start] == x);
        if x < '0' || '9' < x {
            return None;
        }
        assert(d.take(i - start + 1).drop_last() =~= d.take(i - start));
        assert(d.take(i - start + 1).last() == x);
        let v: usize = (x as u32 - 48u32) as usize;
        if !big {
            match n.checked_mul(10) {
                None => {
                    big = true;
                },
                Some(m) => match m.checked_add(v) {
                    None => {
                        big = true;
                    },
                    Some(s) => {
                        n = s;
                    },
                },
            }
        }
        i += 1;
    }
    assert(d.take(i - start) =~= d);
    if big {
        None
    } else {
        Some(n)
    }
}

/// The options with the value of a flag, or what is wrong with the value.
pub open spec fn with_value(o: OptionsView, flag: Flag, raw: Seq<char>) -> Result<
    OptionsView,
    Seq<char>,
> {
    match flag {
        Flag::Threshold => match number_in(raw) {
            Some(n) => Ok(OptionsView { threshold: Some(n), ..o }),
            None => Err("--threshold"@ + " `"@ + raw + "` is not a number"@),
        },
        Flag::Members => match number_in(raw) {
            Some(n) => Ok(OptionsView { members: Some(n), ..o }),
            None => Err("--members"@ + " `"@ + raw + "` is not a number"@),
        },
        Flag::Seed => Ok(OptionsView { seed: Some(raw), ..o }),
        Flag::Out => Ok(OptionsView { out: Some(raw), ..o }),
        Flag::Group => Ok(OptionsView { group: Some(raw), ..o }),
        Flag::Share => Ok(OptionsView { shares: o.shares.push(raw), ..o }),
        Flag::Message => Ok(OptionsView { message: Some(raw), ..o }),
        Flag::Signature => Ok(OptionsView { signature: Some(raw), ..o }),
    }
}

/// The options with those that arguments give, or what is wrong with the first
/// bad argument; nothing is said where help is asked for.
pub open spec fn parsed(args: Seq<Seq<char>>, o: OptionsView) -> Result<OptionsView, Seq<char>>
    decreases args.len(),
{
    if args.len() == 0 {
        Ok(o)
    } else {
        match flag_of(args[0]) {
            Some(flag) => if args.len() < 2 {
                Err(flag.spec_token() + " needs a value"@)
            } else {
                match with_value(o, flag, args[1]) {
                    Err(m) => Err(m),
                    Ok(next) => parsed(args.skip(2), next),
                }
            },
            None => if args[0] == "-h"@ || args[0] == "--help"@ {
                Err(""@)
            } else {
                Err("unknown argument `"@ + args[0] + "`"@)
            },
        }
    }
}

fn set_value(o: &mut Options, flag: Flag, raw: &String) -> (r: Result<(), String>)
    ensures
        match with_value(old(o)@, flag, raw@) {
            Ok(next) => r is Ok && final(o)@ == next,
            Err(f) => r matches Err(m) && m@ == f,
        },
{
    match flag {
        Flag::Threshold => match read_number(raw.as_str()) {
            Some(n) => {
                o.threshold = Some(n);
            },
            None => {
                return Err(cat4("--threshold", " `", raw.as_str(), "` is not a number"));
            },
        },
        Flag::Members => match read_number(raw.as_str()) {
            Some(n) => {
                o.members = Some(n);
            },
            None => {
                return Err(cat4("--members", " `", raw.as_str(), "` is not a number"));
            },
        },
        Flag::Seed => {
            o.seed = Some(raw.clone());
        },
        Flag::Out => {
            o.out = Some(raw.clone());
        },
        Flag::Group => {
            o.group = Some(raw.clone());
        },
        Flag::Share => {
            let ghost before = texts(o.shares@);
            o.shares.push(raw.clone());
            assert(texts(o.shares@) =~= before.push(raw@));
        },
        Flag::Message => {
            o.message = Some(raw.clone());
        },
        Flag::Signature => {
            o.signature = Some(raw.clone());
        },
    }
    Ok(())
}

/// Reads the arguments of a command.
pub fn parse(args: &[String]) -> (r: Result<Options, String>)
    ensures
        match parsed(texts(args@), no_options()) {
            Ok(v) => r matches Ok(o) && o@ == v,
            Err(f) => r matches Err(m) && m@ == f,
        },
{
    let mut options = Options {
        threshold: None,
        members: None,
        seed: None,
        out: None,
        group: None,
        shares: Vec::new(),
        message: None,
        signature: None,
    };
    let ghost all = texts(args@);
    assert(options@ =~= no_options());
    assert(all.skip(0) =~= all);
    let mut i: usize = 0;
    while i < args.len()
        invariant
            i <= args.len(),
            all == texts(args@),
            parsed(all, no_options()) == parsed(all.skip(i as int), options@),
        decreases args.len() - i,
    {
        let arg = &args[i];
        let ghost rest = all.skip(i as int);
        proof {
            assert(rest[0] == arg@);
        }
        match read_flag(arg.as_str()) {
            Some(flag) => {
                if args.len() - i < 2 {
                    return Err(cat2(flag.token(), " needs a value"));
                }
                let raw = &args[i + 1];
                assert(rest[1] == raw@);
                assert(rest.skip(2) =~= all.skip(i + 2));
                if let Err(m) = set_value(&mut options, flag, raw) {
                    return Err(m);
                }
                i += 2;
            },
            None => {
                if same_text(arg.as_str(), "-h") || same_text(arg.as_str(), "--help") {
                    return Err("".to_owned());
                }
                return Err(cat3("unknown argument `", arg.as_str(), "`"));
            },
        }
    }
    assert(all.skip(i as int).len() == 0);
    Ok(options)
}

/// What a command line asks for.
#[derive(Debug, Clone, PartialEq, Eq)]
pub enum Command {
    /// Generate a group and its shares.
    Init {
        /// How many members have to sign.
        threshold: usize,
        /// How many members there are.
        members: usize,
        /// The directory of the files.
        directory: String,
        /// The seed; without one it is drawn at random.
        seed: Option<Vec<u8>>,
    },
    /// Check a share against its group.
    VerifyShare {
        /// The group file.
        group: String,
        /// The share file.
        share: String,
    },
    /// Sign a message.
    Sign {
        /// The group file.
        group: String,
        /// The share files.
        shares: Vec<String>,
        /// The message file.
        message: String,
        /// The signature file; without one the signature is printed.
        out: Option<String>,
    },
    /// Check a signature.
    Verify {
        /// The group file.
        group: String,
        /// The signature file.
        signature: String,
        /// The message file.
        message: String,
    },
}

/// A command as a mathematical value.
#[verifier::ext_equal]
pub enum CommandView {
    /// See [`Command::Init`].
    Init { threshold: usize, members: usize, directory: Seq<char>, seed: Option<Seq<u8>> },
    /// See [`Command::VerifyShare`].
    VerifyShare { group: Seq<char>, share: Seq<char> },
    /// See [`Command::Sign`].
    Sign { group: Seq<char>, shares: Seq<Seq<char>>, message: Seq<char>, out: Option<Seq<char>> },
    /// See [`Command::Verify`].
    Verify { group: Seq<char>, signature: Seq<char>, message: Seq<char> },
}

/// The bytes of an optional seed.
pub open spec fn seed_view(s: Option<Vec<u8>>) -> Option<Seq<u8>> {
    match s {
        Some(b) => Some(b@),
        None => None,
    }
}

impl View for Command {
    type V = CommandView;

    open spec fn view(&self) -> CommandView {
        match self {
            Command::Init { threshold, members, directory, seed } => CommandView::Init {
                threshold: *threshold,
                members: *members,
                directory: directory@,
                seed: seed_view(*seed),
            },
            Command::VerifyShare { group, share } => CommandView::VerifyShare {
                group: group@,
                share: share@,
            },
            Command::Sign { group, shares, message, out } => CommandView::Sign {
                group: group@,
                shares: texts(shares@),
                message: message@,
                out: crate::canon::option_text(*out),
            },
            Command::Verify { group, signature, message } => CommandView::Verify {
                group: group@,
                signature: signature@,
                message: message@,
            },
        }
    }
}

/// What `init` with options asks for, or what is missing.
pub open spec fn init_command(o: OptionsView) -> Result<CommandView, Seq<char>> {
    match o.threshold {
        None => Err("init needs --threshold"@),
        Some(threshold) => match o.members {
            None => Err("init needs --members"@),
            Some(members) => match o.out {
                None => Err("init needs --out (a directory)"@),
                Some(directory) => match o.seed {
                    None => Ok(CommandView::Init { threshold, members, directory, seed: None }),
                    Some(text) => match unhex_text(text) {
                        None => Err("--seed `"@ + text + "` is not hex"@),
                        Some(seed) => Ok(
                            CommandView::Init { threshold, members, directory, seed: Some(seed) },
                        ),
                    },
                },
            },
        },
    }
}

/// What `verify-share` with options asks for, or what is missing.
pub open spec fn verify_share_command(o: OptionsView) -> Result<CommandView, Seq<char>> {
    match o.group {
        None => Err("verify-share needs --group"@),
        Some(group) => if o.shares.len() == 0 {
            Err("verify-share needs --share"@)
        } else {
            Ok(CommandView::VerifyShare { group, share: o.shares[0] })
        },
    }
}

/// What `sign` with options asks for, or what is missing.
pub open spec fn sign_command(o: OptionsView) -> Result<CommandView, Seq<char>> {
    match o.group {
        None => Err("sign needs --group"@),
        Some(group) => match o.message {
            None => Err("sign needs --message"@),
            Some(message) => if o.shares.len() == 0 {
                Err("sign needs at least one --share"@)
            } else {
                Ok(CommandView::Sign { group, shares: o.shares, message, out: o.out })
            },
        },
    }
}

/// What `verify` with options asks for, or what is missing.
pub open spec fn verify_command(o: OptionsView) -> Result<CommandView, Seq<char>> {
    match o.group {
        None => Err("verify needs --group"@),
        Some(group) => match o.signature {
            None => Err("verify needs --signature"@),
            Some(signature) => match o.message {
                None => Err("verify needs --message"@),
                Some(message) => Ok(CommandView::Verify { group, signature, message }),
            },
        },
    }
}

/// What a command line asks for, or what is wrong with it.
pub open spec fn commanded(args: Seq<Seq<char>>) -> Result<CommandView, Seq<char>> {
    if args.len() == 0 {
        Err("missing command"@)
    } else {
        match parsed(args.skip(1), no_options()) {
            Err(m) => Err(m),
            Ok(o) => if args[0] == "init"@ {
                init_command(o)
            } else if args[0] == "verify-share"@ {
                verify_share_command(o)
            } else if args[0] == "sign"@ {
                sign_command(o)
            } else if args[0] == "verify"@ {
                verify_command(o)
            } else {
                Err("unknown command `"@ + args[0] + "`"@)
            },
        }
    }
}

/// Whether a result is the one that a specification gives.
pub open spec fn gives<T: View>(r: Result<T, String>, want: Result<T::V, Seq<char>>) -> bool {
    match want {
        Ok(v) => r matches Ok(x) && x@ == v,
        Err(f) => r matches Err(m) && m@ == f,
    }
}

/// The bytes of a seed in hexadecimal.
pub fn hex_decode(s: &str) -> (r: Option<Vec<u8>>)
    ensures
        seed_view(r) == unhex_text(s@),
{
    unhex(s)
}

fn command_init(o: Options) -> (r: Result<Command, String>)
    ensures
        gives(r, init_command(o@)),
{
    let threshold = match o.threshold {
        None => {
            return Err("init needs --threshold".to_owned());
        },
        Some(n) => n,
    };
    let members = match o.members {
        None => {
            return Err("init needs --members".to_owned());
        },
        Some(n) => n,
    };
    let directory = match o.out {
        None => {
            return Err("init needs --out (a directory)".to_owned());
        },
        Some(p) => p,
    };
    let seed: Option<Vec<u8>> = match o.seed {
        None => None,
        Some(text) => match hex_decode(text.as_str()) {
            None => {
                return Err(cat3("--seed `", text.as_str(), "` is not hex"));
            },
            Some(b) => Some(b),
        },
    };
    Ok(Command::Init { threshold, members, directory, seed })
}

fn command_verify_share(o: Options) -> (r: Result<Command, String>)
    ensures
        gives(r, verify_share_command(o@)),
{
    let group = match o.group {
        None => {
            return Err("verify-share needs --group".to_owned());
        },
        Some(p) => p,
    };
    if o.shares.len() == 0 {
        return Err("verify-share needs --share".to_owned());
    }
    Ok(Command::VerifyShare { group, share: o.shares[0].clone() })
}

fn command_sign(o: Options) -> (r: Result<Command, String>)
    ensures
        gives(r, sign_command(o@)),
{
    let group = match o.group {
        None => {
            return Err("sign needs --group".to_owned());
        },
        Some(p) => p,
    };
    let message = match o.message {
        None => {
            return Err("sign needs --message".to_owned());
        },
        Some(p) => p,
    };
    if o.shares.len() == 0 {
        return Err("sign needs at least one --share".to_owned());
    }
    Ok(Command::Sign { group, shares: o.shares, message, out: o.out })
}

fn command_verify(o: Options) -> (r: Result<Command, String>)
    ensures
        gives(r, verify_command(o@)),
{
    let group = match o.group {
        None => {
            return Err("verify needs --group".to_owned());
        },
        Some(p) => p,
    };
    let signature = match o.signature {
        None => {
            return Err("verify needs --signature".to_owned());
        },
        Some(p) => p,
    };
    let message = match o.message {
        None => {
            return Err("verify needs --message".to_owned());
        },
        Some(p) => p,
    };
    Ok(Command::Verify { group, signature, message })
}

/// Reads a command line: the command, then its arguments.
pub fn command(args: &[String]) -> (r: Result<Command, String>)
    ensures
        gives(r, commanded(texts(args@))),
{
    if args.len() == 0 {
        return Err("missing command".to_owned());
    }
    let name = &args[0];
    let rest = vstd::slice::slice_subrange(args, 1, args.len());
    assert(texts(rest@) =~= texts(args@).skip(1));
    assert(texts(args@)[0] == name@);
    let options = match parse(rest) {
        Err(m) => {
            return Err(m);
        },
        Ok(o) => o,
    };
    if same_text(name.as_str(), "init") {
        command_init(options)
    } else if same_text(name.as_str(), "verify-share") {
        command_verify_share(options)
    } else if same_text(name.as_str(), "sign") {
        command_sign(options)
    } else if same_text(name.as_str(), "verify") {
        command_verify(options)
    } else {
        Err(cat3("unknown command `", name.as_str(), "`"))
    }
}

/// The files of a new group, and the report on it.
#[derive(Debug, Clone, PartialEq, Eq)]
pub struct NewGroup {
    /// The files: each with its path and its text, the group's first.
    pub files: Vec<(String, String)>,
    /// The report.
    pub report: String,
}

/// Paths and texts of files as mathematical values.
pub open spec fn file_views(s: Seq<(String, String)>) -> Seq<(Seq<char>, Seq<char>)> {
    s.map_values(|f: (String, String)| (f.0@, f.1@))
}

/// The path of the group file in a directory.
pub open spec fn group_path(out: Seq<char>) -> Seq<char> {
    out + "/group.json"@
}

/// The path of a member's share file in a directory.
pub open spec fn share_path(out: Seq<char>, index: u32) -> Seq<char> {
    out + "/member-"@ + decimal(index as nat) + ".json"@
}

/// The files of a group: its own, then one for each share.
pub open spec fn group_files(out: Seq<char>, group: GroupView, shares: Seq<ShareView>) -> Seq<
    (Seq<char>, Seq<char>),
> {
    seq![(group_path(out), json_pretty(group_file(group)))] + shares.map_values(
        |s: ShareView| (share_path(out, s.index), json_pretty(share_file(s))),
    )
}

/// The report on a new group.
pub open spec fn init_report(out: Seq<char>, threshold: usize, members: usize) -> Seq<char> {
    decimal(threshold as nat) + "-of-"@ + decimal(members as nat) + " ceremony generated: "@
        + group_path(out) + " (public) + "@ + decimal(members as nat) + (
    " member share files (SECRET)\nevery member should run: ceremony verify-share --group "@
        + group_path(out) + " --share <their file>"@)
}

/// Makes the files of a new group from a seed.
pub fn init(seed: &[u8], threshold: usize, members: usize, out: &str) -> (r: Result<
    NewGroup,
    String,
>)
    ensures
        r is Ok == (1 <= threshold <= members),
        r matches Ok(n) ==> {
            let f = coefficients(seed@, threshold as int);
            &&& file_views(n.files@) == group_files(
                out@,
                dealt_group(f, members),
                Seq::new((members as u32) as nat, |i: int| dealt_share(f, (i + 1) as u32)),
            )
            &&& n.report@ == init_report(out@, threshold, members)
        },
        r matches Err(m) ==> m@ == "generation: "@ + degenerate_error(threshold, members).text(),
{
    let (group, shares) = match generate(seed, threshold, members) {
        Err(e) => {
            let why = e.to_string();
            return Err(cat2("generation: ", why.as_str()));
        },
        Ok(x) => x,
    };
    let ghost all = share_views(shares@);
    let ghost want = group_files(out@, group@, all);
    let path = cat2(out, "/group.json");
    let mut files: Vec<(String, String)> = Vec::new();
    let text = group.to_json();
    let shown = cat2(path.as_str(), "");
    proof {
        reveal_strlit("");
    }
    assert(shown@ =~= path@);
    files.push((shown, text));
    assert(file_views(files@) =~= want.take(1));
    let mut i: usize = 0;
    while i < shares.len()
        invariant
            i <= shares.len(),
            all == share_views(shares@),
            want == group_files(out@, group@, all),
            file_views(files@) =~= want.take(i + 1),
        decreases shares.len() - i,
    {
        let index = number(shares[i].index as u64);
        let place = cat4(out, "/member-", index.as_str(), ".json");
        let text = shares[i].to_json();
        let ghost before = file_views(files@);
        proof {
            assert(all[i as int] == shares@[i as int]@);
            assert(want[i + 1] == (place@, text@));
        }
        files.push((place, text));
        assert(file_views(files@) =~= before.push((place@, text@)));
        i += 1;
    }
    assert(file_views(files@) =~= want);
    let m = count(threshold);
    let k = count(members);
    let rest = cat3(
        " member share files (SECRET)\nevery member should run: ceremony verify-share --group ",
        path.as_str(),
        " --share <their file>",
    );
    let head = cat7(
        m.as_str(),
        "-of-",
        k.as_str(),
        " ceremony generated: ",
        path.as_str(),
        " (public) + ",
        k.as_str(),
    );
    Ok(NewGroup { files, report: cat2(head.as_str(), rest.as_str()) })
}

/// The report on checking a share, from the texts of the two files.
pub open spec fn share_report(group_text: Seq<char>, share_text: Seq<char>) -> Result<
    Seq<char>,
    Seq<char>,
> {
    match group_in(group_text) {
        Err(e) => Err(e.text()),
        Ok(group) => match share_in(share_text) {
            Err(e) => Err(e.text()),
            Ok(share) => match share_check(group, share) {
                Err(e) => Err(e.text()),
                Ok(true) => Ok(
                    "member "@ + decimal(share.index as nat)
                        + ": share verifies against the group commitments"@,
                ),
                Ok(false) => Err(
                    "member "@ + decimal(share.index as nat)
                        + ": share does NOT match the group commitments — a lying dealer or a corrupted share"@,
                ),
            },
        },
    }
}

/// Checks a share, from the texts of the two files.
pub fn report_share(group_text: &str, share_text: &str) -> (r: Result<String, String>)
    ensures
        gives(r, share_report(group_text@, share_text@)),
{
    let group = match GroupKey::from_json(group_text) {
        Err(e) => {
            return Err(e.to_string());
        },
        Ok(g) => g,
    };
    let share = match MemberShare::from_json(share_text) {
        Err(e) => {
            return Err(e.to_string());
        },
        Ok(s) => s,
    };
    let index = number(share.index as u64);
    match verify_share(&group, &share) {
        Err(e) => Err(e.to_string()),
        Ok(true) => Ok(
            cat3(
                "member ",
                index.as_str(),
                ": share verifies against the group commitments",
            ),
        ),
        Ok(false) => Err(
            cat3(
                "member ",
                index.as_str(),
                ": share does NOT match the group commitments — a lying dealer or a corrupted share",
            ),
        ),
    }
}

/// Why a number of shares does not qualify for a group.
pub open spec fn quorum_fault(threshold: usize, given: nat) -> Seq<char> {
    "a qualifying set is exactly "@ + decimal(threshold as nat) + " shares ("@ + decimal(given)
        + " given): fewer cannot sign, more are redundant"@
}

/// The group in a file, if a number of shares qualifies for it.
pub open spec fn quorum_group(group_text: Seq<char>, given: nat) -> Result<GroupView, Seq<char>> {
    match group_in(group_text) {
        Err(e) => Err(e.text()),
        Ok(group) => if given != group.threshold {
            Err(quorum_fault(group.threshold, given))
        } else {
            Ok(group)
        },
    }
}

/// Reads a group file and holds the number of shares to its threshold.
pub fn read_group(group_text: &str, given: usize) -> (r: Result<GroupKey, String>)
    ensures
        gives(r, quorum_group(group_text@, given as nat)),
{
    let group = match GroupKey::from_json(group_text) {
        Err(e) => {
            return Err(e.to_string());
        },
        Ok(g) => g,
    };
    if given != group.threshold {
        let want = count(group.threshold);
        let have = count(given);
        return Err(
            cat5(
                "a qualifying set is exactly ",
                want.as_str(),
                " shares (",
                have.as_str(),
                " given): fewer cannot sign, more are redundant",
            ),
        );
    }
    Ok(group)
}

/// A signature with the text of its file and the report on it.
#[derive(Debug, Clone, PartialEq, Eq)]
pub struct NewSignature {
    /// The text of the signature file.
    pub text: String,
    /// The report, for a signature that goes to a file.
    pub report: String,
}

/// Signs a message with the shares of a qualifying set. The report names the
/// signers and the path of the signature file.
pub fn sign_with(group: &GroupKey, shares: &[MemberShare], message: &[u8], path: &str) -> (r: Result<
    NewSignature,
    String,
>)
    ensures
        match ceremony(group@, share_views(shares@), message@) {
            Err(f) => r matches Err(m) && m@ == f.text(),
            Ok(s) => r matches Ok(n) && n.text@ == json_pretty(signature_file(s)) && n.report@
                == "signed by "@ + ("["@ + joined_numbers(s.signers) + "]"@) + ": "@ + path@,
        },
{
    match sign(group, shares, message) {
        Err(e) => Err(e.to_string()),
        Ok(signature) => {
            let signers = number_list(signature.signers.as_slice());
            Ok(
                NewSignature {
                    text: signature.to_json(),
                    report: cat4("signed by ", signers.as_str(), ": ", path),
                },
            )
        },
    }
}

/// The report on checking a signature, from the texts of the two files.
pub open spec fn signature_report(
    group_text: Seq<char>,
    signature_text: Seq<char>,
    message: Seq<u8>,
) -> Result<Seq<char>, Seq<char>> {
    match group_in(group_text) {
        Err(e) => Err(e.text()),
        Ok(group) => match signature_in(signature_text) {
            Err(e) => Err(e.text()),
            Ok(signature) => match signature_check(group, message, signature) {
                Err(e) => Err(e.text()),
                Ok(_) => Ok(
                    "group signature verifies: "@ + decimal(signature.signers.len())
                        + " signer(s) "@ + ("["@ + joined_numbers(signature.signers) + "]"@)
                        + ", algorithm "@ + signature.algorithm,
                ),
            },
        },
    }
}

/// Checks a signature, from the texts of the two files.
pub fn report_signature(group_text: &str, signature_text: &str, message: &[u8]) -> (r: Result<
    String,
    String,
>)
    ensures
        gives(r, signature_report(group_text@, signature_text@, message@)),
{
    let group = match GroupKey::from_json(group_text) {
        Err(e) => {
            return Err(e.to_string());
        },
        Ok(g) => g,
    };
    let signature = match GroupSignature::from_json(signature_text) {
        Err(e) => {
            return Err(e.to_string());
        },
        Ok(s) => s,
    };
    match verify(&group, message, &signature) {
        Err(e) => Err(e.to_string()),
        Ok(()) => {
            let n = count(signature.signers.len());
            let signers = number_list(signature.signers.as_slice());
            Ok(
                cat6(
                    "group signature verifies: ",
                    n.as_str(),
                    " signer(s) ",
                    signers.as_str(),
                    ", algorithm ",
                    signature.algorithm.as_str(),
                ),
            )
        },
    }
}

} // verus!
