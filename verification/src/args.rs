use crate::constants::{ZSTD_LEVEL_COMPACT, ZSTD_LEVEL_DEFAULT, ZSTD_LEVEL_FAST};
use crate::error::PackError;
use crate::text::{starts_with_char, str_eq};
use vstd::prelude::*;

verus! {

/// How hard to compress.
#[derive(Clone, Copy, Debug, PartialEq, Eq, Structural)]
pub enum CompressionMode {
    Fast,
    Default,
    Compact,
}

/// The zstd level of a compression mode.
pub open spec fn spec_zstd_level(mode: CompressionMode) -> i32 {
    match mode {
        CompressionMode::Fast => ZSTD_LEVEL_FAST,
        CompressionMode::Default => ZSTD_LEVEL_DEFAULT,
        CompressionMode::Compact => ZSTD_LEVEL_COMPACT,
    }
}

impl CompressionMode {
    /// The zstd level to compress with.
    pub fn zstd_level(&self) -> (level: i32)
        ensures
            level == spec_zstd_level(*self),
    {
        match self {
            CompressionMode::Fast => ZSTD_LEVEL_FAST,
            CompressionMode::Default => ZSTD_LEVEL_DEFAULT,
            CompressionMode::Compact => ZSTD_LEVEL_COMPACT,
        }
    }
}

/// What the command line asks `minipack` to do, before the input path has
/// been looked at.
pub struct PackRequest {
    pub input: String,
    pub recursive: bool,
    pub compression: CompressionMode,
}

/// A checked `minipack` command line.
pub struct PackArgs {
    pub input: String,
    pub compression: CompressionMode,
}

/// The options read so far while scanning the arguments.
pub struct ScanState {
    pub compression: CompressionMode,
    pub recursive: bool,
    /// Index of the argument naming the input.
    pub input: Option<int>,
}

pub open spec fn flag_fast() -> Seq<char> {
    seq!['-', '-', 'f', 'a', 's', 't']
}

pub open spec fn flag_compact() -> Seq<char> {
    seq!['-', '-', 'c', 'o', 'm', 'p', 'a', 'c', 't']
}

pub open spec fn flag_recursive() -> Seq<char> {
    seq!['-', 'r']
}

/// The effect of argument `i` (whose text is `arg`) on the scan.
pub open spec fn scan_step(st: ScanState, arg: Seq<char>, i: int) -> Result<ScanState, PackError> {
    if arg == flag_fast() {
        if st.compression != CompressionMode::Default {
            Err(PackError::MultipleCompressionModes)
        } else {
            Ok(ScanState { compression: CompressionMode::Fast, ..st })
        }
    } else if arg == flag_compact() {
        if st.compression != CompressionMode::Default {
            Err(PackError::MultipleCompressionModes)
        } else {
            Ok(ScanState { compression: CompressionMode::Compact, ..st })
        }
    } else if arg == flag_recursive() {
        if st.recursive {
            Err(PackError::RepeatedRecursiveFlag)
        } else {
            Ok(ScanState { recursive: true, ..st })
        }
    } else if arg.len() > 0 && arg[0] == '-' {
        Err(PackError::UnknownOption(i as usize))
    } else if st.input is Some {
        Err(PackError::PackUsage)
    } else {
        Ok(ScanState { input: Some(i), ..st })
    }
}

/// The scan of arguments `1..upto` (argument 0 is the program name); the
/// first error stops it.
pub open spec fn scan_args(args: Seq<Seq<char>>, upto: int) -> Result<ScanState, PackError>
    decreases upto,
{
    if upto <= 1 {
        Ok(ScanState { compression: CompressionMode::Default, recursive: false, input: None })
    } else {
        match scan_args(args, upto - 1) {
            Err(e) => Err(e),
            Ok(st) => scan_step(st, args[upto - 1], upto - 1),
        }
    }
}

proof fn lemma_scan_error_sticks(args: Seq<Seq<char>>, k: int, n: int)
    requires
        1 <= k <= n,
        scan_args(args, k) is Err,
    ensures
        scan_args(args, n) == scan_args(args, k),
    decreases n - k,
{
    if k < n {
        lemma_scan_error_sticks(args, k, n - 1);
    }
}

/// The outcome of parsing a `minipack` command line: the scan of all
/// arguments, which must name an input.
pub open spec fn pack_args_outcome(args: Seq<Seq<char>>) -> Result<ScanState, PackError> {
    match scan_args(args, args.len() as int) {
        Err(e) => Err(e),
        Ok(st) => if st.input is Some {
            Ok(st)
        } else {
            Err(PackError::PackUsage)
        },
    }
}

/// The characters of each argument.
pub open spec fn arg_views(args: Seq<String>) -> Seq<Seq<char>> {
    args.map_values(|s: String| s@)
}

/// Parses `minipack [--fast|--compact] [-r] <input>`: each of `--fast`,
/// `--compact` (together at most once) and `-r` (at most once), any other
/// argument starting with `-` is an unknown option, and exactly one other
/// argument is the input.
pub fn parse_pack_args(args: &[String]) -> (r: Result<PackRequest, PackError>)
    ensures
        r matches Ok(req) ==> {
            &&& pack_args_outcome(arg_views(args@)) matches Ok(st)
            &&& st.input matches Some(i)
            &&& 0 <= i < args@.len()
            &&& req.input@ == args@[i]@
            &&& req.recursive == st.recursive
            &&& req.compression == st.compression
        },
        r matches Err(e) ==> pack_args_outcome(arg_views(args@)) == Err::<ScanState, PackError>(e),
{
    let ghost views = arg_views(args@);
    let mut compression = CompressionMode::Default;
    let mut recursive = false;
    let mut input: Option<usize> = None;
    let mut i: usize = 1;
    if args.len() == 0 {
        return Err(PackError::PackUsage);
    }
    while i < args.len()
        invariant
            1 <= i <= args@.len(),
            views == arg_views(args@),
            scan_args(views, i as int) == Ok::<ScanState, PackError>(
                ScanState {
                    compression,
                    recursive,
                    input: match input {
                        Some(k) => Some(k as int),
                        None => None,
                    },
                },
            ),
            input matches Some(k) ==> 1 <= k < i,
        decreases args@.len() - i,
    {
        let arg = args[i].as_str();
        let ghost st = ScanState {
            compression,
            recursive,
            input: match input {
                Some(k) => Some(k as int),
                None => None,
            },
        };
        assert(views[i as int] == arg@);
        proof {
            reveal_strlit("--fast");
            reveal_strlit("--compact");
            reveal_strlit("-r");
            assert("--fast"@ =~= flag_fast());
            assert("--compact"@ =~= flag_compact());
            assert("-r"@ =~= flag_recursive());
        }
        if str_eq(arg, "--fast") {
            if compression != CompressionMode::Default {
                proof {
                    lemma_scan_error_sticks(views, i + 1, views.len() as int);
                }
                return Err(PackError::MultipleCompressionModes);
            }
            compression = CompressionMode::Fast;
        } else if str_eq(arg, "--compact") {
            if compression != CompressionMode::Default {
                proof {
                    lemma_scan_error_sticks(views, i + 1, views.len() as int);
                }
                return Err(PackError::MultipleCompressionModes);
            }
            compression = CompressionMode::Compact;
        } else if str_eq(arg, "-r") {
            if recursive {
                proof {
                    lemma_scan_error_sticks(views, i + 1, views.len() as int);
                }
                return Err(PackError::RepeatedRecursiveFlag);
            }
            recursive = true;
        } else if starts_with_char(arg, '-') {
            proof {
                lemma_scan_error_sticks(views, i + 1, views.len() as int);
            }
            return Err(PackError::UnknownOption(i));
        } else {
            if input.is_some() {
                proof {
                    lemma_scan_error_sticks(views, i + 1, views.len() as int);
                }
                return Err(PackError::PackUsage);
            }
            input = Some(i);
        }
        i = i + 1;
    }
    match input {
        Some(k) => Ok(PackRequest { input: args[k].clone(), recursive, compression }),
        None => Err(PackError::PackUsage),
    }
}

/// Fails with `InputNotFound` when the input does not exist.
pub fn validate_input_path(input: String, exists: bool) -> (r: Result<String, PackError>)
    ensures
        exists ==> r == Ok::<String, PackError>(input),
        !exists ==> r == Err::<String, PackError>(PackError::InputNotFound),
{
    if !exists {
        return Err(PackError::InputNotFound);
    }
    Ok(input)
}

/// Completes a parsed command line with what the file system says of the
/// input: it must exist, and `-r` must be given exactly for a directory.
pub fn finish_pack_args(req: PackRequest, exists: bool, is_dir: bool) -> (r: Result<
    PackArgs,
    PackError,
>)
    ensures
        !exists ==> r == Err::<PackArgs, PackError>(PackError::InputNotFound),
        exists && req.recursive && !is_dir ==> r == Err::<PackArgs, PackError>(
            PackError::RecursiveNeedsDirectory,
        ),
        exists && !req.recursive && is_dir ==> r == Err::<PackArgs, PackError>(
            PackError::DirectoryNeedsRecursive,
        ),
        exists && req.recursive == is_dir ==> r is Ok,
        r matches Ok(a) ==> a.input == req.input && a.compression == req.compression,
{
    let input = validate_input_path(req.input, exists)?;
    if req.recursive && !is_dir {
        return Err(PackError::RecursiveNeedsDirectory);
    }
    if !req.recursive && is_dir {
        return Err(PackError::DirectoryNeedsRecursive);
    }
    Ok(PackArgs { input, compression: req.compression })
}

/// The arguments handed to a subcommand: its own name, then everything after
/// the subcommand word.
pub fn forwarded_args(args: &[String], bin_name: &str) -> (r: Vec<String>)
    ensures
        r@.len() == 1 + (if args@.len() > 2 {
            args@.len() - 2
        } else {
            0
        }),
        r@[0]@ == bin_name@,
        forall|k: int| 1 <= k < r@.len() ==> #[trigger] r@[k] == args@[k + 1],
{
    let mut forwarded: Vec<String> = Vec::new();
    forwarded.push(String::from_str(bin_name));
    let mut i: usize = 2;
    while i < args.len()
        invariant
            2 <= i,
            i <= args@.len() || args@.len() < 2,
            args@.len() >= 2 ==> forwarded@.len() == i - 1,
            args@.len() < 2 ==> forwarded@.len() == 1,
            forwarded@[0]@ == bin_name@,
            forall|k: int| 1 <= k < forwarded@.len() ==> #[trigger] forwarded@[k] == args@[k + 1],
        decreases args@.len() - i,
    {
        forwarded.push(args[i].clone());
        i = i + 1;
    }
    forwarded
}


/// The class of a command-line argument as the scan sees it.
pub enum ArgKind {
    Fast,
    Compact,
    Recursive,
    UnknownOption,
    Plain,
}

/// See [`ArgKind`]; the tests are those of [`scan_step`], in its order.
pub open spec fn arg_kind(arg: Seq<char>) -> ArgKind {
    if arg == flag_fast() {
        ArgKind::Fast
    } else if arg == flag_compact() {
        ArgKind::Compact
    } else if arg == flag_recursive() {
        ArgKind::Recursive
    } else if arg.len() > 0 && arg[0] == '-' {
        ArgKind::UnknownOption
    } else {
        ArgKind::Plain
    }
}

/// How many arguments of `s` are of kind `k`.
pub open spec fn count_kind(s: Seq<Seq<char>>, k: ArgKind) -> nat
    decreases s.len(),
{
    if s.len() == 0 {
        0
    } else {
        count_kind(s.drop_last(), k) + if arg_kind(s.last()) == k {
            1nat
        } else {
            0nat
        }
    }
}

/// The counts under which a scan succeeds: one compression flag at most, `-r`
/// at most once, no unknown option and at most one plain argument.
pub open spec fn counts_scan_ok(s: Seq<Seq<char>>) -> bool {
    &&& count_kind(s, ArgKind::Fast) + count_kind(s, ArgKind::Compact) <= 1
    &&& count_kind(s, ArgKind::Recursive) <= 1
    &&& count_kind(s, ArgKind::UnknownOption) == 0
    &&& count_kind(s, ArgKind::Plain) <= 1
}

proof fn lemma_scan_counts(args: Seq<Seq<char>>, n: int)
    requires
        1 <= n <= args.len(),
    ensures
        ({
            let s = args.subrange(1, n);
            &&& (scan_args(args, n) is Ok <==> counts_scan_ok(s))
            &&& scan_args(args, n) matches Ok(st) ==> {
                &&& st.compression == (if count_kind(s, ArgKind::Fast) == 1 {
                    CompressionMode::Fast
                } else if count_kind(s, ArgKind::Compact) == 1 {
                    CompressionMode::Compact
                } else {
                    CompressionMode::Default
                })
                &&& st.recursive == (count_kind(s, ArgKind::Recursive) == 1)
                &&& (st.input is Some <==> count_kind(s, ArgKind::Plain) == 1)
                &&& st.input matches Some(i) ==> 1 <= i < n && arg_kind(args[i]) == ArgKind::Plain
            }
        }),
    decreases n,
{
    let s = args.subrange(1, n);
    if n == 1 {
        assert(s.len() == 0);
    } else {
        lemma_scan_counts(args, n - 1);
        let s0 = args.subrange(1, n - 1);
        assert(s.drop_last() =~= s0);
        assert(s.last() == args[n - 1]);
    }
}

proof fn lemma_count_remove(s: Seq<Seq<char>>, j: int, k: ArgKind)
    requires
        0 <= j < s.len(),
    ensures
        count_kind(s, k) == count_kind(s.remove(j), k) + if arg_kind(s[j]) == k {
            1nat
        } else {
            0nat
        },
    decreases s.len(),
{
    if j == s.len() - 1 {
        assert(s.remove(j) =~= s.drop_last());
    } else {
        lemma_count_remove(s.drop_last(), j, k);
        assert(s.remove(j).drop_last() =~= s.drop_last().remove(j));
        assert(s.remove(j).last() == s.last());
    }
}

proof fn lemma_count_permutation(s1: Seq<Seq<char>>, s2: Seq<Seq<char>>, k: ArgKind)
    requires
        s1.to_multiset() == s2.to_multiset(),
    ensures
        count_kind(s1, k) == count_kind(s2, k),
    decreases s1.len(),
{
    broadcast use vstd::seq_lib::group_to_multiset_ensures, vstd::multiset::group_multiset_axioms;

    if s1.len() == 0 {
        assert(s1.to_multiset().len() == s1.len());
        assert(s2.to_multiset().len() == s2.len());
        assert(s2.len() == 0);
    } else {
        let x = s1.last();
        let s1r = s1.drop_last();
        assert(s1 =~= s1r.push(x));
        assert(s2.to_multiset().count(x) > 0);
        assert(s2.contains(x));
        let j = choose|j: int| 0 <= j < s2.len() && s2[j] == x;
        assert(s2.remove(j).to_multiset() =~= s1r.to_multiset());
        lemma_count_permutation(s1r, s2.remove(j), k);
        lemma_count_remove(s2, j, k);
    }
}

proof fn lemma_single_of_kind(s: Seq<Seq<char>>, a: int, b: int, k: ArgKind)
    requires
        count_kind(s, k) == 1,
        0 <= a < s.len(),
        0 <= b < s.len(),
        arg_kind(s[a]) == k,
        arg_kind(s[b]) == k,
    ensures
        a == b,
{
    if a != b {
        lemma_count_remove(s, a, k);
        let t = s.remove(a);
        let bb = if b < a {
            b
        } else {
            b - 1
        };
        assert(t[bb] == s[b]);
        lemma_count_remove(t, bb, k);
    }
}

/// The order of the arguments after the program name does not matter: two
/// command lines holding the same arguments in any order both parse or both
/// fail, and when they parse they ask for the same compression, the same
/// `-r` and the same input. (The error reported may differ.)
pub proof fn pack_args_order_is_irrelevant(a1: Seq<Seq<char>>, a2: Seq<Seq<char>>)
    requires
        a1.len() >= 1,
        a2.len() >= 1,
        a1.drop_first().to_multiset() == a2.drop_first().to_multiset(),
    ensures
        pack_args_outcome(a1) is Ok <==> pack_args_outcome(a2) is Ok,
        pack_args_outcome(a1) matches Ok(s1) ==> (pack_args_outcome(a2) matches Ok(s2) && {
            &&& s1.compression == s2.compression
            &&& s1.recursive == s2.recursive
            &&& a1[s1.input->Some_0] == a2[s2.input->Some_0]
        }),
{
    broadcast use vstd::seq_lib::group_to_multiset_ensures, vstd::multiset::group_multiset_axioms;

    let n1 = a1.len() as int;
    let n2 = a2.len() as int;
    lemma_scan_counts(a1, n1);
    lemma_scan_counts(a2, n2);
    let s1 = a1.subrange(1, n1);
    let s2 = a2.subrange(1, n2);
    assert(s1 =~= a1.drop_first());
    assert(s2 =~= a2.drop_first());
    lemma_count_permutation(s1, s2, ArgKind::Fast);
    lemma_count_permutation(s1, s2, ArgKind::Compact);
    lemma_count_permutation(s1, s2, ArgKind::Recursive);
    lemma_count_permutation(s1, s2, ArgKind::UnknownOption);
    lemma_count_permutation(s1, s2, ArgKind::Plain);
    if pack_args_outcome(a1) is Ok {
        let st1 = pack_args_outcome(a1)->Ok_0;
        let st2 = pack_args_outcome(a2)->Ok_0;
        let i1 = st1.input->Some_0;
        let i2 = st2.input->Some_0;
        let x = a1[i1];
        assert(s1[i1 - 1] == x);
        assert(s1.contains(x));
        assert(s1.to_multiset().count(x) > 0);
        assert(s2.contains(x));
        let j = choose|j: int| 0 <= j < s2.len() && s2[j] == x;
        assert(s2[i2 - 1] == a2[i2]);
        lemma_single_of_kind(s2, j, i2 - 1, ArgKind::Plain);
    }
}


/// Whether an argument is written as an option: it starts with `-`.
pub open spec fn starts_with_dash(arg: Seq<char>) -> bool {
    arg.len() > 0 && arg[0] == '-'
}

/// An argument that does not start with `-` is never an option: alone after
/// the program name it is the input, whatever else it contains, with the
/// default compression and no `-r`; an argument that starts with `-` and is
/// none of `--fast`, `--compact` and `-r` is refused as an unknown option.
pub proof fn only_dashed_arguments_are_options(program: Seq<char>, arg: Seq<char>)
    ensures
        !starts_with_dash(arg) ==> pack_args_outcome(seq![program, arg]) == Ok::<
            ScanState,
            PackError,
        >(ScanState { compression: CompressionMode::Default, recursive: false, input: Some(1) }),
        starts_with_dash(arg) && arg != flag_fast() && arg != flag_compact() && arg
            != flag_recursive() ==> pack_args_outcome(seq![program, arg]) == Err::<
            ScanState,
            PackError,
        >(PackError::UnknownOption(1)),
{
    let args = seq![program, arg];
    assert(flag_fast()[0] == '-');
    assert(flag_compact()[0] == '-');
    assert(flag_recursive()[0] == '-');
    assert(scan_args(args, 1) == Ok::<ScanState, PackError>(
        ScanState { compression: CompressionMode::Default, recursive: false, input: None },
    ));
    assert(args[1] == arg);
}

proof fn lemma_count_zero(s: Seq<Seq<char>>, k: ArgKind, j: int)
    requires
        count_kind(s, k) == 0,
        0 <= j < s.len(),
    ensures
        arg_kind(s[j]) != k,
    decreases s.len(),
{
    if j < s.len() - 1 {
        lemma_count_zero(s.drop_last(), k, j);
    }
}

/// What a parsed command line is made of: exactly one argument after the
/// program name does not start with `-`, and it is the input; every other
/// one is `--fast`, `--compact` or `-r`.
pub proof fn parsed_arguments_are_flags_and_one_input(args: Seq<Seq<char>>)
    ensures
        pack_args_outcome(args) matches Ok(st) ==> {
            &&& st.input matches Some(i) && 1 <= i < args.len() && !starts_with_dash(args[i])
            &&& forall|j: int|
                1 <= j < args.len() && j != st.input->Some_0 ==> {
                    ||| #[trigger] args[j] == flag_fast()
                    ||| args[j] == flag_compact()
                    ||| args[j] == flag_recursive()
                }
        },
{
    if args.len() >= 1 && pack_args_outcome(args) is Ok {
        let n = args.len() as int;
        lemma_scan_counts(args, n);
        let st = pack_args_outcome(args)->Ok_0;
        let i = st.input->Some_0;
        let s = args.subrange(1, n);
        assert forall|j: int| 1 <= j < args.len() && j != i implies {
            ||| #[trigger] args[j] == flag_fast()
            ||| args[j] == flag_compact()
            ||| args[j] == flag_recursive()
        } by {
            assert(s[j - 1] == args[j]);
            assert(s[i - 1] == args[i]);
            lemma_count_zero(s, ArgKind::UnknownOption, j - 1);
            if arg_kind(args[j]) == ArgKind::Plain {
                lemma_single_of_kind(s, j - 1, i - 1, ArgKind::Plain);
            }
        }
    } else if args.len() == 0 {
        assert(scan_args(args, 0) is Ok);
    }
}


proof fn lemma_count_witness(s: Seq<Seq<char>>, k: ArgKind) -> (j: int)
    requires
        count_kind(s, k) > 0,
    ensures
        0 <= j < s.len(),
        arg_kind(s[j]) == k,
    decreases s.len(),
{
    if arg_kind(s.last()) == k {
        s.len() - 1
    } else {
        let j = lemma_count_witness(s.drop_last(), k);
        assert(s.drop_last()[j] == s[j]);
        j
    }
}

proof fn lemma_count_has(s: Seq<Seq<char>>, k: ArgKind, j: int)
    requires
        0 <= j < s.len(),
        arg_kind(s[j]) == k,
    ensures
        count_kind(s, k) >= 1,
{
    lemma_count_remove(s, j, k);
}

/// Two different positions of kind `k1` and `k2` make the two counts add up
/// to at least two, and conversely.
proof fn lemma_two_positions(s: Seq<Seq<char>>, k1: ArgKind, k2: ArgKind)
    ensures
        (exists|a: int, b: int|
            0 <= a < s.len() && 0 <= b < s.len() && a != b && arg_kind(#[trigger] s[a]) == k1
                && arg_kind(#[trigger] s[b]) == k2) <==> if k1 == k2 {
            count_kind(s, k1) >= 2
        } else {
            count_kind(s, k1) >= 1 && count_kind(s, k2) >= 1
        },
{
    if exists|a: int, b: int|
        0 <= a < s.len() && 0 <= b < s.len() && a != b && arg_kind(#[trigger] s[a]) == k1
            && arg_kind(#[trigger] s[b]) == k2 {
        let (a, b) = choose|a: int, b: int|
            0 <= a < s.len() && 0 <= b < s.len() && a != b && arg_kind(#[trigger] s[a]) == k1
                && arg_kind(#[trigger] s[b]) == k2;
        lemma_count_has(s, k1, a);
        lemma_count_has(s, k2, b);
        if k1 == k2 {
            lemma_count_remove(s, a, k1);
            let t = s.remove(a);
            let bb = if b < a {
                b
            } else {
                b - 1
            };
            assert(t[bb] == s[b]);
            lemma_count_has(t, k1, bb);
        }
    } else {
        if k1 == k2 {
            if count_kind(s, k1) >= 2 {
                let a = lemma_count_witness(s, k1);
                lemma_count_remove(s, a, k1);
                let t = s.remove(a);
                let bb = lemma_count_witness(t, k1);
                let b = if bb < a {
                    bb
                } else {
                    bb + 1
                };
                assert(t[bb] == s[b]);
                assert(arg_kind(s[a]) == k1 && arg_kind(s[b]) == k2);
            }
        } else if count_kind(s, k1) >= 1 && count_kind(s, k2) >= 1 {
            let a = lemma_count_witness(s, k1);
            let b = lemma_count_witness(s, k2);
            assert(arg_kind(s[a]) == k1 && arg_kind(s[b]) == k2);
        }
    }
}

/// Whether an argument is `--fast` or `--compact`.
pub open spec fn is_compression_flag(arg: Seq<char>) -> bool {
    arg == flag_fast() || arg == flag_compact()
}

/// Which command lines parse, in terms of the arguments themselves: exactly
/// one argument after the program name does not start with `-`, every other
/// one is `--fast`, `--compact` or `-r`, no two of them are compression
/// flags and no two are `-r`. A parsed line asks for `-r` exactly when `-r`
/// is among the arguments, and for fast or compact compression exactly when
/// `--fast` or `--compact` is.
pub proof fn pack_args_accepted_exactly_when(args: Seq<Seq<char>>)
    requires
        args.len() >= 1,
    ensures
        pack_args_outcome(args) is Ok <==> {
            &&& exists|i: int|
                1 <= i < args.len() && !starts_with_dash(#[trigger] args[i]) && forall|j: int|
                    1 <= j < args.len() && j != i ==> (is_compression_flag(#[trigger] args[j])
                        || args[j] == flag_recursive())
            &&& forall|j: int, k: int|
                1 <= j < args.len() && 1 <= k < args.len() && j != k ==> !(is_compression_flag(
                    #[trigger] args[j],
                ) && is_compression_flag(#[trigger] args[k]))
            &&& forall|j: int, k: int|
                1 <= j < args.len() && 1 <= k < args.len() && j != k ==> !(#[trigger] args[j]
                    == flag_recursive() && #[trigger] args[k] == flag_recursive())
        },
        pack_args_outcome(args) matches Ok(st) ==> {
            &&& st.recursive <==> exists|j: int|
                1 <= j < args.len() && #[trigger] args[j] == flag_recursive()
            &&& st.compression == CompressionMode::Fast <==> exists|j: int|
                1 <= j < args.len() && #[trigger] args[j] == flag_fast()
            &&& st.compression == CompressionMode::Compact <==> exists|j: int|
                1 <= j < args.len() && #[trigger] args[j] == flag_compact()
        },
{
    let n = args.len() as int;
    let s = args.subrange(1, n);
    lemma_scan_counts(args, n);
    assert(flag_fast()[0] == '-' && flag_compact()[0] == '-' && flag_recursive()[0] == '-');
    assert(flag_fast().len() == 6 && flag_compact().len() == 9 && flag_recursive().len() == 2);
    assert forall|j: int| 1 <= j < n implies #[trigger] s[j - 1] == args[j] by {}
    assert forall|a: Seq<char>| #[trigger] arg_kind(a) == ArgKind::Fast <==> a == flag_fast() by {}
    assert forall|a: Seq<char>| #[trigger] arg_kind(a) == ArgKind::Compact <==> a == flag_compact() by {}
    assert forall|a: Seq<char>| #[trigger] arg_kind(a) == ArgKind::Recursive <==> a
        == flag_recursive() by {}
    lemma_two_positions(s, ArgKind::Fast, ArgKind::Fast);
    lemma_two_positions(s, ArgKind::Compact, ArgKind::Compact);
    lemma_two_positions(s, ArgKind::Fast, ArgKind::Compact);
    lemma_two_positions(s, ArgKind::Recursive, ArgKind::Recursive);
    lemma_two_positions(s, ArgKind::Plain, ArgKind::Plain);
    assert forall|j: int| 1 <= j < n implies (#[trigger] arg_kind(args[j]) == ArgKind::Plain
        <==> !starts_with_dash(args[j])) by {}
    if count_kind(s, ArgKind::Recursive) >= 1 {
        let j = lemma_count_witness(s, ArgKind::Recursive);
        assert(args[j + 1] == flag_recursive());
    }
    if count_kind(s, ArgKind::Fast) >= 1 {
        let j = lemma_count_witness(s, ArgKind::Fast);
        assert(args[j + 1] == flag_fast());
    }
    if count_kind(s, ArgKind::Compact) >= 1 {
        let j = lemma_count_witness(s, ArgKind::Compact);
        assert(args[j + 1] == flag_compact());
    }
    if exists|j: int| 1 <= j < n && #[trigger] args[j] == flag_recursive() {
        let j = choose|j: int| 1 <= j < n && #[trigger] args[j] == flag_recursive();
        lemma_count_has(s, ArgKind::Recursive, j - 1);
    }
    if exists|j: int| 1 <= j < n && #[trigger] args[j] == flag_fast() {
        let j = choose|j: int| 1 <= j < n && #[trigger] args[j] == flag_fast();
        lemma_count_has(s, ArgKind::Fast, j - 1);
    }
    if exists|j: int| 1 <= j < n && #[trigger] args[j] == flag_compact() {
        let j = choose|j: int| 1 <= j < n && #[trigger] args[j] == flag_compact();
        lemma_count_has(s, ArgKind::Compact, j - 1);
    }
    if pack_args_outcome(args) is Ok {
        parsed_arguments_are_flags_and_one_input(args);
        let i = pack_args_outcome(args)->Ok_0.input->Some_0;
        assert forall|j: int, k: int|
            1 <= j < n && 1 <= k < n && j != k implies !(is_compression_flag(#[trigger] args[j])
            && is_compression_flag(#[trigger] args[k])) by {
            if is_compression_flag(args[j]) && is_compression_flag(args[k]) {
                let kj = arg_kind(s[j - 1]);
                let kk = arg_kind(s[k - 1]);
                if kj == ArgKind::Compact && kk == ArgKind::Fast {
                    assert(arg_kind(s[k - 1]) == ArgKind::Fast && arg_kind(s[j - 1])
                        == ArgKind::Compact);
                } else {
                    assert(arg_kind(s[j - 1]) == kj && arg_kind(s[k - 1]) == kk);
                }
            }
        }
        assert forall|j: int, k: int|
            1 <= j < n && 1 <= k < n && j != k implies !(#[trigger] args[j] == flag_recursive()
            && #[trigger] args[k] == flag_recursive()) by {
            if args[j] == flag_recursive() && args[k] == flag_recursive() {
                assert(arg_kind(s[j - 1]) == ArgKind::Recursive && arg_kind(s[k - 1])
                    == ArgKind::Recursive);
            }
        }
        assert(1 <= i < n && !starts_with_dash(args[i]));
    } else {
        if exists|i: int|
            1 <= i < n && !starts_with_dash(#[trigger] args[i]) && forall|j: int|
                1 <= j < n && j != i ==> (is_compression_flag(#[trigger] args[j]) || args[j]
                    == flag_recursive()) {
            let i = choose|i: int|
                1 <= i < n && !starts_with_dash(#[trigger] args[i]) && forall|j: int|
                    1 <= j < n && j != i ==> (is_compression_flag(#[trigger] args[j]) || args[j]
                        == flag_recursive());
            if (forall|j: int, k: int|
                1 <= j < n && 1 <= k < n && j != k ==> !(is_compression_flag(#[trigger] args[j])
                    && is_compression_flag(#[trigger] args[k]))) && (forall|j: int, k: int|
                1 <= j < n && 1 <= k < n && j != k ==> !(#[trigger] args[j] == flag_recursive()
                    && #[trigger] args[k] == flag_recursive())) {
                lemma_count_has(s, ArgKind::Plain, i - 1);
                if count_kind(s, ArgKind::UnknownOption) >= 1 {
                    let j = lemma_count_witness(s, ArgKind::UnknownOption);
                    assert(is_compression_flag(args[j + 1]) || args[j + 1] == flag_recursive());
                }
                if count_kind(s, ArgKind::Plain) >= 2 {
                    let (a, b) = choose|a: int, b: int|
                        0 <= a < s.len() && 0 <= b < s.len() && a != b && arg_kind(#[trigger] s[a])
                            == ArgKind::Plain && arg_kind(#[trigger] s[b]) == ArgKind::Plain;
                    if a + 1 != i {
                        assert(is_compression_flag(args[a + 1]) || args[a + 1] == flag_recursive());
                    } else {
                        assert(is_compression_flag(args[b + 1]) || args[b + 1] == flag_recursive());
                    }
                }
                if count_kind(s, ArgKind::Fast) >= 2 {
                    let (a, b) = choose|a: int, b: int|
                        0 <= a < s.len() && 0 <= b < s.len() && a != b && arg_kind(#[trigger] s[a])
                            == ArgKind::Fast && arg_kind(#[trigger] s[b]) == ArgKind::Fast;
                    assert(is_compression_flag(args[a + 1]) && is_compression_flag(args[b + 1]));
                }
                if count_kind(s, ArgKind::Compact) >= 2 {
                    let (a, b) = choose|a: int, b: int|
                        0 <= a < s.len() && 0 <= b < s.len() && a != b && arg_kind(#[trigger] s[a])
                            == ArgKind::Compact && arg_kind(#[trigger] s[b]) == ArgKind::Compact;
                    assert(is_compression_flag(args[a + 1]) && is_compression_flag(args[b + 1]));
                }
                if count_kind(s, ArgKind::Fast) >= 1 && count_kind(s, ArgKind::Compact) >= 1 {
                    let (a, b) = choose|a: int, b: int|
                        0 <= a < s.len() && 0 <= b < s.len() && a != b && arg_kind(#[trigger] s[a])
                            == ArgKind::Fast && arg_kind(#[trigger] s[b]) == ArgKind::Compact;
                    assert(is_compression_flag(args[a + 1]) && is_compression_flag(args[b + 1]));
                }
                if count_kind(s, ArgKind::Recursive) >= 2 {
                    let (a, b) = choose|a: int, b: int|
                        0 <= a < s.len() && 0 <= b < s.len() && a != b && arg_kind(#[trigger] s[a])
                            == ArgKind::Recursive && arg_kind(#[trigger] s[b]) == ArgKind::Recursive;
                    assert(args[a + 1] == flag_recursive() && args[b + 1] == flag_recursive());
                }
                assert(counts_scan_ok(s));
            }
        }
    }
}

} // verus!
