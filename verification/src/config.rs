//! Configuration of the communication infrastructure: parsing the textual
//! arguments and assembling the allocator builders. Reading a hostfile and
//! spawning threads stay with the embedding program, which hands the parsed
//! lines in as plain values.
//!
//! The argument parser is getopts, behind trusted items. For the standard
//! option set built by `Configuration::options`, whether arguments parse and
//! what each option lookup yields are functions of the arguments alone, so
//! those results carry names (`std_parse_ok`, `std_opt_str`,
//! `std_opt_present`) and the verified logic is specified over the names.

use vstd::prelude::*;
use vstd::string::StringExecFns;
use vstd::utf8::{is_ascii_chars, is_ascii_chars_encode_utf8};
use crate::allocator::{AllocateBuilder, GenericBuilder, ProcessBuilder, ThreadBuilder,
    ZeroCopyBuilder};

verus! {

/// Slots in each merge queue of a network-backed allocator.
pub const DEFAULT_QUEUE_BOUND: usize = 16;

/// The views of a list of argument strings.
pub open spec fn arg_views(args: Seq<String>) -> Seq<Seq<char>> {
    args.map_values(|a: String| a@)
}

/// Whether the standard option set parses these arguments.
pub uninterp spec fn std_parse_ok(args: Seq<Seq<char>>) -> bool;

/// The argument of the named option under the standard option set, if the
/// option was present in the arguments.
pub uninterp spec fn std_opt_str(args: Seq<Seq<char>>, name: Seq<char>) -> Option<Seq<char>>;

/// Whether the named option occurred in the arguments, under the standard
/// option set.
pub uninterp spec fn std_opt_present(args: Seq<Seq<char>>, name: Seq<char>) -> bool;

/// The short names of the standard option set.
pub open spec fn is_std_option_name(name: Seq<char>) -> bool {
    ||| name == "w"@
    ||| name == "p"@
    ||| name == "n"@
    ||| name == "h"@
    ||| name == "j"@
    ||| name == "r"@
}

/// A successful parse of the standard option set. Only `parse_std` builds
/// one, so every value of this type answers lookups for the standard set.
pub struct StdMatches {
    m: getopts::Matches,
    args: Vec<String>,
}

impl StdMatches {
    /// The views of the arguments this parse consumed.
    pub closed spec fn spec_args(&self) -> Seq<Seq<char>> {
        arg_views(self.args@)
    }
}

/// The standard option set, as a value: only `std_options` builds one, so
/// every value of this type holds exactly the set `Configuration::options`
/// registers, and parse results over it are functions of the arguments.
pub struct StdOptions {
    o: getopts::Options,
}

/// The getopts option container, opaque to the verifier.
#[verifier::external_type_specification]
#[verifier::external_body]
pub struct ExOptions(getopts::Options);

/// The getopts match container, opaque to the verifier.
#[verifier::external_type_specification]
#[verifier::external_body]
pub struct ExMatches(getopts::Matches);

/// Relies on getopts::Options::new: an empty option set.
#[verifier::external_body]
fn getopts_new() -> getopts::Options {
    getopts::Options::new()
}

/// Relies on getopts::Options::optopt: registers an option taking an
/// argument. Registration asserts on the byte length of the names (a short
/// name of at most one byte, a long name of never exactly one), and a group
/// with both names empty panics later in parse; ASCII names of the matching
/// character lengths, not both empty, are exactly the inputs that cannot
/// trip either.
#[verifier::external_body]
fn getopts_optopt(opts: &mut getopts::Options, short: &str, long: &str, desc: &str, hint: &str)
    requires
        vstd::string::is_ascii(short),
        vstd::string::is_ascii(long),
        short@.len() <= 1,
        long@.len() != 1,
        short@.len() + long@.len() > 0,
{
    opts.optopt(short, long, desc, hint);
}

/// Relies on getopts::Options::optflag: registers a flag option, under the
/// same name conditions as `getopts_optopt`.
#[verifier::external_body]
fn getopts_optflag(opts: &mut getopts::Options, short: &str, long: &str, desc: &str)
    requires
        vstd::string::is_ascii(short),
        vstd::string::is_ascii(long),
        short@.len() <= 1,
        long@.len() != 1,
        short@.len() + long@.len() > 0,
{
    opts.optflag(short, long, desc);
}

/// Relies on getopts::Options::parse over the standard option set, which
/// the `StdOptions` parameter carries by construction. For that fixed set,
/// success is a function of the arguments alone; a failure is reported with
/// its textual reason.
#[verifier::external_body]
fn parse_std(opts: &StdOptions, args: Vec<String>) -> (r: Result<StdMatches, String>)
    ensures
        r is Ok <==> std_parse_ok(arg_views(args@)),
        r matches Ok(m) ==> m.spec_args() == arg_views(args@),
{
    let kept = args.clone();
    match opts.o.parse(args) {
        Ok(m) => Ok(StdMatches { m, args: kept }),
        Err(e) => Err(format!("{}", e)),
    }
}

/// Relies on getopts::Matches::opt_str: the argument of the named option.
/// The lookup panics on a name outside the registered set, so only the
/// standard names are admitted; for them the result is a function of the
/// parsed arguments alone.
#[verifier::external_body]
fn matches_opt_str(m: &StdMatches, name: &str) -> (r: Option<String>)
    requires
        is_std_option_name(name@),
    ensures
        match r {
            Some(t) => std_opt_str(m.spec_args(), name@) == Some(t@),
            None => std_opt_str(m.spec_args(), name@) is None,
        },
{
    m.m.opt_str(name)
}

/// Relies on getopts::Matches::opt_present: whether the named option
/// occurred, under the same conditions as `matches_opt_str`.
#[verifier::external_body]
fn matches_opt_present(m: &StdMatches, name: &str) -> (r: bool)
    requires
        is_std_option_name(name@),
    ensures
        r == std_opt_present(m.spec_args(), name@),
{
    m.m.opt_present(name)
}

/// Whether every byte is an ASCII decimal digit.
pub open spec fn all_digits(b: Seq<u8>) -> bool {
    forall|i: int| 0 <= i < b.len() ==> 48 <= #[trigger] b[i] <= 57
}

/// The number a run of ASCII decimal digit bytes denotes.
pub open spec fn digits_val(b: Seq<u8>) -> int
    decreases b.len(),
{
    if b.len() == 0 {
        0
    } else {
        digits_val(b.drop_last()) * 10 + (b.last() - 48)
    }
}

/// Whether a character sequence is one or more decimal digits.
pub open spec fn chars_are_number(s: Seq<char>) -> bool {
    s.len() > 0 && forall|i: int| 0 <= i < s.len() ==> '0' <= #[trigger] s[i] <= '9'
}

/// The number a run of decimal digit characters denotes.
pub open spec fn chars_val(s: Seq<char>) -> int
    decreases s.len(),
{
    if s.len() == 0 {
        0
    } else {
        chars_val(s.drop_last()) * 10 + (s.last() as int - 48)
    }
}

/// A run of digits denotes a number, never a negative value.
proof fn lemma_digits_val_nonneg(b: Seq<u8>)
    requires
        all_digits(b),
    ensures
        digits_val(b) >= 0,
    decreases b.len(),
{
    if b.len() > 0 {
        assert(all_digits(b.drop_last()));
        lemma_digits_val_nonneg(b.drop_last());
        assert(digits_val(b.drop_last()) * 10 >= 0) by (nonlinear_arith)
            requires
                digits_val(b.drop_last()) >= 0,
        ;
    }
}

/// Appending digits never shrinks the value.
proof fn lemma_digits_val_monotonic(b: Seq<u8>, i: int)
    requires
        0 <= i <= b.len(),
        all_digits(b),
    ensures
        digits_val(b.subrange(0, i)) <= digits_val(b),
    decreases b.len() - i,
{
    if i < b.len() {
        let cur = b.subrange(0, i);
        let next = b.subrange(0, i + 1);
        assert(next.drop_last() =~= cur);
        assert(next.last() == b[i]);
        assert(digits_val(next) == digits_val(cur) * 10 + (b[i] - 48));
        assert(all_digits(cur));
        lemma_digits_val_nonneg(cur);
        assert(digits_val(cur) <= digits_val(cur) * 10) by (nonlinear_arith)
            requires
                digits_val(cur) >= 0,
        ;
        lemma_digits_val_monotonic(b, i + 1);
        assert(b.subrange(0, b.len() as int) =~= b);
    } else {
        assert(b.subrange(0, i) =~= b);
    }
}

/// For ASCII text, the byte and character readings of a digit run agree.
proof fn lemma_chars_bytes_number(s: Seq<char>, b: Seq<u8>)
    requires
        b.len() == s.len(),
        forall|i: int| 0 <= i < s.len() ==> #[trigger] b[i] == s[i] as u8,
        is_ascii_chars(s),
    ensures
        chars_are_number(s) <==> (b.len() > 0 && all_digits(b)),
        chars_are_number(s) ==> chars_val(s) == digits_val(b),
    decreases s.len(),
{
    assert forall|i: int| 0 <= i < s.len() implies (48 <= #[trigger] b[i] <= 57 <==> '0' <= s[i]
        <= '9') by {
        assert(b[i] == s[i] as u8);
        assert(s[i] <= '\u{7f}');
        assert(s[i] as u8 == s[i] as int);
    }
    if chars_are_number(s) {
        assert forall|i: int| 0 <= i < b.len() implies 48 <= #[trigger] b[i] <= 57 by {
            assert('0' <= s[i] <= '9');
        }
    }
    if b.len() > 0 && all_digits(b) {
        assert forall|i: int| 0 <= i < s.len() implies '0' <= #[trigger] s[i] <= '9' by {
            assert(48 <= b[i] <= 57);
        }
    }
    if s.len() > 0 && chars_are_number(s) {
        if s.len() == 1 {
            assert(b.drop_last() =~= Seq::<u8>::empty());
            assert(s.drop_last() =~= Seq::<char>::empty());
            assert(b.last() == s.last() as u8);
            assert(s.last() as u8 == s.last() as int);
        } else {
            assert(is_ascii_chars(s.drop_last()));
            assert forall|i: int| 0 <= i < s.len() - 1 implies #[trigger] b.drop_last()[i]
                == s.drop_last()[i] as u8 by {
                assert(b[i] == s[i] as u8);
            }
            assert(chars_are_number(s.drop_last()));
            lemma_chars_bytes_number(s.drop_last(), b.drop_last());
            assert(b.last() == s.last() as u8);
            assert(s.last() as u8 == s.last() as int);
        }
    }
}

/// Parse an ASCII decimal number from bytes: `Some` exactly when the bytes
/// are one or more digits denoting a value that fits in `usize`.
#[verifier::loop_isolation(false)]
pub fn parse_usize(b: &[u8]) -> (r: Option<usize>)
    ensures
        match r {
            Some(v) => b@.len() > 0 && all_digits(b@) && v == digits_val(b@),
            None => b@.len() == 0 || !all_digits(b@) || digits_val(b@) > usize::MAX,
        },
{
    if b.len() == 0 {
        return None;
    }
    let mut acc: usize = 0;
    let mut i: usize = 0;
    while i < b.len()
        invariant
            i <= b@.len(),
            all_digits(b@.subrange(0, i as int)),
            acc == digits_val(b@.subrange(0, i as int)),
        decreases b@.len() - i,
    {
        let ghost prefix = b@.subrange(0, i as int);
        let c = b[i];
        if c < 48 || c > 57 {
            return None;
        }
        let d = (c - 48) as usize;
        if acc > (usize::MAX - d) / 10 {
            // The next prefix would exceed the machine limit, so the whole
            // run does too.
            proof {
                let next = b@.subrange(0, i as int + 1);
                assert(next.drop_last() =~= prefix);
                assert(next.last() == b@[i as int]);
                assert(digits_val(next) == acc * 10 + d);
                assert(acc * 10 + d > usize::MAX) by (nonlinear_arith)
                    requires
                        acc > (usize::MAX - d) / 10,
                        d <= 9,
                ;
                assert(all_digits(next));
                if all_digits(b@) {
                    lemma_digits_val_monotonic(b@, i as int + 1);
                }
            }
            return None;
        }
        proof {
            assert(acc * 10 + d <= usize::MAX) by (nonlinear_arith)
                requires
                    acc <= (usize::MAX - d) / 10,
                    d <= 9,
            ;
        }
        acc = acc * 10 + d;
        i = i + 1;
        proof {
            let next = b@.subrange(0, i as int);
            assert(next.drop_last() =~= prefix);
            assert(next.last() == b@[i - 1]);
        }
    }
    proof {
        assert(b@.subrange(0, b@.len() as int) =~= b@);
    }
    Some(acc)
}

/// Parse an option argument as a decimal number: `Some` exactly when the
/// text is one or more digits denoting a value that fits in `usize`.
pub fn parse_count(text: &str) -> (r: Option<usize>)
    ensures
        match r {
            Some(v) => chars_are_number(text@) && chars_val(text@) <= usize::MAX && v == chars_val(
                text@,
            ),
            None => !chars_are_number(text@) || chars_val(text@) > usize::MAX,
        },
{
    if !text.is_ascii() {
        proof {
            // A character above ASCII is not a digit.
            if chars_are_number(text@) {
                assert forall|i: int| 0 <= i < text@.len() implies #[trigger] text@[i]
                    <= '\u{7f}' by {
                    assert('0' <= text@[i] <= '9');
                }
                assert(is_ascii_chars(text@));
            }
        }
        return None;
    }
    let b = text.as_bytes();
    proof {
        vstd::string::is_ascii_spec_bytes(text);
        is_ascii_chars_encode_utf8(text@);
        assert(b@.len() == text@.len());
        assert forall|i: int| 0 <= i < text@.len() implies #[trigger] b@[i] == text@[i] as u8 by {}
        lemma_chars_bytes_number(text@, b@);
    }
    parse_usize(b)
}

/// The decimal digit character of a value below ten.
pub open spec fn digit_char(d: int) -> char {
    ((d + 48) as u8) as char
}

/// The decimal digit characters of `n`, most significant first.
pub open spec fn dec_chars(n: nat) -> Seq<char>
    decreases n,
{
    if n < 10 {
        seq![digit_char(n as int)]
    } else {
        dec_chars(n / 10) + seq![digit_char((n % 10) as int)]
    }
}

/// The ASCII decimal digit bytes of `n`, most significant first.
pub open spec fn dec_bytes(n: nat) -> Seq<u8>
    decreases n,
{
    if n < 10 {
        seq![(n + 48) as u8]
    } else {
        dec_bytes(n / 10) + seq![(n % 10 + 48) as u8]
    }
}

/// The digit characters of a number are its digit bytes, read as characters.
proof fn lemma_dec_chars_bytes(n: nat)
    ensures
        dec_chars(n) =~= dec_bytes(n).map_values(|b: u8| b as char),
    decreases n,
{
    if n >= 10 {
        lemma_dec_chars_bytes(n / 10);
    }
}

/// Every byte `dec_bytes` produces is an ASCII digit.
proof fn lemma_dec_bytes_digits(n: nat)
    ensures
        all_digits(dec_bytes(n)),
    decreases n,
{
    if n < 10 {
    } else {
        lemma_dec_bytes_digits(n / 10);
        let whole = dec_bytes(n);
        let head = dec_bytes(n / 10);
        assert forall|i: int| 0 <= i < whole.len() implies 48 <= #[trigger] whole[i] <= 57 by {
            if i < head.len() {
                assert(whole[i] == head[i]);
            }
        }
    }
}

/// Write `n` in ASCII decimal.
pub fn decimal_string(n: usize) -> (r: Vec<u8>)
    ensures
        r@ =~= dec_bytes(n as nat),
    decreases n,
{
    if n < 10 {
        let mut r: Vec<u8> = Vec::new();
        r.push((n + 48) as u8);
        r
    } else {
        let mut r = decimal_string(n / 10);
        r.push((n % 10 + 48) as u8);
        proof {
            assert(r@ =~= dec_bytes((n / 10) as nat) + seq![(n % 10 + 48) as u8]);
        }
        r
    }
}

/// Possible configurations of the communication infrastructure.
pub enum Configuration {
    /// Use one thread.
    Thread,
    /// Use one process with the indicated number of worker threads.
    Process(usize),
    /// Expect multiple processes.
    Cluster {
        /// Number of per-process worker threads.
        threads: usize,
        /// Identity of this process.
        process: usize,
        /// Addresses of all processes, as `host:port`.
        addresses: Vec<String>,
        /// Verbosely report connection progress.
        report: bool,
        /// When joining a live cluster, the worker index of the elected donor.
        join: Option<usize>,
    },
}

/// The default address of process `i`: `localhost:2101 + i`.
pub open spec fn default_address(i: int) -> Seq<char> {
    "localhost:"@ + dec_chars((2101 + i) as nat)
}

/// The text of one digit byte.
fn digit_piece(d: u8) -> (p: &'static str)
    requires
        48 <= d <= 57,
    ensures
        p@ =~= seq![d as char],
{
    let p: &'static str = match d {
        48 => "0",
        49 => "1",
        50 => "2",
        51 => "3",
        52 => "4",
        53 => "5",
        54 => "6",
        55 => "7",
        56 => "8",
        _ => "9",
    };
    proof {
        reveal_strlit("0");
        reveal_strlit("1");
        reveal_strlit("2");
        reveal_strlit("3");
        reveal_strlit("4");
        reveal_strlit("5");
        reveal_strlit("6");
        reveal_strlit("7");
        reveal_strlit("8");
        reveal_strlit("9");
        assert(p@ =~= seq![d as char]);
    }
    p
}

/// The default address list: `localhost:2101 + i` for each process.
#[verifier::loop_isolation(false)]
fn default_addresses(processes: usize) -> (r: Vec<String>)
    requires
        processes <= usize::MAX - 2101,
    ensures
        r@.len() == processes,
        forall|i: int| 0 <= i < processes ==> (#[trigger] r@[i])@ == default_address(i),
{
    let mut r: Vec<String> = Vec::new();
    let mut i: usize = 0;
    while i < processes
        invariant
            i <= processes,
            r@.len() == i,
            forall|k: int| 0 <= k < i ==> (#[trigger] r@[k])@ == default_address(k),
        decreases processes - i,
    {
        let mut addr = "localhost:".to_owned();
        let digits = decimal_string(2101 + i);
        proof {
            lemma_dec_bytes_digits((2101 + i) as nat);
            lemma_dec_chars_bytes((2101 + i) as nat);
        }
        let mut j: usize = 0;
        while j < digits.len()
            invariant
                j <= digits@.len(),
                addr@ =~= "localhost:"@ + digits@.subrange(0, j as int).map_values(
                    |b: u8| b as char,
                ),
            decreases digits@.len() - j,
        {
            let d = digits[j];
            let piece = digit_piece(d);
            addr.append(piece);
            j = j + 1;
            proof {
                assert(digits@.subrange(0, j as int).map_values(|b: u8| b as char) =~= digits@.subrange(
                    0,
                    j as int - 1,
                ).map_values(|b: u8| b as char) + seq![digits@[j - 1] as char]);
            }
        }
        proof {
            assert(digits@.subrange(0, digits@.len() as int) =~= digits@);
            assert(addr@ =~= default_address(i as int));
        }
        r.push(addr);
        i = i + 1;
    }
    r
}

/// The worker-thread count the arguments name, `default` when the option is
/// absent or does not denote a number that fits the machine.
pub open spec fn spec_count_or(args: Seq<Seq<char>>, name: Seq<char>, default: usize) -> int {
    match std_opt_str(args, name) {
        Option::None => default as int,
        Option::Some(s) => if chars_are_number(s) && chars_val(s) <= usize::MAX as int {
            chars_val(s)
        } else {
            default as int
        },
    }
}

/// Whether the `-j` option is present but does not denote a usable number.
pub open spec fn spec_bad_join(args: Seq<Seq<char>>) -> bool {
    match std_opt_str(args, "j"@) {
        Option::None => false,
        Option::Some(s) => !(chars_are_number(s) && chars_val(s) <= usize::MAX as int),
    }
}

/// The donor index the `-j` option names, if present and usable.
pub open spec fn spec_join(args: Seq<Seq<char>>) -> Option<int> {
    match std_opt_str(args, "j"@) {
        Option::None => Option::None,
        Option::Some(s) => Option::Some(chars_val(s)),
    }
}

impl Configuration {
    /// The option set understood by `from_args`: worker threads, process
    /// identity, process count, hostfile, donor to join, and a report flag.
    pub fn options() -> getopts::Options {
        proof {
            reveal_strlit("w");
            reveal_strlit("threads");
            reveal_strlit("p");
            reveal_strlit("process");
            reveal_strlit("n");
            reveal_strlit("processes");
            reveal_strlit("h");
            reveal_strlit("hostfile");
            reveal_strlit("j");
            reveal_strlit("join");
            reveal_strlit("r");
            reveal_strlit("report");
        }
        proof {
            assert(vstd::string::is_ascii("w") && vstd::string::is_ascii("threads"));
            assert(vstd::string::is_ascii("p") && vstd::string::is_ascii("process"));
            assert(vstd::string::is_ascii("n") && vstd::string::is_ascii("processes"));
            assert(vstd::string::is_ascii("h") && vstd::string::is_ascii("hostfile"));
            assert(vstd::string::is_ascii("j") && vstd::string::is_ascii("join"));
            assert(vstd::string::is_ascii("r") && vstd::string::is_ascii("report"));
        }
        let mut opts = getopts_new();
        getopts_optopt(&mut opts, "w", "threads", "number of per-process worker threads", "NUM");
        getopts_optopt(&mut opts, "p", "process", "identity of this process", "IDX");
        getopts_optopt(&mut opts, "n", "processes", "number of processes", "NUM");
        getopts_optopt(
            &mut opts,
            "h",
            "hostfile",
            "text file whose lines are process addresses",
            "FILE",
        );
        getopts_optopt(
            &mut opts,
            "j",
            "join",
            "join the cluster with worker NUM as bootstrap server",
            "NUM",
        );
        getopts_optflag(&mut opts, "r", "report", "reports connection progress");
        opts
    }

    /// The standard option set as the pinned `StdOptions` value that
    /// `parse_std` requires.
    fn std_options() -> StdOptions {
        StdOptions { o: Configuration::options() }
    }

    /// The hostfile named by the arguments, if any: the embedding program
    /// reads its lines and passes them to `from_args`.
    pub fn hostfile_arg(args: Vec<String>) -> (r: Option<String>)
        ensures
            !std_parse_ok(arg_views(args@)) ==> r is None,
            std_parse_ok(arg_views(args@)) ==> match r {
                Some(t) => std_opt_str(arg_views(args@), "h"@) == Some(t@),
                None => std_opt_str(arg_views(args@), "h"@) is None,
            },
    {
        let opts = Configuration::std_options();
        let parsed = parse_std(&opts, args);
        match parsed {
            Ok(m) => matches_opt_str(&m, "h"),
            Err(_) => None,
        }
    }

    /// Parse an optional numeric option, with a default when the option is
    /// absent or does not denote a number that fits the machine.
    fn opt_usize_or(m: &StdMatches, name: &str, default: usize) -> (r: usize)
        requires
            is_std_option_name(name@),
        ensures
            r == spec_count_or(m.spec_args(), name@, default),
    {
        match matches_opt_str(m, name) {
            Some(text) => {
                match parse_count(text.as_str()) {
                    Some(v) => v,
                    None => default,
                }
            },
            None => default,
        }
    }

    /// Construct a configuration from textual arguments, plus the lines of
    /// the hostfile when the arguments name one (reading the file is the
    /// embedding program's job).
    ///
    /// Exactly these inputs fail, each with a textual reason: arguments the
    /// standard option set refuses; an explicit zero thread or process
    /// count; an unusable donor index; a process identity at or above the
    /// process count; a hostfile with fewer lines than processes; a process
    /// count beyond the default-address port range. Otherwise one process
    /// and one thread yield `Thread`, one process and more threads yield
    /// `Process`, and more processes yield `Cluster` with the addresses
    /// taken from the hostfile lines or defaulted to `localhost:2101 + i`.
    pub fn from_args(args: Vec<String>, hostfile_lines: Option<Vec<String>>) -> (r: Result<
        Configuration,
        String,
    >)
        ensures
            ({
                let av = arg_views(args@);
                let threads = spec_count_or(av, "w"@, 1);
                let process = spec_count_or(av, "p"@, 0);
                let processes = spec_count_or(av, "n"@, 1);
                &&& (!std_parse_ok(av) ==> r is Err)
                &&& (std_parse_ok(av) && (threads == 0 || processes == 0 || spec_bad_join(av)
                    || process >= processes) ==> r is Err)
                &&& (std_parse_ok(av) && threads >= 1 && processes >= 1 && !spec_bad_join(av)
                    && process < processes ==> {
                    if processes > 1 {
                        match hostfile_lines {
                            Some(lines) => {
                                if lines@.len() < processes {
                                    r is Err
                                } else {
                                    (r matches Ok(c) && (c matches Configuration::Cluster {
                                        threads: t2,
                                        process: p2,
                                        addresses: a2,
                                        report: rep2,
                                        join: j2,
                                    } && t2 == threads && p2 == process && a2@.len() == processes
                                        && (forall|i: int|
                                        0 <= i < processes ==> #[trigger] a2@[i] == lines@[i])
                                        && rep2 == std_opt_present(av, "r"@) && (match j2 {
                                        Some(d) => spec_join(av) == Option::Some(d as int),
                                        None => spec_join(av) is None,
                                    })))
                                }
                            },
                            None => {
                                if processes > usize::MAX - 2101 {
                                    r is Err
                                } else {
                                    (r matches Ok(c) && (c matches Configuration::Cluster {
                                        threads: t2,
                                        process: p2,
                                        addresses: a2,
                                        report: rep2,
                                        join: j2,
                                    } && t2 == threads && p2 == process && a2@.len() == processes
                                        && (forall|i: int|
                                        0 <= i < processes ==> (#[trigger] a2@[i])@
                                            == default_address(i)) && rep2 == std_opt_present(
                                        av,
                                        "r"@,
                                    ) && (match j2 {
                                        Some(d) => spec_join(av) == Option::Some(d as int),
                                        None => spec_join(av) is None,
                                    })))
                                }
                            },
                        }
                    } else if threads > 1 {
                        (r matches Ok(c) && (c matches Configuration::Process(t2) && t2 == threads))
                    } else {
                        (r matches Ok(c) && c is Thread)
                    }
                })
            }),
    {
        let opts = Configuration::std_options();
        let parsed = parse_std(&opts, args);
        let m = match parsed {
            Ok(m) => m,
            Err(e) => {
                return Err(e);
            },
        };
        let threads = Configuration::opt_usize_or(&m, "w", 1);
        let process = Configuration::opt_usize_or(&m, "p", 0);
        let processes = Configuration::opt_usize_or(&m, "n", 1);
        if threads == 0 || processes == 0 {
            return Err("worker and process counts must be at least one".to_owned());
        }
        let report = matches_opt_present(&m, "r");
        let join = match matches_opt_str(&m, "j") {
            Some(text) => {
                match parse_count(text.as_str()) {
                    Some(v) => Some(v),
                    None => {
                        return Err("cannot parse the donor worker index".to_owned());
                    },
                }
            },
            None => None,
        };
        if process >= processes {
            return Err("the process identity must be below the process count".to_owned());
        }
        if processes > 1 {
            let addresses = match hostfile_lines {
                Some(lines) => {
                    if lines.len() < processes {
                        return Err("the hostfile holds fewer addresses than processes".to_owned());
                    }
                    let mut taken = lines;
                    taken.truncate(processes);
                    taken
                },
                None => {
                    if processes > usize::MAX - 2101 {
                        return Err("too many processes for the default port range".to_owned());
                    }
                    default_addresses(processes)
                },
            };
            Ok(Configuration::Cluster { threads, process, addresses, report, join })
        } else if threads > 1 {
            Ok(Configuration::Process(threads))
        } else {
            Ok(Configuration::Thread)
        }
    }

    /// Assemble the allocator builders the configuration describes, one per
    /// worker thread of this process; the embedding program moves each into
    /// its worker thread and completes it there. Exactly the malformed
    /// shapes fail: a zero worker count, a process identity at or above the
    /// process count, or a worker total beyond the machine.
    pub fn try_build(self) -> (r: Result<Vec<GenericBuilder>, String>)
        ensures
            match r {
                Ok(bs) => {
                    &&& (forall|i: int| 0 <= i < bs@.len() ==> (#[trigger] bs@[i]).valid())
                    &&& match self {
                        Configuration::Thread => bs@.len() == 1 && bs@[0] is Thread,
                        Configuration::Process(t) => t >= 1 && bs@.len() == t && forall|i: int|
                            0 <= i < t ==> (#[trigger] bs@[i] matches GenericBuilder::Process(pb)
                                && pb.index == i && pb.peers == t),
                        Configuration::Cluster { threads, process, addresses, .. } => {
                            &&& threads >= 1
                            &&& (process as int) < addresses@.len()
                            &&& bs@.len() == threads
                            &&& forall|i: int|
                                0 <= i < threads ==> (#[trigger] bs@[i] matches GenericBuilder::ZeroCopy(
                                    zb,
                                ) && zb.local_index == i && zb.threads == threads && zb.process
                                    == process && zb.processes == addresses@.len()
                                    && zb.queue_bound == DEFAULT_QUEUE_BOUND)
                        },
                    }
                },
                Err(_) => match self {
                    Configuration::Thread => false,
                    Configuration::Process(t) => t == 0,
                    Configuration::Cluster { threads, process, addresses, .. } => threads == 0 || (
                    process as int) >= addresses@.len() || addresses@.len() > usize::MAX as int
                        / threads as int,
                },
            },
    {
        match self {
            Configuration::Thread => {
                let mut bs: Vec<GenericBuilder> = Vec::new();
                bs.push(GenericBuilder::Thread(ThreadBuilder));
                Ok(bs)
            },
            Configuration::Process(threads) => {
                if threads == 0 {
                    return Err("a process configuration needs at least one worker".to_owned());
                }
                let mut bs: Vec<GenericBuilder> = Vec::new();
                let mut i: usize = 0;
                while i < threads
                    invariant
                        i <= threads,
                        bs@.len() == i,
                        threads >= 1,
                        forall|j: int|
                            0 <= j < i ==> (#[trigger] bs@[j] matches GenericBuilder::Process(pb)
                                && pb.index == j && pb.peers == threads),
                    decreases threads - i,
                {
                    bs.push(GenericBuilder::Process(ProcessBuilder { index: i, peers: threads }));
                    i = i + 1;
                }
                proof {
                    assert(forall|j: int| 0 <= j < threads ==> (#[trigger] bs@[j]).valid());
                }
                Ok(bs)
            },
            Configuration::Cluster { threads, process, addresses, report: _, join: _ } => {
                let processes = addresses.len();
                if threads == 0 {
                    return Err("a cluster configuration needs at least one worker".to_owned());
                }
                if process >= processes {
                    return Err("the process identity must be below the process count".to_owned());
                }
                if processes > usize::MAX / threads {
                    return Err("too many workers for this machine".to_owned());
                }
                proof {
                    assert(threads * processes <= usize::MAX) by (nonlinear_arith)
                        requires
                            threads >= 1,
                            processes <= usize::MAX as int / threads as int,
                    ;
                }
                let mut bs: Vec<GenericBuilder> = Vec::new();
                let mut i: usize = 0;
                while i < threads
                    invariant
                        i <= threads,
                        bs@.len() == i,
                        threads * processes <= usize::MAX,
                        process < processes,
                        forall|j: int|
                            0 <= j < i ==> (#[trigger] bs@[j] matches GenericBuilder::ZeroCopy(zb)
                                && zb.local_index == j && zb.threads == threads && zb.process
                                == process && zb.processes == processes && zb.queue_bound
                                == DEFAULT_QUEUE_BOUND),
                    decreases threads - i,
                {
                    bs.push(
                        GenericBuilder::ZeroCopy(
                            ZeroCopyBuilder {
                                local_index: i,
                                threads,
                                process,
                                processes,
                                queue_bound: DEFAULT_QUEUE_BOUND,
                            },
                        ),
                    );
                    i = i + 1;
                }
                proof {
                    assert forall|j: int| 0 <= j < threads implies (#[trigger] bs@[j]).valid() by {
                        assert(bs@[j] matches GenericBuilder::ZeroCopy(zb) && (zb.local_index == j
                            && zb.threads == threads && zb.processes == processes));
                    }
                }
                Ok(bs)
            },
        }
    }
}

} // verus!
