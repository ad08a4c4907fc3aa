//! Command-line options of the query commands, and decimal numbers as the
//! standard library parses them.

use vstd::prelude::*;
use crate::doc::opt_view;
use crate::source::{decimal, digit_char};
use crate::text::{chars_of, is_digit, str_eq};

verus! {

// ---------------------------------------------------------------------------
// Decimal numbers
// ---------------------------------------------------------------------------

/// The value of a string of decimal digits.
pub open spec fn digits_value(d: Seq<char>) -> nat
    decreases d.len(),
{
    if d.len() == 0 {
        0
    } else {
        digits_value(d.drop_last()) * 10 + (d.last() as int - '0' as int) as nat
    }
}

/// Every character of `d` is a decimal digit.
pub open spec fn all_digits(d: Seq<char>) -> bool {
    forall|i: int| 0 <= i < d.len() ==> is_digit(#[trigger] d[i])
}

/// `str::parse` of an unsigned integer type whose largest value is `max`:
/// an optional `+` and one or more decimal digits whose value is at most
/// `max`; anything else is refused.
pub open spec fn parse_decimal(s: Seq<char>, max: nat) -> Option<nat> {
    let d = if s.len() > 0 && s[0] == '+' {
        s.drop_first()
    } else {
        s
    };
    if d.len() == 0 || !all_digits(d) || digits_value(d) > max {
        None
    } else {
        Some(digits_value(d))
    }
}

/// Parses `s` as `parse_decimal` says, for a type whose largest value is `max`.
pub fn parse_decimal_exec(s: &[char], max: u64) -> (r: Option<u64>)
    ensures
        match parse_decimal(s@, max as nat) {
            Some(v) => r == Some(v as u64),
            None => r is None,
        },
{
    let start: usize = if s.len() > 0 && s[0] == '+' {
        1
    } else {
        0
    };
    let ghost d = if s@.len() > 0 && s@[0] == '+' {
        s@.drop_first()
    } else {
        s@
    };
    assert(d =~= s@.skip(start as int));
    if start == s.len() {
        return None;
    }
    let mut v: u64 = 0;
    let mut over = false;
    let mut i: usize = start;
    assert(d.take(0) =~= Seq::<char>::empty());
    while i < s.len()
        invariant
            start <= i <= s@.len(),
            d =~= s@.skip(start as int),
            d == if s@.len() > 0 && s@[0] == '+' {
                s@.drop_first()
            } else {
                s@
            },
            all_digits(d.take(i - start)),
            over ==> digits_value(d.take(i - start)) > max,
            !over ==> v == digits_value(d.take(i - start)) && v <= max,
        decreases s@.len() - i,
    {
        let c = s[i];
        if !('0' <= c && c <= '9') {
            assert(d[i - start] == c);
            assert(!is_digit(d[i - start]));
            assert(!all_digits(d));
            return None;
        }
        let digit = (c as u32 - '0' as u32) as u64;
        assert(d.take(i + 1 - start).drop_last() =~= d.take(i - start));
        assert(d.take(i + 1 - start).last() == c);
        if !over {
            let w: u128 = v as u128 * 10 + digit as u128;
            if w > max as u128 {
                over = true;
            } else {
                v = w as u64;
            }
        }
        i = i + 1;
    }
    assert(d.take(s@.len() - start) =~= d);
    if over {
        None
    } else {
        Some(v)
    }
}

// ---------------------------------------------------------------------------
// Options
// ---------------------------------------------------------------------------

/// The options of a query command.
#[derive(Debug)]
pub struct Options {
    /// The arguments that are no option, in order.
    pub positionals: Vec<String>,
    /// How many docs to list at most.
    pub limit: usize,
    /// Read the docs from GitHub instead of the local checkout.
    pub remote: bool,
    /// Fetch after the command whatever the time of the last fetch.
    pub refresh: bool,
    /// Do not fetch after the command.
    pub no_fetch: bool,
    pub guild: Option<String>,
    pub status: Option<String>,
    pub doc_type: Option<String>,
}

/// The value of an `Options`.
pub struct OptionsView {
    pub positionals: Seq<Seq<char>>,
    pub limit: nat,
    pub remote: bool,
    pub refresh: bool,
    pub no_fetch: bool,
    pub guild: Option<Seq<char>>,
    pub status: Option<Seq<char>>,
    pub doc_type: Option<Seq<char>>,
}

/// The characters of each string.
pub open spec fn strings(v: Seq<String>) -> Seq<Seq<char>> {
    v.map_values(|s: String| s@)
}

impl View for Options {
    type V = OptionsView;

    open spec fn view(&self) -> OptionsView {
        OptionsView {
            positionals: strings(self.positionals@),
            limit: self.limit as nat,
            remote: self.remote,
            refresh: self.refresh,
            no_fetch: self.no_fetch,
            guild: opt_view(self.guild),
            status: opt_view(self.status),
            doc_type: opt_view(self.doc_type),
        }
    }
}

/// The number of docs listed when `--limit` gives no number.
pub open spec fn default_limit() -> nat {
    20
}

/// The options before any argument is read.
pub open spec fn initial_options() -> OptionsView {
    OptionsView {
        positionals: seq![],
        limit: default_limit(),
        remote: false,
        refresh: false,
        no_fetch: false,
        guild: None,
        status: None,
        doc_type: None,
    }
}

/// Argument `i`, if there is one.
pub open spec fn arg_at(args: Seq<Seq<char>>, i: int) -> Option<Seq<char>> {
    if 0 <= i < args.len() {
        Some(args[i])
    } else {
        None
    }
}

/// The limit that `--limit` followed by `value` sets.
pub open spec fn limit_from(value: Option<Seq<char>>) -> nat {
    match value {
        Some(v) => match parse_decimal(v, usize::MAX as nat) {
            Some(n) => n,
            None => default_limit(),
        },
        None => default_limit(),
    }
}

/// The options `o` updated by the arguments from index `i` on. An option
/// that takes a value takes the next argument, or none when it is the
/// last one; every argument that is no option is a positional.
pub open spec fn parse_from(args: Seq<Seq<char>>, i: int, o: OptionsView) -> OptionsView
    decreases args.len() + 1 - i,
{
    if i < 0 || i >= args.len() {
        o
    } else {
        let a = args[i];
        if a == "--remote"@ {
            parse_from(args, i + 1, OptionsView { remote: true, ..o })
        } else if a == "--refresh"@ {
            parse_from(args, i + 1, OptionsView { refresh: true, ..o })
        } else if a == "--no-fetch"@ {
            parse_from(args, i + 1, OptionsView { no_fetch: true, ..o })
        } else if a == "--guild"@ {
            parse_from(args, i + 2, OptionsView { guild: arg_at(args, i + 1), ..o })
        } else if a == "--status"@ {
            parse_from(args, i + 2, OptionsView { status: arg_at(args, i + 1), ..o })
        } else if a == "--type"@ {
            parse_from(args, i + 2, OptionsView { doc_type: arg_at(args, i + 1), ..o })
        } else if a == "--limit"@ {
            parse_from(args, i + 2, OptionsView { limit: limit_from(arg_at(args, i + 1)), ..o })
        } else {
            parse_from(args, i + 1, OptionsView { positionals: o.positionals.push(a), ..o })
        }
    }
}

/// The options that the arguments `args` of a query command give.
pub open spec fn options_of(args: Seq<Seq<char>>) -> OptionsView {
    parse_from(args, 0, initial_options())
}

/// The value that follows the option at `i`, and the index after it.
fn value_after(args: &Vec<String>, i: usize) -> (r: (Option<String>, usize))
    requires
        i < args@.len(),
    ensures
        opt_view(r.0) == arg_at(strings(args@), i + 1),
        r.1 == if i + 2 <= args@.len() {
            i + 2
        } else {
            args@.len() as int
        },
{
    if i < args.len() - 1 {
        (Some(args[i + 1].clone()), i + 2)
    } else {
        (None, args.len())
    }
}

/// Reads the options of a query command from its arguments: `--remote`,
/// `--refresh` and `--no-fetch` set flags; `--guild`, `--status`, `--type`
/// and `--limit` take the next argument as their value; every other
/// argument is a positional. A `--limit` without a valid number sets the
/// default of 20. It never fails.
pub fn parse_options(args: Vec<String>) -> (r: Result<Options, String>)
    ensures
        r matches Ok(o) && o@ == options_of(strings(args@)),
{
    let ghost a = strings(args@);
    let mut options = Options {
        positionals: Vec::new(),
        limit: 20,
        remote: false,
        refresh: false,
        no_fetch: false,
        guild: None,
        status: None,
        doc_type: None,
    };
    assert(strings(options.positionals@) =~= Seq::<Seq<char>>::empty());
    assert(options@ =~= initial_options());
    let mut index: usize = 0;
    while index < args.len()
        invariant
            index <= args@.len(),
            a == strings(args@),
            options_of(a) == parse_from(a, index as int, options@),
        decreases args@.len() + 1 - index,
    {
        let arg = args[index].as_str();
        let ghost before = options@;
        if str_eq(arg, "--remote") {
            options.remote = true;
        } else if str_eq(arg, "--refresh") {
            options.refresh = true;
        } else if str_eq(arg, "--no-fetch") {
            options.no_fetch = true;
        } else if str_eq(arg, "--guild") {
            assert(a[index as int] == "--guild"@);
            let ghost i0 = index as int;
            let (value, next) = value_after(&args, index);
            options.guild = value;
            index = next;
            assert(options@ == OptionsView { guild: arg_at(a, i0 + 1), ..before });
            assert(parse_from(a, i0, before) == parse_from(a, i0 + 2, options@));
            assert(parse_from(a, index as int, options@) == parse_from(a, i0 + 2, options@));
            continue;
        } else if str_eq(arg, "--status") {
            assert(a[index as int] == "--status"@);
            let ghost i0 = index as int;
            let (value, next) = value_after(&args, index);
            options.status = value;
            index = next;
            assert(options@ == OptionsView { status: arg_at(a, i0 + 1), ..before });
            assert(parse_from(a, i0, before) == parse_from(a, i0 + 2, options@));
            assert(parse_from(a, index as int, options@) == parse_from(a, i0 + 2, options@));
            continue;
        } else if str_eq(arg, "--type") {
            assert(a[index as int] == "--type"@);
            let (value, next) = value_after(&args, index);
            options.doc_type = value;
            index = next;
            continue;
        } else if str_eq(arg, "--limit") {
            assert(a[index as int] == "--limit"@);
            let (value, next) = value_after(&args, index);
            index = next;
            options.limit = match value {
                Some(v) => match parse_decimal_exec(&chars_of(&v), usize::MAX as u64) {
                    Some(n) => n as usize,
                    None => 20,
                },
                None => 20,
            };
            continue;
        } else {
            options.positionals.push(args[index].clone());
            assert(strings(options.positionals@) =~= before.positionals.push(a[index as int]));
        }
        index = index + 1;
    }
    Ok(options)
}

// ---------------------------------------------------------------------------
// Laws
// ---------------------------------------------------------------------------

/// Arguments that do not start with `-` are all positionals, in order, and
/// leave the other options as they were.
pub proof fn lemma_plain_args(args: Seq<Seq<char>>, i: int, o: OptionsView)
    requires
        0 <= i <= args.len(),
        forall|j: int| 0 <= j < args.len() ==> ((#[trigger] args[j]).len() == 0 || args[j][0] != '-'),
    ensures
        parse_from(args, i, o) == (OptionsView { positionals: o.positionals + args.skip(i), ..o }),
    decreases args.len() - i,
{
    reveal_strlit("--remote");
    reveal_strlit("--refresh");
    reveal_strlit("--no-fetch");
    reveal_strlit("--guild");
    reveal_strlit("--status");
    reveal_strlit("--type");
    reveal_strlit("--limit");
    if i < args.len() {
        let a = args[i];
        assert(a != "--remote"@ && a != "--refresh"@ && a != "--no-fetch"@ && a != "--guild"@ && a
            != "--status"@ && a != "--type"@ && a != "--limit"@) by {
            if a.len() > 0 {
                assert(a[0] != '-');
            }
        }
        let o2 = OptionsView { positionals: o.positionals.push(a), ..o };
        lemma_plain_args(args, i + 1, o2);
        assert(o.positionals.push(a) + args.skip(i + 1) =~= o.positionals + args.skip(i));
    } else {
        assert(o.positionals + args.skip(i) =~= o.positionals);
    }
}

/// When no argument starts with `-`, every argument is a positional, in
/// order, and every option keeps its default.
pub proof fn law_plain_args_are_positionals(args: Seq<Seq<char>>)
    requires
        forall|j: int| 0 <= j < args.len() ==> ((#[trigger] args[j]).len() == 0 || args[j][0] != '-'),
    ensures
        options_of(args) == (OptionsView { positionals: args, ..initial_options() }),
{
    lemma_plain_args(args, 0, initial_options());
    assert(Seq::<Seq<char>>::empty() + args.skip(0) =~= args);
}

// ---------------------------------------------------------------------------
// Laws of option values
// ---------------------------------------------------------------------------

/// The decimal notation of a number reads back as that number.
pub proof fn lemma_decimal_reads_back(n: nat)
    ensures
        decimal(n).len() > 0,
        decimal(n)[0] != '+',
        all_digits(decimal(n)),
        digits_value(decimal(n)) == n,
    decreases n,
{
    let d = decimal(n);
    if n < 10 {
        assert(d.drop_last() =~= Seq::<char>::empty());
        assert(d.last() == digit_char(n));
        assert(digit_char(n) as int - '0' as int == n);
        assert(digits_value(d) == digits_value(d.drop_last()) * 10 + (d.last() as int - '0' as int) as nat);
    } else {
        lemma_decimal_reads_back(n / 10);
        let front = decimal(n / 10);
        assert(d.drop_last() =~= front);
        assert(d[0] == front[0]);
        assert(d.last() == digit_char(n % 10));
        assert(digit_char(n % 10) as int - '0' as int == n % 10);
        assert(digits_value(d) == digits_value(front) * 10 + (d.last() as int - '0' as int) as nat);
        assert forall|i: int| 0 <= i < d.len() implies is_digit(#[trigger] d[i]) by {
            if i < front.len() {
                assert(d[i] == front[i]);
            }
        }
        assert(n == (n / 10) * 10 + n % 10);
    }
}

/// The options keep the values of `--guild`, `--status`, `--type` and
/// `--limit` when the arguments from `i` on name none of them.
pub proof fn lemma_values_kept(args: Seq<Seq<char>>, i: int, o: OptionsView)
    requires
        0 <= i,
    ensures
        (forall|j: int| i <= j < args.len() ==> #[trigger] args[j] != "--limit"@) ==> parse_from(
            args,
            i,
            o,
        ).limit == o.limit,
        (forall|j: int| i <= j < args.len() ==> #[trigger] args[j] != "--guild"@) ==> parse_from(
            args,
            i,
            o,
        ).guild == o.guild,
        (forall|j: int| i <= j < args.len() ==> #[trigger] args[j] != "--status"@) ==> parse_from(
            args,
            i,
            o,
        ).status == o.status,
        (forall|j: int| i <= j < args.len() ==> #[trigger] args[j] != "--type"@) ==> parse_from(
            args,
            i,
            o,
        ).doc_type == o.doc_type,
    decreases args.len() + 1 - i,
{
    if i < args.len() {
        let a = args[i];
        if a == "--remote"@ {
            lemma_values_kept(args, i + 1, OptionsView { remote: true, ..o });
        } else if a == "--refresh"@ {
            lemma_values_kept(args, i + 1, OptionsView { refresh: true, ..o });
        } else if a == "--no-fetch"@ {
            lemma_values_kept(args, i + 1, OptionsView { no_fetch: true, ..o });
        } else if a == "--guild"@ {
            lemma_values_kept(args, i + 2, OptionsView { guild: arg_at(args, i + 1), ..o });
        } else if a == "--status"@ {
            lemma_values_kept(args, i + 2, OptionsView { status: arg_at(args, i + 1), ..o });
        } else if a == "--type"@ {
            lemma_values_kept(args, i + 2, OptionsView { doc_type: arg_at(args, i + 1), ..o });
        } else if a == "--limit"@ {
            lemma_values_kept(
                args,
                i + 2,
                OptionsView { limit: limit_from(arg_at(args, i + 1)), ..o },
            );
        } else {
            lemma_values_kept(
                args,
                i + 1,
                OptionsView { positionals: o.positionals.push(a), ..o },
            );
        }
    }
}

proof fn lemma_option_names_distinct()
    ensures
        "--limit"@ != "--remote"@ && "--limit"@ != "--refresh"@ && "--limit"@ != "--no-fetch"@
            && "--limit"@ != "--guild"@ && "--limit"@ != "--status"@ && "--limit"@ != "--type"@,
        "--guild"@ != "--remote"@ && "--guild"@ != "--refresh"@ && "--guild"@ != "--no-fetch"@,
        "--status"@ != "--remote"@ && "--status"@ != "--refresh"@ && "--status"@ != "--no-fetch"@
            && "--status"@ != "--guild"@,
        "--type"@ != "--remote"@ && "--type"@ != "--refresh"@ && "--type"@ != "--no-fetch"@
            && "--type"@ != "--guild"@ && "--type"@ != "--status"@,
{
    reveal_strlit("--remote");
    reveal_strlit("--refresh");
    reveal_strlit("--no-fetch");
    reveal_strlit("--guild");
    reveal_strlit("--status");
    reveal_strlit("--type");
    reveal_strlit("--limit");
    assert("--limit"@.len() != "--remote"@.len());
    assert("--limit"@[2] != "--refresh"@[2]);
    assert("--limit"@.len() != "--no-fetch"@.len());
    assert("--limit"@[2] != "--guild"@[2]);
    assert("--limit"@.len() != "--status"@.len());
    assert("--limit"@[2] != "--type"@[2]);
    assert("--guild"@.len() != "--remote"@.len());
    assert("--guild"@[2] != "--refresh"@[2]);
    assert("--guild"@.len() != "--no-fetch"@.len());
    assert("--status"@[2] != "--remote"@[2]);
    assert("--status"@[2] != "--refresh"@[2]);
    assert("--status"@.len() != "--no-fetch"@.len());
    assert("--status"@[2] != "--guild"@[2]);
    assert("--type"@.len() != "--remote"@.len());
    assert("--type"@.len() != "--refresh"@.len());
    assert("--type"@.len() != "--no-fetch"@.len());
    assert("--type"@[2] != "--guild"@[2]);
    assert("--type"@.len() != "--status"@.len());
}

/// `--limit` followed by the decimal notation of a number `n` that fits a
/// `usize` sets the limit to `n`, whatever other options follow.
pub proof fn law_limit_is_given_number(n: nat, rest: Seq<Seq<char>>)
    requires
        n <= usize::MAX,
        forall|j: int| 0 <= j < rest.len() ==> #[trigger] rest[j] != "--limit"@,
    ensures
        options_of(seq!["--limit"@, decimal(n)] + rest).limit == n,
{
    let args = seq!["--limit"@, decimal(n)] + rest;
    lemma_option_names_distinct();
    lemma_decimal_reads_back(n);
    assert(parse_decimal(decimal(n), usize::MAX as nat) == Some(n));
    assert(args[0] == "--limit"@);
    assert(args[1] == decimal(n));
    let o = OptionsView { limit: limit_from(arg_at(args, 1)), ..initial_options() };
    assert(options_of(args) == parse_from(args, 2, o));
    assert forall|j: int| 2 <= j < args.len() implies #[trigger] args[j] != "--limit"@ by {
        assert(args[j] == rest[j - 2]);
    }
    lemma_values_kept(args, 2, o);
}

/// `--guild`, `--status` or `--type` followed by a value sets that option to
/// the value, whatever other options follow that do not set it again.
pub proof fn law_value_is_given_text(v: Seq<char>, rest: Seq<Seq<char>>)
    ensures
        (forall|j: int| 0 <= j < rest.len() ==> #[trigger] rest[j] != "--guild"@) ==> options_of(
            seq!["--guild"@, v] + rest,
        ).guild == Some(v),
        (forall|j: int| 0 <= j < rest.len() ==> #[trigger] rest[j] != "--status"@) ==> options_of(
            seq!["--status"@, v] + rest,
        ).status == Some(v),
        (forall|j: int| 0 <= j < rest.len() ==> #[trigger] rest[j] != "--type"@) ==> options_of(
            seq!["--type"@, v] + rest,
        ).doc_type == Some(v),
{
    lemma_option_names_distinct();
    let g = seq!["--guild"@, v] + rest;
    let s = seq!["--status"@, v] + rest;
    let t = seq!["--type"@, v] + rest;
    assert(g[0] == "--guild"@ && g[1] == v);
    assert(s[0] == "--status"@ && s[1] == v);
    assert(t[0] == "--type"@ && t[1] == v);
    let og = OptionsView { guild: Some(v), ..initial_options() };
    let os = OptionsView { status: Some(v), ..initial_options() };
    let ot = OptionsView { doc_type: Some(v), ..initial_options() };
    assert(options_of(g) == parse_from(g, 2, og));
    assert(options_of(s) == parse_from(s, 2, os));
    assert(options_of(t) == parse_from(t, 2, ot));
    if forall|j: int| 0 <= j < rest.len() ==> #[trigger] rest[j] != "--guild"@ {
        assert forall|j: int| 2 <= j < g.len() implies #[trigger] g[j] != "--guild"@ by {
            assert(g[j] == rest[j - 2]);
        }
    }
    if forall|j: int| 0 <= j < rest.len() ==> #[trigger] rest[j] != "--status"@ {
        assert forall|j: int| 2 <= j < s.len() implies #[trigger] s[j] != "--status"@ by {
            assert(s[j] == rest[j - 2]);
        }
    }
    if forall|j: int| 0 <= j < rest.len() ==> #[trigger] rest[j] != "--type"@ {
        assert forall|j: int| 2 <= j < t.len() implies #[trigger] t[j] != "--type"@ by {
            assert(t[j] == rest[j - 2]);
        }
    }
    lemma_values_kept(g, 2, og);
    lemma_values_kept(s, 2, os);
    lemma_values_kept(t, 2, ot);
}

} // verus!
