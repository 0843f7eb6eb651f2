//! The command line: which entry point `argv` selects, with its arguments.

use vstd::prelude::*;

use crate::autoscrape::{AutoScrapeOptions, StrategyKind};
use crate::model::opt_view;
use crate::names::vec_eq;
use crate::numbers::{parse_unsigned, parse_usize};
use crate::text::{chars_of, lower_ascii_seq, string_of, to_ascii_lower};

verus! {

/// Every entry point of the program.
#[derive(Debug, PartialEq)]
pub enum Command {
    /// `-import-products <csv>`
    ImportProducts(String),
    /// `-import-brands <csv>`
    ImportBrands(String),
    /// `-export-matrix <csv>`
    ExportMatrix(String),
    /// `-export-products <csv>`
    ExportProducts(String),
    /// `-export-brands <csv>`
    ExportBrands(String),
    /// `-match-products`
    MatchProducts,
    /// `-link-matches`
    LinkMatches,
    /// `-match-brands`
    MatchBrands,
    /// `-report-missing-brands`
    ReportMissingBrands,
    /// `-delete-unbranded`
    DeleteUnbranded,
    /// `-import-unmatched`
    ImportUnmatched,
    /// `-matrix-server`
    MatrixServer,
    /// `-auto-scrape <url> [-strategy <name>] [-button <css>] [-page-param <name>] [-window-threshold <n>] [-headless]`
    AutoScrape(AutoScrapeOptions),
    /// Default: open a browser, optionally at a URL, and poll for captures.
    Browse(Option<String>),
}

/// Auto-scrape options as plain values: url, strategy, button, page
/// parameter, headless, window threshold.
pub type OptionsView = (Seq<char>, Option<StrategyKind>, Option<Seq<char>>, Seq<char>, bool, Option<nat>);

pub open spec fn options_view(o: AutoScrapeOptions) -> OptionsView {
    (
        o.url@,
        o.strategy,
        opt_view(o.button),
        o.page_param@,
        o.headless,
        match o.window_threshold {
            Some(t) => Some(t as nat),
            None => None,
        },
    )
}

/// A command as plain values.
pub enum CommandView {
    ImportProducts(Seq<char>),
    ImportBrands(Seq<char>),
    ExportMatrix(Seq<char>),
    ExportProducts(Seq<char>),
    ExportBrands(Seq<char>),
    MatchProducts,
    LinkMatches,
    MatchBrands,
    ReportMissingBrands,
    DeleteUnbranded,
    ImportUnmatched,
    MatrixServer,
    AutoScrape(OptionsView),
    Browse(Option<Seq<char>>),
}

pub open spec fn command_view(c: Command) -> CommandView {
    match c {
        Command::ImportProducts(p) => CommandView::ImportProducts(p@),
        Command::ImportBrands(p) => CommandView::ImportBrands(p@),
        Command::ExportMatrix(p) => CommandView::ExportMatrix(p@),
        Command::ExportProducts(p) => CommandView::ExportProducts(p@),
        Command::ExportBrands(p) => CommandView::ExportBrands(p@),
        Command::MatchProducts => CommandView::MatchProducts,
        Command::LinkMatches => CommandView::LinkMatches,
        Command::MatchBrands => CommandView::MatchBrands,
        Command::ReportMissingBrands => CommandView::ReportMissingBrands,
        Command::DeleteUnbranded => CommandView::DeleteUnbranded,
        Command::ImportUnmatched => CommandView::ImportUnmatched,
        Command::MatrixServer => CommandView::MatrixServer,
        Command::AutoScrape(o) => CommandView::AutoScrape(options_view(o)),
        Command::Browse(u) => CommandView::Browse(opt_view(u)),
    }
}

/// The index of the first `flag` among `rest[k..]`.
pub open spec fn position_from(rest: Seq<Seq<char>>, flag: Seq<char>, k: int) -> Option<int>
    decreases rest.len() - k,
{
    if k < 0 || k >= rest.len() {
        None
    } else if rest[k] == flag {
        Some(k)
    } else {
        position_from(rest, flag, k + 1)
    }
}

/// The argument that follows the first `flag` in `rest`, if both exist.
pub open spec fn arg_after(rest: Seq<Seq<char>>, flag: Seq<char>) -> Option<Seq<char>> {
    match position_from(rest, flag, 0) {
        Some(i) => if i + 1 < rest.len() {
            Some(rest[i + 1])
        } else {
            None
        },
        None => None,
    }
}

/// Whether `flag` occurs in `rest`.
pub open spec fn has_arg(rest: Seq<Seq<char>>, flag: Seq<char>) -> bool {
    exists|i: int| 0 <= i < rest.len() && rest[i] == flag
}

/// The first argument among `rest[k..]` that does not start with `-`.
pub open spec fn bare_from(rest: Seq<Seq<char>>, k: int) -> Option<Seq<char>>
    decreases rest.len() - k,
{
    if k < 0 || k >= rest.len() {
        None
    } else if !(rest[k].len() > 0 && rest[k][0] == '-') {
        Some(rest[k])
    } else {
        bare_from(rest, k + 1)
    }
}

/// The strategy a `-strategy` name selects (ASCII case ignored); unknown
/// names select scroll-and-click.
pub open spec fn strategy_named(name: Seq<char>) -> StrategyKind {
    let l = lower_ascii_seq(name);
    if l == "scroll-click"@ || l == "scroll_click"@ || l == "scrollclick"@ {
        StrategyKind::ScrollClick
    } else if l == "infinite"@ || l == "infinite-scroll"@ || l == "scroll"@ {
        StrategyKind::InfiniteScroll
    } else if l == "page"@ || l == "pagination"@ {
        StrategyKind::Page
    } else {
        StrategyKind::ScrollClick
    }
}

/// The auto-scrape options that the modifier flags in `rest` give for
/// `url`.
pub open spec fn auto_scrape_options(rest: Seq<Seq<char>>, url: Seq<char>) -> OptionsView {
    let threshold_arg = if arg_after(rest, "-window-threshold"@) is Some {
        arg_after(rest, "-window-threshold"@)
    } else {
        arg_after(rest, "-window"@)
    };
    (
        url,
        match arg_after(rest, "-strategy"@) {
            Some(s) => Some(strategy_named(s)),
            None => None,
        },
        arg_after(rest, "-button"@),
        match arg_after(rest, "-page-param"@) {
            Some(p) => p,
            None => seq![],
        },
        has_arg(rest, "-headless"@),
        match threshold_arg {
            Some(t) => parse_unsigned(t, usize::MAX as nat),
            None => None,
        },
    )
}

/// The command `rest` (the arguments after the program name) selects: the
/// path flags, then the bare flags, then `-auto-scrape`, in this fixed
/// order whatever their order on the line; otherwise browsing, at the first
/// argument that does not start with `-`.
pub open spec fn command_of(rest: Seq<Seq<char>>) -> CommandView {
    if arg_after(rest, "-import-products"@) is Some {
        CommandView::ImportProducts(arg_after(rest, "-import-products"@).unwrap())
    } else if arg_after(rest, "-import-brands"@) is Some {
        CommandView::ImportBrands(arg_after(rest, "-import-brands"@).unwrap())
    } else if arg_after(rest, "-export-matrix"@) is Some {
        CommandView::ExportMatrix(arg_after(rest, "-export-matrix"@).unwrap())
    } else if arg_after(rest, "-export-products"@) is Some {
        CommandView::ExportProducts(arg_after(rest, "-export-products"@).unwrap())
    } else if arg_after(rest, "-export-brands"@) is Some {
        CommandView::ExportBrands(arg_after(rest, "-export-brands"@).unwrap())
    } else if has_arg(rest, "-match-products"@) {
        CommandView::MatchProducts
    } else if has_arg(rest, "-link-matches"@) {
        CommandView::LinkMatches
    } else if has_arg(rest, "-match-brands"@) {
        CommandView::MatchBrands
    } else if has_arg(rest, "-report-missing-brands"@) {
        CommandView::ReportMissingBrands
    } else if has_arg(rest, "-delete-unbranded"@) {
        CommandView::DeleteUnbranded
    } else if has_arg(rest, "-import-unmatched"@) {
        CommandView::ImportUnmatched
    } else if has_arg(rest, "-matrix-server"@) {
        CommandView::MatrixServer
    } else if arg_after(rest, "-auto-scrape"@) is Some {
        CommandView::AutoScrape(auto_scrape_options(rest, arg_after(rest, "-auto-scrape"@).unwrap()))
    } else {
        CommandView::Browse(bare_from(rest, 0))
    }
}

/// The arguments after the program name, as plain values.
pub open spec fn rest_of(args: Seq<String>) -> Seq<Seq<char>> {
    args.skip(1).map_values(|a: String| a@)
}

/// Whether `a` spells `lit`.
fn arg_is(a: &String, lit: &str) -> (r: bool)
    ensures
        r == (a@ == lit@),
{
    vec_eq(&chars_of(a.as_str()), &chars_of(lit))
}

/// The argument after the first `flag` in `args[1..]`.
fn arg_after_exec(args: &[String], flag: &str) -> (r: Option<String>)
    requires
        args@.len() >= 1,
    ensures
        opt_view(r) == arg_after(rest_of(args@), flag@),
{
    let ghost rest = rest_of(args@);
    assert(rest.len() == args@.len() - 1);
    for k in 1..args.len()
        invariant
            rest == rest_of(args@),
            rest.len() == args@.len() - 1,
            position_from(rest, flag@, 0) == position_from(rest, flag@, k - 1),
    {
        assert(rest[k - 1] == args@[k as int]@);
        if arg_is(&args[k], flag) {
            if k + 1 < args.len() {
                assert(rest[k as int] == args@[k + 1]@);
                return Some(args[k + 1].clone());
            }
            return None;
        }
    }
    None
}

/// Whether `flag` occurs in `args[1..]`.
fn has_arg_exec(args: &[String], flag: &str) -> (r: bool)
    requires
        args@.len() >= 1,
    ensures
        r == has_arg(rest_of(args@), flag@),
{
    let ghost rest = rest_of(args@);
    assert(rest.len() == args@.len() - 1);
    for k in 1..args.len()
        invariant
            rest == rest_of(args@),
            rest.len() == args@.len() - 1,
            forall|i: int| 0 <= i < k - 1 ==> rest[i] != flag@,
    {
        assert(rest[k - 1] == args@[k as int]@);
        if arg_is(&args[k], flag) {
            return true;
        }
    }
    false
}

/// The first argument of `args[1..]` that does not start with `-`.
fn first_bare(args: &[String]) -> (r: Option<String>)
    requires
        args@.len() >= 1,
    ensures
        opt_view(r) == bare_from(rest_of(args@), 0),
{
    let ghost rest = rest_of(args@);
    assert(rest.len() == args@.len() - 1);
    for k in 1..args.len()
        invariant
            rest == rest_of(args@),
            rest.len() == args@.len() - 1,
            bare_from(rest, 0) == bare_from(rest, k - 1),
    {
        assert(rest[k - 1] == args@[k as int]@);
        let cs = chars_of(args[k].as_str());
        if !(cs.len() > 0 && cs[0] == '-') {
            return Some(args[k].clone());
        }
    }
    None
}

/// Whether `l` holds the characters of `lit`.
fn spells(l: &Vec<char>, lit: &str) -> (r: bool)
    ensures
        r == (l@ == lit@),
{
    vec_eq(l, &chars_of(lit))
}

/// The strategy a `-strategy` name selects (see [`strategy_named`]).
pub fn strategy_from_name(name: &str) -> (r: StrategyKind)
    ensures
        r == strategy_named(name@),
{
    let cs = chars_of(name);
    let mut l: Vec<char> = Vec::new();
    for k in 0..cs.len()
        invariant
            l@ == lower_ascii_seq(cs@.take(k as int)),
    {
        l.push(to_ascii_lower(cs[k]));
        assert(l@ =~= lower_ascii_seq(cs@.take(k + 1)));
    }
    assert(cs@.take(cs.len() as int) =~= cs@);
    if spells(&l, "scroll-click") || spells(&l, "scroll_click") || spells(&l, "scrollclick") {
        StrategyKind::ScrollClick
    } else if spells(&l, "infinite") || spells(&l, "infinite-scroll") || spells(&l, "scroll") {
        StrategyKind::InfiniteScroll
    } else if spells(&l, "page") || spells(&l, "pagination") {
        StrategyKind::Page
    } else {
        StrategyKind::ScrollClick
    }
}

/// Collects the `-auto-scrape` modifier flags in `args[1..]` into options
/// for `url` (see [`auto_scrape_options`]).
pub fn parse_auto_scrape(args: &[String], url: String) -> (r: AutoScrapeOptions)
    requires
        args@.len() >= 1,
    ensures
        options_view(r) == auto_scrape_options(rest_of(args@), url@),
{
    let strategy = match arg_after_exec(args, "-strategy") {
        Some(s) => Some(strategy_from_name(s.as_str())),
        None => None,
    };
    let button = arg_after_exec(args, "-button");
    let page_param = match arg_after_exec(args, "-page-param") {
        Some(p) => p,
        None => String::new(),
    };
    let threshold_arg = match arg_after_exec(args, "-window-threshold") {
        Some(t) => Some(t),
        None => arg_after_exec(args, "-window"),
    };
    let window_threshold = match threshold_arg {
        Some(t) => parse_usize(t.as_str()),
        None => None,
    };
    let headless = has_arg_exec(args, "-headless");
    AutoScrapeOptions { url, strategy, button, page_param, headless, window_threshold }
}

/// Parses the command line (`args[0]` is the program name; see
/// [`command_of`]).
pub fn parse(args: &[String]) -> (r: Command)
    requires
        args@.len() >= 1,
    ensures
        command_view(r) == command_of(rest_of(args@)),
{
    match arg_after_exec(args, "-import-products") {
        Some(p) => {
            return Command::ImportProducts(p);
        },
        None => {},
    }
    match arg_after_exec(args, "-import-brands") {
        Some(p) => {
            return Command::ImportBrands(p);
        },
        None => {},
    }
    match arg_after_exec(args, "-export-matrix") {
        Some(p) => {
            return Command::ExportMatrix(p);
        },
        None => {},
    }
    match arg_after_exec(args, "-export-products") {
        Some(p) => {
            return Command::ExportProducts(p);
        },
        None => {},
    }
    match arg_after_exec(args, "-export-brands") {
        Some(p) => {
            return Command::ExportBrands(p);
        },
        None => {},
    }
    if has_arg_exec(args, "-match-products") {
        return Command::MatchProducts;
    }
    if has_arg_exec(args, "-link-matches") {
        return Command::LinkMatches;
    }
    if has_arg_exec(args, "-match-brands") {
        return Command::MatchBrands;
    }
    if has_arg_exec(args, "-report-missing-brands") {
        return Command::ReportMissingBrands;
    }
    if has_arg_exec(args, "-delete-unbranded") {
        return Command::DeleteUnbranded;
    }
    if has_arg_exec(args, "-import-unmatched") {
        return Command::ImportUnmatched;
    }
    if has_arg_exec(args, "-matrix-server") {
        return Command::MatrixServer;
    }
    match arg_after_exec(args, "-auto-scrape") {
        Some(url) => {
            return Command::AutoScrape(parse_auto_scrape(args, url));
        },
        None => {},
    }
    Command::Browse(first_bare(args))
}

/// Whether the command line carries the auto-accept flag (`-yes` or `-y`)
/// after the program name. It never selects a command by itself.
pub fn wants_yes(args: &[String]) -> (r: bool)
    ensures
        r == exists|i: int| 1 <= i < args@.len() && (args@[i]@ == "-yes"@ || args@[i]@ == "-y"@),
{
    let mut k: usize = 1;
    while k < args.len()
        invariant
            1 <= k,
            forall|i: int| 1 <= i < k && i < args@.len() ==> !(args@[i]@ == "-yes"@ || args@[i]@ == "-y"@),
        decreases args@.len() - k,
    {
        if arg_is(&args[k], "-yes") || arg_is(&args[k], "-y") {
            return true;
        }
        k = k + 1;
    }
    false
}

} // verus!
