//! Terminal presentation: trees, tables, plans, reports and errors as text.

use crate::binary64::{
    fill_blocks, filled_blocks, half_even, lemma_filled_blocks_close, lemma_filled_blocks_monotone,
    lemma_half_even_error, lemma_power_monotone, lemma_power_positive, lemma_power_sum,
    lemma_powers, lemma_rounded_integer, percent_of, percentage, power_of_two, round_half_even,
    round_integer, rounded_integer, two_to, Fraction, Ratio, BAR_PRECISION, LOW,
};
use crate::cleaner::{CleanPlan, CleanReport, CleanTargetDef};
use crate::cli::DEFAULT_TOP;
use crate::errors::{CleanError, DiskPulseError, ParseError, SafetyError, ScanError};
use crate::models::{CleanItemStatus, DirectoryNode, Node, ScanResult};
use crate::palette::{Palette, Style};
use crate::path::PathBuf;
use crate::scanner::{ScanOptions, SortCriterion};
use crate::text::{
    append_repeated, concat, contains, contains_text, decimal, digit_char, digit_char_exec, digits,
    repeated, two_decimals,
};
use crate::width::{display_width as text_width, shown_width};
use vstd::prelude::*;
use vstd::string::*;

verus! {

// ---------------------------------------------------------------------------
// Painted texts
// ---------------------------------------------------------------------------
/// A heading, in color where `colored`.
pub fn heading(text: &str, colored: bool) -> (out: String)
    ensures
        out@ == (Palette { enabled: colored }).painted(Style::CyanThenBold, text@),
{
    Palette { enabled: colored }.paint(Style::CyanThenBold, text)
}

/// A text of minor importance, in color where `colored`.
pub fn dim(text: &str, colored: bool) -> (out: String)
    ensures
        out@ == (Palette { enabled: colored }).painted(Style::Dimmed, text@),
{
    Palette { enabled: colored }.paint(Style::Dimmed, text)
}

/// A good outcome, in color where `colored`.
pub fn success(text: &str, colored: bool) -> (out: String)
    ensures
        out@ == (Palette { enabled: colored }).painted(Style::Green, text@),
{
    Palette { enabled: colored }.paint(Style::Green, text)
}

/// A warning, in color where `colored`.
pub fn warning(text: &str, colored: bool) -> (out: String)
    ensures
        out@ == (Palette { enabled: colored }).painted(Style::Yellow, text@),
{
    Palette { enabled: colored }.paint(Style::Yellow, text)
}

/// Whether output is colored: `--no-color` wins over the environment, and
/// `NO_COLOR` is honored unless color is explicitly forced back on.
pub fn colors_wanted(no_color_flag: bool, no_color_env: bool, force_color_env: bool) -> (yes: bool)
    ensures
        yes == !(no_color_flag || (no_color_env && !force_color_env)),
{
    !(no_color_flag || (no_color_env && !force_color_env))
}

// ---------------------------------------------------------------------------
// Numbers
// ---------------------------------------------------------------------------
/// The last three digits of `n`.
pub open spec fn three_digits(n: nat) -> Seq<char> {
    seq![digit_char(n / 100 % 10), digit_char(n / 10 % 10), digit_char(n % 10)]
}

/// `n` with a comma before every group of three digits.
pub open spec fn grouped(n: nat) -> Seq<char>
    decreases n,
{
    if n < 1000 {
        digits(n)
    } else {
        grouped(n / 1000) + seq![','] + three_digits(n % 1000)
    }
}

/// Group an integer with thousands separators (e.g. `4821` -> `"4,821"`).
pub fn thousands(value: u64) -> (out: String)
    ensures
        out@ == grouped(value as nat),
    decreases value,
{
    if value < 1000 {
        return decimal(value as u128);
    }
    let mut out = thousands(value / 1000);
    let rest = value % 1000;
    out.push(',');
    out.push(digit_char_exec((rest / 100 % 10) as u8));
    out.push(digit_char_exec((rest / 10 % 10) as u8));
    out.push(digit_char_exec((rest % 10) as u8));
    assert(out@ =~= grouped(value as nat));
    out
}

/// The power of 1024 that a size is shown in, and the number of its unit:
/// the largest that the size reaches, up to petabytes.
pub open spec fn size_scale(n: nat, den: nat, unit: nat) -> (nat, nat)
    decreases 5 - unit,
{
    if unit < 5 && n >= 1024 * den {
        size_scale(n, 1024 * den, unit + 1)
    } else {
        (den, unit)
    }
}

/// The unit of that number.
pub open spec fn unit_name(unit: nat) -> Seq<char> {
    if unit == 0 {
        "B"@
    } else if unit == 1 {
        "KB"@
    } else if unit == 2 {
        "MB"@
    } else if unit == 3 {
        "GB"@
    } else if unit == 4 {
        "TB"@
    } else {
        "PB"@
    }
}

/// A number of tenths with one decimal.
pub open spec fn one_decimal(tenths: nat) -> Seq<char> {
    digits(tenths / 10) + "."@ + seq![digit_char(tenths % 10)]
}

/// A byte count in a unit that suits it, with two decimals; bytes by
/// themselves are whole.
pub open spec fn size_text(bytes: nat) -> Seq<char> {
    if bytes < 1024 {
        digits(bytes) + " B"@
    } else {
        let n = rounded_integer(bytes);
        let (den, unit) = size_scale(n, 1, 0);
        two_decimals(half_even(100 * n, den)) + " "@ + unit_name(unit)
    }
}

fn unit_label(unit: u8) -> (out: &'static str)
    ensures
        out@ == unit_name(unit as nat),
{
    if unit == 0 {
        "B"
    } else if unit == 1 {
        "KB"
    } else if unit == 2 {
        "MB"
    } else if unit == 3 {
        "GB"
    } else if unit == 4 {
        "TB"
    } else {
        "PB"
    }
}

/// Compact two-decimal size label (e.g. `"140.20 KB"`, `"3.80 GB"`).
pub fn size_label(bytes: u64) -> (out: String)
    ensures
        out@ == size_text(bytes as nat),
{
    if bytes < 1024 {
        return concat(decimal(bytes as u128).as_str(), " B");
    }
    let n = round_integer(bytes);
    let mut den: u128 = 1;
    let mut unit: u8 = 0;
    while unit < 5 && n >= 1024 * den
        invariant
            unit <= 5,
            n <= 2 * bytes,
            0 < den <= 0x4_0000_0000_0000,
            unit == 0 ==> den == 1,
            unit == 1 ==> den == 0x400,
            unit == 2 ==> den == 0x10_0000,
            unit == 3 ==> den == 0x4000_0000,
            unit == 4 ==> den == 0x100_0000_0000,
            size_scale(n as nat, 1, 0) == size_scale(n as nat, den as nat, unit as nat),
        decreases 5 - unit,
    {
        den = 1024 * den;
        unit = unit + 1;
    }
    let hundredths = round_half_even(100 * n, den);
    let mut out = decimal(hundredths / 100);
    out.append(".");
    let tail = (hundredths % 100) as u64;
    out.push(digit_char_exec((tail / 10 % 10) as u8));
    out.push(digit_char_exec((tail % 10) as u8));
    assert(hundredths / 10 % 10 == tail / 10 % 10 && hundredths % 10 == tail % 10) by {
        assert(hundredths % 100 / 10 == hundredths / 10 % 10) by (nonlinear_arith);
        assert(hundredths % 100 % 10 == hundredths % 10) by (nonlinear_arith);
    }
    assert(out@ =~= two_decimals(hundredths as nat));
    out.append(" ");
    out.append(unit_label(unit));
    out
}

// ---------------------------------------------------------------------------
// Capacity bars
// ---------------------------------------------------------------------------
/// Blocks in a capacity bar.
pub const BAR_WIDTH: usize = 10;

/// A bar with that many of its blocks filled.
pub open spec fn bar_text(filled: nat) -> Seq<char> {
    repeated('█', filled) + repeated('░', (BAR_WIDTH - filled) as nat)
}

/// The blocks that a percentage fills, given by the bits of its binary64
/// representation: nothing below one percent and nothing that is not a
/// number, everything from a hundred percent on.
pub open spec fn blocks_of_bits(bits: nat) -> nat {
    let exponent = bits / LOW as nat % 2048;
    let fraction = bits % LOW as nat;
    if bits >= 0x8000_0000_0000_0000 {
        0
    } else if exponent == 2047 {
        if fraction == 0 {
            10
        } else {
            0
        }
    } else if exponent >= 1075 {
        10
    } else if exponent < 1023 {
        0
    } else {
        filled_blocks(
            Ratio {
                num: LOW as nat + fraction,
                den: power_of_two((1075 - exponent) as nat),
            },
        )
    }
}

/// Whether bits of a binary64 representation stand for a finite number.
pub open spec fn finite_bits(bits: nat) -> bool {
    bits / LOW as nat % 2048 != 2047
}

/// The number that finite bits stand for, in units of the smallest positive
/// one.
pub open spec fn number_of_bits(bits: nat) -> int {
    let exponent = bits / LOW as nat % 2048;
    let fraction = bits % LOW as nat;
    let magnitude = if exponent == 0 {
        fraction
    } else {
        (LOW as nat + fraction) * power_of_two((exponent - 1) as nat)
    };
    if bits >= 0x8000_0000_0000_0000 {
        -magnitude
    } else {
        magnitude as int
    }
}

/// A larger percentage never fills fewer blocks.
pub proof fn law_larger_fills_no_fewer(a: u64, b: u64)
    requires
        finite_bits(a as nat),
        finite_bits(b as nat),
        number_of_bits(a as nat) <= number_of_bits(b as nat),
    ensures
        blocks_of_bits(a as nat) <= blocks_of_bits(b as nat) <= BAR_WIDTH,
{
    let low = LOW as nat;
    let ea = a as nat / low % 2048;
    let eb = b as nat / low % 2048;
    let na = low + a as nat % low;
    let nb = low + b as nat % low;
    let negative = 0x8000_0000_0000_0000nat;
    assert(power_of_two(0) == 1);
    if a < negative && b < negative && 1023 <= ea < 1075 && 1023 <= eb < 1075 {
        let x = power_of_two((ea - 1) as nat);
        let y = power_of_two((eb - 1) as nat);
        let p = power_of_two((1075 - ea) as nat);
        let q = power_of_two((1075 - eb) as nat);
        let k = power_of_two(1074);
        lemma_power_sum((ea - 1) as nat, (1075 - ea) as nat);
        lemma_power_sum((eb - 1) as nat, (1075 - eb) as nat);
        lemma_power_positive(1074);
        assert((na * q) * k == (na * x) * (p * q)) by (nonlinear_arith)
            requires
                k == x * p,
        ;
        assert((nb * p) * k == (nb * y) * (p * q)) by (nonlinear_arith)
            requires
                k == y * q,
        ;
        assert((na * x) * (p * q) <= (nb * y) * (p * q)) by (nonlinear_arith)
            requires
                na * x <= nb * y,
        ;
        assert(na * q <= nb * p) by (nonlinear_arith)
            requires
                (na * q) * k <= (nb * p) * k,
                k > 0,
        ;
        lemma_filled_blocks_monotone(na, (1075 - ea) as nat, nb, (1075 - eb) as nat);
    } else {
        lemma_number_bounds(a);
        lemma_number_bounds(b);
        lemma_power_monotone(1022, 1074);
        if b < negative && 1023 <= eb < 1075 {
            lemma_filled_blocks_monotone(nb, (1075 - eb) as nat, nb, (1075 - eb) as nat);
        }
    }
}

/// The percentage that finite bits stand for, held between none and a hundred,
/// in the units of [`number_of_bits`].
pub open spec fn clamped_percent(bits: nat) -> int {
    let number = number_of_bits(bits);
    let hundred = 100 * power_of_two(1074);
    if number < 0 {
        0
    } else if number > hundred {
        hundred as int
    } else {
        number
    }
}

/// The count of filled blocks is a tenth of the clamped percentage, rounded to
/// the nearest whole number: ten times the count is off by at most five
/// percent and the 2^44th part of one that rounding may add.
pub proof fn law_blocks_are_a_tenth(bits: u64)
    requires
        finite_bits(bits as nat),
    ensures
        ({
            let one = power_of_two(1074);
            let gap = 10 * (blocks_of_bits(bits as nat) * one) - clamped_percent(bits as nat);
            let bound = 5 * (BAR_PRECISION * one) + one;
            -bound <= gap * BAR_PRECISION <= bound
        }),
{
    let low = LOW as nat;
    let exponent = bits as nat / low % 2048;
    let n = low + bits as nat % low;
    let one = power_of_two(1074);
    let blocks = blocks_of_bits(bits as nat);
    let gap = 10 * (blocks * one) - clamped_percent(bits as nat);
    assert(blocks == 0 ==> blocks * one == 0) by (nonlinear_arith);
    assert(blocks == 10 ==> blocks * one == 10 * one) by (nonlinear_arith);
    lemma_number_bounds(bits);
    lemma_power_positive(1074);
    assert(low * power_of_two(1022) == one) by {
        lemma_powers();
        lemma_power_sum(52, 1022);
    }
    if bits < 0x8000_0000_0000_0000 && 1023 <= exponent < 1075 {
        let p = power_of_two((1075 - exponent) as nat);
        let x = power_of_two((exponent - 1) as nat);
        lemma_power_sum((exponent - 1) as nat, (1075 - exponent) as nat);
        lemma_power_positive((exponent - 1) as nat);
        assert(n < 100 * p <==> n * x < 100 * one) by (nonlinear_arith)
            requires
                one == x * p,
                x > 0,
        ;
        if n < 100 * p {
            lemma_filled_blocks_close(n, (1075 - exponent) as nat);
            let near = 10 * (blocks * p) - n;
            assert(gap == near * x) by (nonlinear_arith)
                requires
                    gap == 10 * (blocks * one) - n * x,
                    near == 10 * (blocks * p) - n,
                    one == x * p,
            ;
            let bound = 5 * (BAR_PRECISION * p) + p;
            assert(-(bound * x) <= gap * BAR_PRECISION <= bound * x) by (nonlinear_arith)
                requires
                    -bound <= near * BAR_PRECISION <= bound,
                    gap == near * x,
                    x > 0,
            ;
            assert(bound * x == 5 * (BAR_PRECISION * one) + one) by (nonlinear_arith)
                requires
                    bound == 5 * (BAR_PRECISION * p) + p,
                    one == x * p,
            ;
        } else {
            assert(n * x >= 100 * one);
            assert(gap == 0);
        }
    } else if bits < 0x8000_0000_0000_0000 && exponent >= 1075 {
        assert(blocks == 10);
        assert(low * one >= 100 * one) by (nonlinear_arith)
            requires
                low >= 100,
        ;
        assert(gap == 0);
    } else {
        assert(blocks == 0);
        assert(-one <= gap <= 0);
    }
}

/// Numbers told apart by their exponents.
proof fn lemma_number_bounds(bits: u64)
    ensures
        ({
            let exponent = bits as nat / LOW as nat % 2048;
            let number = number_of_bits(bits as nat);
            &&& bits >= 0x8000_0000_0000_0000 ==> number <= 0
            &&& bits < 0x8000_0000_0000_0000 ==> number >= 0
            &&& exponent < 1023 ==> number < LOW * power_of_two(1022)
            &&& bits < 0x8000_0000_0000_0000 && exponent >= 1023 ==> number >= LOW * power_of_two(
                1022,
            )
            &&& exponent < 1075 ==> number < LOW * power_of_two(1074)
            &&& bits < 0x8000_0000_0000_0000 && exponent >= 1075 ==> number >= LOW * power_of_two(
                1074,
            )
            &&& LOW * power_of_two(1022) > 0
        }),
{
    let low = LOW as nat;
    let exponent = bits as nat / low % 2048;
    let n = low + bits as nat % low;
    lemma_power_monotone(0, 1022);
    lemma_power_monotone(1022, 1074);
    assert(power_of_two(0) == 1);
    assert(low * power_of_two(1022) >= low) by (nonlinear_arith)
        requires
            power_of_two(1022) >= 1,
    ;
    assert(low * power_of_two(1022) <= low * power_of_two(1074)) by (nonlinear_arith)
        requires
            power_of_two(1022) <= power_of_two(1074),
    ;
    if exponent > 0 {
        let e = (exponent - 1) as nat;
        let p = power_of_two(e);
        lemma_power_positive(e);
        assert(power_of_two(e + 1) == 2 * p);
        assert(low * p <= n * p && n * p < low * (2 * p)) by (nonlinear_arith)
            requires
                low <= n < 2 * low,
                p > 0,
        ;
        if exponent < 1023 {
            lemma_power_monotone(e + 1, 1022);
            lemma_scaled_order(low, power_of_two(e + 1), power_of_two(1022));
        } else {
            lemma_power_monotone(1022, e);
            lemma_scaled_order(low, power_of_two(1022), p);
        }
        if exponent < 1075 {
            lemma_power_monotone(e + 1, 1074);
            lemma_scaled_order(low, power_of_two(e + 1), power_of_two(1074));
        } else {
            lemma_power_monotone(1074, e);
            lemma_scaled_order(low, power_of_two(1074), p);
        }
    }
}

proof fn lemma_scaled_order(c: nat, a: nat, b: nat)
    by (nonlinear_arith)
    requires
        a <= b,
    ensures
        c * a <= c * b,
{
}

fn draw_bar(filled: usize) -> (out: String)
    requires
        filled <= BAR_WIDTH,
    ensures
        out@ == bar_text(filled as nat),
{
    let mut out = String::new();
    append_repeated(&mut out, '█', filled);
    append_repeated(&mut out, '░', BAR_WIDTH - filled);
    assert(out@ =~= bar_text(filled as nat));
    out
}

/// Render a proportional capacity bar of [`BAR_WIDTH`] blocks for the
/// percentage whose binary64 representation has the bits `percent_bits`.
///
/// `0%` -> `░░░░░░░░░░`, `50%` -> `█████░░░░░`, `100%` -> `██████████`.
pub fn capacity_bar(percent_bits: u64) -> (out: String)
    ensures
        out@ == bar_text(blocks_of_bits(percent_bits as nat)),
        blocks_of_bits(percent_bits as nat) <= BAR_WIDTH,
{
    let exponent = percent_bits / 0x10_0000_0000_0000 % 2048;
    let fraction = percent_bits % 0x10_0000_0000_0000;
    let filled: usize = if percent_bits >= 0x8000_0000_0000_0000 {
        0
    } else if exponent == 2047 {
        if fraction == 0 {
            10
        } else {
            0
        }
    } else if exponent >= 1075 {
        10
    } else if exponent < 1023 {
        0
    } else {
        let percent = Fraction {
            num: LOW + fraction as u128,
            den: two_to(1075 - exponent),
        };
        fill_blocks(&percent)
    };
    draw_bar(filled)
}

// ---------------------------------------------------------------------------
// Tree rendering
// ---------------------------------------------------------------------------
/// Bytes in a mebibyte.
pub const MIB: u64 = 1_048_576;

/// Width of the subtle rule separating tree body and summary footer.
pub const SEPARATOR_WIDTH: usize = 80;

/// Size labels tier by absolute magnitude: green below 10 MB, yellow below
/// 500 MB, red above.
pub open spec fn size_style(bytes: nat) -> Style {
    if bytes < 10 * MIB {
        Style::Green
    } else if bytes < 500 * MIB {
        Style::Yellow
    } else {
        Style::Red
    }
}

/// The filled blocks of a bar tier by share of the parent: cyan below 25%,
/// yellow up to 75%, red above.
pub open spec fn bar_style(percent: Ratio) -> Style {
    if percent.num >= 75 * percent.den {
        Style::Red
    } else if percent.num >= 25 * percent.den {
        Style::Yellow
    } else {
        Style::Cyan
    }
}

/// A size label as `palette` shows it.
pub open spec fn painted_size(palette: Palette, bytes: nat) -> Seq<char> {
    palette.painted(size_style(bytes), size_text(bytes))
}

/// A capacity bar as `palette` shows it. Empty blocks stay gray.
pub open spec fn painted_bar(palette: Palette, percent: Ratio) -> Seq<char> {
    let filled = filled_blocks(percent);
    palette.painted(bar_style(percent), repeated('█', filled)) + palette.painted(
        Style::Gray,
        repeated('░', (BAR_WIDTH - filled) as nat),
    )
}

fn paint_size(palette: &Palette, bytes: u64) -> (out: String)
    ensures
        out@ == painted_size(*palette, bytes as nat),
{
    let label = size_label(bytes);
    let style = if bytes < 10 * MIB {
        Style::Green
    } else if bytes < 500 * MIB {
        Style::Yellow
    } else {
        Style::Red
    };
    palette.paint(style, label.as_str())
}

fn paint_bar(palette: &Palette, percent: &Fraction) -> (out: String)
    requires
        percent.fit(),
    ensures
        out@ == painted_bar(*palette, percent@),
{
    let filled = fill_blocks(percent);
    let style = if percent.at_least(75) {
        Style::Red
    } else if percent.at_least(25) {
        Style::Yellow
    } else {
        Style::Cyan
    };
    let mut full = String::new();
    append_repeated(&mut full, '█', filled);
    assert(full@ =~= repeated('█', filled as nat));
    let mut empty = String::new();
    append_repeated(&mut empty, '░', BAR_WIDTH - filled);
    assert(empty@ =~= repeated('░', (BAR_WIDTH - filled) as nat));
    concat(
        palette.paint(style, full.as_str()).as_str(),
        palette.paint(Style::Gray, empty.as_str()).as_str(),
    )
}

/// `text` with trailing blanks up to `width` cells.
pub open spec fn padded(text: Seq<char>, width: nat) -> Seq<char> {
    if shown_width(text) >= width {
        text
    } else {
        text + repeated(' ', (width - shown_width(text)) as nat)
    }
}

/// Pad `text` with trailing blanks to `width` terminal cells, aligning the
/// bar column across siblings.
pub fn pad_right(text: &str, width: usize) -> (out: String)
    ensures
        out@ == padded(text@, width as nat),
{
    let visible = display_width(text);
    let mut out = text.to_owned();
    if visible < width {
        append_repeated(&mut out, ' ', width - visible);
    }
    out
}

/// Terminal cells that `text` occupies: wide characters count double,
/// combining marks and zero-width joiners count for nothing.
pub fn display_width(text: &str) -> (out: usize)
    ensures
        out == shown_width(text@),
{
    text_width(text)
}

/// The width of the widest name among the first `n` nodes.
pub open spec fn widest(list: Seq<Node>, n: nat) -> nat
    decreases n,
{
    if n == 0 || n > list.len() {
        0
    } else {
        let before = widest(list, (n - 1) as nat);
        let this = shown_width(list[n - 1].name);
        if this > before {
            this
        } else {
            before
        }
    }
}

/// The line of one node, from its icon on.
pub open spec fn entry_text(
    palette: Palette,
    node: Node,
    parent_total: nat,
    name_width: nat,
) -> Seq<char> {
    let percent = percentage(node.size, parent_total);
    let name = padded(node.name, name_width);
    let head = (if node.is_dir {
        "📁"@
    } else {
        "📄"@
    }) + " "@ + palette.painted(
        if node.is_dir {
            Style::BoldThenCyan
        } else {
            Style::WhiteThenDimmed
        },
        name,
    ) + " ["@ + painted_bar(palette, percent) + "] "@ + painted_size(palette, node.size) + " ("@
        + one_decimal(half_even(10 * percent.num, percent.den)) + "%)"@;
    let counted = if node.is_dir {
        head + " "@ + palette.painted(
            Style::Dimmed,
            "["@ + grouped(node.dir_count) + " dirs, "@ + grouped(node.file_count) + " files]"@,
        )
    } else {
        head
    };
    counted + "\n"@
}

/// The row that stands for the siblings hidden at one level.
pub open spec fn pruned_row(palette: Palette, entries: nat, bytes: nat) -> Seq<char> {
    palette.painted(
        Style::Dimmed,
        "⋯ and "@ + grouped(entries) + (if entries == 1 {
            " other item ("@
        } else {
            " other items ("@
        }) + size_text(bytes) + " total)"@,
    )
}

/// How the tree is drawn.
pub struct Drawing {
    pub palette: Palette,
    /// Levels below this one are not drawn.
    pub max_depth: nat,
}

impl Drawing {
    /// The lines of everything below `node`, which itself stands `depth`
    /// levels below the root.
    pub open spec fn level(self, node: Node, prefix: Seq<char>, depth: nat) -> Seq<char>
        decreases node, node.children.len() + 1,
    {
        if depth >= self.max_depth {
            Seq::empty()
        } else {
            let rows = self.rows(node, node.children.len(), prefix, depth);
            if node.pruned_entries > 0 {
                rows + prefix + "└── "@ + pruned_row(
                    self.palette,
                    node.pruned_entries,
                    node.pruned_size,
                ) + "\n"@
            } else {
                rows
            }
        }
    }

    /// The lines of the first `n` children of `node` and all below them.
    /// Whatever closes the level, a child or the row of hidden siblings, is
    /// drawn with a corner; everything before it keeps the rail.
    pub open spec fn rows(self, node: Node, n: nat, prefix: Seq<char>, depth: nat) -> Seq<char>
        decreases node, n,
    {
        if n == 0 || n > node.children.len() {
            Seq::empty()
        } else {
            let child = node.children[n - 1];
            let last = n == node.children.len() && node.pruned_entries == 0;
            let line = self.rows(node, (n - 1) as nat, prefix, depth) + prefix + (if last {
                "└── "@
            } else {
                "├── "@
            }) + entry_text(
                self.palette,
                child,
                node.size,
                widest(node.children, node.children.len()),
            );
            if child.is_dir {
                line + self.level(
                    child,
                    prefix + (if last {
                        "    "@
                    } else {
                        "│   "@
                    }),
                    depth + 1,
                )
            } else {
                line
            }
        }
    }
}

fn append_entry(
    out: &mut String,
    node: &DirectoryNode,
    parent_total: u64,
    name_width: usize,
    palette: &Palette,
)
    ensures
        final(out)@ == old(out)@ + entry_text(
            *palette,
            node@,
            parent_total as nat,
            name_width as nat,
        ),
{
    let ghost start = out@;
    let percent = percent_of(node.size, parent_total);
    let padded_name = pad_right(node.name.as_str(), name_width);
    let (icon, style) = if node.is_dir {
        ("📁", Style::BoldThenCyan)
    } else {
        ("📄", Style::WhiteThenDimmed)
    };
    let mut line = icon.to_owned();
    line.append(" ");
    line.append(palette.paint(style, padded_name.as_str()).as_str());
    line.append(" [");
    line.append(paint_bar(palette, &percent).as_str());
    line.append("] ");
    line.append(paint_size(palette, node.size).as_str());
    line.append(" (");
    line.append(one_decimal_text(percent.tenths()).as_str());
    line.append("%)");
    if node.is_dir {
        let mut counts = concat("[", thousands(node.dir_count).as_str());
        counts.append(" dirs, ");
        counts.append(thousands(node.file_count).as_str());
        counts.append(" files]");
        line.append(" ");
        line.append(palette.paint(Style::Dimmed, counts.as_str()).as_str());
    }
    line.append("\n");
    out.append(line.as_str());
}

fn one_decimal_text(tenths: u128) -> (out: String)
    ensures
        out@ == one_decimal(tenths as nat),
{
    let mut out = decimal(tenths / 10);
    out.append(".");
    out.push(digit_char_exec((tenths % 10) as u8));
    assert(out@ =~= one_decimal(tenths as nat));
    out
}

fn pruned_row_text(palette: &Palette, entries: u64, bytes: u64) -> (out: String)
    ensures
        out@ == pruned_row(*palette, entries as nat, bytes as nat),
{
    let mut text = concat("⋯ and ", thousands(entries).as_str());
    if entries == 1 {
        text.append(" other item (");
    } else {
        text.append(" other items (");
    }
    text.append(size_label(bytes).as_str());
    text.append(" total)");
    palette.paint(Style::Dimmed, text.as_str())
}

fn widest_name(children: &Vec<DirectoryNode>) -> (out: usize)
    ensures
        out == widest(crate::models::nodes(children@), children@.len()),
{
    let ghost list = crate::models::nodes(children@);
    let mut out: usize = 0;
    let mut i: usize = 0;
    while i < children.len()
        invariant
            i <= children@.len(),
            list == crate::models::nodes(children@),
            out == widest(list, i as nat),
        decreases children.len() - i,
    {
        assert(list[i as int].name == children@[i as int].name@);
        let this = display_width(children[i].name.as_str());
        if this > out {
            out = this;
        }
        i += 1;
    }
    out
}

/// Recursively append everything below `node`, drawing Unicode branch glyphs
/// relative to `prefix` and sizing percentages against the node's own total.
#[verifier::spinoff_prover]
#[verifier::rlimit(50)]
fn append_children(
    out: &mut String,
    node: &DirectoryNode,
    prefix: &str,
    depth: usize,
    max_depth: usize,
    palette: &Palette,
)
    ensures
        final(out)@ == old(out)@ + (Drawing {
            palette: *palette,
            max_depth: max_depth as nat,
        }).level(node@, prefix@, depth as nat),
    decreases *node,
{
    let ghost drawing = Drawing { palette: *palette, max_depth: max_depth as nat };
    let ghost start = out@;
    if depth >= max_depth {
        assert(start + Seq::<char>::empty() =~= start);
        return;
    }
    proof {
        crate::models::lemma_children(*node);
    }
    let name_width = widest_name(&node.children);
    let mut i: usize = 0;
    assert(start + drawing.rows(node@, 0, prefix@, depth as nat) =~= start);
    while i < node.children.len()
        invariant
            i <= node.children@.len(),
            depth < max_depth,
            drawing == (Drawing { palette: *palette, max_depth: max_depth as nat }),
            node@.children == crate::models::nodes(node.children@),
            name_width == widest(node@.children, node@.children.len()),
            out@ == start + drawing.rows(node@, i as nat, prefix@, depth as nat),
        decreases node.children.len() - i,
    {
        let child = &node.children[i];
        assert(decreases_to!(*node => node.children@[i as int]));
        assert(node@.children[i as int] == child@);
        let last = i + 1 == node.children.len() && node.pruned_entries == 0;
        let ghost before = drawing.rows(node@, i as nat, prefix@, depth as nat);
        out.append(prefix);
        let glyph = if last {
            "└── "
        } else {
            "├── "
        };
        out.append(glyph);
        append_entry(out, child, node.size, name_width, palette);
        let ghost line = before + prefix@ + glyph@ + entry_text(
            *palette,
            child@,
            node@.size,
            name_width as nat,
        );
        assert(out@ =~= start + line);
        if child.is_dir {
            let rail = if last {
                "    "
            } else {
                "│   "
            };
            let nested = concat(prefix, rail);
            append_children(out, child, nested.as_str(), depth + 1, max_depth, palette);
            assert(out@ =~= start + (line + drawing.level(
                child@,
                nested@,
                (depth + 1) as nat,
            )));
        }
        assert(out@ == start + drawing.rows(node@, (i + 1) as nat, prefix@, depth as nat));
        i += 1;
    }
    if node.pruned_entries > 0 {
        let ghost rows = drawing.rows(node@, node@.children.len(), prefix@, depth as nat);
        out.append(prefix);
        out.append("└── ");
        out.append(pruned_row_text(palette, node.pruned_entries, node.pruned_size).as_str());
        out.append("\n");
        assert(out@ =~= start + (rows + prefix@ + "└── "@ + pruned_row(
            *palette,
            node@.pruned_entries,
            node@.pruned_size,
        ) + "\n"@));
    }
}

/// The word for a criterion.
pub open spec fn criterion_word(criterion: SortCriterion) -> Seq<char> {
    match criterion {
        SortCriterion::Size => "size"@,
        SortCriterion::Count => "count"@,
        SortCriterion::Name => "name"@,
    }
}

pub fn sort_label(criterion: SortCriterion) -> (out: &'static str)
    ensures
        out@ == criterion_word(criterion),
{
    match criterion {
        SortCriterion::Size => "size",
        SortCriterion::Count => "count",
        SortCriterion::Name => "name",
    }
}

/// What the footer says of options that are not the usual ones.
pub open spec fn hints_text(options: ScanOptions) -> Seq<char> {
    let sorted = if options.sort_by != SortCriterion::Size {
        " · sorted by "@ + criterion_word(options.sort_by)
    } else {
        Seq::empty()
    };
    let limited = match options.min_size {
        Some(bytes) => sorted + " · min "@ + size_text(bytes as nat),
        None => sorted,
    };
    match options.top_n {
        Some(n) => if n != DEFAULT_TOP {
            limited + " · top "@ + digits(n as nat)
        } else {
            limited
        },
        None => limited,
    }
}

fn hints(options: &ScanOptions) -> (out: String)
    ensures
        out@ == hints_text(*options),
{
    let mut out = String::new();
    if options.sort_by != SortCriterion::Size {
        out = concat(" · sorted by ", sort_label(options.sort_by));
    }
    if let Some(bytes) = options.min_size {
        out.append(" · min ");
        out.append(size_label(bytes).as_str());
    }
    if let Some(n) = options.top_n {
        if n != DEFAULT_TOP {
            out.append(" · top ");
            out.append(decimal(n as u128).as_str());
        }
    }
    assert(out@ =~= hints_text(*options));
    out
}

/// The complete visualizer view.
pub open spec fn viz_text(
    root_path: Seq<char>,
    totals: Totals,
    root: Node,
    options: ScanOptions,
    palette: Palette,
) -> Seq<char> {
    let card = "📁 "@ + root_path + " (Total: "@ + painted_size(palette, totals.size)
        + ", Apparent: "@ + painted_size(palette, totals.apparent) + ")\n"@;
    let drawing = Drawing { palette, max_depth: options.max_depth as nat };
    let body = card + drawing.level(root, Seq::empty(), 0);
    let footer = body + palette.painted(Style::Dimmed, repeated('─', SEPARATOR_WIDTH as nat))
        + "\nSummary: "@ + palette.painted(Style::Bold, size_text(totals.size))
        + " allocated across "@ + palette.painted(Style::Bold, grouped(totals.files))
        + " files and "@ + palette.painted(Style::Bold, grouped(totals.dirs))
        + " directories (Scanned in "@ + palette.painted(Style::Bold, digits(totals.millis))
        + "ms)"@;
    let hinted = if hints_text(options).len() > 0 {
        footer + palette.painted(Style::Dimmed, hints_text(options))
    } else {
        footer
    };
    hinted + "\n"@
}

/// The totals that the view reports.
pub struct Totals {
    pub size: nat,
    pub apparent: nat,
    pub files: nat,
    pub dirs: nat,
    pub millis: nat,
}

impl ScanResult {
    pub open spec fn totals(self) -> Totals {
        Totals {
            size: self.summary.total_size as nat,
            apparent: self.summary.total_apparent_size as nat,
            files: self.summary.total_files as nat,
            dirs: self.summary.total_dirs as nat,
            millis: self.summary.duration_ms as nat,
        }
    }
}

/// Build the complete visualizer view (root card, ANSI tree, summary footer)
/// as a string.
pub fn format_viz_tree(result: &ScanResult, options: &ScanOptions, no_color: bool) -> (out: String)
    ensures
        out@ == viz_text(
            result.summary.root_path@,
            result.totals(),
            result.root@,
            *options,
            Palette { enabled: !no_color },
        ),
{
    let palette = Palette { enabled: !no_color };
    let summary = &result.summary;
    let mut out = concat("📁 ", summary.root_path.text.as_str());
    out.append(" (Total: ");
    out.append(paint_size(&palette, summary.total_size).as_str());
    out.append(", Apparent: ");
    out.append(paint_size(&palette, summary.total_apparent_size).as_str());
    out.append(")\n");
    proof {
        reveal_strlit("");
        assert(""@ =~= Seq::<char>::empty());
    }
    append_children(&mut out, &result.root, "", 0, options.max_depth, &palette);
    let mut rule = String::new();
    append_repeated(&mut rule, '─', SEPARATOR_WIDTH);
    assert(rule@ =~= repeated('─', SEPARATOR_WIDTH as nat));
    out.append(palette.paint(Style::Dimmed, rule.as_str()).as_str());
    out.append("\nSummary: ");
    out.append(palette.paint(Style::Bold, size_label(summary.total_size).as_str()).as_str());
    out.append(" allocated across ");
    out.append(palette.paint(Style::Bold, thousands(summary.total_files).as_str()).as_str());
    out.append(" files and ");
    out.append(palette.paint(Style::Bold, thousands(summary.total_dirs).as_str()).as_str());
    out.append(" directories (Scanned in ");
    out.append(palette.paint(Style::Bold, decimal(summary.duration_ms as u128).as_str()).as_str());
    out.append("ms)");
    let extra = hints(options);
    if chars_in(extra.as_str()) > 0 {
        out.append(palette.paint(Style::Dimmed, extra.as_str()).as_str());
    }
    out.append("\n");
    out
}

fn chars_in(text: &str) -> (n: usize)
    ensures
        n == text@.len(),
{
    crate::text::chars_of(text).len()
}

// ---------------------------------------------------------------------------
// Errors
// ---------------------------------------------------------------------------
/// Actionable advice on a failure.
pub open spec fn advice(error: DiskPulseError) -> Seq<char> {
    match error {
        DiskPulseError::Safety(SafetyError::InvalidCliCombination(text)) => if contains_text(
            text@,
            "--yes"@,
        ) {
            "Add --apply to actually execute, e.g. `diskpulse clean --apply --yes`."@
        } else {
            "Review the conflicting flags shown above."@
        },
        DiskPulseError::Safety(SafetyError::ProtectedUserData(_)) =>
            "Pick a cache location instead — run `diskpulse targets` to see candidates."@,
        DiskPulseError::Safety(SafetyError::ProtectedHomeRoot(_)) =>
            "Target a subfolder such as ~/.cache rather than the home root."@,
        DiskPulseError::Safety(SafetyError::ProtectedSystemPath(_)) =>
            "System locations cannot be bulk-cleaned; choose a specific cache target instead."@,
        DiskPulseError::Safety(_) =>
            "Inspect the path above; symlinked entries are skipped by design."@,
        DiskPulseError::Parse(ParseError::InvalidSortField(_)) =>
            "Valid sort fields: size, count, name."@,
        DiskPulseError::Parse(ParseError::InvalidByteSize { .. }) =>
            "Acceptable size suffixes: B, K/KiB, M/MiB, G/GiB (e.g. 50M, 2G)."@,
        DiskPulseError::Parse(ParseError::InvalidDuration { .. }) =>
            "Acceptable duration suffixes: s, m, h, d (e.g. 12h, 7d)."@,
        DiskPulseError::Parse(_) => "Re-check the flagged value."@,
        DiskPulseError::Scan(ScanError::PathNotFound(_)) =>
            "Verify spelling and that the path exists (`ls <path>`)."@,
        DiskPulseError::Scan(ScanError::PermissionDenied(_)) =>
            "Check permissions on the path, or re-run with broader read access."@,
        DiskPulseError::Scan(ScanError::FilesystemLoopDetected(_)) =>
            "The path contains a filesystem loop; narrow the target directory."@,
        DiskPulseError::Clean(CleanError::TargetNotFound(_)) =>
            "Run `diskpulse targets --all` to list valid target IDs."@,
        DiskPulseError::Clean(_) =>
            "Some items could not be removed; they were left in place. Re-run to retry."@,
        DiskPulseError::Io(_) => "This is usually transient — check disk state and permissions."@,
    }
}

/// Best-effort actionable advice keyed off the domain error behind a failure,
/// where there is one.
pub fn remediation_hint(domain: Option<&DiskPulseError>) -> (out: Option<String>)
    ensures
        match domain {
            Some(error) => out matches Some(hint) && hint@ == advice(*error),
            None => out is None,
        },
{
    let error = match domain {
        Some(error) => error,
        None => {
            return None;
        },
    };
    let hint = match error {
        DiskPulseError::Safety(SafetyError::InvalidCliCombination(text)) => if contains(
            text.as_str(),
            "--yes",
        ) {
            "Add --apply to actually execute, e.g. `diskpulse clean --apply --yes`."
        } else {
            "Review the conflicting flags shown above."
        },
        DiskPulseError::Safety(SafetyError::ProtectedUserData(_)) =>
            "Pick a cache location instead — run `diskpulse targets` to see candidates.",
        DiskPulseError::Safety(SafetyError::ProtectedHomeRoot(_)) =>
            "Target a subfolder such as ~/.cache rather than the home root.",
        DiskPulseError::Safety(SafetyError::ProtectedSystemPath(_)) =>
            "System locations cannot be bulk-cleaned; choose a specific cache target instead.",
        DiskPulseError::Safety(_) =>
            "Inspect the path above; symlinked entries are skipped by design.",
        DiskPulseError::Parse(ParseError::InvalidSortField(_)) =>
            "Valid sort fields: size, count, name.",
        DiskPulseError::Parse(ParseError::InvalidByteSize { .. }) =>
            "Acceptable size suffixes: B, K/KiB, M/MiB, G/GiB (e.g. 50M, 2G).",
        DiskPulseError::Parse(ParseError::InvalidDuration { .. }) =>
            "Acceptable duration suffixes: s, m, h, d (e.g. 12h, 7d).",
        DiskPulseError::Parse(_) => "Re-check the flagged value.",
        DiskPulseError::Scan(ScanError::PathNotFound(_)) =>
            "Verify spelling and that the path exists (`ls <path>`).",
        DiskPulseError::Scan(ScanError::PermissionDenied(_)) =>
            "Check permissions on the path, or re-run with broader read access.",
        DiskPulseError::Scan(ScanError::FilesystemLoopDetected(_)) =>
            "The path contains a filesystem loop; narrow the target directory.",
        DiskPulseError::Clean(CleanError::TargetNotFound(_)) =>
            "Run `diskpulse targets --all` to list valid target IDs.",
        DiskPulseError::Clean(_) =>
            "Some items could not be removed; they were left in place. Re-run to retry.",
        DiskPulseError::Io(_) => "This is usually transient — check disk state and permissions.",
    };
    Some(hint.to_owned())
}

/// The lines of the first `n` causes, each deeper than the one before.
pub open spec fn causes_text(causes: Seq<String>, n: nat) -> Seq<char>
    decreases n,
{
    if n == 0 || n > causes.len() {
        Seq::empty()
    } else {
        causes_text(causes, (n - 1) as nat) + repeated(' ', (2 + 2 * (n - 1)) as nat)
            + "└── Caused by: "@ + causes[n - 1]@ + "\n"@
    }
}

/// An error with its causes and, where possible, advice.
pub open spec fn chain_text(
    palette: Palette,
    head: Seq<char>,
    causes: Seq<String>,
    hint: Option<Seq<char>>,
) -> Seq<char> {
    let listed = palette.painted(Style::RedThenBold, "error:"@) + " "@ + head + "\n"@
        + causes_text(causes, causes.len());
    match hint {
        Some(hint) => listed + "  "@ + palette.painted(Style::CyanThenBold, "hint:"@) + " "@ + hint
            + "\n"@,
        None => listed,
    }
}

/// Render an error with its full causal chain and, where possible, an
/// actionable remediation hint.
///
/// ```text
/// error: Failed to scan directory '/root/secret'
///   └── Caused by: Permission denied (os error 13)
///   hint: Check directory permissions or run with elevated access.
/// ```
pub fn format_error_chain(
    head: &str,
    causes: &Vec<String>,
    domain: Option<&DiskPulseError>,
    colored: bool,
) -> (out: String)
    requires
        2 * causes@.len() + 2 <= usize::MAX,
    ensures
        out@ == chain_text(
            Palette { enabled: colored },
            head@,
            causes@,
            match domain {
                Some(error) => Some(advice(*error)),
                None => None,
            },
        ),
{
    let palette = Palette { enabled: colored };
    let mut out = palette.paint(Style::RedThenBold, "error:");
    out.append(" ");
    out.append(head);
    out.append("\n");
    let ghost top = out@;
    let mut i: usize = 0;
    assert(top + causes_text(causes@, 0) =~= top);
    while i < causes.len()
        invariant
            i <= causes@.len(),
            2 * causes@.len() + 2 <= usize::MAX,
            out@ == top + causes_text(causes@, i as nat),
        decreases causes.len() - i,
    {
        let ghost before = causes_text(causes@, i as nat);
        append_repeated(&mut out, ' ', 2 + 2 * i);
        out.append("└── Caused by: ");
        out.append(causes[i].as_str());
        out.append("\n");
        assert(out@ =~= top + causes_text(causes@, (i + 1) as nat));
        i += 1;
    }
    if let Some(hint) = remediation_hint(domain) {
        out.append("  ");
        out.append(palette.paint(Style::CyanThenBold, "hint:").as_str());
        out.append(" ");
        out.append(hint.as_str());
        out.append("\n");
    }
    out
}

// ---------------------------------------------------------------------------
// Tables
// ---------------------------------------------------------------------------
/// How a table cell is shown.
#[derive(Debug, Clone, Copy, PartialEq, Eq, Structural)]
pub enum Tone {
    Plain,
    /// Bold.
    Header,
    /// Bold, in cyan.
    Total,
    Green,
    Cyan,
    DarkYellow,
    Red,
}

/// One cell of a table.
#[derive(Debug, PartialEq, Eq)]
pub struct TableCell {
    pub text: String,
    pub tone: Tone,
}

/// The mathematical value of a [`TableCell`].
pub struct CellText {
    pub text: Seq<char>,
    pub tone: Tone,
}

impl View for TableCell {
    type V = CellText;

    open spec fn view(&self) -> CellText {
        CellText { text: self.text@, tone: self.tone }
    }
}

/// One row of a table.
#[derive(Debug, PartialEq, Eq)]
pub struct TableRow {
    pub cells: Vec<TableCell>,
}

impl View for TableRow {
    type V = Seq<CellText>;

    open spec fn view(&self) -> Seq<CellText> {
        self.cells@.map_values(|cell: TableCell| cell@)
    }
}

/// What a command shows: a table, the first row of which is the header, and
/// the lines below it.
#[derive(Debug, PartialEq, Eq)]
pub struct Screen {
    pub table: Vec<TableRow>,
    pub lines: Vec<String>,
}

/// The mathematical value of a [`Screen`].
pub struct ScreenText {
    pub table: Seq<Seq<CellText>>,
    pub lines: Seq<Seq<char>>,
}

/// The values of a list of rows.
pub open spec fn row_values(rows: Seq<TableRow>) -> Seq<Seq<CellText>> {
    rows.map_values(|row: TableRow| row@)
}

impl View for Screen {
    type V = ScreenText;

    open spec fn view(&self) -> ScreenText {
        ScreenText {
            table: row_values(self.table@),
            lines: crate::planning::strings(self.lines@),
        }
    }
}

/// A cell.
pub open spec fn cell(text: Seq<char>, tone: Tone) -> CellText {
    CellText { text, tone }
}

fn make_cell(text: &str, tone: Tone) -> (out: TableCell)
    ensures
        out@ == cell(text@, tone),
{
    TableCell { text: text.to_owned(), tone }
}

fn row_of_four(a: TableCell, b: TableCell, c: TableCell, d: TableCell) -> (out: TableRow)
    ensures
        out@ == seq![a@, b@, c@, d@],
{
    let mut cells: Vec<TableCell> = Vec::new();
    cells.push(a);
    cells.push(b);
    cells.push(c);
    cells.push(d);
    let out = TableRow { cells };
    assert(out@ =~= seq![a@, b@, c@, d@]);
    out
}

/// A count of items.
pub open spec fn items_text(count: nat) -> Seq<char> {
    grouped(count) + " "@ + (if count == 1 {
        "item"@
    } else {
        "items"@
    })
}

pub fn item_count_label(count: usize) -> (out: String)
    ensures
        out@ == items_text(count as nat),
{
    let mut out = thousands(count as u64);
    out.append(" ");
    if count == 1 {
        out.append("item");
    } else {
        out.append("items");
    }
    out
}

/// The question asked before anything is removed.
pub open spec fn prompt_text(count: nat, trash: bool) -> Seq<char> {
    if trash {
        "Move "@ + digits(count) + " items of cached data to the trash/recycle bin?"@
    } else {
        "Permanently delete "@ + digits(count) + " items of cached data?"@
    }
}

pub fn confirmation_prompt(count: usize, trash: bool) -> (out: String)
    ensures
        out@ == prompt_text(count as nat, trash),
{
    if trash {
        let mut out = concat("Move ", decimal(count as u128).as_str());
        out.append(" items of cached data to the trash/recycle bin?");
        out
    } else {
        let mut out = concat("Permanently delete ", decimal(count as u128).as_str());
        out.append(" items of cached data?");
        out
    }
}

/// What applying a plan will do.
pub open spec fn warning_text(size: Seq<char>, count: Seq<char>, trash: bool) -> Seq<char> {
    if trash {
        "Applying will move "@ + size + " across "@ + count + " items to the trash."@
    } else {
        "Applying will permanently delete "@ + size + " across "@ + count + " items."@
    }
}

pub fn apply_warning(size: &str, count: &str, trash: bool) -> (out: String)
    ensures
        out@ == warning_text(size@, count@, trash),
{
    if trash {
        let mut out = concat("Applying will move ", size);
        out.append(" across ");
        out.append(count);
        out.append(" items to the trash.");
        out
    } else {
        let mut out = concat("Applying will permanently delete ", size);
        out.append(" across ");
        out.append(count);
        out.append(" items.");
        out
    }
}

/// The rows of the first `n` targets of a plan.
pub open spec fn target_rows(plan: CleanPlan, n: nat) -> Seq<Seq<CellText>>
    decreases n,
{
    if n == 0 || n > plan.targets@.len() {
        Seq::empty()
    } else {
        let target = plan.targets@[n - 1];
        target_rows(plan, (n - 1) as nat).push(
            seq![
                cell(target.target_name@, Tone::Plain),
                cell(target.path@, Tone::Plain),
                cell(items_text(target.item_count as nat), Tone::Plain),
                cell(size_text(target.total_bytes as nat), Tone::Plain),
            ],
        )
    }
}

/// The table of a plan.
pub open spec fn plan_table(plan: CleanPlan) -> Seq<Seq<CellText>> {
    seq![
        seq![
            cell("Target"@, Tone::Header),
            cell("Path"@, Tone::Header),
            cell("Items"@, Tone::Header),
            cell("Reclaimable"@, Tone::Header),
        ],
    ] + target_rows(plan, plan.targets@.len()) + seq![
        seq![
            cell("TOTAL"@, Tone::Total),
            cell(""@, Tone::Plain),
            cell(items_text(plan.total_items as nat), Tone::Total),
            cell(size_text(plan.total_bytes as nat), Tone::Total),
        ],
    ]
}

/// What is shown of a plan: its table with a footer, or that there is nothing
/// to clean.
pub open spec fn plan_screen(
    plan: CleanPlan,
    is_apply: bool,
    use_trash: bool,
    palette: Palette,
) -> ScreenText {
    if plan.targets@.len() == 0 {
        ScreenText {
            table: Seq::empty(),
            lines: seq![
                palette.painted(
                    Style::Yellow,
                    "No cleanable items found — everything is already tidy."@,
                ),
            ],
        }
    } else if is_apply {
        ScreenText {
            table: plan_table(plan),
            lines: seq![
                palette.painted(
                    Style::Yellow,
                    "⚠  "@ + warning_text(
                        size_text(plan.total_bytes as nat),
                        grouped(plan.total_items as nat),
                        use_trash,
                    ) + " Confirmation required unless --yes."@,
                ),
            ],
        }
    } else {
        ScreenText {
            table: plan_table(plan),
            lines: seq![
                palette.painted(Style::Yellow, "💡 [DRY-RUN MODE]: No files were deleted."@),
                "   To apply these changes, run: diskpulse clean --apply"@,
            ],
        }
    }
}

/// The cleanup plan as a table.
///
/// `is_apply` switches the footer between dry-run guidance and the
/// pre-execution warning shown before interactive confirmation.
pub fn render_clean_plan_table(
    plan: &CleanPlan,
    is_apply: bool,
    use_trash: bool,
    colored: bool,
) -> (out: Screen)
    ensures
        out@ == plan_screen(*plan, is_apply, use_trash, Palette { enabled: colored }),
{
    let mut table: Vec<TableRow> = Vec::new();
    let mut lines: Vec<String> = Vec::new();
    if plan.targets.len() == 0 {
        lines.push(warning("No cleanable items found — everything is already tidy.", colored));
        let out = Screen { table, lines };
        assert(out@.table =~= Seq::empty());
        assert(out@.lines =~= plan_screen(
            *plan,
            is_apply,
            use_trash,
            Palette { enabled: colored },
        ).lines);
        return out;
    }
    table.push(
        row_of_four(
            make_cell("Target", Tone::Header),
            make_cell("Path", Tone::Header),
            make_cell("Items", Tone::Header),
            make_cell("Reclaimable", Tone::Header),
        ),
    );
    let ghost head = row_values(table@);
    let mut i: usize = 0;
    assert(row_values(table@) =~= head + target_rows(*plan, 0));
    while i < plan.targets.len()
        invariant
            i <= plan.targets@.len(),
            row_values(table@) == head + target_rows(*plan, i as nat),
        decreases plan.targets.len() - i,
    {
        let ghost before = row_values(table@);
        let target = &plan.targets[i];
        let row = row_of_four(
            make_cell(target.target_name.as_str(), Tone::Plain),
            make_cell(target.path.text.as_str(), Tone::Plain),
            make_cell(item_count_label(target.item_count).as_str(), Tone::Plain),
            make_cell(size_label(target.total_bytes).as_str(), Tone::Plain),
        );
        let ghost value = row@;
        table.push(row);
        assert(row_values(table@) =~= before.push(value));
        assert(row_values(table@) =~= head + target_rows(*plan, (i + 1) as nat));
        i += 1;
    }
    let ghost before = row_values(table@);
    let total = row_of_four(
        make_cell("TOTAL", Tone::Total),
        make_cell("", Tone::Plain),
        make_cell(item_count_label(plan.total_items).as_str(), Tone::Total),
        make_cell(size_label(plan.total_bytes).as_str(), Tone::Total),
    );
    let ghost value = total@;
    table.push(total);
    assert(row_values(table@) =~= before.push(value));
    assert(row_values(table@) =~= plan_table(*plan));
    if is_apply {
        let mut text = concat(
            "⚠  ",
            apply_warning(
                size_label(plan.total_bytes).as_str(),
                thousands(plan.total_items as u64).as_str(),
                use_trash,
            ).as_str(),
        );
        text.append(" Confirmation required unless --yes.");
        lines.push(warning(text.as_str(), colored));
    } else {
        lines.push(warning("💡 [DRY-RUN MODE]: No files were deleted.", colored));
        lines.push("   To apply these changes, run: diskpulse clean --apply".to_owned());
    }
    let out = Screen { table, lines };
    assert(out@.lines =~= plan_screen(
        *plan,
        is_apply,
        use_trash,
        Palette { enabled: colored },
    ).lines);
    out
}

/// How an outcome is shown.
pub open spec fn status_tone(status: CleanItemStatus) -> Tone {
    match status {
        CleanItemStatus::Deleted => Tone::Green,
        CleanItemStatus::MovedToTrash => Tone::Cyan,
        CleanItemStatus::SkippedDryRun => Tone::DarkYellow,
        CleanItemStatus::Failed(_) => Tone::Red,
    }
}

fn status_cell(status: &CleanItemStatus) -> (out: TableCell)
    ensures
        out@ == cell(status.label(), status_tone(*status)),
{
    let tone = match status {
        CleanItemStatus::Deleted => Tone::Green,
        CleanItemStatus::MovedToTrash => Tone::Cyan,
        CleanItemStatus::SkippedDryRun => Tone::DarkYellow,
        CleanItemStatus::Failed(_) => Tone::Red,
    };
    make_cell(status.to_string().as_str(), tone)
}

/// The rows of the first `n` results of a report.
pub open spec fn result_rows(report: CleanReport, n: nat) -> Seq<Seq<CellText>>
    decreases n,
{
    if n == 0 || n > report.results@.len() {
        Seq::empty()
    } else {
        let result = report.results@[n - 1];
        result_rows(report, (n - 1) as nat).push(
            seq![
                cell(result.target_id@, Tone::Plain),
                cell(result.path@, Tone::Plain),
                cell(size_text(result.size as nat), Tone::Plain),
                cell(result.status.label(), status_tone(result.status)),
            ],
        )
    }
}

/// What is said of a report below its table.
pub open spec fn report_lines(report: CleanReport, palette: Palette) -> Seq<Seq<char>> {
    let freed = seq![
        "Freed "@ + palette.painted(
            Style::CyanThenBold,
            size_text(report.bytes_freed as nat),
        ) + " across "@ + palette.painted(
            Style::CyanThenBold,
            grouped(report.items_freed as nat),
        ) + " items in "@ + digits(report.duration_ms as nat) + " ms."@,
    ];
    let dry = if report.dry_run {
        freed.push(palette.painted(Style::Yellow, "Dry run — nothing was deleted."@))
    } else {
        freed
    };
    if report.errors_count > 0 {
        dry.push(
            palette.painted(Style::Yellow, "warning:"@) + " "@ + digits(
                report.errors_count as nat,
            ) + " item(s) failed; see the table above for reasons."@,
        )
    } else {
        dry
    }
}

/// What is shown of a report.
pub open spec fn report_screen(report: CleanReport, palette: Palette) -> ScreenText {
    ScreenText {
        table: seq![
            seq![
                cell("Target"@, Tone::Header),
                cell("Path"@, Tone::Header),
                cell("Size"@, Tone::Header),
                cell("Status"@, Tone::Header),
            ],
        ] + result_rows(report, report.results@.len()),
        lines: report_lines(report, palette),
    }
}

/// Post-execution outcomes: freed totals, per-item statuses and failure
/// reasons.
pub fn render_clean_report_table(report: &CleanReport, colored: bool) -> (out: Screen)
    ensures
        out@ == report_screen(*report, Palette { enabled: colored }),
{
    let ghost palette = Palette { enabled: colored };
    let mut table: Vec<TableRow> = Vec::new();
    table.push(
        row_of_four(
            make_cell("Target", Tone::Header),
            make_cell("Path", Tone::Header),
            make_cell("Size", Tone::Header),
            make_cell("Status", Tone::Header),
        ),
    );
    let ghost head = row_values(table@);
    let mut i: usize = 0;
    assert(row_values(table@) =~= head + result_rows(*report, 0));
    while i < report.results.len()
        invariant
            i <= report.results@.len(),
            row_values(table@) == head + result_rows(*report, i as nat),
        decreases report.results.len() - i,
    {
        let ghost before = row_values(table@);
        let result = &report.results[i];
        let row = row_of_four(
            make_cell(result.target_id.as_str(), Tone::Plain),
            make_cell(result.path.text.as_str(), Tone::Plain),
            make_cell(size_label(result.size).as_str(), Tone::Plain),
            status_cell(&result.status),
        );
        let ghost value = row@;
        table.push(row);
        assert(row_values(table@) =~= before.push(value));
        assert(row_values(table@) =~= head + result_rows(*report, (i + 1) as nat));
        i += 1;
    }
    let mut lines: Vec<String> = Vec::new();
    let mut freed = concat(
        "Freed ",
        heading(size_label(report.bytes_freed).as_str(), colored).as_str(),
    );
    freed.append(" across ");
    freed.append(heading(thousands(report.items_freed as u64).as_str(), colored).as_str());
    freed.append(" items in ");
    freed.append(decimal(report.duration_ms as u128).as_str());
    freed.append(" ms.");
    lines.push(freed);
    if report.dry_run {
        lines.push(warning("Dry run — nothing was deleted.", colored));
    }
    if report.errors_count > 0 {
        let mut text = warning("warning:", colored);
        text.append(" ");
        text.append(decimal(report.errors_count as u128).as_str());
        text.append(" item(s) failed; see the table above for reasons.");
        lines.push(text);
    }
    let out = Screen { table, lines };
    assert(out@.table =~= report_screen(*report, palette).table);
    assert(out@.lines =~= report_screen(*report, palette).lines);
    out
}

/// `paths` with commas between them.
pub open spec fn joined_paths(paths: Seq<PathBuf>, n: nat) -> Seq<char>
    decreases n,
{
    if n == 0 || n > paths.len() {
        Seq::empty()
    } else if n == 1 {
        paths[0]@
    } else {
        joined_paths(paths, (n - 1) as nat) + ", "@ + paths[n - 1]@
    }
}

fn join_paths(paths: &Vec<PathBuf>) -> (out: String)
    ensures
        out@ == joined_paths(paths@, paths@.len()),
{
    let mut out = String::new();
    let mut i: usize = 0;
    assert(out@ =~= joined_paths(paths@, 0));
    while i < paths.len()
        invariant
            i <= paths@.len(),
            out@ == joined_paths(paths@, i as nat),
        decreases paths.len() - i,
    {
        if i == 0 {
            out = paths[0].text.clone();
        } else {
            out.append(", ");
            out.append(paths[i].text.as_str());
        }
        i += 1;
    }
    out
}

/// The row of one target.
pub open spec fn target_row(target: CleanTargetDef) -> Seq<CellText> {
    seq![
        cell(target.id@, Tone::Plain),
        cell(target.name@, Tone::Plain),
        if target.enabled_by_default {
            cell("default"@, Tone::Green)
        } else {
            cell("opt-in"@, Tone::DarkYellow)
        },
        cell(
            if target.paths@.len() == 0 {
                "—"@
            } else {
                joined_paths(target.paths@, target.paths@.len())
            },
            Tone::Plain,
        ),
        cell(target.description@, Tone::Plain),
    ]
}

fn row_of_target(target: &CleanTargetDef) -> (out: TableRow)
    ensures
        out@ == target_row(*target),
{
    let mut cells: Vec<TableCell> = Vec::new();
    cells.push(make_cell(target.id, Tone::Plain));
    cells.push(make_cell(target.name, Tone::Plain));
    if target.enabled_by_default {
        cells.push(make_cell("default", Tone::Green));
    } else {
        cells.push(make_cell("opt-in", Tone::DarkYellow));
    }
    if target.paths.len() == 0 {
        cells.push(make_cell("—", Tone::Plain));
    } else {
        cells.push(make_cell(join_paths(&target.paths).as_str(), Tone::Plain));
    }
    cells.push(make_cell(target.description, Tone::Plain));
    let out = TableRow { cells };
    assert(out@ =~= target_row(*target));
    out
}

/// What is shown of a list of targets.
pub open spec fn targets_screen(targets: Seq<CleanTargetDef>, palette: Palette) -> ScreenText {
    ScreenText {
        table: seq![
            seq![
                cell("ID"@, Tone::Header),
                cell("Name"@, Tone::Header),
                cell("Active"@, Tone::Header),
                cell("Paths"@, Tone::Header),
                cell("Description"@, Tone::Header),
            ],
        ] + targets.map_values(|t: CleanTargetDef| target_row(t)),
        lines: seq![
            palette.painted(
                Style::Dimmed,
                digits(targets.len()) + " target(s) shown; pass --all to include opt-in targets."@,
            ),
        ],
    }
}

pub fn render_targets(targets: &Vec<CleanTargetDef>, colored: bool) -> (out: Screen)
    ensures
        out@ == targets_screen(targets@, Palette { enabled: colored }),
{
    let ghost goal = targets_screen(targets@, Palette { enabled: colored });
    let ghost rows = targets@.map_values(|t: CleanTargetDef| target_row(t));
    let mut header: Vec<TableCell> = Vec::new();
    header.push(make_cell("ID", Tone::Header));
    header.push(make_cell("Name", Tone::Header));
    header.push(make_cell("Active", Tone::Header));
    header.push(make_cell("Paths", Tone::Header));
    header.push(make_cell("Description", Tone::Header));
    let first = TableRow { cells: header };
    assert(first@ =~= goal.table[0]);
    let mut table: Vec<TableRow> = Vec::new();
    table.push(first);
    let mut i: usize = 0;
    assert(row_values(table@) =~= seq![goal.table[0]] + rows.take(0));
    while i < targets.len()
        invariant
            i <= targets@.len(),
            rows == targets@.map_values(|t: CleanTargetDef| target_row(t)),
            row_values(table@) == seq![goal.table[0]] + rows.take(i as int),
        decreases targets.len() - i,
    {
        let ghost before = row_values(table@);
        let row = row_of_target(&targets[i]);
        let ghost value = row@;
        assert(rows[i as int] == value);
        table.push(row);
        assert(row_values(table@) =~= before.push(value));
        assert(row_values(table@) =~= seq![goal.table[0]] + rows.take(i + 1));
        i += 1;
    }
    assert(rows.take(i as int) =~= rows);
    let mut text = decimal(targets.len() as u128);
    text.append(" target(s) shown; pass --all to include opt-in targets.");
    let mut lines: Vec<String> = Vec::new();
    lines.push(dim(text.as_str(), colored));
    let out = Screen { table, lines };
    assert(out@.table =~= goal.table);
    assert(out@.lines =~= goal.lines);
    out
}

/// The line that tells what was scanned.
pub fn scan_banner(path: &str, files: u64, dirs: u64) -> (out: String)
    ensures
        out@ == "Scanning: "@ + path@ + " ... ["@ + grouped(files as nat) + " files, "@ + grouped(
            dirs as nat,
        ) + " dirs scanned]"@,
{
    let mut out = concat("Scanning: ", path);
    out.append(" ... [");
    out.append(thousands(files).as_str());
    out.append(" files, ");
    out.append(thousands(dirs).as_str());
    out.append(" dirs scanned]");
    out
}

// ---------------------------------------------------------------------------
// Laws of what is shown
// ---------------------------------------------------------------------------
#[verifier::spinoff_prover]
proof fn lemma_three_digits(n: nat)
    requires
        n >= 1000,
    ensures
        digits(n) == digits(n / 1000) + three_digits(n % 1000),
{
    assert(n / 10 / 10 == n / 100 && n / 100 / 10 == n / 1000);
    assert(n % 1000 / 100 % 10 == n / 100 % 10);
    assert(n % 1000 / 10 % 10 == n / 10 % 10);
    assert(n % 1000 % 10 == n % 10);
    assert(digits(n) == digits(n / 10).push(digit_char(n % 10)));
    assert(digits(n / 10) == digits(n / 100).push(digit_char(n / 10 % 10)));
    assert(digits(n / 100) == digits(n / 1000).push(digit_char(n / 100 % 10)));
    assert(digits(n) =~= digits(n / 1000) + three_digits(n % 1000));
}

/// Grouping keeps the digits and puts a comma at every fourth place, counted
/// from the end.
#[verifier::spinoff_prover]
#[verifier::rlimit(40)]
pub proof fn law_grouped(n: nat)
    ensures
        ({
            let plain = digits(n);
            let out = grouped(n);
            &&& plain.len() > 0
            &&& out.len() == plain.len() + (plain.len() - 1) / 3
            &&& forall|i: int|
                0 <= i < out.len() ==> #[trigger] out[out.len() - 1 - i] == if i % 4 == 3 {
                    ','
                } else {
                    plain[plain.len() - 1 - (i - i / 4)]
                }
        }),
    decreases n,
{
    let plain = digits(n);
    let out = grouped(n);
    if n < 1000 {
        if n >= 10 {
            assert(digits(n) == digits(n / 10).push(digit_char(n % 10)));
            if n >= 100 {
                assert(digits(n / 10) == digits(n / 10 / 10).push(digit_char(n / 10 % 10)));
                assert(n / 10 / 10 < 10);
            }
        }
        assert(1 <= plain.len() <= 3);
    } else {
        law_grouped(n / 1000);
        lemma_three_digits(n);
        let head = digits(n / 1000);
        let before = grouped(n / 1000);
        assert(out.len() == before.len() + 4);
        assert forall|i: int| 0 <= i < out.len() implies #[trigger] out[out.len() - 1 - i]
            == if i % 4 == 3 {
            ','
        } else {
            plain[plain.len() - 1 - (i - i / 4)]
        } by {
            if i >= 4 {
                let k = i - 4;
                assert(k % 4 == i % 4 && k / 4 == i / 4 - 1);
                assert(out[out.len() - 1 - i] == before[before.len() - 1 - k]);
                if k % 4 != 3 {
                    assert(0 <= k - k / 4 < head.len());
                    assert(plain[plain.len() - 1 - (i - i / 4)] == head[head.len() - 1 - (k - k
                        / 4)]);
                }
            }
        }
    }
}

/// Whether `text` tells `bytes` in multiples of `one`, with two decimals and
/// the unit behind them: off by at most half a hundredth, and `slack` parts of
/// `2 * one` hundredths.
pub open spec fn told_in(
    text: Seq<char>,
    bytes: nat,
    one: nat,
    unit: Seq<char>,
    slack: nat,
) -> bool {
    exists|h: nat|
        text == #[trigger] two_decimals(h) + " "@ + unit && -(one + slack) <= 2 * (h * one - 100
            * bytes) <= one + slack
}

/// A size is shown in the largest unit that it reaches, to the nearest
/// hundredth. Sizes beyond 53 bits are rounded to 53 bits before.
pub proof fn law_size_label(bytes: nat)
    requires
        bytes <= u64::MAX,
    ensures
        bytes < 1024 ==> size_text(bytes) == digits(bytes) + " B"@,
        0x400 <= bytes < 0x10_0000 ==> told_in(size_text(bytes), bytes, 0x400, "KB"@, 0),
        0x10_0000 <= bytes < 0x4000_0000 ==> told_in(
            size_text(bytes),
            bytes,
            0x10_0000,
            "MB"@,
            0,
        ),
        0x4000_0000 <= bytes < 0x100_0000_0000 ==> told_in(
            size_text(bytes),
            bytes,
            0x4000_0000,
            "GB"@,
            0,
        ),
        0x100_0000_0000 <= bytes < 0x4_0000_0000_0000 ==> told_in(
            size_text(bytes),
            bytes,
            0x100_0000_0000,
            "TB"@,
            0,
        ),
        0x4_0000_0000_0000 <= bytes < 0x20_0000_0000_0000 ==> told_in(
            size_text(bytes),
            bytes,
            0x4_0000_0000_0000,
            "PB"@,
            0,
        ),
        0x20_0000_0000_0000 <= bytes ==> told_in(
            size_text(bytes),
            bytes,
            0x4_0000_0000_0000,
            "PB"@,
            409_600,
        ),
{
    if bytes >= 1024 {
        let n = rounded_integer(bytes);
        lemma_rounded_integer(bytes);
        reveal_with_fuel(size_scale, 6);
        let (den, unit) = size_scale(n, 1, 0);
        lemma_half_even_error(100 * n, den);
        let h = half_even(100 * n, den);
        assert(size_text(bytes) == two_decimals(h) + " "@ + unit_name(unit));
    }
}

/// Sizes are green below 10 MiB, yellow below 500 MiB and red from there on.
pub proof fn law_size_tiers(palette: Palette, bytes: nat)
    ensures
        bytes < 10_485_760 ==> painted_size(palette, bytes) == palette.painted(
            Style::Green,
            size_text(bytes),
        ),
        10_485_760 <= bytes < 524_288_000 ==> painted_size(palette, bytes) == palette.painted(
            Style::Yellow,
            size_text(bytes),
        ),
        524_288_000 <= bytes ==> painted_size(palette, bytes) == palette.painted(
            Style::Red,
            size_text(bytes),
        ),
{
}

/// A bar has ten blocks, the first of which are filled. The filled ones are
/// cyan below a quarter, yellow below three quarters and red from there on,
/// the others gray.
pub proof fn law_bar(palette: Palette, percent: Ratio)
    requires
        percent.den > 0,
    ensures
        filled_blocks(percent) <= 10,
        ({
            let filled = filled_blocks(percent);
            let full = Seq::new(filled, |i: int| '█');
            let empty = Seq::new((10 - filled) as nat, |i: int| '░');
            let bar = painted_bar(palette, percent);
            let style = if percent.num >= 75 * percent.den {
                Style::Red
            } else if percent.num >= 25 * percent.den {
                Style::Yellow
            } else {
                Style::Cyan
            };
            &&& bar == palette.painted(style, full) + palette.painted(Style::Gray, empty)
            &&& bar_text(filled) == full + empty
        }),
{
    let filled = filled_blocks(percent);
    assert(repeated('█', filled) =~= Seq::new(filled, |i: int| '█'));
    assert(repeated('░', (10 - filled) as nat) =~= Seq::new((10 - filled) as nat, |i: int| '░'));
}

/// Padding leaves the text, adds nothing but blanks, and as many as are
/// missing.
pub proof fn law_padded(text: Seq<char>, width: nat)
    ensures
        ({
            let out = padded(text, width);
            &&& out.len() >= text.len()
            &&& out.take(text.len() as int) == text
            &&& forall|i: int| text.len() <= i < out.len() ==> #[trigger] out[i] == ' '
            &&& shown_width(text) <= width ==> out.len() - text.len() == width - shown_width(text)
            &&& shown_width(text) > width ==> out.len() == text.len()
        }),
{
    let out = padded(text, width);
    assert(out.take(text.len() as int) =~= text);
}

/// The names of a level are padded to the widest of them.
pub proof fn law_widest(list: Seq<Node>, n: nat)
    requires
        n <= list.len(),
    ensures
        forall|i: int| 0 <= i < n ==> shown_width((#[trigger] list[i]).name) <= widest(list, n),
        n > 0 ==> exists|i: int|
            0 <= i < n && shown_width((#[trigger] list[i]).name) == widest(list, n),
        n == 0 ==> widest(list, n) == 0,
    decreases n,
{
    if n > 0 {
        let k = (n - 1) as nat;
        law_widest(list, k);
        if k > 0 && widest(list, n) != shown_width(list[k as int].name) {
            let i = choose|i: int|
                0 <= i < k && shown_width((#[trigger] list[i]).name) == widest(list, k);
            assert(shown_width(list[i].name) == widest(list, n));
        } else if k == 0 {
            assert(shown_width(list[0].name) == widest(list, n));
        }
    }
}

/// The line of an entry, without color: its icon, its name, its bar, its size
/// and its share of what holds it, and of a directory the counts.
pub proof fn law_entry_line(node: Node, parent_total: nat, name_width: nat)
    ensures
        ({
            let plain = Palette { enabled: false };
            let percent = percentage(node.size, parent_total);
            let filled = filled_blocks(percent);
            let middle = padded(node.name, name_width) + " ["@ + bar_text(filled) + "] "@
                + size_text(node.size) + " ("@ + one_decimal(
                half_even(10 * percent.num, percent.den),
            ) + "%)"@;
            &&& node.is_dir ==> entry_text(plain, node, parent_total, name_width) == "📁"@ + " "@
                + middle + " ["@ + grouped(node.dir_count) + " dirs, "@ + grouped(node.file_count)
                + " files]"@ + "\n"@
            &&& !node.is_dir ==> entry_text(plain, node, parent_total, name_width) == "📄"@ + " "@
                + middle + "\n"@
        }),
{
    let plain = Palette { enabled: false };
    let percent = percentage(node.size, parent_total);
    let filled = filled_blocks(percent);
    reveal_strlit(" [");
    reveal_strlit(" ");
    reveal_strlit("[");
    assert(" ["@ =~= " "@ + "["@);
    let middle = padded(node.name, name_width) + " ["@ + bar_text(filled) + "] "@ + size_text(
        node.size,
    ) + " ("@ + one_decimal(half_even(10 * percent.num, percent.den)) + "%)"@;
    if node.is_dir {
        assert(entry_text(plain, node, parent_total, name_width) =~= "📁"@ + " "@ + middle + " ["@
            + grouped(node.dir_count) + " dirs, "@ + grouped(node.file_count) + " files]"@
            + "\n"@);
    } else {
        assert(entry_text(plain, node, parent_total, name_width) =~= "📄"@ + " "@ + middle
            + "\n"@);
    }
}

/// A share is shown to the nearest tenth of a percent.
pub proof fn law_one_decimal(whole: nat, tenth: nat)
    requires
        tenth < 10,
    ensures
        one_decimal(10 * whole + tenth) == digits(whole) + "."@ + digits(tenth),
{
    assert((10 * whole + tenth) / 10 == whole && (10 * whole + tenth) % 10 == tenth);
    assert(one_decimal(10 * whole + tenth) =~= digits(whole) + "."@ + digits(tenth));
}

/// How a child is drawn: a corner where nothing follows it at its level, a
/// branch otherwise; what it holds stands indented below it, along a rail
/// where something follows.
pub proof fn law_rows(drawing: Drawing, node: Node, i: int, prefix: Seq<char>, depth: nat)
    requires
        0 <= i < node.children.len(),
    ensures
        ({
            let child = node.children[i];
            let closing = i == node.children.len() - 1 && node.pruned_entries == 0;
            let glyph = if closing {
                "└── "@
            } else {
                "├── "@
            };
            let rail = if closing {
                "    "@
            } else {
                "│   "@
            };
            let line = prefix + glyph + entry_text(
                drawing.palette,
                child,
                node.size,
                widest(node.children, node.children.len()),
            );
            let before = drawing.rows(node, i as nat, prefix, depth);
            let after = drawing.rows(node, (i + 1) as nat, prefix, depth);
            &&& child.is_dir ==> after == before + line + drawing.level(
                child,
                prefix + rail,
                depth + 1,
            )
            &&& !child.is_dir ==> after == before + line
        }),
        drawing.rows(node, 0, prefix, depth).len() == 0,
{
    let child = node.children[i];
    let closing = i == node.children.len() - 1 && node.pruned_entries == 0;
    let glyph = if closing {
        "└── "@
    } else {
        "├── "@
    };
    let rail = if closing {
        "    "@
    } else {
        "│   "@
    };
    let line = prefix + glyph + entry_text(
        drawing.palette,
        child,
        node.size,
        widest(node.children, node.children.len()),
    );
    let before = drawing.rows(node, i as nat, prefix, depth);
    let after = drawing.rows(node, (i + 1) as nat, prefix, depth);
    if child.is_dir {
        assert(after =~= before + line + drawing.level(child, prefix + rail, depth + 1));
    } else {
        assert(after =~= before + line);
    }
}

/// Nothing is drawn below the depth asked for; above it, every child, and a
/// last row for the hidden ones where there are any.
pub proof fn law_level(drawing: Drawing, node: Node, prefix: Seq<char>, depth: nat)
    ensures
        ({
            let all = drawing.rows(node, node.children.len(), prefix, depth);
            let out = drawing.level(node, prefix, depth);
            &&& depth >= drawing.max_depth ==> out.len() == 0
            &&& depth < drawing.max_depth && node.pruned_entries == 0 ==> out == all
            &&& depth < drawing.max_depth && node.pruned_entries > 0 ==> out == all + prefix
                + "└── "@ + pruned_row(drawing.palette, node.pruned_entries, node.pruned_size)
                + "\n"@
        }),
{
}

/// What the row of hidden siblings says, without color.
pub proof fn law_pruned_row(entries: nat, bytes: nat)
    ensures
        ({
            let plain = Palette { enabled: false };
            &&& entries == 1 ==> pruned_row(plain, entries, bytes) == "⋯ and "@ + grouped(entries)
                + " other item ("@ + size_text(bytes) + " total)"@
            &&& entries != 1 ==> pruned_row(plain, entries, bytes) == "⋯ and "@ + grouped(entries)
                + " other items ("@ + size_text(bytes) + " total)"@
        }),
{
}

/// The footer names what departs from the usual options: an order other than
/// by size, a size limit, a number of entries other than ten.
pub proof fn law_hints(options: ScanOptions)
    ensures
        ({
            let sorted = match options.sort_by {
                SortCriterion::Size => Seq::empty(),
                SortCriterion::Count => " · sorted by count"@,
                SortCriterion::Name => " · sorted by name"@,
            };
            let limit = match options.min_size {
                Some(bytes) => " · min "@ + size_text(bytes as nat),
                None => Seq::empty(),
            };
            let top = match options.top_n {
                Some(n) => if n == 10 {
                    Seq::empty()
                } else {
                    " · top "@ + digits(n as nat)
                },
                None => Seq::empty(),
            };
            hints_text(options) == sorted + limit + top
        }),
{
    reveal_strlit(" · sorted by ");
    reveal_strlit("count");
    reveal_strlit("name");
    reveal_strlit(" · sorted by count");
    reveal_strlit(" · sorted by name");
    assert(" · sorted by count"@ =~= " · sorted by "@ + "count"@);
    assert(" · sorted by name"@ =~= " · sorted by "@ + "name"@);
    let sorted = match options.sort_by {
        SortCriterion::Size => Seq::empty(),
        SortCriterion::Count => " · sorted by count"@,
        SortCriterion::Name => " · sorted by name"@,
    };
    let limit = match options.min_size {
        Some(bytes) => " · min "@ + size_text(bytes as nat),
        None => Seq::empty(),
    };
    let top = match options.top_n {
        Some(n) => if n == 10 {
            Seq::empty()
        } else {
            " · top "@ + digits(n as nat)
        },
        None => Seq::empty(),
    };
    assert(hints_text(options) =~= sorted + limit + top);
}

/// The whole view, without color: the scanned path with its totals, the tree
/// below it, a rule of eighty dashes, the summary and the hints.
pub proof fn law_view(
    root_path: Seq<char>,
    totals: Totals,
    root: Node,
    options: ScanOptions,
)
    ensures
        ({
            let plain = Palette { enabled: false };
            let drawing = Drawing { palette: plain, max_depth: options.max_depth as nat };
            viz_text(root_path, totals, root, options, plain) == "📁 "@ + root_path + " (Total: "@
                + size_text(totals.size) + ", Apparent: "@ + size_text(totals.apparent) + ")\n"@
                + drawing.level(root, Seq::empty(), 0) + Seq::new(80, |i: int| '─')
                + "\nSummary: "@ + size_text(totals.size) + " allocated across "@ + grouped(
                totals.files,
            ) + " files and "@ + grouped(totals.dirs) + " directories (Scanned in "@ + digits(
                totals.millis,
            ) + "ms)"@ + hints_text(options) + "\n"@
        }),
{
    let plain = Palette { enabled: false };
    let drawing = Drawing { palette: plain, max_depth: options.max_depth as nat };
    assert(repeated('─', 80) =~= Seq::new(80, |i: int| '─'));
    assert(viz_text(root_path, totals, root, options, plain) =~= "📁 "@ + root_path + " (Total: "@
        + size_text(totals.size) + ", Apparent: "@ + size_text(totals.apparent) + ")\n"@
        + drawing.level(root, Seq::empty(), 0) + Seq::new(80, |i: int| '─') + "\nSummary: "@
        + size_text(totals.size) + " allocated across "@ + grouped(totals.files) + " files and "@
        + grouped(totals.dirs) + " directories (Scanned in "@ + digits(totals.millis) + "ms)"@
        + hints_text(options) + "\n"@);
}

/// Each cause stands on a line of its own, two blanks deeper than the one
/// before.
pub proof fn law_causes(causes: Seq<String>, i: int)
    requires
        0 <= i < causes.len(),
    ensures
        causes_text(causes, (i + 1) as nat) == causes_text(causes, i as nat) + Seq::new(
            (2 * i + 2) as nat,
            |k: int| ' ',
        ) + "└── Caused by: "@ + causes[i]@ + "\n"@,
        causes_text(causes, 0).len() == 0,
{
    assert(repeated(' ', (2 + 2 * i) as nat) =~= Seq::new((2 * i + 2) as nat, |k: int| ' '));
}

/// An error is shown with all of its causes, and with advice where there is
/// some.
pub proof fn law_error_chain(head: Seq<char>, causes: Seq<String>, hint: Seq<char>)
    ensures
        ({
            let plain = Palette { enabled: false };
            let listed = "error:"@ + " "@ + head + "\n"@ + causes_text(causes, causes.len());
            &&& chain_text(plain, head, causes, None) == listed
            &&& chain_text(plain, head, causes, Some(hint)) == listed + "  "@ + "hint:"@ + " "@
                + hint + "\n"@
        }),
{
}

/// The question and the warning tell the trash from a permanent deletion.
pub proof fn law_consent_texts(count: nat, size: Seq<char>, shown: Seq<char>)
    ensures
        prompt_text(count, true) == "Move "@ + digits(count)
            + " items of cached data to the trash/recycle bin?"@,
        prompt_text(count, false) == "Permanently delete "@ + digits(count)
            + " items of cached data?"@,
        warning_text(size, shown, true) == "Applying will move "@ + size + " across "@ + shown
            + " items to the trash."@,
        warning_text(size, shown, false) == "Applying will permanently delete "@ + size
            + " across "@ + shown + " items."@,
{
}

/// One item is an item, any other number of them are items.
pub proof fn law_item_count(count: nat)
    ensures
        count == 1 ==> items_text(count) == seq!['1'] + " item"@,
        count != 1 ==> items_text(count) == grouped(count) + " items"@,
{
    reveal_strlit(" ");
    reveal_strlit("item");
    reveal_strlit("items");
    reveal_strlit(" item");
    reveal_strlit(" items");
    assert(" item"@ =~= " "@ + "item"@);
    assert(" items"@ =~= " "@ + "items"@);
    if count == 1 {
        assert(grouped(1) =~= seq!['1']);
        assert(items_text(count) =~= seq!['1'] + " item"@);
    } else {
        assert(items_text(count) =~= grouped(count) + " items"@);
    }
}

proof fn lemma_target_rows(plan: CleanPlan, n: nat, i: int)
    requires
        0 <= i < n <= plan.targets@.len(),
    ensures
        target_rows(plan, n).len() == n,
        ({
            let target = plan.targets@[i];
            let row = target_rows(plan, n)[i];
            &&& row.len() == 4
            &&& row[0] == (CellText { text: target.target_name@, tone: Tone::Plain })
            &&& row[1] == (CellText { text: target.path@, tone: Tone::Plain })
            &&& row[2] == (CellText {
                text: items_text(target.item_count as nat),
                tone: Tone::Plain,
            })
            &&& row[3] == (CellText {
                text: size_text(target.total_bytes as nat),
                tone: Tone::Plain,
            })
        }),
    decreases n,
{
    if n > 1 {
        lemma_target_rows(plan, (n - 1) as nat, if i < n - 1 {
            i
        } else {
            0
        });
    } else {
        assert(target_rows(plan, 0) =~= Seq::empty());
    }
}

/// A plan is shown as a table with a row for each of its targets, between the
/// header and the totals.
pub proof fn law_plan_rows(plan: CleanPlan, i: int, apply: bool, trash: bool, palette: Palette)
    requires
        0 <= i < plan.targets@.len(),
    ensures
        ({
            let table = plan_screen(plan, apply, trash, palette).table;
            let target = plan.targets@[i];
            let row = table[i + 1];
            let total = table.last();
            &&& table.len() == plan.targets@.len() + 2
            &&& row.len() == 4
            &&& row[0].text == target.target_name@
            &&& row[1].text == target.path@
            &&& row[2].text == items_text(target.item_count as nat)
            &&& row[3].text == size_text(target.total_bytes as nat)
            &&& total.len() == 4
            &&& total[0].text == "TOTAL"@
            &&& total[2].text == items_text(plan.total_items as nat)
            &&& total[3].text == size_text(plan.total_bytes as nat)
        }),
{
    lemma_target_rows(plan, plan.targets@.len(), i);
}

/// What stands below a plan: a warning where it is to be carried out, that
/// nothing was deleted where it is not; an empty plan has no table.
pub proof fn law_plan_footer(plan: CleanPlan, trash: bool)
    ensures
        ({
            let plain = Palette { enabled: false };
            let size = size_text(plan.total_bytes as nat);
            let count = grouped(plan.total_items as nat);
            &&& plan.targets@.len() == 0 ==> forall|apply: bool|
                (#[trigger] plan_screen(plan, apply, trash, plain)).table.len() == 0
                    && plan_screen(plan, apply, trash, plain).lines == seq![
                    "No cleanable items found — everything is already tidy."@,
                ]
            &&& plan.targets@.len() > 0 ==> plan_screen(plan, true, trash, plain).lines == seq![
                "⚠  "@ + warning_text(size, count, trash)
                    + " Confirmation required unless --yes."@,
            ]
            &&& plan.targets@.len() > 0 ==> plan_screen(plan, false, trash, plain).lines == seq![
                "💡 [DRY-RUN MODE]: No files were deleted."@,
                "   To apply these changes, run: diskpulse clean --apply"@,
            ]
        }),
{
}

proof fn lemma_result_rows(report: CleanReport, n: nat, i: int)
    requires
        0 <= i < n <= report.results@.len(),
    ensures
        result_rows(report, n).len() == n,
        ({
            let result = report.results@[i];
            let row = result_rows(report, n)[i];
            &&& row.len() == 4
            &&& row[0] == (CellText { text: result.target_id@, tone: Tone::Plain })
            &&& row[1] == (CellText { text: result.path@, tone: Tone::Plain })
            &&& row[2] == (CellText { text: size_text(result.size as nat), tone: Tone::Plain })
            &&& row[3] == (CellText {
                text: result.status.label(),
                tone: status_tone(result.status),
            })
        }),
    decreases n,
{
    if n > 1 {
        lemma_result_rows(report, (n - 1) as nat, if i < n - 1 {
            i
        } else {
            0
        });
    } else {
        assert(result_rows(report, 0) =~= Seq::empty());
    }
}

/// A report is shown as a table with a row for each of its results below the
/// header; the last cell tells what became of the item.
pub proof fn law_report_rows(report: CleanReport, i: int, palette: Palette)
    requires
        0 <= i < report.results@.len(),
    ensures
        ({
            let table = report_screen(report, palette).table;
            let result = report.results@[i];
            let row = table[i + 1];
            &&& table.len() == report.results@.len() + 1
            &&& row.len() == 4
            &&& row[0].text == result.target_id@
            &&& row[1].text == result.path@
            &&& row[2].text == size_text(result.size as nat)
            &&& match result.status {
                CleanItemStatus::Deleted => row[3].text == "deleted"@ && row[3].tone == Tone::Green,
                CleanItemStatus::MovedToTrash => row[3].text == "moved to trash"@ && row[3].tone
                    == Tone::Cyan,
                CleanItemStatus::SkippedDryRun => row[3].text == "skipped (dry run)"@ && row[3].tone
                    == Tone::DarkYellow,
                CleanItemStatus::Failed(reason) => row[3].text == "failed: "@ + reason@
                    && row[3].tone == Tone::Red,
            }
        }),
{
    lemma_result_rows(report, report.results@.len(), i);
}

/// Below a report stands what was freed, then that it was a dry run where it
/// was one, then how many items failed where any did.
pub proof fn law_report_lines(report: CleanReport)
    ensures
        ({
            let plain = Palette { enabled: false };
            let lines = report_lines(report, plain);
            let dry = if report.dry_run {
                1int
            } else {
                0
            };
            let failed = if report.errors_count > 0 {
                1int
            } else {
                0
            };
            &&& lines.len() == 1 + dry + failed
            &&& lines[0] == "Freed "@ + size_text(report.bytes_freed as nat) + " across "@
                + grouped(report.items_freed as nat) + " items in "@ + digits(
                report.duration_ms as nat,
            ) + " ms."@
            &&& report.dry_run ==> lines[1] == "Dry run — nothing was deleted."@
            &&& report.errors_count > 0 ==> lines[1 + dry] == "warning:"@ + " "@ + digits(
                report.errors_count as nat,
            ) + " item(s) failed; see the table above for reasons."@
        }),
{
}

/// A listing has a row for each target: its identifier, its name, whether it
/// runs by default, where it lies and what it is.
pub proof fn law_target_listing(targets: Seq<CleanTargetDef>, i: int)
    requires
        0 <= i < targets.len(),
    ensures
        ({
            let plain = Palette { enabled: false };
            let screen = targets_screen(targets, plain);
            let target = targets[i];
            let row = screen.table[i + 1];
            &&& screen.table.len() == targets.len() + 1
            &&& row.len() == 5
            &&& row[0].text == target.id@
            &&& row[1].text == target.name@
            &&& target.enabled_by_default ==> row[2] == (CellText {
                text: "default"@,
                tone: Tone::Green,
            })
            &&& !target.enabled_by_default ==> row[2] == (CellText {
                text: "opt-in"@,
                tone: Tone::DarkYellow,
            })
            &&& target.paths@.len() == 0 ==> row[3].text == "—"@
            &&& target.paths@.len() == 1 ==> row[3].text == target.paths@[0]@
            &&& target.paths@.len() == 2 ==> row[3].text == target.paths@[0]@ + ", "@
                + target.paths@[1]@
            &&& row[4].text == target.description@
            &&& screen.lines == seq![
                digits(targets.len()) + " target(s) shown; pass --all to include opt-in targets."@,
            ]
        }),
{
    let paths = targets[i].paths@;
    assert(joined_paths(paths, 1) == paths[0]@ || paths.len() < 1);
}

} // verus!
