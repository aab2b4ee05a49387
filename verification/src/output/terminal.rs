//! The terminal dashboard: one line per volume with a usage bar, the
//! semantic categories of each volume, and a footer about hidden mounts.
use vstd::prelude::*;
use crate::model::{Percent, SemanticCategory, StorageReport, StorageVolume, percent_tenths, percent_value};
use crate::binary64::{
    Double, below, below_exec, from_nat, from_u64, product, product_exec, quotient, quotient_exec,
    round_half_away, round_half_away_exec, tenths, tenths_exec,
};
use crate::order::insert_key;
use crate::text::{
    decimal, pad_left, pad_right, push_all, push_decimal, push_pad_left, push_pad_right,
    push_str, replace_first, replace_first_exec, spaces, string_of, truncate, truncate_exec,
    chars_of, push_spaces, lemma_truncate_len, trim_end, opt_str_view, str_is,
};
use crate::lex::{parse_unsigned, parse_unsigned_exec};

verus! {

/// How the dashboard is drawn.
#[derive(Debug, Clone, Copy, PartialEq, Eq, Structural)]
pub struct RenderOptions {
    pub ascii: bool,
    pub color: bool,
    pub width: usize,
}

/// Tenths `t` written with one decimal: `47.1`.
#[verifier::opaque]
pub open spec fn fixed1(t: nat) -> Seq<char> {
    decimal(t / 10) + seq!['.'] + decimal(t % 10)
}

/// The tenths shown for `n` bytes counted in units of `d` bytes: the double
/// quotient `n / d`, written with one decimal.
pub open spec fn unit_tenths(n: u64, d: nat) -> nat {
    tenths(quotient(from_nat(n as nat), from_nat(d)))
}

/// The number and the unit of a byte count as shown: decimal units of a
/// thousand, the unit chosen by the count, the number the double quotient
/// with one decimal; plain bytes below a kilobyte.
#[verifier::opaque]
pub open spec fn bytes_parts(n: u64) -> (Seq<char>, Seq<char>) {
    if n >= 1_000_000_000_000 {
        (fixed1(unit_tenths(n, 1_000_000_000_000)), seq!['T', 'B'])
    } else if n >= 1_000_000_000 {
        (fixed1(unit_tenths(n, 1_000_000_000)), seq!['G', 'B'])
    } else if n >= 1_000_000 {
        (fixed1(unit_tenths(n, 1_000_000)), seq!['M', 'B'])
    } else if n >= 1_000 {
        (fixed1(unit_tenths(n, 1_000)), seq!['K', 'B'])
    } else {
        (decimal(n as nat), seq!['B'])
    }
}

/// A byte count as shown: `70.8 GB`, `512 B`.
#[verifier::opaque]
pub open spec fn format_bytes_spec(n: u64) -> Seq<char> {
    bytes_parts(n).0 + seq![' '] + bytes_parts(n).1
}

fn push_fixed1(out: &mut Vec<char>, t: u128)
    ensures
        final(out)@ == old(out)@ + fixed1(t as nat),
{
    reveal(fixed1);
    push_decimal(out, t / 10);
    out.push('.');
    push_decimal(out, t % 10);
    assert(final(out)@ =~= old(out)@ + fixed1(t as nat));
}

fn unit_tenths_exec(n: u64, d: u64) -> (t: u128)
    requires
        1 <= d <= n,
    ensures
        t == unit_tenths(n, d as nat),
{
    let x = from_u64(n);
    let y = from_u64(d);
    let q = quotient_exec(x, y);
    tenths_exec(q)
}

fn bytes_parts_exec(n: u64) -> (r: (Vec<char>, Vec<char>))
    ensures
        r.0@ == bytes_parts(n).0,
        r.1@ == bytes_parts(n).1,
{
    reveal(bytes_parts);
    let mut num: Vec<char> = Vec::new();
    let n128 = n as u128;
    if n >= 1_000_000_000_000 {
        push_fixed1(&mut num, unit_tenths_exec(n, 1_000_000_000_000));
        let unit = vec!['T', 'B'];
        assert(unit@ =~= seq!['T', 'B']);
        assert(num@ =~= bytes_parts(n).0);
        (num, unit)
    } else if n >= 1_000_000_000 {
        push_fixed1(&mut num, unit_tenths_exec(n, 1_000_000_000));
        let unit = vec!['G', 'B'];
        assert(unit@ =~= seq!['G', 'B']);
        assert(num@ =~= bytes_parts(n).0);
        (num, unit)
    } else if n >= 1_000_000 {
        push_fixed1(&mut num, unit_tenths_exec(n, 1_000_000));
        let unit = vec!['M', 'B'];
        assert(unit@ =~= seq!['M', 'B']);
        assert(num@ =~= bytes_parts(n).0);
        (num, unit)
    } else if n >= 1_000 {
        push_fixed1(&mut num, unit_tenths_exec(n, 1_000));
        let unit = vec!['K', 'B'];
        assert(unit@ =~= seq!['K', 'B']);
        assert(num@ =~= bytes_parts(n).0);
        (num, unit)
    } else {
        push_decimal(&mut num, n128);
        let unit = vec!['B'];
        assert(unit@ =~= seq!['B']);
        assert(num@ =~= bytes_parts(n).0);
        (num, unit)
    }
}

fn push_bytes(out: &mut Vec<char>, n: u64)
    ensures
        final(out)@ == old(out)@ + format_bytes_spec(n),
{
    reveal(format_bytes_spec);
    let (num, unit) = bytes_parts_exec(n);
    push_all(out, &num);
    out.push(' ');
    push_all(out, &unit);
    assert(final(out)@ =~= old(out)@ + format_bytes_spec(n));
}

/// A byte count in decimal units with one decimal: `70.8 GB`, `512 B`.
pub fn format_bytes(n: u64) -> (r: String)
    ensures
        r@ == format_bytes_spec(n),
{
    let mut out: Vec<char> = Vec::new();
    push_bytes(&mut out, n);
    assert(out@ =~= format_bytes_spec(n));
    string_of(&out)
}

/// A usage percentage with one decimal, without the sign: `47.1`.
pub open spec fn percent_text(p: Percent) -> Seq<char> {
    fixed1(percent_tenths(p))
}

fn push_percent(out: &mut Vec<char>, p: Percent)
    ensures
        final(out)@ == old(out)@ + percent_text(p),
{
    push_fixed1(out, p.tenths());
}

/// The percentage, as the double computed, is below `limit` percent.
pub open spec fn percent_below(p: Percent, limit: nat) -> bool {
    below(percent_value(p), limit)
}

fn percent_below_exec(p: Percent, limit: u64) -> (r: bool)
    requires
        1 <= limit <= 100,
    ensures
        r == percent_below(p, limit as nat),
{
    below_exec(p.value(), limit)
}

/// The color of a usage: green below 70%, yellow below 85%, red above.
pub open spec fn color_code(p: Percent) -> Seq<char> {
    if percent_below(p, 70) {
        seq!['3', '2']
    } else if percent_below(p, 85) {
        seq!['3', '3']
    } else {
        seq!['3', '1']
    }
}

/// `text` in the color of usage `p`.
#[verifier::opaque]
pub open spec fn colorize(text: Seq<char>, p: Percent) -> Seq<char> {
    seq!['\u{1b}', '['] + color_code(p) + seq!['m'] + text + seq!['\u{1b}', '[', '0', 'm']
}

fn push_colorized(out: &mut Vec<char>, text: &[char], p: Percent)
    ensures
        final(out)@ == old(out)@ + colorize(text@, p),
{
    reveal(colorize);
    out.push('\u{1b}');
    out.push('[');
    if percent_below_exec(p, 70) {
        out.push('3');
        out.push('2');
    } else if percent_below_exec(p, 85) {
        out.push('3');
        out.push('3');
    } else {
        out.push('3');
        out.push('1');
    }
    out.push('m');
    push_all(out, text);
    out.push('\u{1b}');
    out.push('[');
    out.push('0');
    out.push('m');
    assert(final(out)@ =~= old(out)@ + colorize(text@, p));
}

/// `n` copies of `c`.
pub open spec fn repeat(c: char, n: nat) -> Seq<char> {
    Seq::new(n, |i: int| c)
}

fn push_repeat(out: &mut Vec<char>, c: char, n: usize)
    ensures
        final(out)@ == old(out)@ + repeat(c, n as nat),
{
    let ghost start = out@;
    let mut i: usize = 0;
    while i < n
        invariant
            i <= n,
            out@ == start + repeat(c, i as nat),
        decreases n - i,
    {
        out.push(c);
        i = i + 1;
        assert(out@ =~= start + repeat(c, i as nat));
    }
}

/// The percentage clamped to at most 100, as a double.
pub open spec fn clamped_percent(p: Percent) -> Double {
    if below(percent_value(p), 100) {
        percent_value(p)
    } else {
        from_nat(100)
    }
}

/// How many of `width` cells of a usage bar are filled: the clamped
/// percentage divided by 100 and multiplied by the width in double
/// precision, rounded half away from zero, and taken as a `usize` (which
/// saturates).
#[verifier::opaque]
pub open spec fn bar_filled(p: Percent, width: nat) -> nat {
    let share = quotient(clamped_percent(p), from_nat(100));
    let cells = round_half_away(product(share, from_nat(width)));
    if cells > usize::MAX {
        usize::MAX as nat
    } else {
        cells
    }
}

/// A usage bar of `width` cells: the filled ones, then the rest of the
/// width.
#[verifier::opaque]
pub open spec fn usage_bar(p: Percent, width: nat, ascii: bool, color: bool) -> Seq<char> {
    let filled = bar_filled(p, width);
    let full = repeat(if ascii { '#' } else { '█' }, filled);
    let empty = repeat(if ascii { '-' } else { '░' }, if filled <= width { (width - filled) as nat } else { 0 });
    if !color {
        full + empty
    } else {
        (if full.len() > 0 { colorize(full, p) } else { Seq::empty() }) + (if empty.len() > 0 {
            seq!['\u{1b}', '[', '2', 'm'] + empty + seq!['\u{1b}', '[', '0', 'm']
        } else {
            Seq::empty()
        })
    }
}

fn bar_filled_exec(p: Percent, width: usize) -> (r: usize)
    requires
        1 <= width <= 1000,
    ensures
        r == bar_filled(p, width as nat),
{
    proof {
        reveal(bar_filled);
    }
    let v = p.value();
    let hundred = from_u64(100);
    let pc = if below_exec(v, 100) { v } else { hundred };
    let w = from_u64(width as u64);
    if pc.m == 0 {
        proof {
            let sh = quotient(pc, from_nat(100));
            assert(crate::binary64::scaled(pc) == 0) by (nonlinear_arith)
                requires
                    pc.m == 0,
                    crate::binary64::scaled(pc) == pc.m * vstd::arithmetic::power2::pow2(pc.e as nat),
            ;
            assert(sh.m == 0 && sh.e == 0);
            assert(crate::binary64::scaled(sh) == 0) by (nonlinear_arith)
                requires
                    sh.m == 0,
                    crate::binary64::scaled(sh) == sh.m * vstd::arithmetic::power2::pow2(sh.e as nat),
            ;
            assert(crate::binary64::scaled(sh) * crate::binary64::scaled(w) == 0);
        }
        let c = round_half_away_exec(Double { m: 0, e: 0 });
        return if c > usize::MAX as u128 { usize::MAX } else { c as usize };
    }
    let share = quotient_exec(pc, hundred);
    let cells = product_exec(share, w);
    let c = round_half_away_exec(cells);
    if c > usize::MAX as u128 {
        usize::MAX
    } else {
        c as usize
    }
}

fn push_usage_bar(out: &mut Vec<char>, p: Percent, width: usize, ascii: bool, color: bool)
    requires
        1 <= width <= 1000,
    ensures
        final(out)@ == old(out)@ + usage_bar(p, width as nat, ascii, color),
{
    reveal(usage_bar);
    let filled = bar_filled_exec(p, width);
    let full_c = if ascii { '#' } else { '█' };
    let empty_c = if ascii { '-' } else { '░' };
    let mut full: Vec<char> = Vec::new();
    push_repeat(&mut full, full_c, filled);
    let rest: usize = if filled <= width { width - filled } else { 0 };
    let mut empty: Vec<char> = Vec::new();
    push_repeat(&mut empty, empty_c, rest);
    assert(full@ =~= repeat(full_c, filled as nat));
    assert(empty@ =~= repeat(empty_c, rest as nat));
    if !color {
        push_all(out, &full);
        push_all(out, &empty);
        assert(final(out)@ =~= old(out)@ + usage_bar(p, width as nat, ascii, color));
        return;
    }
    let ghost start = out@;
    if full.len() > 0 {
        push_colorized(out, &full, p);
    }
    let ghost mid = out@;
    if empty.len() > 0 {
        out.push('\u{1b}');
        out.push('[');
        out.push('2');
        out.push('m');
        push_all(out, &empty);
        out.push('\u{1b}');
        out.push('[');
        out.push('0');
        out.push('m');
    }
    assert(final(out)@ =~= old(out)@ + usage_bar(p, width as nat, ascii, color));
}

/// The used and total sizes of a volume, the unit written once when both share it:
/// `70.8 / 150.3 GB`.
#[verifier::opaque]
pub open spec fn compact_capacity(used: u64, total: u64) -> Seq<char> {
    if bytes_parts(used).1 == bytes_parts(total).1 {
        bytes_parts(used).0 + seq![' ', '/', ' '] + format_bytes_spec(total)
    } else {
        format_bytes_spec(used) + seq![' ', '/', ' '] + format_bytes_spec(total)
    }
}

fn compact_capacity_exec(used: u64, total: u64) -> (r: Vec<char>)
    ensures
        r@ == compact_capacity(used, total),
{
    reveal(compact_capacity);
    let (un, uu) = bytes_parts_exec(used);
    let (_tn, tu) = bytes_parts_exec(total);
    let mut out: Vec<char> = Vec::new();
    if crate::text::chars_eq(&uu, &tu) {
        push_all(&mut out, &un);
    } else {
        push_bytes(&mut out, used);
    }
    out.push(' ');
    out.push('/');
    out.push(' ');
    push_bytes(&mut out, total);
    assert(out@ =~= compact_capacity(used, total));
    out
}

/// A volume name in bold when colors are on, padded to `cell` characters.
#[verifier::opaque]
pub open spec fn styled_name(name: Seq<char>, cell: nat, color: bool) -> Seq<char> {
    let padding = spaces(if cell >= name.len() { (cell - name.len()) as nat } else { 0 });
    if color {
        seq!['\u{1b}', '[', '1', 'm'] + name + seq!['\u{1b}', '[', '0', 'm'] + padding
    } else {
        name + padding
    }
}

fn push_styled_name(out: &mut Vec<char>, name: &[char], cell: usize, color: bool)
    ensures
        final(out)@ == old(out)@ + styled_name(name@, cell as nat, color),
{
    reveal(styled_name);
    let padding = if cell >= name.len() { cell - name.len() } else { 0 };
    if color {
        out.push('\u{1b}');
        out.push('[');
        out.push('1');
        out.push('m');
        push_all(out, name);
        out.push('\u{1b}');
        out.push('[');
        out.push('0');
        out.push('m');
    } else {
        push_all(out, name);
    }
    push_spaces(out, padding);
    assert(final(out)@ =~= old(out)@ + styled_name(name@, cell as nat, color));
}

/// A usage percentage right-aligned in four characters, with its sign,
/// in the usage color when colors are on.
#[verifier::opaque]
pub open spec fn styled_percent(p: Percent, color: bool) -> Seq<char> {
    let text = pad_left(percent_text(p), 4) + seq!['%'];
    if color {
        colorize(text, p)
    } else {
        text
    }
}

fn push_styled_percent(out: &mut Vec<char>, p: Percent, color: bool)
    ensures
        final(out)@ == old(out)@ + styled_percent(p, color),
{
    reveal(styled_percent);
    let mut num: Vec<char> = Vec::new();
    push_percent(&mut num, p);
    let mut text: Vec<char> = Vec::new();
    push_pad_left(&mut text, &num, 4);
    text.push('%');
    assert(text@ =~= pad_left(percent_text(p), 4) + seq!['%']);
    if color {
        push_colorized(out, &text, p);
    } else {
        push_all(out, &text);
    }
}

} // verus!

verus! {

/// The lines of one volume: on one line when it fits in `width`, else a
/// heading line and a detail line, each cut to `width`.
#[verifier::opaque]
pub open spec fn volume_lines_spec(
    v: StorageVolume,
    o: RenderOptions,
    width: nat,
    name_width: nat,
    capacity_width: nat,
) -> Seq<char> {
    let p = v.used_percent;
    let name = truncate(v.name@, name_width);
    let capacity = compact_capacity(v.used_bytes, v.total_bytes);
    let free = format_bytes_spec(v.available_bytes) + seq![' ', 'f', 'r', 'e', 'e'];
    let bar = usage_bar(p, 12, o.ascii, o.color);
    let plain_bar = usage_bar(p, 12, o.ascii, false);
    let two = seq![' ', ' '];
    let plain = pad_right(name, name_width) + two + pad_left(capacity, capacity_width) + two
        + pad_left(percent_text(p) + seq!['%'], 5) + two + plain_bar + two + free;
    if plain.len() <= width {
        styled_name(name, name_width, o.color) + two + pad_left(capacity, capacity_width) + two
            + styled_percent(p, o.color) + two + bar + two + free + seq!['\n']
    } else {
        let heading = truncate(name + two + capacity + two + percent_text(p) + seq!['%'], width);
        let heading = if o.color {
            replace_first(heading, name, seq!['\u{1b}', '[', '1', 'm'] + name + seq!['\u{1b}', '[', '0', 'm'])
        } else {
            heading
        };
        let detail = truncate(two + plain_bar + two + free, width);
        let detail = if o.color {
            replace_first(detail, plain_bar, bar)
        } else {
            detail
        };
        heading + seq!['\n'] + detail + seq!['\n']
    }
}

fn volume_lines(
    volume: &StorageVolume,
    options: RenderOptions,
    width: usize,
    name_width: usize,
    capacity_width: usize,
) -> (r: Vec<char>)
    ensures
        r@ == volume_lines_spec(*volume, options, width as nat, name_width as nat, capacity_width as nat),
{
    reveal(volume_lines_spec);
    let p = volume.used_percent;
    let name = truncate_exec(&chars_of(volume.name.as_str()), name_width);
    let capacity = compact_capacity_exec(volume.used_bytes, volume.total_bytes);
    let mut free: Vec<char> = Vec::new();
    push_bytes(&mut free, volume.available_bytes);
    push_str(&mut free, " free");
    proof {
        reveal_strlit(" free");
        assert(free@ =~= format_bytes_spec(volume.available_bytes) + seq![' ', 'f', 'r', 'e', 'e']);
    }
    let mut bar: Vec<char> = Vec::new();
    push_usage_bar(&mut bar, p, 12, options.ascii, options.color);
    let mut plain_bar: Vec<char> = Vec::new();
    push_usage_bar(&mut plain_bar, p, 12, options.ascii, false);
    let mut pct: Vec<char> = Vec::new();
    push_percent(&mut pct, p);
    pct.push('%');
    let mut plain: Vec<char> = Vec::new();
    push_pad_right(&mut plain, &name, name_width);
    push_spaces(&mut plain, 2);
    push_pad_left(&mut plain, &capacity, capacity_width);
    push_spaces(&mut plain, 2);
    push_pad_left(&mut plain, &pct, 5);
    push_spaces(&mut plain, 2);
    push_all(&mut plain, &plain_bar);
    push_spaces(&mut plain, 2);
    push_all(&mut plain, &free);
    let ghost two = seq![' ', ' '];
    assert(spaces(2) =~= two);
    assert(plain@ =~= pad_right(name@, name_width as nat) + two + pad_left(capacity@, capacity_width as nat) + two
        + pad_left(pct@, 5) + two + plain_bar@ + two + free@);
    let mut out: Vec<char> = Vec::new();
    if plain.len() <= width {
        push_styled_name(&mut out, &name, name_width, options.color);
        push_spaces(&mut out, 2);
        push_pad_left(&mut out, &capacity, capacity_width);
        push_spaces(&mut out, 2);
        push_styled_percent(&mut out, p, options.color);
        push_spaces(&mut out, 2);
        push_all(&mut out, &bar);
        push_spaces(&mut out, 2);
        push_all(&mut out, &free);
        out.push('\n');
        assert(out@ =~= volume_lines_spec(*volume, options, width as nat, name_width as nat, capacity_width as nat));
        return out;
    }
    let mut h: Vec<char> = Vec::new();
    push_all(&mut h, &name);
    push_spaces(&mut h, 2);
    push_all(&mut h, &capacity);
    push_spaces(&mut h, 2);
    push_all(&mut h, &pct);
    assert(h@ =~= name@ + two + capacity@ + two + percent_text(p) + seq!['%']);
    let heading = truncate_exec(&h, width);
    let heading = if options.color {
        let mut bold: Vec<char> = Vec::new();
        bold.push('\u{1b}');
        bold.push('[');
        bold.push('1');
        bold.push('m');
        push_all(&mut bold, &name);
        bold.push('\u{1b}');
        bold.push('[');
        bold.push('0');
        bold.push('m');
        assert(bold@ =~= seq!['\u{1b}', '[', '1', 'm'] + name@ + seq!['\u{1b}', '[', '0', 'm']);
        replace_first_exec(&heading, &name, &bold)
    } else {
        heading
    };
    let mut d: Vec<char> = Vec::new();
    push_spaces(&mut d, 2);
    push_all(&mut d, &plain_bar);
    push_spaces(&mut d, 2);
    push_all(&mut d, &free);
    assert(d@ =~= two + plain_bar@ + two + free@);
    let detail = truncate_exec(&d, width);
    let detail = if options.color {
        replace_first_exec(&detail, &plain_bar, &bar)
    } else {
        detail
    };
    push_all(&mut out, &heading);
    out.push('\n');
    push_all(&mut out, &detail);
    out.push('\n');
    assert(out@ =~= volume_lines_spec(*volume, options, width as nat, name_width as nat, capacity_width as nat));
    out
}

} // verus!

verus! {

/// The catch-all category `Other`.
pub open spec fn is_other(c: SemanticCategory) -> bool {
    c.path@.len() > 0 && c.path@[0]@ == "Other"@
}

/// `c` is listed in the group `key`.
pub open spec fn in_category_group(c: SemanticCategory, key: Seq<char>) -> bool {
    !is_other(c) && c.path@[0]@ == key
}

/// Positions below `n` of the categories of group `key`, in order.
pub open spec fn category_members(cats: Seq<SemanticCategory>, key: Seq<char>, n: nat) -> Seq<usize>
    decreases n,
{
    if n == 0 {
        Seq::empty()
    } else {
        let prev = category_members(cats, key, (n - 1) as nat);
        if in_category_group(cats[n - 1], key) {
            prev.push((n - 1) as usize)
        } else {
            prev
        }
    }
}

/// The total size of the categories at positions `idx`.
pub open spec fn members_bytes(cats: Seq<SemanticCategory>, idx: Seq<usize>) -> nat
    decreases idx.len(),
{
    if idx.len() == 0 {
        0
    } else {
        members_bytes(cats, idx.drop_last()) + cats[idx.last() as int].estimate.bytes as nat
    }
}

/// The total size of group `key`.
pub open spec fn group_bytes(cats: Seq<SemanticCategory>, key: Seq<char>) -> nat {
    members_bytes(cats, category_members(cats, key, cats.len()))
}

/// `ks` lists the group names of `cats`, each once, in text order.
pub open spec fn is_group_key_list(ks: Seq<Seq<char>>, cats: Seq<SemanticCategory>) -> bool {
    &&& crate::order::strictly_sorted(ks)
    &&& forall|x: Seq<char>| #[trigger] ks.contains(x) <==> exists|i: int| 0 <= i < cats.len() && in_category_group(#[trigger] cats[i], x)
}

/// The group names of `cats`, each once, in text order.
pub open spec fn group_keys(cats: Seq<SemanticCategory>) -> Seq<Seq<char>> {
    choose|ks: Seq<Seq<char>>| is_group_key_list(ks, cats)
}

/// The sort entry of category `j`: larger sizes first.
pub open spec fn child_entry(cats: Seq<SemanticCategory>, j: usize) -> crate::order::Entry {
    (false, (0xffff_ffff_ffff_ffffu64 - cats[j as int].estimate.bytes) as u64, j)
}

/// The categories of group `key`, largest first, ties in their order.
pub open spec fn child_order(cats: Seq<SemanticCategory>, key: Seq<char>) -> Seq<crate::order::Entry> {
    crate::order::stable_sort(category_members(cats, key, cats.len()).map_values(|j: usize| child_entry(cats, j)))
}

/// The line of one category inside its group.
pub open spec fn child_line(c: SemanticCategory, o: RenderOptions, w: nat) -> Seq<char> {
    let l = truncate(seq![' ', ' ', ' ', ' '] + pad_right(c.name@, 10) + seq![' ', ' '] + format_bytes_spec(c.estimate.bytes), w);
    if o.color {
        seq!['\u{1b}', '[', '2', 'm'] + l + seq!['\u{1b}', '[', '0', 'm', '\n']
    } else {
        l + seq!['\n']
    }
}

/// The lines of the first `n` categories of `order`.
pub open spec fn children_text(cats: Seq<SemanticCategory>, order: Seq<crate::order::Entry>, o: RenderOptions, w: nat, n: nat) -> Seq<char>
    decreases n,
{
    if n == 0 {
        Seq::empty()
    } else {
        children_text(cats, order, o, w, (n - 1) as nat) + child_line(cats[order[n - 1].2 as int], o, w)
    }
}

/// The lines of group `key`: its name and total, then its two largest
/// categories.
pub open spec fn group_text(cats: Seq<SemanticCategory>, key: Seq<char>, o: RenderOptions, w: nat) -> Seq<char> {
    let line = truncate(seq![' ', ' '] + pad_right(key, 12) + seq![' ', ' '] + format_bytes_spec(group_bytes(cats, key) as u64), w);
    let line = if o.color {
        replace_first(line, key, seq!['\u{1b}', '[', '3', '6', 'm'] + key + seq!['\u{1b}', '[', '0', 'm'])
    } else {
        line
    };
    let order = child_order(cats, key);
    line + seq!['\n'] + children_text(cats, order, o, w, if order.len() < 2 { order.len() } else { 2 })
}

/// The lines of the first `n` groups of `ks`.
pub open spec fn groups_text(cats: Seq<SemanticCategory>, ks: Seq<Seq<char>>, o: RenderOptions, w: nat, n: nat) -> Seq<char>
    decreases n,
{
    if n == 0 {
        Seq::empty()
    } else {
        groups_text(cats, ks, o, w, (n - 1) as nat) + group_text(cats, ks[n - 1], o, w)
    }
}

/// The last `Other` category among the first `n`.
pub open spec fn other_category(cats: Seq<SemanticCategory>, n: nat) -> Option<SemanticCategory>
    decreases n,
{
    if n == 0 {
        None
    } else if is_other(cats[n - 1]) {
        Some(cats[n - 1])
    } else {
        other_category(cats, (n - 1) as nat)
    }
}

/// `c` as shown where the terminal cannot draw `·`, `…` or `⚠`.
pub open spec fn ascii_char(c: char) -> char {
    if c == '·' {
        '|'
    } else if c == '…' {
        '~'
    } else if c == '⚠' {
        '!'
    } else {
        c
    }
}

/// `s` with `·`, `…` and `⚠` replaced by `|`, `~` and `!`.
pub open spec fn ascii_fix(s: Seq<char>) -> Seq<char> {
    s.map_values(|c: char| ascii_char(c))
}

fn ascii_fix_exec(s: &[char]) -> (r: Vec<char>)
    ensures
        r@ == ascii_fix(s@),
{
    let mut out: Vec<char> = Vec::new();
    let mut i: usize = 0;
    while i < s.len()
        invariant
            i <= s.len(),
            out@ == ascii_fix(s@.take(i as int)),
        decreases s.len() - i,
    {
        let c = s[i];
        let d = if c == '·' {
            '|'
        } else if c == '…' {
            '~'
        } else if c == '⚠' {
            '!'
        } else {
            c
        };
        out.push(d);
        i = i + 1;
        assert(out@ =~= ascii_fix(s@.take(i as int)));
    }
    assert(s@.take(s.len() as int) =~= s@);
    out
}

/// The category lines of a volume: each group with its total and two
/// largest members, groups in name order, then `Other`.
#[verifier::opaque]
pub open spec fn category_lines_spec(cats: Seq<SemanticCategory>, o: RenderOptions, w: nat) -> Seq<char> {
    let ks = group_keys(cats);
    let body = groups_text(cats, ks, o, w, ks.len()) + match other_category(cats, cats.len()) {
        Some(c) => truncate(seq![' ', ' '] + pad_right(c.name@, 12) + seq![' ', ' '] + format_bytes_spec(c.estimate.bytes), w) + seq!['\n'],
        None => Seq::empty(),
    };
    if o.ascii {
        ascii_fix(body)
    } else {
        body
    }
}

/// The categories can be shown: each has a path, and no group's total
/// exceeds the range of a byte count.
pub open spec fn categories_showable(cats: Seq<SemanticCategory>) -> bool {
    &&& forall|i: int| 0 <= i < cats.len() ==> (#[trigger] cats[i]).path@.len() > 0
    &&& forall|key: Seq<char>| #[trigger] group_bytes(cats, key) <= 0xffff_ffff_ffff_ffffu64
}

fn is_other_exec(c: &SemanticCategory) -> (r: bool)
    ensures
        r == is_other(*c),
{
    c.path.len() > 0 && crate::text::str_is(c.path[0].as_str(), "Other")
}

proof fn lemma_members_bytes_push(cats: Seq<SemanticCategory>, idx: Seq<usize>, j: usize)
    ensures
        members_bytes(cats, idx.push(j)) == members_bytes(cats, idx) + cats[j as int].estimate.bytes,
{
    assert(idx.push(j).drop_last() =~= idx);
}

proof fn lemma_category_members_facts(cats: Seq<SemanticCategory>, key: Seq<char>, n: nat)
    requires
        n <= cats.len(),
        cats.len() <= usize::MAX,
    ensures
        forall|k: int| 0 <= k < category_members(cats, key, n).len() ==> {
            let j = #[trigger] category_members(cats, key, n)[k];
            &&& j < n
            &&& in_category_group(cats[j as int], key)
        },
        members_bytes(cats, category_members(cats, key, n)) <= group_bytes(cats, key),
    decreases cats.len() - n,
{
    lemma_category_members_bounded(cats, key, n);
    if n < cats.len() {
        lemma_category_members_facts(cats, key, n + 1);
        if in_category_group(cats[n as int], key) {
            lemma_members_bytes_push(cats, category_members(cats, key, n), n as usize);
        }
    }
}

proof fn lemma_category_members_bounded(cats: Seq<SemanticCategory>, key: Seq<char>, n: nat)
    requires
        n <= usize::MAX,
    ensures
        forall|k: int| 0 <= k < category_members(cats, key, n).len() ==> {
            let j = #[trigger] category_members(cats, key, n)[k];
            &&& j < n
            &&& in_category_group(cats[j as int], key)
        },
    decreases n,
{
    if n > 0 {
        lemma_category_members_bounded(cats, key, (n - 1) as nat);
        let prev = category_members(cats, key, (n - 1) as nat);
        let cur = category_members(cats, key, n);
        assert forall|k: int| 0 <= k < cur.len() implies {
            let j = #[trigger] cur[k];
            &&& j < n
            &&& in_category_group(cats[j as int], key)
        } by {
            if k < prev.len() {
                assert(cur[k] == prev[k]);
            }
        }
    }
}

pub proof fn lemma_child_order_facts(cats: Seq<SemanticCategory>, key: Seq<char>)
    requires
        cats.len() <= usize::MAX,
    ensures
        child_order(cats, key).len() == category_members(cats, key, cats.len()).len(),
        forall|k: int| 0 <= k < child_order(cats, key).len() ==> (#[trigger] child_order(cats, key)[k]).2 < cats.len(),
{
    let mem = category_members(cats, key, cats.len());
    let ents = mem.map_values(|j: usize| child_entry(cats, j));
    lemma_category_members_bounded(cats, key, cats.len());
    crate::order::lemma_stable_sort_len(ents);
    assert forall|k: int| 0 <= k < child_order(cats, key).len() implies (#[trigger] child_order(cats, key)[k]).2 < cats.len() by {
        let e = child_order(cats, key)[k];
        assert(ents.contains(e));
        let q = choose|q: int| 0 <= q < ents.len() && ents[q] == e;
        assert(ents[q] == child_entry(cats, mem[q]));
        assert(mem[q] < cats.len());
    }
}

fn push_child_line(out: &mut Vec<char>, c: &SemanticCategory, o: RenderOptions, w: usize)
    ensures
        final(out)@ == old(out)@ + child_line(*c, o, w as nat),
{
    let mut l: Vec<char> = Vec::new();
    push_spaces(&mut l, 4);
    push_pad_right(&mut l, &chars_of(c.name.as_str()), 10);
    push_spaces(&mut l, 2);
    push_bytes(&mut l, c.estimate.bytes);
    assert(l@ =~= seq![' ', ' ', ' ', ' '] + pad_right(c.name@, 10) + seq![' ', ' '] + format_bytes_spec(c.estimate.bytes));
    let l = truncate_exec(&l, w);
    if o.color {
        out.push('\u{1b}');
        out.push('[');
        out.push('2');
        out.push('m');
        push_all(out, &l);
        out.push('\u{1b}');
        out.push('[');
        out.push('0');
        out.push('m');
        out.push('\n');
    } else {
        push_all(out, &l);
        out.push('\n');
    }
    assert(final(out)@ =~= old(out)@ + child_line(*c, o, w as nat));
}

fn group_text_exec(cats: &Vec<SemanticCategory>, key: &Vec<char>, o: RenderOptions, w: usize) -> (r: Vec<char>)
    requires
        categories_showable(cats@),
    ensures
        r@ == group_text(cats@, key@, o, w as nat),
{
    let ghost cv = cats@;
    let mut idx: Vec<usize> = Vec::new();
    let mut total: u64 = 0;
    let mut i: usize = 0;
    while i < cats.len()
        invariant
            i <= cats.len(),
            cv == cats@,
            categories_showable(cv),
            idx@ == category_members(cv, key@, i as nat),
            total == members_bytes(cv, idx@),
        decreases cats.len() - i,
    {
        proof {
            lemma_category_members_facts(cv, key@, (i + 1) as nat);
            assert(group_bytes(cv, key@) <= 0xffff_ffff_ffff_ffffu64);
        }
        let c = &cats[i];
        if !is_other_exec(c) && crate::text::chars_eq(&chars_of(c.path[0].as_str()), key) {
            proof {
                lemma_members_bytes_push(cv, idx@, i);
            }
            idx.push(i);
            total = total + c.estimate.bytes;
        }
        i = i + 1;
    }
    proof {
        lemma_category_members_bounded(cv, key@, cats.len() as nat);
    }
    let mut line: Vec<char> = Vec::new();
    push_spaces(&mut line, 2);
    push_pad_right(&mut line, key, 12);
    push_spaces(&mut line, 2);
    push_bytes(&mut line, total);
    assert(line@ =~= seq![' ', ' '] + pad_right(key@, 12) + seq![' ', ' '] + format_bytes_spec(group_bytes(cv, key@) as u64));
    let line = truncate_exec(&line, w);
    let line = if o.color {
        let mut cyan: Vec<char> = Vec::new();
        cyan.push('\u{1b}');
        cyan.push('[');
        cyan.push('3');
        cyan.push('6');
        cyan.push('m');
        push_all(&mut cyan, key);
        cyan.push('\u{1b}');
        cyan.push('[');
        cyan.push('0');
        cyan.push('m');
        assert(cyan@ =~= seq!['\u{1b}', '[', '3', '6', 'm'] + key@ + seq!['\u{1b}', '[', '0', 'm']);
        replace_first_exec(&line, key, &cyan)
    } else {
        line
    };
    let mut out: Vec<char> = Vec::new();
    push_all(&mut out, &line);
    out.push('\n');
    let ghost mk = |j: usize| child_entry(cv, j);
    let mut entries: Vec<crate::order::Entry> = Vec::new();
    let mut k: usize = 0;
    while k < idx.len()
        invariant
            k <= idx.len(),
            cv == cats@,
            idx@ == category_members(cv, key@, cv.len()),
            forall|q: int| 0 <= q < idx.len() ==> #[trigger] idx@[q] < cats.len(),
            mk == |j: usize| child_entry(cv, j),
            entries@ == idx@.take(k as int).map_values(mk),
        decreases idx.len() - k,
    {
        let j = idx[k];
        entries.push((false, 0xffff_ffff_ffff_ffffu64 - cats[j].estimate.bytes, j));
        assert(entries@ =~= idx@.take(k + 1).map_values(mk));
        k = k + 1;
    }
    assert(idx@.take(idx.len() as int) =~= idx@);
    let order = crate::order::stable_sort_exec(&entries);
    assert(order@ == child_order(cv, key@));
    proof {
        lemma_child_order_facts(cv, key@);
    }
    let shown: usize = if order.len() < 2 { order.len() } else { 2 };
    let ghost head = out@;
    let mut q: usize = 0;
    while q < shown
        invariant
            q <= shown <= order.len(),
            cv == cats@,
            order@ == child_order(cv, key@),
            forall|x: int| 0 <= x < order.len() ==> (#[trigger] order@[x]).2 < cats.len(),
            out@ == head + children_text(cv, order@, o, w as nat, q as nat),
        decreases shown - q,
    {
        let e = order[q];
        push_child_line(&mut out, &cats[e.2], o, w);
        q = q + 1;
        assert(out@ =~= head + children_text(cv, order@, o, w as nat, q as nat));
    }
    out
}

} // verus!

verus! {

fn category_lines(categories: &Vec<SemanticCategory>, options: RenderOptions, width: usize) -> (r: Vec<char>)
    requires
        categories_showable(categories@),
    ensures
        r@ == category_lines_spec(categories@, options, width as nat),
{
    reveal(category_lines_spec);
    let ghost cv = categories@;
    let mut keys: Vec<Vec<char>> = Vec::new();
    let mut i: usize = 0;
    while i < categories.len()
        invariant
            i <= categories.len(),
            cv == categories@,
            categories_showable(cv),
            crate::order::strictly_sorted(crate::path::views(keys@)),
            forall|x: Seq<char>| #[trigger] crate::path::views(keys@).contains(x) <==> exists|j: int| 0 <= j < i && in_category_group(#[trigger] cv[j], x),
        decreases categories.len() - i,
    {
        let c = &categories[i];
        let ghost before = crate::path::views(keys@);
        if !is_other_exec(c) {
            let k = chars_of(c.path[0].as_str());
            insert_key(&mut keys, k);
        }
        proof {
            assert forall|x: Seq<char>| #[trigger] crate::path::views(keys@).contains(x) <==> exists|j: int| 0 <= j < i + 1 && in_category_group(#[trigger] cv[j], x) by {
                if crate::path::views(keys@).contains(x) {
                    if !before.contains(x) {
                        assert(in_category_group(cv[i as int], x));
                    } else {
                        let j = choose|j: int| 0 <= j < i && in_category_group(#[trigger] cv[j], x);
                    }
                }
                if exists|j: int| 0 <= j < i + 1 && in_category_group(#[trigger] cv[j], x) {
                    let j = choose|j: int| 0 <= j < i + 1 && in_category_group(#[trigger] cv[j], x);
                    if j < i {
                        assert(before.contains(x));
                    }
                }
            }
        }
        i = i + 1;
    }
    let ghost ks = crate::path::views(keys@);
    proof {
        assert(is_group_key_list(ks, cv));
        let chosen = group_keys(cv);
        assert(is_group_key_list(chosen, cv));
        assert forall|x: Seq<char>| ks.contains(x) <==> chosen.contains(x) by {
            assert(ks.contains(x) <==> exists|j: int| 0 <= j < cv.len() && in_category_group(#[trigger] cv[j], x));
            assert(chosen.contains(x) <==> exists|j: int| 0 <= j < cv.len() && in_category_group(#[trigger] cv[j], x));
        }
        crate::order::lemma_sorted_unique(ks, chosen);
    }
    let mut out: Vec<char> = Vec::new();
    let mut g: usize = 0;
    while g < keys.len()
        invariant
            g <= keys.len(),
            cv == categories@,
            categories_showable(cv),
            ks == crate::path::views(keys@),
            out@ == groups_text(cv, ks, options, width as nat, g as nat),
        decreases keys.len() - g,
    {
        let t = group_text_exec(categories, &keys[g], options, width);
        push_all(&mut out, &t);
        g = g + 1;
    }
    let mut other: Option<usize> = None;
    let mut j: usize = 0;
    while j < categories.len()
        invariant
            j <= categories.len(),
            cv == categories@,
            match other {
                Some(x) => x < j && other_category(cv, j as nat) == Some(cv[x as int]),
                None => other_category(cv, j as nat) is None,
            },
        decreases categories.len() - j,
    {
        if is_other_exec(&categories[j]) {
            other = Some(j);
        }
        j = j + 1;
    }
    if let Some(x) = other {
        let c = &categories[x];
        let mut l: Vec<char> = Vec::new();
        push_spaces(&mut l, 2);
        push_pad_right(&mut l, &chars_of(c.name.as_str()), 12);
        push_spaces(&mut l, 2);
        push_bytes(&mut l, c.estimate.bytes);
        assert(l@ =~= seq![' ', ' '] + pad_right(c.name@, 12) + seq![' ', ' '] + format_bytes_spec(c.estimate.bytes));
        let l = truncate_exec(&l, width);
        push_all(&mut out, &l);
        out.push('\n');
    }
    assert(out@ =~= groups_text(cv, ks, options, width as nat, ks.len()) + match other_category(cv, cv.len()) {
        Some(c) => truncate(seq![' ', ' '] + pad_right(c.name@, 12) + seq![' ', ' '] + format_bytes_spec(c.estimate.bytes), width as nat) + seq!['\n'],
        None => Seq::<char>::empty(),
    });
    if options.ascii {
        ascii_fix_exec(&out)
    } else {
        out
    }
}

} // verus!

verus! {

/// The width the dashboard is drawn in: the requested width kept between
/// 1 and 100 columns.
pub open spec fn clamp_width(w: usize) -> nat {
    if w < 1 {
        1
    } else if w > 100 {
        100
    } else {
        w as nat
    }
}

/// The longest name among the first `n` volumes.
pub open spec fn max_name_len(vs: Seq<StorageVolume>, n: nat) -> nat
    decreases n,
{
    if n == 0 {
        0
    } else {
        let prev = max_name_len(vs, (n - 1) as nat);
        let l = vs[n - 1].name@.len();
        if l > prev { l } else { prev }
    }
}

/// The longest capacity text among the first `n` volumes.
pub open spec fn max_capacity_len(vs: Seq<StorageVolume>, n: nat) -> nat
    decreases n,
{
    if n == 0 {
        0
    } else {
        let prev = max_capacity_len(vs, (n - 1) as nat);
        let l = compact_capacity(vs[n - 1].used_bytes, vs[n - 1].total_bytes).len();
        if l > prev { l } else { prev }
    }
}

/// The width of the name column: the longest name, at most 18.
pub open spec fn name_column(vs: Seq<StorageVolume>) -> nat {
    let m = max_name_len(vs, vs.len());
    if m < 18 { m } else { 18 }
}

/// The lines of a volume followed by its categories, when it has any.
pub open spec fn volume_block(v: StorageVolume, o: RenderOptions, w: nat, nw: nat, cw: nat) -> Seq<char> {
    volume_lines_spec(v, o, w, nw, cw) + if v.categories@.len() > 0 {
        seq!['\n'] + category_lines_spec(v.categories@, o, w) + seq!['\n']
    } else {
        Seq::empty()
    }
}

/// The blocks of the first `n` volumes.
pub open spec fn volumes_text(vs: Seq<StorageVolume>, o: RenderOptions, w: nat, nw: nat, cw: nat, n: nat) -> Seq<char>
    decreases n,
{
    if n == 0 {
        Seq::empty()
    } else {
        volumes_text(vs, o, w, nw, cw, (n - 1) as nat) + volume_block(vs[n - 1], o, w, nw, cw)
    }
}

/// The line of one hidden mount in the full listing.
#[verifier::opaque]
pub open spec fn hidden_line(m: crate::model::MountView, ascii: bool, w: nat) -> Seq<char> {
    let branch = if ascii { seq!['|', '-'] } else { seq!['├', '─'] };
    let reason = match m.hidden_reason {
        Some(r) => r@,
        None => "derived mount"@,
    };
    truncate(trim_end(branch + seq![' '] + m.target@ + seq![' ', ' '] + reason + seq!['\n']), w) + seq!['\n']
}

/// The lines of the first `n` hidden mounts.
pub open spec fn hidden_text(ms: Seq<crate::model::MountView>, ascii: bool, w: nat, n: nat) -> Seq<char>
    decreases n,
{
    if n == 0 {
        Seq::empty()
    } else {
        hidden_text(ms, ascii, w, (n - 1) as nat) + hidden_line(ms[n - 1], ascii, w)
    }
}

/// Some volume is the root of a container.
pub open spec fn has_container_root(vs: Seq<StorageVolume>) -> bool {
    exists|k: int| 0 <= k < vs.len() && (#[trigger] vs[k]).name@ == "Container root"@
}

/// The footer about hidden mounts.
#[verifier::opaque]
pub open spec fn footer(r: StorageReport, w: nat) -> Seq<char> {
    truncate(decimal(r.hidden_mounts@.len()) + " system mounts hidden · --all details · --why explain"@, w)
}

/// `s` ends with an empty line.
pub open spec fn ends_with_blank_line(s: Seq<char>) -> bool {
    s.len() >= 2 && s[s.len() - 1] == '\n' && s[s.len() - 2] == '\n'
}

/// The volume blocks, ending with an empty line.
pub open spec fn dashboard_body(r: StorageReport, o: RenderOptions) -> Seq<char> {
    let w = clamp_width(o.width);
    let vs = r.storage@;
    let body = volumes_text(vs, o, w, name_column(vs), max_capacity_len(vs, vs.len()), vs.len());
    if ends_with_blank_line(body) { body } else { body.push('\n') }
}

/// The footer line, dimmed when colors are on.
pub open spec fn footer_block(r: StorageReport, o: RenderOptions) -> Seq<char> {
    let foot = footer(r, clamp_width(o.width));
    if o.color {
        seq!['\u{1b}', '[', '2', 'm'] + foot + seq!['\u{1b}', '[', '0', 'm', '\n']
    } else {
        foot + seq!['\n']
    }
}

/// The listing of hidden mounts, when asked for.
pub open spec fn hidden_block(r: StorageReport, all: bool, o: RenderOptions) -> Seq<char> {
    if all { hidden_text(r.hidden_mounts@, o.ascii, clamp_width(o.width), r.hidden_mounts@.len()) } else { Seq::empty() }
}

/// The container warning, when a volume is a container root.
pub open spec fn warning_block(r: StorageReport, o: RenderOptions) -> Seq<char> {
    if has_container_root(r.storage@) {
        truncate("⚠ Container environment: visible storage may not be physical disks."@, clamp_width(o.width)) + seq!['\n']
    } else {
        Seq::empty()
    }
}

/// The whole dashboard: the volumes, the footer, the hidden mounts when
/// asked for and the container warning; in ASCII when asked for.
pub open spec fn render_spec(r: StorageReport, all: bool, o: RenderOptions) -> Seq<char> {
    let s = dashboard_body(r, o) + footer_block(r, o) + hidden_block(r, all, o) + warning_block(r, o);
    if o.ascii {
        ascii_fix(s)
    } else {
        s
    }
}

/// Every volume's categories can be shown.
pub open spec fn report_showable(r: StorageReport) -> bool {
    forall|k: int| 0 <= k < r.storage@.len() ==> categories_showable(#[trigger] r.storage@[k].categories@)
}

fn push_hidden_line(out: &mut Vec<char>, m: &crate::model::MountView, ascii: bool, w: usize)
    ensures
        final(out)@ == old(out)@ + hidden_line(*m, ascii, w as nat),
{
    reveal(hidden_line);
    let mut line: Vec<char> = Vec::new();
    if ascii {
        line.push('|');
        line.push('-');
    } else {
        line.push('├');
        line.push('─');
    }
    line.push(' ');
    push_str(&mut line, m.target.as_str());
    line.push(' ');
    line.push(' ');
    match &m.hidden_reason {
        Some(r) => push_str(&mut line, r.as_str()),
        None => push_str(&mut line, "derived mount"),
    }
    line.push('\n');
    let ghost branch = if ascii { seq!['|', '-'] } else { seq!['├', '─'] };
    let ghost reason = match &m.hidden_reason {
        Some(r) => r@,
        None => "derived mount"@,
    };
    assert(line@ =~= branch + seq![' '] + m.target@ + seq![' ', ' '] + reason + seq!['\n']);
    let t = crate::text::trim_end_exec(&line);
    let t = truncate_exec(&t, w);
    push_all(out, &t);
    out.push('\n');
    assert(final(out)@ =~= old(out)@ + hidden_line(*m, ascii, w as nat));
}

fn volume_block_exec(v: &StorageVolume, o: RenderOptions, w: usize, nw: usize, cw: usize) -> (r: Vec<char>)
    requires
        categories_showable(v.categories@),
    ensures
        r@ == volume_block(*v, o, w as nat, nw as nat, cw as nat),
{
    let mut out = volume_lines(v, o, w, nw, cw);
    if v.categories.len() > 0 {
        out.push('\n');
        let c = category_lines(&v.categories, o, w);
        push_all(&mut out, &c);
        out.push('\n');
    }
    assert(out@ =~= volume_block(*v, o, w as nat, nw as nat, cw as nat));
    out
}

fn column_widths(vs: &Vec<StorageVolume>) -> (r: (usize, usize, bool))
    ensures
        r.0 == max_name_len(vs@, vs@.len()),
        r.1 == max_capacity_len(vs@, vs@.len()),
        r.2 == has_container_root(vs@),
{
    let mut max_name: usize = 0;
    let mut max_cap: usize = 0;
    let mut has_root = false;
    let mut i: usize = 0;
    while i < vs.len()
        invariant
            i <= vs.len(),
            max_name == max_name_len(vs@, i as nat),
            max_cap == max_capacity_len(vs@, i as nat),
            has_root == exists|k: int| 0 <= k < i && (#[trigger] vs@[k]).name@ == "Container root"@,
        decreases vs.len() - i,
    {
        let name = chars_of(vs[i].name.as_str());
        if name.len() > max_name {
            max_name = name.len();
        }
        let cap = compact_capacity_exec(vs[i].used_bytes, vs[i].total_bytes);
        if cap.len() > max_cap {
            max_cap = cap.len();
        }
        if crate::text::seq_is(&name, "Container root") {
            has_root = true;
        }
        i = i + 1;
    }
    (max_name, max_cap, has_root)
}

fn volumes_text_exec(report: &StorageReport, o: RenderOptions, w: usize, nw: usize, cw: usize) -> (r: Vec<char>)
    requires
        report_showable(*report),
    ensures
        r@ == volumes_text(report.storage@, o, w as nat, nw as nat, cw as nat, report.storage@.len()),
{
    let vs = &report.storage;
    let mut out: Vec<char> = Vec::new();
    let mut k: usize = 0;
    while k < vs.len()
        invariant
            k <= vs.len(),
            report_showable(*report),
            vs == &report.storage,
            out@ == volumes_text(vs@, o, w as nat, nw as nat, cw as nat, k as nat),
        decreases vs.len() - k,
    {
        let b = volume_block_exec(&vs[k], o, w, nw, cw);
        push_all(&mut out, &b);
        k = k + 1;
    }
    out
}

fn push_footer(out: &mut Vec<char>, report: &StorageReport, color: bool, w: usize)
    ensures
        final(out)@ == old(out)@ + if color {
            seq!['\u{1b}', '[', '2', 'm'] + footer(*report, w as nat) + seq!['\u{1b}', '[', '0', 'm', '\n']
        } else {
            footer(*report, w as nat) + seq!['\n']
        },
{
    reveal(footer);
    let mut f: Vec<char> = Vec::new();
    push_decimal(&mut f, report.hidden_mounts.len() as u128);
    push_str(&mut f, " system mounts hidden · --all details · --why explain");
    let f = truncate_exec(&f, w);
    if color {
        out.push('\u{1b}');
        out.push('[');
        out.push('2');
        out.push('m');
        push_all(out, &f);
        out.push('\u{1b}');
        out.push('[');
        out.push('0');
        out.push('m');
        out.push('\n');
    } else {
        push_all(out, &f);
        out.push('\n');
    }
}

fn hidden_text_exec(report: &StorageReport, ascii: bool, w: usize) -> (r: Vec<char>)
    ensures
        r@ == hidden_text(report.hidden_mounts@, ascii, w as nat, report.hidden_mounts@.len()),
{
    let hs = &report.hidden_mounts;
    let mut out: Vec<char> = Vec::new();
    let mut h: usize = 0;
    while h < hs.len()
        invariant
            h <= hs.len(),
            out@ == hidden_text(hs@, ascii, w as nat, h as nat),
        decreases hs.len() - h,
    {
        push_hidden_line(&mut out, &hs[h], ascii, w);
        h = h + 1;
    }
    out
}

/// The dashboard of `report`, drawn with `options`; with `all`, every
/// hidden mount is listed too.
pub fn render_with_options(report: &StorageReport, all: bool, options: RenderOptions) -> (r: String)
    requires
        report_showable(*report),
    ensures
        r@ == render_spec(*report, all, options),
{
    let width: usize = if options.width < 1 {
        1
    } else if options.width > 100 {
        100
    } else {
        options.width
    };
    assert(width as nat == clamp_width(options.width));
    let (max_name, max_cap, has_root) = column_widths(&report.storage);
    let name_width: usize = if max_name < 18 { max_name } else { 18 };
    let mut out = volumes_text_exec(report, options, width, name_width, max_cap);
    let n = out.len();
    if !(n >= 2 && out[n - 1] == '\n' && out[n - 2] == '\n') {
        out.push('\n');
    }
    assert(out@ == dashboard_body(*report, options));
    let mut foot: Vec<char> = Vec::new();
    push_footer(&mut foot, report, options.color, width);
    assert(foot@ =~= footer_block(*report, options));
    let mut hid: Vec<char> = Vec::new();
    if all {
        hid = hidden_text_exec(report, options.ascii, width);
    }
    assert(hid@ =~= hidden_block(*report, all, options));
    let mut warn_line: Vec<char> = Vec::new();
    if has_root {
        let warn = chars_of("⚠ Container environment: visible storage may not be physical disks.");
        let t = truncate_exec(&warn, width);
        push_all(&mut warn_line, &t);
        warn_line.push('\n');
    }
    assert(warn_line@ =~= warning_block(*report, options));
    push_all(&mut out, &foot);
    push_all(&mut out, &hid);
    push_all(&mut out, &warn_line);
    let out = if options.ascii {
        ascii_fix_exec(&out)
    } else {
        out
    };
    string_of(&out)
}

/// The width that `COLUMNS` asks for: its value as a `usize`, or 80 when it is
/// unset or not a number.
pub open spec fn columns_width(columns: Option<Seq<char>>) -> usize {
    match columns {
        Some(c) => match parse_unsigned(c, usize::MAX as nat) {
            Ok(v) => v as usize,
            Err(_) => 80,
        },
        None => 80,
    }
}

/// How the dashboard is drawn in an environment: ASCII on a dumb terminal,
/// colors only on a terminal that is not dumb and where `NO_COLOR` is unset.
pub open spec fn options_for(term: Option<Seq<char>>, no_color: bool, stdout_is_terminal: bool, columns: Option<Seq<char>>) -> RenderOptions {
    let ascii = term == Some("dumb"@);
    RenderOptions {
        ascii: ascii,
        color: !ascii && !no_color && stdout_is_terminal,
        width: columns_width(columns),
    }
}

/// The options for an environment in which `TERM` and `COLUMNS` hold `term`
/// and `columns` (`None` where unset or not Unicode), `NO_COLOR` is set or
/// not, and standard output is a terminal or not.
pub fn render_options(term: Option<&str>, no_color: bool, stdout_is_terminal: bool, columns: Option<&str>) -> (r: RenderOptions)
    ensures
        r == options_for(opt_str_view(term), no_color, stdout_is_terminal, opt_str_view(columns)),
{
    let ascii = match term {
        Some(t) => str_is(t, "dumb"),
        None => false,
    };
    proof {
        reveal_strlit("dumb");
        if let Some(t) = term {
            if t@ == "dumb"@ {
                assert(ascii);
            }
        }
    }
    let width: usize = match columns {
        Some(c) => {
            let cs = chars_of(c);
            match parse_unsigned_exec(&cs, usize::MAX as u64) {
                Ok(v) => v as usize,
                Err(_) => 80,
            }
        },
        None => 80,
    };
    RenderOptions { ascii: ascii, color: !ascii && !no_color && stdout_is_terminal, width: width }
}

/// The dashboard of `report` as drawn in the environment that
/// `render_options` describes.
pub fn render(
    report: &StorageReport,
    all: bool,
    term: Option<&str>,
    no_color: bool,
    stdout_is_terminal: bool,
    columns: Option<&str>,
) -> (r: String)
    requires
        report_showable(*report),
    ensures
        r@ == render_spec(*report, all, options_for(opt_str_view(term), no_color, stdout_is_terminal, opt_str_view(columns))),
{
    let options = render_options(term, no_color, stdout_is_terminal, columns);
    render_with_options(report, all, options)
}

proof fn lemma_members_bytes_grow(cats: Seq<SemanticCategory>, key: Seq<char>, m: nat, n: nat)
    requires
        m <= n,
        n <= usize::MAX,
    ensures
        members_bytes(cats, category_members(cats, key, m)) <= members_bytes(cats, category_members(cats, key, n)),
    decreases n - m,
{
    if m < n {
        lemma_members_bytes_grow(cats, key, m, (n - 1) as nat);
        if in_category_group(cats[n - 1], key) {
            lemma_members_bytes_push(cats, category_members(cats, key, (n - 1) as nat), (n - 1) as usize);
        }
    }
}

proof fn lemma_no_members(cats: Seq<SemanticCategory>, key: Seq<char>, n: nat)
    requires
        forall|i: int| 0 <= i < n ==> !in_category_group(#[trigger] cats[i], key),
    ensures
        category_members(cats, key, n).len() == 0,
    decreases n,
{
    if n > 0 {
        assert(!in_category_group(cats[n - 1], key));
        lemma_no_members(cats, key, (n - 1) as nat);
    }
}

fn group_total(cats: &Vec<SemanticCategory>, key: &Vec<char>) -> (r: Option<u64>)
    requires
        forall|i: int| 0 <= i < cats@.len() ==> (#[trigger] cats@[i]).path@.len() > 0,
    ensures
        match r {
            Some(t) => t == group_bytes(cats@, key@),
            None => group_bytes(cats@, key@) > u64::MAX,
        },
{
    let mut total: u128 = 0;
    let mut j: usize = 0;
    while j < cats.len()
        invariant
            j <= cats@.len(),
            forall|i: int| 0 <= i < cats@.len() ==> (#[trigger] cats@[i]).path@.len() > 0,
            total == members_bytes(cats@, category_members(cats@, key@, j as nat)),
            total <= u64::MAX,
        decreases cats@.len() - j,
    {
        let c = &cats[j];
        assert(c.path@.len() > 0);
        let member = !is_other_exec(c) && crate::text::chars_eq(&chars_of(c.path[0].as_str()), key);
        assert(member == in_category_group(cats@[j as int], key@));
        if member {
            proof {
                lemma_members_bytes_push(cats@, category_members(cats@, key@, j as nat), j);
            }
            total = total + c.estimate.bytes as u128;
            if total > u64::MAX as u128 {
                proof {
                    lemma_members_bytes_grow(cats@, key@, (j + 1) as nat, cats@.len());
                }
                return None;
            }
        }
        j = j + 1;
    }
    Some(total as u64)
}

fn categories_ok(cats: &Vec<SemanticCategory>) -> (r: bool)
    ensures
        r == categories_showable(cats@),
{
    let mut i: usize = 0;
    while i < cats.len()
        invariant
            i <= cats@.len(),
            forall|q: int| 0 <= q < i ==> (#[trigger] cats@[q]).path@.len() > 0,
        decreases cats@.len() - i,
    {
        if cats[i].path.len() == 0 {
            return false;
        }
        i = i + 1;
    }
    let mut j: usize = 0;
    while j < cats.len()
        invariant
            j <= cats@.len(),
            forall|q: int| 0 <= q < cats@.len() ==> (#[trigger] cats@[q]).path@.len() > 0,
            forall|q: int| 0 <= q < j && !is_other(#[trigger] cats@[q]) ==> group_bytes(cats@, cats@[q].path@[0]@) <= u64::MAX,
        decreases cats@.len() - j,
    {
        let c = &cats[j];
        if !is_other_exec(c) {
            let key = chars_of(c.path[0].as_str());
            match group_total(cats, &key) {
                Some(_) => {},
                None => {
                    return false;
                },
            }
        }
        j = j + 1;
    }
    proof {
        assert forall|key: Seq<char>| #[trigger] group_bytes(cats@, key) <= 0xffff_ffff_ffff_ffffu64 by {
            if exists|q: int| 0 <= q < cats@.len() && in_category_group(#[trigger] cats@[q], key) {
                let q = choose|q: int| 0 <= q < cats@.len() && in_category_group(#[trigger] cats@[q], key);
                assert(!is_other(cats@[q]));
            } else {
                lemma_no_members(cats@, key, cats@.len());
            }
        }
    }
    true
}

/// Whether every volume's categories of `report` can be shown: the
/// condition the dashboard asks for.
pub fn can_render(report: &StorageReport) -> (r: bool)
    ensures
        r == report_showable(*report),
{
    let vs = &report.storage;
    let mut i: usize = 0;
    while i < vs.len()
        invariant
            i <= vs@.len(),
            vs == &report.storage,
            forall|q: int| 0 <= q < i ==> categories_showable(#[trigger] vs@[q].categories@),
        decreases vs@.len() - i,
    {
        if !categories_ok(&vs[i].categories) {
            return false;
        }
        i = i + 1;
    }
    true
}

/// `NO_COLOR` turns colors off, `TERM=dumb` switches to ASCII without
/// colors, and output that is not a terminal gets no colors.
pub proof fn lemma_environment_options(term: Option<Seq<char>>, no_color: bool, stdout_is_terminal: bool, columns: Option<Seq<char>>)
    ensures
        no_color ==> !options_for(term, no_color, stdout_is_terminal, columns).color,
        !stdout_is_terminal ==> !options_for(term, no_color, stdout_is_terminal, columns).color,
        term == Some("dumb"@) ==> options_for(term, no_color, stdout_is_terminal, columns).ascii
            && !options_for(term, no_color, stdout_is_terminal, columns).color,
        columns is None ==> options_for(term, no_color, stdout_is_terminal, columns).width == 80,
{
}

/// Usage is drawn green below 70%, yellow from 70% to below 85%, and red
/// at 85% or above, judged by the percentage as the double computed.
pub proof fn lemma_usage_colors(text: Seq<char>, p: Percent)
    ensures
        below(percent_value(p), 70) ==> colorize(text, p) == seq!['\u{1b}', '[', '3', '2', 'm'] + text + seq!['\u{1b}', '[', '0', 'm'],
        (!below(percent_value(p), 70) && below(percent_value(p), 85)) ==> colorize(text, p) == seq!['\u{1b}', '[', '3', '3', 'm'] + text + seq!['\u{1b}', '[', '0', 'm'],
        !below(percent_value(p), 85) ==> colorize(text, p) == seq!['\u{1b}', '[', '3', '1', 'm'] + text + seq!['\u{1b}', '[', '0', 'm'],
{
    reveal(colorize);
    assert(seq!['\u{1b}', '['] + seq!['3', '2'] + seq!['m'] + text + seq!['\u{1b}', '[', '0', 'm'] =~= seq!['\u{1b}', '[', '3', '2', 'm'] + text + seq!['\u{1b}', '[', '0', 'm']);
    assert(seq!['\u{1b}', '['] + seq!['3', '3'] + seq!['m'] + text + seq!['\u{1b}', '[', '0', 'm'] =~= seq!['\u{1b}', '[', '3', '3', 'm'] + text + seq!['\u{1b}', '[', '0', 'm']);
    assert(seq!['\u{1b}', '['] + seq!['3', '1'] + seq!['m'] + text + seq!['\u{1b}', '[', '0', 'm'] =~= seq!['\u{1b}', '[', '3', '1', 'm'] + text + seq!['\u{1b}', '[', '0', 'm']);
}

/// The dashboard ends with the container warning exactly when some volume
/// is named "Container root": with such a volume, the volumes, the footer and
/// the hidden mounts when asked for are followed by the warning line, cut to
/// the width; with none, nothing follows them. Both are put in ASCII when
/// asked for.
pub proof fn lemma_container_warning(r: StorageReport, all: bool, o: RenderOptions)
    ensures
        (exists|k: int| 0 <= k < r.storage@.len() && (#[trigger] r.storage@[k]).name@ == "Container root"@) ==> {
            let s = dashboard_body(r, o) + footer_block(r, o) + hidden_block(r, all, o) + truncate(
                "⚠ Container environment: visible storage may not be physical disks."@,
                clamp_width(o.width),
            ).push('\n');
            render_spec(r, all, o) == if o.ascii { ascii_fix(s) } else { s }
        },
        (forall|k: int| 0 <= k < r.storage@.len() ==> (#[trigger] r.storage@[k]).name@ != "Container root"@) ==> {
            let s = dashboard_body(r, o) + footer_block(r, o) + hidden_block(r, all, o);
            render_spec(r, all, o) == if o.ascii { ascii_fix(s) } else { s }
        },
{
    let s = dashboard_body(r, o) + footer_block(r, o) + hidden_block(r, all, o);
    let warn = truncate(
        "⚠ Container environment: visible storage may not be physical disks."@,
        clamp_width(o.width),
    );
    assert(warn + seq!['\n'] =~= warn.push('\n'));
    if !has_container_root(r.storage@) {
        assert(s + Seq::<char>::empty() =~= s);
    }
}

} // verus!
