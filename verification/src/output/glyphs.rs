//! On a dumb terminal the dashboard is plain ASCII art: no block or box
//! drawing characters, no middle dots, ellipses or warning signs.
use vstd::prelude::*;
use crate::model::{MountView, SemanticCategory, StorageReport, StorageVolume};
use crate::order::{seq_lt, strictly_sorted};
use crate::output::terminal::{
    RenderOptions, ascii_char, ascii_fix, bytes_parts, category_lines_spec, child_line, child_order,
    children_text, clamp_width, compact_capacity, dashboard_body, ends_with_blank_line, fixed1, footer,
    footer_block, format_bytes_spec, group_bytes, group_keys, group_text, groups_text, has_container_root,
    hidden_block, hidden_line, hidden_text, in_category_group, is_group_key_list, is_other,
    lemma_child_order_facts, max_capacity_len, name_column, other_category, percent_text, render_spec,
    repeat, styled_name, styled_percent, usage_bar, volume_block, volume_lines_spec, volumes_text,
    warning_block,
};
use crate::text::{decimal, lemma_decimal_digits, lemma_trim_end_prefix, lemma_truncate_len, pad_left, pad_right, spaces, trim_end, truncate};

verus! {

/// Inserts `x` into the strictly sorted `ks`, unless it is there already.
pub open spec fn sorted_insert(ks: Seq<Seq<char>>, x: Seq<char>) -> Seq<Seq<char>>
    decreases ks.len(),
{
    if ks.len() == 0 {
        seq![x]
    } else if ks[0] == x {
        ks
    } else if seq_lt(x, ks[0]) {
        seq![x] + ks
    } else {
        seq![ks[0]] + sorted_insert(ks.drop_first(), x)
    }
}

proof fn lemma_sorted_insert(ks: Seq<Seq<char>>, x: Seq<char>)
    requires
        strictly_sorted(ks),
    ensures
        strictly_sorted(sorted_insert(ks, x)),
        forall|y: Seq<char>| #[trigger] sorted_insert(ks, x).contains(y) <==> ks.contains(y) || y == x,
    decreases ks.len(),
{
    let r = sorted_insert(ks, x);
    if ks.len() == 0 {
        assert forall|y: Seq<char>| #[trigger] r.contains(y) <==> ks.contains(y) || y == x by {
            if r.contains(y) {
                assert(r[0] == x);
            }
            if y == x {
                assert(r[0] == y);
            }
        }
    } else if ks[0] == x {
        assert forall|y: Seq<char>| #[trigger] r.contains(y) <==> ks.contains(y) || y == x by {
            if y == x {
                assert(ks[0] == y);
            }
        }
    } else if seq_lt(x, ks[0]) {
        assert forall|i: int, j: int| 0 <= i < j < r.len() implies seq_lt(#[trigger] r[i], #[trigger] r[j]) by {
            if i == 0 {
                if j > 1 {
                    assert(seq_lt(ks[0], ks[j - 1]));
                    crate::order::lemma_seq_lt_transitive(x, ks[0], ks[j - 1]);
                }
            } else {
                assert(r[i] == ks[i - 1] && r[j] == ks[j - 1]);
            }
        }
        assert forall|y: Seq<char>| #[trigger] r.contains(y) <==> ks.contains(y) || y == x by {
            if r.contains(y) {
                let k = choose|k: int| 0 <= k < r.len() && r[k] == y;
                if k > 0 {
                    assert(ks[k - 1] == y);
                }
            }
            if ks.contains(y) {
                let k = choose|k: int| 0 <= k < ks.len() && ks[k] == y;
                assert(r[k + 1] == y);
            }
            if y == x {
                assert(r[0] == y);
            }
        }
    } else {
        let rest = ks.drop_first();
        assert(strictly_sorted(rest)) by {
            assert forall|i: int, j: int| 0 <= i < j < rest.len() implies seq_lt(#[trigger] rest[i], #[trigger] rest[j]) by {
                assert(rest[i] == ks[i + 1] && rest[j] == ks[j + 1]);
            }
        }
        lemma_sorted_insert(rest, x);
        let tail = sorted_insert(rest, x);
        crate::order::lemma_seq_lt_total(x, ks[0]);
        assert(seq_lt(ks[0], x));
        assert forall|i: int, j: int| 0 <= i < j < r.len() implies seq_lt(#[trigger] r[i], #[trigger] r[j]) by {
            if i == 0 {
                let t = tail[j - 1];
                assert(r[j] == t);
                assert(tail.contains(t));
                if t == x {
                } else {
                    assert(rest.contains(t));
                    let k = choose|k: int| 0 <= k < rest.len() && rest[k] == t;
                    assert(ks[k + 1] == t);
                }
            } else {
                assert(r[i] == tail[i - 1] && r[j] == tail[j - 1]);
            }
        }
        assert forall|y: Seq<char>| #[trigger] r.contains(y) <==> ks.contains(y) || y == x by {
            if r.contains(y) {
                let k = choose|k: int| 0 <= k < r.len() && r[k] == y;
                if k > 0 {
                    assert(tail[k - 1] == y);
                    assert(tail.contains(y));
                    if rest.contains(y) {
                        let q = choose|q: int| 0 <= q < rest.len() && rest[q] == y;
                        assert(ks[q + 1] == y);
                    }
                } else {
                    assert(ks[0] == y);
                }
            }
            if ks.contains(y) {
                let k = choose|k: int| 0 <= k < ks.len() && ks[k] == y;
                if k == 0 {
                    assert(r[0] == y);
                } else {
                    assert(rest[k - 1] == y);
                    assert(tail.contains(y));
                    let q = choose|q: int| 0 <= q < tail.len() && tail[q] == y;
                    assert(r[q + 1] == y);
                }
            }
            if y == x {
                assert(tail.contains(y));
                let q = choose|q: int| 0 <= q < tail.len() && tail[q] == y;
                assert(r[q + 1] == y);
            }
        }
    }
}

/// The group names of the first `n` categories, each once, in text order.
pub open spec fn keys_upto(cats: Seq<SemanticCategory>, n: nat) -> Seq<Seq<char>>
    decreases n,
{
    if n == 0 {
        Seq::empty()
    } else {
        let prev = keys_upto(cats, (n - 1) as nat);
        let c = cats[n - 1];
        if in_category_group(c, c.path@[0]@) {
            sorted_insert(prev, c.path@[0]@)
        } else {
            prev
        }
    }
}

proof fn lemma_keys_upto(cats: Seq<SemanticCategory>, n: nat)
    requires
        n <= cats.len(),
    ensures
        strictly_sorted(keys_upto(cats, n)),
        forall|x: Seq<char>| #[trigger] keys_upto(cats, n).contains(x) <==> exists|i: int| 0 <= i < n && in_category_group(#[trigger] cats[i], x),
    decreases n,
{
    if n > 0 {
        lemma_keys_upto(cats, (n - 1) as nat);
        let prev = keys_upto(cats, (n - 1) as nat);
        let c = cats[n - 1];
        if in_category_group(c, c.path@[0]@) {
            lemma_sorted_insert(prev, c.path@[0]@);
        }
        assert forall|x: Seq<char>| #[trigger] keys_upto(cats, n).contains(x) <==> exists|i: int| 0 <= i < n && in_category_group(#[trigger] cats[i], x) by {
            if keys_upto(cats, n).contains(x) {
                if prev.contains(x) {
                    let i = choose|i: int| 0 <= i < n - 1 && in_category_group(#[trigger] cats[i], x);
                } else {
                    assert(in_category_group(cats[n - 1], x));
                }
            }
            if exists|i: int| 0 <= i < n && in_category_group(#[trigger] cats[i], x) {
                let i = choose|i: int| 0 <= i < n && in_category_group(#[trigger] cats[i], x);
                if i < n - 1 {
                    assert(prev.contains(x));
                } else {
                    assert(x == c.path@[0]@);
                }
            }
        }
    }
}

/// The group names that the dashboard lists are those of the categories,
/// each once, in text order.
pub proof fn lemma_group_keys_listed(cats: Seq<SemanticCategory>)
    ensures
        is_group_key_list(group_keys(cats), cats),
{
    lemma_keys_upto(cats, cats.len());
    assert(is_group_key_list(keys_upto(cats, cats.len()), cats));
}

/// Block and box drawing characters, which a dumb terminal cannot draw.
pub open spec fn is_drawing(c: char) -> bool {
    c == '█' || c == '░' || c == '├' || c == '─'
}

/// Characters that only a capable terminal is given: drawing characters,
/// the middle dot, the ellipsis and the warning sign.
pub open spec fn is_fancy(c: char) -> bool {
    is_drawing(c) || c == '·' || c == '…' || c == '⚠'
}

/// `s` holds no drawing character.
pub open spec fn no_drawing(s: Seq<char>) -> bool {
    forall|k: int| 0 <= k < s.len() ==> !is_drawing(#[trigger] s[k])
}

/// `s` holds no fancy character.
pub open spec fn no_fancy(s: Seq<char>) -> bool {
    forall|k: int| 0 <= k < s.len() ==> !is_fancy(#[trigger] s[k])
}

proof fn lemma_footer_text()
    ensures
        no_drawing(" system mounts hidden · --all details · --why explain"@),
        no_drawing("⚠ Container environment: visible storage may not be physical disks."@),
        no_drawing("derived mount"@),
{
    reveal_strlit(" system mounts hidden · --all details · --why explain");
    reveal_strlit("⚠ Container environment: visible storage may not be physical disks.");
    reveal_strlit("derived mount");
}

proof fn lemma_join(a: Seq<char>, b: Seq<char>)
    requires
        no_drawing(a),
        no_drawing(b),
    ensures
        no_drawing(a + b),
{
    assert forall|k: int| 0 <= k < (a + b).len() implies !is_drawing(#[trigger] (a + b)[k]) by {
        if k < a.len() {
            assert((a + b)[k] == a[k]);
        } else {
            assert((a + b)[k] == b[k - a.len()]);
        }
    }
}

proof fn lemma_decimal(n: nat)
    ensures
        no_drawing(decimal(n)),
{
    lemma_decimal_digits(n);
    assert forall|k: int| 0 <= k < decimal(n).len() implies !is_drawing(#[trigger] decimal(n)[k]) by {
        assert(crate::text::is_ascii_digit(decimal(n)[k]));
    }
}

proof fn lemma_fixed1(t: nat)
    ensures
        no_drawing(fixed1(t)),
{
    reveal(fixed1);
    lemma_decimal(t / 10);
    lemma_decimal(t % 10);
    lemma_join(decimal(t / 10), seq!['.']);
    lemma_join(decimal(t / 10) + seq!['.'], decimal(t % 10));
}

proof fn lemma_bytes(n: u64)
    ensures
        no_drawing(format_bytes_spec(n)),
        no_drawing(bytes_parts(n).0),
        no_drawing(bytes_parts(n).1),
{
    reveal(format_bytes_spec);
    reveal(bytes_parts);
    lemma_fixed1(crate::output::terminal::unit_tenths(n, 1_000_000_000_000));
    lemma_fixed1(crate::output::terminal::unit_tenths(n, 1_000_000_000));
    lemma_fixed1(crate::output::terminal::unit_tenths(n, 1_000_000));
    lemma_fixed1(crate::output::terminal::unit_tenths(n, 1_000));
    lemma_decimal(n as nat);
    let parts = bytes_parts(n);
    lemma_join(parts.0, seq![' ']);
    lemma_join(parts.0 + seq![' '], parts.1);
}

proof fn lemma_percent(p: crate::model::Percent)
    ensures
        no_drawing(percent_text(p)),
{
    reveal(fixed1);
    let t = crate::model::percent_tenths(p);
    lemma_decimal(t / 10);
    lemma_decimal(t % 10);
    lemma_join(decimal(t / 10), seq!['.']);
    lemma_join(decimal(t / 10) + seq!['.'], decimal(t % 10));
}

proof fn lemma_capacity(used: u64, total: u64)
    ensures
        no_drawing(compact_capacity(used, total)),
{
    reveal(compact_capacity);
    lemma_bytes(used);
    lemma_bytes(total);
    lemma_join(bytes_parts(used).0, seq![' ', '/', ' ']);
    lemma_join(bytes_parts(used).0 + seq![' ', '/', ' '], format_bytes_spec(total));
    lemma_join(format_bytes_spec(used), seq![' ', '/', ' ']);
    lemma_join(format_bytes_spec(used) + seq![' ', '/', ' '], format_bytes_spec(total));
}

proof fn lemma_truncate(s: Seq<char>, w: nat)
    requires
        no_drawing(s),
    ensures
        no_drawing(truncate(s, w)),
{
    lemma_truncate_len(s, w);
    let t = truncate(s, w);
    assert forall|k: int| 0 <= k < t.len() implies !is_drawing(#[trigger] t[k]) by {
        assert(t.contains(t[k]));
        if s.contains(t[k]) {
            let j = choose|j: int| 0 <= j < s.len() && s[j] == t[k];
            assert(!is_drawing(s[j]));
        }
    }
}

proof fn lemma_trim(s: Seq<char>)
    requires
        no_drawing(s),
    ensures
        no_drawing(trim_end(s)),
{
    lemma_trim_end_prefix(s);
    let t = trim_end(s);
    assert forall|k: int| 0 <= k < t.len() implies !is_drawing(#[trigger] t[k]) by {
        assert(t[k] == s[k]);
    }
}

proof fn lemma_pads(s: Seq<char>, w: nat)
    requires
        no_drawing(s),
    ensures
        no_drawing(pad_right(s, w)),
        no_drawing(pad_left(s, w)),
{
    if s.len() < w {
        let sp = spaces((w - s.len()) as nat);
        assert(no_drawing(sp));
        lemma_join(s, sp);
        lemma_join(sp, s);
    }
}

proof fn lemma_plain_bar(p: crate::model::Percent, w: nat)
    ensures
        no_drawing(usage_bar(p, w, true, false)),
{
    reveal(usage_bar);
    let filled = crate::output::terminal::bar_filled(p, w);
    let full = repeat('#', filled);
    let empty = repeat('-', (w - filled) as nat);
    assert(no_drawing(full));
    assert(no_drawing(empty));
    lemma_join(full, empty);
}

/// The text of `v` that the dashboard shows holds no drawing character:
/// its name, and the name and group of each category, which has a group.
pub open spec fn volume_text_plain(v: StorageVolume) -> bool {
    &&& no_drawing(v.name@)
    &&& forall|j: int| 0 <= j < v.categories@.len() ==> {
        let c = #[trigger] v.categories@[j];
        &&& c.path@.len() > 0
        &&& no_drawing(c.path@[0]@)
        &&& no_drawing(c.name@)
    }
}

/// The text of the hidden mount `m` that the dashboard shows holds no
/// drawing character.
pub open spec fn mount_text_plain(m: MountView) -> bool {
    &&& no_drawing(m.target@)
    &&& (m.hidden_reason matches Some(r) ==> no_drawing(r@))
}

/// The text of the report that the dashboard shows holds no drawing
/// character.
pub open spec fn report_text_plain(r: StorageReport) -> bool {
    &&& forall|i: int| 0 <= i < r.storage@.len() ==> volume_text_plain(#[trigger] r.storage@[i])
    &&& forall|i: int| 0 <= i < r.hidden_mounts@.len() ==> mount_text_plain(#[trigger] r.hidden_mounts@[i])
}

proof fn lemma_volume_lines(v: StorageVolume, o: RenderOptions, w: nat, nw: nat, cw: nat)
    requires
        o.ascii,
        !o.color,
        no_drawing(v.name@),
    ensures
        no_drawing(volume_lines_spec(v, o, w, nw, cw)),
{
    reveal(volume_lines_spec);
    reveal(styled_name);
    reveal(styled_percent);
    let p = v.used_percent;
    let name = truncate(v.name@, nw);
    let capacity = compact_capacity(v.used_bytes, v.total_bytes);
    let free = format_bytes_spec(v.available_bytes) + seq![' ', 'f', 'r', 'e', 'e'];
    let bar = usage_bar(p, 12, o.ascii, o.color);
    let two = seq![' ', ' '];
    lemma_truncate(v.name@, nw);
    lemma_capacity(v.used_bytes, v.total_bytes);
    lemma_bytes(v.available_bytes);
    lemma_join(format_bytes_spec(v.available_bytes), seq![' ', 'f', 'r', 'e', 'e']);
    lemma_plain_bar(p, 12);
    lemma_percent(p);
    lemma_join(percent_text(p), seq!['%']);
    lemma_pads(name, nw);
    lemma_pads(capacity, cw);
    lemma_pads(percent_text(p), 4);
    let pct = pad_left(percent_text(p), 4) + seq!['%'];
    lemma_join(pad_left(percent_text(p), 4), seq!['%']);
    assert(no_drawing(two));
    let a1 = styled_name(name, nw, false);
    let a2 = a1 + two;
    lemma_join(a1, two);
    let a3 = a2 + pad_left(capacity, cw);
    lemma_join(a2, pad_left(capacity, cw));
    let a4 = a3 + two;
    lemma_join(a3, two);
    let a5 = a4 + styled_percent(p, false);
    lemma_join(a4, styled_percent(p, false));
    let a6 = a5 + two;
    lemma_join(a5, two);
    let a7 = a6 + bar;
    lemma_join(a6, bar);
    let a8 = a7 + two;
    lemma_join(a7, two);
    let a9 = a8 + free;
    lemma_join(a8, free);
    lemma_join(a9, seq!['\n']);
    let h = name + two + capacity + two + percent_text(p) + seq!['%'];
    lemma_join(name, two);
    lemma_join(name + two, capacity);
    lemma_join(name + two + capacity, two);
    lemma_join(name + two + capacity + two, percent_text(p));
    lemma_join(name + two + capacity + two + percent_text(p), seq!['%']);
    lemma_truncate(h, w);
    let d = two + bar + two + free;
    lemma_join(two, bar);
    lemma_join(two + bar, two);
    lemma_join(two + bar + two, free);
    lemma_truncate(d, w);
    lemma_join(truncate(h, w), seq!['\n']);
    lemma_join(truncate(h, w) + seq!['\n'], truncate(d, w));
    lemma_join(truncate(h, w) + seq!['\n'] + truncate(d, w), seq!['\n']);
}

/// Every category of `cats` has a group and shows no drawing character.
pub open spec fn categories_plain(cats: Seq<SemanticCategory>) -> bool {
    forall|j: int| 0 <= j < cats.len() ==> {
        let c = #[trigger] cats[j];
        &&& c.path@.len() > 0
        &&& no_drawing(c.path@[0]@)
        &&& no_drawing(c.name@)
    }
}

proof fn lemma_children(cats: Seq<SemanticCategory>, order: Seq<crate::order::Entry>, o: RenderOptions, w: nat, n: nat)
    requires
        !o.color,
        categories_plain(cats),
        n <= order.len(),
        forall|k: int| 0 <= k < order.len() ==> (#[trigger] order[k]).2 < cats.len(),
    ensures
        no_drawing(children_text(cats, order, o, w, n)),
    decreases n,
{
    if n > 0 {
        lemma_children(cats, order, o, w, (n - 1) as nat);
        let idx = order[n - 1].2 as int;
        let c = cats[idx];
        assert(no_drawing(c.name@));
        let l = seq![' ', ' ', ' ', ' '] + pad_right(c.name@, 10) + seq![' ', ' '] + format_bytes_spec(c.estimate.bytes);
        lemma_pads(c.name@, 10);
        lemma_bytes(c.estimate.bytes);
        lemma_join(seq![' ', ' ', ' ', ' '], pad_right(c.name@, 10));
        lemma_join(seq![' ', ' ', ' ', ' '] + pad_right(c.name@, 10), seq![' ', ' ']);
        lemma_join(seq![' ', ' ', ' ', ' '] + pad_right(c.name@, 10) + seq![' ', ' '], format_bytes_spec(c.estimate.bytes));
        lemma_truncate(l, w);
        lemma_join(truncate(l, w), seq!['\n']);
        assert(child_line(c, o, w) == truncate(l, w) + seq!['\n']);
        lemma_join(children_text(cats, order, o, w, (n - 1) as nat), child_line(c, o, w));
    }
}

proof fn lemma_groups(cats: Seq<SemanticCategory>, ks: Seq<Seq<char>>, o: RenderOptions, w: nat, n: nat)
    requires
        !o.color,
        categories_plain(cats),
        cats.len() <= usize::MAX,
        n <= ks.len(),
        forall|k: int| 0 <= k < ks.len() ==> no_drawing(#[trigger] ks[k]),
    ensures
        no_drawing(groups_text(cats, ks, o, w, n)),
    decreases n,
{
    if n > 0 {
        lemma_groups(cats, ks, o, w, (n - 1) as nat);
        let key = ks[n - 1];
        assert(no_drawing(key));
        let raw = seq![' ', ' '] + pad_right(key, 12) + seq![' ', ' '] + format_bytes_spec(group_bytes(cats, key) as u64);
        lemma_pads(key, 12);
        lemma_bytes(group_bytes(cats, key) as u64);
        lemma_join(seq![' ', ' '], pad_right(key, 12));
        lemma_join(seq![' ', ' '] + pad_right(key, 12), seq![' ', ' ']);
        lemma_join(seq![' ', ' '] + pad_right(key, 12) + seq![' ', ' '], format_bytes_spec(group_bytes(cats, key) as u64));
        lemma_truncate(raw, w);
        let order = child_order(cats, key);
        lemma_child_order_facts(cats, key);
        let m = if order.len() < 2 { order.len() } else { 2 };
        lemma_children(cats, order, o, w, m);
        lemma_join(truncate(raw, w), seq!['\n']);
        lemma_join(truncate(raw, w) + seq!['\n'], children_text(cats, order, o, w, m));
        assert(group_text(cats, key, o, w) == truncate(raw, w) + seq!['\n'] + children_text(cats, order, o, w, m));
        lemma_join(groups_text(cats, ks, o, w, (n - 1) as nat), group_text(cats, key, o, w));
    }
}

proof fn lemma_other_is_one_of(cats: Seq<SemanticCategory>, n: nat)
    requires
        n <= cats.len(),
    ensures
        other_category(cats, n) matches Some(c) ==> exists|k: int| 0 <= k < n && cats[k] == c,
    decreases n,
{
    if n > 0 {
        lemma_other_is_one_of(cats, (n - 1) as nat);
        if crate::output::terminal::is_other(cats[n - 1]) {
            assert(cats[n - 1] == cats[n - 1]);
        }
    }
}

proof fn lemma_ascii_fix(s: Seq<char>)
    requires
        no_drawing(s),
    ensures
        no_drawing(ascii_fix(s)),
        no_fancy(ascii_fix(s)),
{
    let t = ascii_fix(s);
    assert forall|k: int| 0 <= k < t.len() implies !is_fancy(#[trigger] t[k]) by {
        assert(t[k] == ascii_char(s[k]));
        assert(!is_drawing(s[k]));
    }
}

proof fn lemma_categories(cats: Seq<SemanticCategory>, o: RenderOptions, w: nat)
    requires
        o.ascii,
        !o.color,
        categories_plain(cats),
        cats.len() <= usize::MAX,
    ensures
        no_drawing(category_lines_spec(cats, o, w)),
{
    reveal(category_lines_spec);
    let ks = group_keys(cats);
    lemma_group_keys_listed(cats);
    assert forall|k: int| 0 <= k < ks.len() implies no_drawing(#[trigger] ks[k]) by {
        assert(ks.contains(ks[k]));
        let i = choose|i: int| 0 <= i < cats.len() && in_category_group(#[trigger] cats[i], ks[k]);
        assert(cats[i].path@[0]@ == ks[k]);
    }
    lemma_groups(cats, ks, o, w, ks.len());
    lemma_other_is_one_of(cats, cats.len());
    let tail = match other_category(cats, cats.len()) {
        Some(c) => truncate(seq![' ', ' '] + pad_right(c.name@, 12) + seq![' ', ' '] + format_bytes_spec(c.estimate.bytes), w) + seq!['\n'],
        None => Seq::empty(),
    };
    match other_category(cats, cats.len()) {
        Some(c) => {
            let k = choose|k: int| 0 <= k < cats.len() && cats[k] == c;
            assert(no_drawing(cats[k].name@));
            let raw = seq![' ', ' '] + pad_right(c.name@, 12) + seq![' ', ' '] + format_bytes_spec(c.estimate.bytes);
            lemma_pads(c.name@, 12);
            lemma_bytes(c.estimate.bytes);
            lemma_join(seq![' ', ' '], pad_right(c.name@, 12));
            lemma_join(seq![' ', ' '] + pad_right(c.name@, 12), seq![' ', ' ']);
            lemma_join(seq![' ', ' '] + pad_right(c.name@, 12) + seq![' ', ' '], format_bytes_spec(c.estimate.bytes));
            lemma_truncate(raw, w);
            lemma_join(truncate(raw, w), seq!['\n']);
        },
        None => {},
    }
    lemma_join(groups_text(cats, ks, o, w, ks.len()), tail);
    lemma_ascii_fix(groups_text(cats, ks, o, w, ks.len()) + tail);
}

proof fn lemma_volumes(vs: Seq<StorageVolume>, o: RenderOptions, w: nat, nw: nat, cw: nat, n: nat)
    requires
        o.ascii,
        !o.color,
        n <= vs.len(),
        forall|i: int| 0 <= i < vs.len() ==> volume_text_plain(#[trigger] vs[i]),
    ensures
        no_drawing(volumes_text(vs, o, w, nw, cw, n)),
    decreases n,
{
    if n > 0 {
        lemma_volumes(vs, o, w, nw, cw, (n - 1) as nat);
        let v = vs[n - 1];
        assert(volume_text_plain(v));
        lemma_volume_lines(v, o, w, nw, cw);
        if v.categories@.len() > 0 {
            assert(v.categories@.len() == v.categories.len());
            assert(categories_plain(v.categories@));
            lemma_categories(v.categories@, o, w);
            lemma_join(seq!['\n'], category_lines_spec(v.categories@, o, w));
            lemma_join(seq!['\n'] + category_lines_spec(v.categories@, o, w), seq!['\n']);
            lemma_join(volume_lines_spec(v, o, w, nw, cw), seq!['\n'] + category_lines_spec(v.categories@, o, w) + seq!['\n']);
        } else {
            assert(volume_block(v, o, w, nw, cw) =~= volume_lines_spec(v, o, w, nw, cw));
        }
        lemma_join(volumes_text(vs, o, w, nw, cw, (n - 1) as nat), volume_block(v, o, w, nw, cw));
    }
}

proof fn lemma_hidden(ms: Seq<MountView>, w: nat, n: nat)
    requires
        n <= ms.len(),
        forall|i: int| 0 <= i < ms.len() ==> mount_text_plain(#[trigger] ms[i]),
    ensures
        no_drawing(hidden_text(ms, true, w, n)),
    decreases n,
{
    if n > 0 {
        lemma_hidden(ms, w, (n - 1) as nat);
        reveal(hidden_line);
        let m = ms[n - 1];
        assert(mount_text_plain(m));
        let reason = match m.hidden_reason {
            Some(r) => r@,
            None => "derived mount"@,
        };
        lemma_footer_text();
        let line = seq!['|', '-'] + seq![' '] + m.target@ + seq![' ', ' '] + reason + seq!['\n'];
        lemma_join(seq!['|', '-'], seq![' ']);
        lemma_join(seq!['|', '-'] + seq![' '], m.target@);
        lemma_join(seq!['|', '-'] + seq![' '] + m.target@, seq![' ', ' ']);
        lemma_join(seq!['|', '-'] + seq![' '] + m.target@ + seq![' ', ' '], reason);
        lemma_join(seq!['|', '-'] + seq![' '] + m.target@ + seq![' ', ' '] + reason, seq!['\n']);
        lemma_trim(line);
        lemma_truncate(trim_end(line), w);
        lemma_join(truncate(trim_end(line), w), seq!['\n']);
        lemma_join(hidden_text(ms, true, w, (n - 1) as nat), hidden_line(m, true, w));
    }
}

/// On a dumb terminal (ASCII, no colors) the dashboard holds no block or
/// box drawing character, middle dot, ellipsis or warning sign, as long as
/// the names and paths it shows hold no drawing character themselves.
pub proof fn lemma_dumb_dashboard_is_plain(r: StorageReport, all: bool, o: RenderOptions)
    requires
        o.ascii,
        !o.color,
        report_text_plain(r),
    ensures
        no_fancy(render_spec(r, all, o)),
{
    let w = clamp_width(o.width);
    let vs = r.storage@;
    let body = volumes_text(vs, o, w, name_column(vs), max_capacity_len(vs, vs.len()), vs.len());
    lemma_volumes(vs, o, w, name_column(vs), max_capacity_len(vs, vs.len()), vs.len());
    lemma_join(body, seq!['\n']);
    assert(body.push('\n') == body + seq!['\n']);
    reveal(footer);
    lemma_footer_text();
    lemma_decimal(r.hidden_mounts@.len());
    lemma_join(decimal(r.hidden_mounts@.len()), " system mounts hidden · --all details · --why explain"@);
    lemma_truncate(decimal(r.hidden_mounts@.len()) + " system mounts hidden · --all details · --why explain"@, w);
    lemma_join(footer(r, w), seq!['\n']);
    if all {
        lemma_hidden(r.hidden_mounts@, w, r.hidden_mounts@.len());
    }
    assert(no_drawing(hidden_block(r, all, o)));
    let warn = "⚠ Container environment: visible storage may not be physical disks."@;
    lemma_truncate(warn, w);
    lemma_join(truncate(warn, w), seq!['\n']);
    assert(no_drawing(warning_block(r, o)));
    lemma_join(dashboard_body(r, o), footer_block(r, o));
    lemma_join(dashboard_body(r, o) + footer_block(r, o), hidden_block(r, all, o));
    lemma_join(dashboard_body(r, o) + footer_block(r, o) + hidden_block(r, all, o), warning_block(r, o));
    lemma_ascii_fix(dashboard_body(r, o) + footer_block(r, o) + hidden_block(r, all, o) + warning_block(r, o));
}

} // verus!
