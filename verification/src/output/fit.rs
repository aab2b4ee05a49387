//! The dashboard drawn without colors keeps every line within the width it
//! is drawn for.
use vstd::prelude::*;
use crate::model::{MountView, SemanticCategory, StorageReport, StorageVolume};
use crate::output::terminal::{
    RenderOptions, ascii_char, ascii_fix, category_lines_spec, child_line, child_order, children_text,
    clamp_width, compact_capacity, dashboard_body, ends_with_blank_line, footer, footer_block,
    format_bytes_spec, group_bytes, group_keys, group_text, groups_text, has_container_root,
    hidden_block, hidden_line, hidden_text, max_capacity_len, name_column, other_category,
    percent_text, render_spec, styled_name, styled_percent, usage_bar, volume_block,
    volume_lines_spec, volumes_text, warning_block,
};
use crate::text::{lemma_truncate_len, pad_left, pad_right, spaces, truncate};

verus! {

/// There is no line break in `s` from `i` up to `j`.
pub open spec fn no_break(s: Seq<char>, i: int, j: int) -> bool {
    forall|k: int| i <= k < j ==> #[trigger] s[k] != '\n'
}

/// No stretch of `s` without a line break is longer than `w` characters.
pub open spec fn lines_fit(s: Seq<char>, w: nat) -> bool {
    forall|i: int, j: int| 0 <= i <= j <= s.len() && #[trigger] no_break(s, i, j) ==> j - i <= w
}

/// `s` is whole lines that fit in `w`: it fits, and is empty or ends with a
/// line break.
pub open spec fn whole_lines(s: Seq<char>, w: nat) -> bool {
    &&& lines_fit(s, w)
    &&& (s.len() == 0 || s.last() == '\n')
}

proof fn lemma_line(s: Seq<char>, w: nat)
    requires
        s.len() <= w,
    ensures
        whole_lines(s.push('\n'), w),
{
    let t = s.push('\n');
    assert forall|i: int, j: int|
        0 <= i <= j <= t.len() && #[trigger] no_break(t, i, j) implies j - i <= w by {
        if j == t.len() && i < j {
            assert(t[j - 1] == '\n');
        }
    }
}

proof fn lemma_cut_line(s: Seq<char>, w: nat)
    ensures
        whole_lines(truncate(s, w).push('\n'), w),
{
    lemma_truncate_len(s, w);
    lemma_line(truncate(s, w), w);
}

proof fn lemma_join(a: Seq<char>, b: Seq<char>, w: nat)
    requires
        whole_lines(a, w),
        whole_lines(b, w),
    ensures
        whole_lines(a + b, w),
{
    let s = a + b;
    assert forall|i: int, j: int|
        0 <= i <= j <= s.len() && #[trigger] no_break(s, i, j) implies j - i <= w by {
        if j <= a.len() {
            assert forall|k: int| i <= k < j implies #[trigger] a[k] != '\n' by {
                assert(s[k] == a[k]);
            }
            assert(no_break(a, i, j));
        } else if i >= a.len() {
            assert forall|k: int| i - a.len() <= k < j - a.len() implies #[trigger] b[k] != '\n' by {
                assert(s[k + a.len()] == b[k]);
            }
            assert(no_break(b, i - a.len(), j - a.len()));
        } else {
            assert(s[a.len() - 1] == a.last());
        }
    }
    if b.len() == 0 {
        assert(s =~= a);
    } else {
        assert(s.last() == b.last());
    }
}

proof fn lemma_join3(a: Seq<char>, b: Seq<char>, c: Seq<char>, w: nat)
    requires
        whole_lines(a, w),
        whole_lines(b, w),
        whole_lines(c, w),
    ensures
        whole_lines(a + b + c, w),
{
    lemma_join(a, b, w);
    lemma_join(a + b, c, w);
}

proof fn lemma_empty_line(w: nat)
    ensures
        whole_lines(seq!['\n'], w),
{
    lemma_line(Seq::empty(), w);
    assert(Seq::<char>::empty().push('\n') =~= seq!['\n']);
}

proof fn lemma_ascii_whole(s: Seq<char>, w: nat)
    requires
        whole_lines(s, w),
    ensures
        whole_lines(ascii_fix(s), w),
{
    let t = ascii_fix(s);
    assert forall|i: int, j: int|
        0 <= i <= j <= t.len() && #[trigger] no_break(t, i, j) implies j - i <= w by {
        assert forall|k: int| i <= k < j implies #[trigger] s[k] != '\n' by {
            assert(t[k] == ascii_char(s[k]));
        }
        assert(no_break(s, i, j));
    }
    if s.len() > 0 {
        assert(t.last() == ascii_char(s.last()));
    }
}

proof fn lemma_children_whole(cats: Seq<SemanticCategory>, order: Seq<crate::order::Entry>, o: RenderOptions, w: nat, n: nat)
    requires
        !o.color,
    ensures
        whole_lines(children_text(cats, order, o, w, n), w),
    decreases n,
{
    if n > 0 {
        lemma_children_whole(cats, order, o, w, (n - 1) as nat);
        let c = cats[order[n - 1].2 as int];
        lemma_cut_line(seq![' ', ' ', ' ', ' '] + pad_right(c.name@, 10) + seq![' ', ' '] + format_bytes_spec(c.estimate.bytes), w);
        let l = truncate(seq![' ', ' ', ' ', ' '] + pad_right(c.name@, 10) + seq![' ', ' '] + format_bytes_spec(c.estimate.bytes), w);
        assert(child_line(c, o, w) =~= l.push('\n'));
        lemma_join(children_text(cats, order, o, w, (n - 1) as nat), child_line(c, o, w), w);
    }
}

proof fn lemma_groups_whole(cats: Seq<SemanticCategory>, ks: Seq<Seq<char>>, o: RenderOptions, w: nat, n: nat)
    requires
        !o.color,
    ensures
        whole_lines(groups_text(cats, ks, o, w, n), w),
    decreases n,
{
    if n > 0 {
        lemma_groups_whole(cats, ks, o, w, (n - 1) as nat);
        let key = ks[n - 1];
        let line = truncate(seq![' ', ' '] + pad_right(key, 12) + seq![' ', ' '] + format_bytes_spec(group_bytes(cats, key) as u64), w);
        lemma_cut_line(seq![' ', ' '] + pad_right(key, 12) + seq![' ', ' '] + format_bytes_spec(group_bytes(cats, key) as u64), w);
        let order = child_order(cats, key);
        let m = if order.len() < 2 { order.len() } else { 2 };
        lemma_children_whole(cats, order, o, w, m);
        lemma_join(line.push('\n'), children_text(cats, order, o, w, m), w);
        assert(group_text(cats, key, o, w) =~= line.push('\n') + children_text(cats, order, o, w, m));
        lemma_join(groups_text(cats, ks, o, w, (n - 1) as nat), group_text(cats, key, o, w), w);
    }
}

proof fn lemma_categories_whole(cats: Seq<SemanticCategory>, o: RenderOptions, w: nat)
    requires
        !o.color,
    ensures
        whole_lines(category_lines_spec(cats, o, w), w),
{
    reveal(category_lines_spec);
    let ks = group_keys(cats);
    lemma_groups_whole(cats, ks, o, w, ks.len());
    let tail = match other_category(cats, cats.len()) {
        Some(c) => truncate(seq![' ', ' '] + pad_right(c.name@, 12) + seq![' ', ' '] + format_bytes_spec(c.estimate.bytes), w) + seq!['\n'],
        None => Seq::empty(),
    };
    match other_category(cats, cats.len()) {
        Some(c) => {
            lemma_cut_line(seq![' ', ' '] + pad_right(c.name@, 12) + seq![' ', ' '] + format_bytes_spec(c.estimate.bytes), w);
            assert(tail =~= truncate(seq![' ', ' '] + pad_right(c.name@, 12) + seq![' ', ' '] + format_bytes_spec(c.estimate.bytes), w).push('\n'));
        },
        None => {},
    }
    let body = groups_text(cats, ks, o, w, ks.len()) + tail;
    lemma_join(groups_text(cats, ks, o, w, ks.len()), tail, w);
    if o.ascii {
        lemma_ascii_whole(body, w);
    }
}

proof fn lemma_volume_lines_whole(v: StorageVolume, o: RenderOptions, w: nat, nw: nat, cw: nat)
    requires
        !o.color,
    ensures
        whole_lines(volume_lines_spec(v, o, w, nw, cw), w),
{
    reveal(volume_lines_spec);
    reveal(styled_name);
    reveal(styled_percent);
    let p = v.used_percent;
    let name = truncate(v.name@, nw);
    let capacity = compact_capacity(v.used_bytes, v.total_bytes);
    let free = format_bytes_spec(v.available_bytes) + seq![' ', 'f', 'r', 'e', 'e'];
    let plain_bar = usage_bar(p, 12, o.ascii, false);
    let two = seq![' ', ' '];
    let plain = pad_right(name, nw) + two + pad_left(capacity, cw) + two
        + pad_left(percent_text(p) + seq!['%'], 5) + two + plain_bar + two + free;
    if plain.len() <= w {
        let line = styled_name(name, nw, o.color) + two + pad_left(capacity, cw) + two
            + styled_percent(p, o.color) + two + plain_bar + two + free;
        assert(styled_name(name, nw, false).len() == pad_right(name, nw).len());
        assert(styled_percent(p, false).len() == pad_left(percent_text(p) + seq!['%'], 5).len());
        assert(line.len() == plain.len());
        lemma_line(line, w);
        assert(volume_lines_spec(v, o, w, nw, cw) =~= line.push('\n'));
    } else {
        let heading = truncate(name + two + capacity + two + percent_text(p) + seq!['%'], w);
        let detail = truncate(two + plain_bar + two + free, w);
        lemma_cut_line(name + two + capacity + two + percent_text(p) + seq!['%'], w);
        lemma_cut_line(two + plain_bar + two + free, w);
        lemma_join(heading.push('\n'), detail.push('\n'), w);
        assert(volume_lines_spec(v, o, w, nw, cw) =~= heading.push('\n') + detail.push('\n'));
    }
}

proof fn lemma_volumes_whole(vs: Seq<StorageVolume>, o: RenderOptions, w: nat, nw: nat, cw: nat, n: nat)
    requires
        !o.color,
    ensures
        whole_lines(volumes_text(vs, o, w, nw, cw, n), w),
    decreases n,
{
    if n > 0 {
        lemma_volumes_whole(vs, o, w, nw, cw, (n - 1) as nat);
        let v = vs[n - 1];
        lemma_volume_lines_whole(v, o, w, nw, cw);
        if v.categories@.len() > 0 {
            lemma_empty_line(w);
            lemma_categories_whole(v.categories@, o, w);
            lemma_join3(seq!['\n'], category_lines_spec(v.categories@, o, w), seq!['\n'], w);
            lemma_join(volume_lines_spec(v, o, w, nw, cw), seq!['\n'] + category_lines_spec(v.categories@, o, w) + seq!['\n'], w);
        } else {
            assert(volume_block(v, o, w, nw, cw) =~= volume_lines_spec(v, o, w, nw, cw));
        }
        lemma_join(volumes_text(vs, o, w, nw, cw, (n - 1) as nat), volume_block(v, o, w, nw, cw), w);
    }
}

proof fn lemma_hidden_whole(ms: Seq<MountView>, ascii: bool, w: nat, n: nat)
    ensures
        whole_lines(hidden_text(ms, ascii, w, n), w),
    decreases n,
{
    if n > 0 {
        lemma_hidden_whole(ms, ascii, w, (n - 1) as nat);
        reveal(hidden_line);
        let m = ms[n - 1];
        let branch = if ascii { seq!['|', '-'] } else { seq!['├', '─'] };
        let reason = match m.hidden_reason {
            Some(r) => r@,
            None => "derived mount"@,
        };
        let line = crate::text::trim_end(branch + seq![' '] + m.target@ + seq![' ', ' '] + reason + seq!['\n']);
        lemma_cut_line(line, w);
        assert(hidden_line(m, ascii, w) =~= truncate(line, w).push('\n'));
        lemma_join(hidden_text(ms, ascii, w, (n - 1) as nat), hidden_line(m, ascii, w), w);
    }
}

/// Drawn without colors, no line of the dashboard is longer than the width
/// it is drawn for, clamped to between 1 and 100 characters.
pub proof fn lemma_dashboard_fits_width(r: StorageReport, all: bool, o: RenderOptions)
    requires
        !o.color,
    ensures
        lines_fit(render_spec(r, all, o), clamp_width(o.width)),
{
    let w = clamp_width(o.width);
    let vs = r.storage@;
    let body = volumes_text(vs, o, w, name_column(vs), max_capacity_len(vs, vs.len()), vs.len());
    lemma_volumes_whole(vs, o, w, name_column(vs), max_capacity_len(vs, vs.len()), vs.len());
    if !ends_with_blank_line(body) {
        lemma_empty_line(w);
        lemma_join(body, seq!['\n'], w);
        assert(body.push('\n') =~= body + seq!['\n']);
    }
    reveal(footer);
    lemma_cut_line(crate::text::decimal(r.hidden_mounts@.len()) + " system mounts hidden · --all details · --why explain"@, w);
    assert(footer_block(r, o) =~= footer(r, w).push('\n'));
    if all {
        lemma_hidden_whole(r.hidden_mounts@, o.ascii, w, r.hidden_mounts@.len());
    }
    if has_container_root(r.storage@) {
        let warn = "⚠ Container environment: visible storage may not be physical disks."@;
        lemma_cut_line(warn, w);
        assert(warning_block(r, o) =~= truncate(warn, w).push('\n'));
    }
    lemma_join3(dashboard_body(r, o), footer_block(r, o), hidden_block(r, all, o), w);
    lemma_join(dashboard_body(r, o) + footer_block(r, o) + hidden_block(r, all, o), warning_block(r, o), w);
    let s = dashboard_body(r, o) + footer_block(r, o) + hidden_block(r, all, o) + warning_block(r, o);
    if o.ascii {
        lemma_ascii_whole(s, w);
    }
}

} // verus!
