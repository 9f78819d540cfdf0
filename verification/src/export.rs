//! Pattern text: run-length encoded (RLE) cells, with the decimal numbers
//! both pattern formats use.

use vstd::prelude::*;
use vstd::string::StringExecFns;
use std::collections::HashSet;
use crate::hashlife::{coord_pack, spec_coord_pack};

verus! {

broadcast use vstd::std_specs::hash::group_hash_axioms;

/// The decimal digit `d`.
pub open spec fn digit_char(d: int) -> char {
    if d == 0 {
        '0'
    } else if d == 1 {
        '1'
    } else if d == 2 {
        '2'
    } else if d == 3 {
        '3'
    } else if d == 4 {
        '4'
    } else if d == 5 {
        '5'
    } else if d == 6 {
        '6'
    } else if d == 7 {
        '7'
    } else if d == 8 {
        '8'
    } else {
        '9'
    }
}

/// The decimal digits of `n` (no leading zero; `0` is "0").
pub open spec fn decimal(n: nat) -> Seq<char>
    decreases n,
{
    if n < 10 {
        seq![digit_char(n as int)]
    } else {
        decimal(n / 10) + seq![digit_char((n % 10) as int)]
    }
}

/// Appends the digit `d`.
fn push_digit(out: &mut String, d: u64)
    requires
        d < 10,
    ensures
        final(out)@ == old(out)@ + seq![digit_char(d as int)],
{
    if d == 0 {
        proof { reveal_strlit("0"); }
        out.append("0");
    } else if d == 1 {
        proof { reveal_strlit("1"); }
        out.append("1");
    } else if d == 2 {
        proof { reveal_strlit("2"); }
        out.append("2");
    } else if d == 3 {
        proof { reveal_strlit("3"); }
        out.append("3");
    } else if d == 4 {
        proof { reveal_strlit("4"); }
        out.append("4");
    } else if d == 5 {
        proof { reveal_strlit("5"); }
        out.append("5");
    } else if d == 6 {
        proof { reveal_strlit("6"); }
        out.append("6");
    } else if d == 7 {
        proof { reveal_strlit("7"); }
        out.append("7");
    } else if d == 8 {
        proof { reveal_strlit("8"); }
        out.append("8");
    } else {
        proof { reveal_strlit("9"); }
        out.append("9");
    }
}

/// Appends the decimal digits of `n`.
pub fn push_decimal(out: &mut String, n: u64)
    ensures
        final(out)@ == old(out)@ + decimal(n as nat),
    decreases n,
{
    if n >= 10 {
        push_decimal(out, n / 10);
    }
    push_digit(out, n % 10);
    proof {
        if n >= 10 {
            assert(old(out)@ + decimal((n / 10) as nat) + seq![digit_char((n % 10) as int)] =~= old(out)@ + decimal(n as nat));
        } else {
            assert(decimal(n as nat) == seq![digit_char(n as int)]);
        }
    }
}

/// The least `x` of the cells of `s` (`s` not empty).
pub open spec fn seq_min_x(s: Seq<(u64, u64)>) -> u64
    decreases s.len(),
{
    if s.len() <= 1 {
        s[0].0
    } else if s.last().0 < seq_min_x(s.drop_last()) {
        s.last().0
    } else {
        seq_min_x(s.drop_last())
    }
}

pub open spec fn seq_max_x(s: Seq<(u64, u64)>) -> u64
    decreases s.len(),
{
    if s.len() <= 1 {
        s[0].0
    } else if s.last().0 > seq_max_x(s.drop_last()) {
        s.last().0
    } else {
        seq_max_x(s.drop_last())
    }
}

pub open spec fn seq_min_y(s: Seq<(u64, u64)>) -> u64
    decreases s.len(),
{
    if s.len() <= 1 {
        s[0].1
    } else if s.last().1 < seq_min_y(s.drop_last()) {
        s.last().1
    } else {
        seq_min_y(s.drop_last())
    }
}

pub open spec fn seq_max_y(s: Seq<(u64, u64)>) -> u64
    decreases s.len(),
{
    if s.len() <= 1 {
        s[0].1
    } else if s.last().1 > seq_max_y(s.drop_last()) {
        s.last().1
    } else {
        seq_max_y(s.drop_last())
    }
}

/// `(x, y)` is one of the cells.
pub open spec fn has_cell(cells: Seq<(u64, u64)>, x: int, y: int) -> bool {
    exists|i: int| 0 <= i < cells.len() && #[trigger] cells[i].0 == x && cells[i].1 == y
}

/// The length of the run of cells of row `y` from `x` (before `end`) that
/// are all live (`v`) or all dead (`!v`).
pub open spec fn run_len(cells: Seq<(u64, u64)>, y: int, x: int, end: int, v: bool) -> nat
    decreases end - x,
{
    if x >= end || has_cell(cells, x, y) != v {
        0
    } else {
        1 + run_len(cells, y, x + 1, end, v)
    }
}

pub proof fn lemma_run_len_le(cells: Seq<(u64, u64)>, y: int, x: int, end: int, v: bool)
    ensures
        x < end ==> run_len(cells, y, x, end, v) <= end - x,
        x >= end ==> run_len(cells, y, x, end, v) == 0,
    decreases end - x,
{
    if x < end {
        lemma_run_len_le(cells, y, x + 1, end, v);
    }
}

/// A run of `n` cells: the count (when above 1), then `o` (live) or `b` (dead).
pub open spec fn run_text(n: nat, v: bool) -> Seq<char> {
    (if n > 1 { decimal(n) } else { Seq::empty() }) + seq![if v { 'o' } else { 'b' }]
}

/// Row `y` from `x` to `end`, as runs.
pub open spec fn row_text(cells: Seq<(u64, u64)>, y: int, x: int, end: int) -> Seq<char>
    decreases end - x,
{
    if x >= end {
        Seq::empty()
    } else {
        let v = has_cell(cells, x, y);
        let n = run_len(cells, y, x, end, v);
        if n == 0 {
            Seq::empty()
        } else {
            proof {
                lemma_run_len_le(cells, y, x, end, v);
            }
            run_text(n, v) + row_text(cells, y, x + n, end)
        }
    }
}

/// Rows `y` to `last`, each ended by `$`.
pub open spec fn rows_text(cells: Seq<(u64, u64)>, y: int, last: int, x0: int, end: int) -> Seq<char>
    decreases last + 1 - y,
{
    if y > last {
        Seq::empty()
    } else {
        row_text(cells, y, x0, end) + seq!['$'] + rows_text(cells, y + 1, last, x0, end)
    }
}

/// The RLE text of the cells: `b!` when there are none; otherwise the
/// header with the bounding box's width and height and the rule, the rows of
/// the box from top to bottom, and `!`.
pub open spec fn rle_text(cells: Seq<(u64, u64)>) -> Seq<char> {
    if cells.len() == 0 {
        "b!"@
    } else {
        let x0 = seq_min_x(cells) as int;
        let x1 = seq_max_x(cells) as int;
        let y0 = seq_min_y(cells) as int;
        let y1 = seq_max_y(cells) as int;
        "x = "@ + decimal((x1 - x0 + 1) as nat) + ", y = "@ + decimal((y1 - y0 + 1) as nat) + ", rule = B3/S23\n"@
            + rows_text(cells, y0, y1, x0, x1 + 1) + "!"@
    }
}

proof fn lemma_run_len_split(cells: Seq<(u64, u64)>, y: int, s: int, x: int, end: int, v: bool)
    requires
        s <= x <= end,
        forall|i: int| s <= i < x ==> has_cell(cells, i, y) == v,
    ensures
        run_len(cells, y, s, end, v) == (x - s) + run_len(cells, y, x, end, v),
    decreases x - s,
{
    if s < x {
        lemma_run_len_split(cells, y, s + 1, x, end, v);
    }
}

proof fn lemma_pack_inj(x: u64, y: u64, a: u64, b: u64)
    requires
        spec_coord_pack(x, y) == spec_coord_pack(a, b),
    ensures
        x == a && y == b,
{
    let m = crate::hashlife::two64();
    vstd::arithmetic::div_mod::lemma_fundamental_div_mod_converse(spec_coord_pack(x, y) as int, m, y as int, x as int);
    vstd::arithmetic::div_mod::lemma_fundamental_div_mod_converse(spec_coord_pack(a, b) as int, m, b as int, a as int);
}

/// The cells as a set of packed keys.
fn cell_set(cells: &[(u64, u64)]) -> (r: HashSet<u128>)
    ensures
        forall|x: u64, y: u64| #[trigger] r@.contains(spec_coord_pack(x, y)) <==> has_cell(cells@, x as int, y as int),
{
    let mut set: HashSet<u128> = HashSet::new();
    let mut i: usize = 0;
    while i < cells.len()
        invariant
            i <= cells@.len(),
            forall|x: u64, y: u64| #[trigger] set@.contains(spec_coord_pack(x, y)) <==> has_cell(cells@.take(i as int), x as int,
                y as int),
        decreases cells@.len() - i,
    {
        let (cx, cy) = cells[i];
        set.insert(coord_pack(cx, cy));
        proof {
            let pre = cells@.take(i as int);
            let cur = cells@.take(i as int + 1);
            assert forall|x: u64, y: u64| #[trigger] set@.contains(spec_coord_pack(x, y)) <==> has_cell(cur, x as int, y as int) by {
                if spec_coord_pack(x, y) == spec_coord_pack(cx, cy) {
                    lemma_pack_inj(x, y, cx, cy);
                    assert(cur[i as int] == (cx, cy));
                } else {
                    if has_cell(cur, x as int, y as int) {
                        let j = choose|j: int| 0 <= j < cur.len() && #[trigger] cur[j].0 == x && cur[j].1 == y;
                        if j < i {
                            assert(pre[j] == cur[j]);
                        }
                    }
                    if has_cell(pre, x as int, y as int) {
                        let j = choose|j: int| 0 <= j < pre.len() && #[trigger] pre[j].0 == x && pre[j].1 == y;
                        assert(cur[j] == pre[j]);
                    }
                }
            }
        }
        i = i + 1;
    }
    proof {
        assert(cells@.take(cells@.len() as int) =~= cells@);
    }
    set
}

/// Appends the text of a run of `n` cells.
fn push_run(out: &mut String, n: u64, v: bool)
    ensures
        final(out)@ == old(out)@ + run_text(n as nat, v),
{
    let ghost o0 = out@;
    if n > 1 {
        push_decimal(out, n);
    }
    if v {
        proof { reveal_strlit("o"); }
        out.append("o");
    } else {
        proof { reveal_strlit("b"); }
        out.append("b");
    }
    proof {
        assert(out@ =~= o0 + run_text(n as nat, v));
    }
}

/// A finished run: row `y` from the run's start `s` is the run's text, then
/// the rest of the row from `x`.
proof fn lemma_row_flush(cells: Seq<(u64, u64)>, y: int, s: int, x: int, end: int, v: bool)
    requires
        s < x <= end,
        forall|i: int| s <= i < x ==> has_cell(cells, i, y) == v,
        x == end || has_cell(cells, x, y) != v,
    ensures
        row_text(cells, y, s, end) == run_text((x - s) as nat, v) + row_text(cells, y, x, end),
{
    lemma_run_len_split(cells, y, s, x, end, v);
    assert(has_cell(cells, s, y) == v);
    assert(run_len(cells, y, x, end, v) == 0);
}

/// The cells as RLE text (see `rle_text`).
pub fn export_rle(cells: &[(u64, u64)]) -> (r: String)
    requires
        forall|i: int| 0 <= i < cells@.len() ==> #[trigger] cells@[i].0 < u64::MAX && cells@[i].1 < u64::MAX,
    ensures
        r@ == rle_text(cells@),
        cells@.len() > 0 ==> rle_reads_back(r@, cells@),
{
    proof {
        lemma_rle_round_trip(cells@);
    }
    let mut out = String::new();
    if cells.len() == 0 {
        out.append("b!");
        return out;
    }
    let mut min_x = cells[0].0;
    let mut max_x = cells[0].0;
    let mut min_y = cells[0].1;
    let mut max_y = cells[0].1;
    let mut i: usize = 1;
    proof {
        assert(cells@.take(1).len() == 1);
    }
    while i < cells.len()
        invariant
            1 <= i <= cells@.len(),
            min_x == seq_min_x(cells@.take(i as int)),
            max_x == seq_max_x(cells@.take(i as int)),
            min_y == seq_min_y(cells@.take(i as int)),
            max_y == seq_max_y(cells@.take(i as int)),
        decreases cells@.len() - i,
    {
        let (cx, cy) = cells[i];
        proof {
            assert(cells@.take(i as int + 1).drop_last() =~= cells@.take(i as int));
            assert(cells@.take(i as int + 1).last() == (cx, cy));
        }
        if cx < min_x {
            min_x = cx;
        }
        if cx > max_x {
            max_x = cx;
        }
        if cy < min_y {
            min_y = cy;
        }
        if cy > max_y {
            max_y = cy;
        }
        i = i + 1;
    }
    proof {
        assert(cells@.take(cells@.len() as int) =~= cells@);
    }
    assert(max_x < u64::MAX && max_y < u64::MAX && min_x <= max_x) by {
        lemma_seq_max_member(cells@);
        let a = choose|i: int| 0 <= i < cells@.len() && #[trigger] cells@[i].0 == seq_max_x(cells@);
        let b = choose|i: int| 0 <= i < cells@.len() && #[trigger] cells@[i].1 == seq_max_y(cells@);
        assert(cells@[a].0 < u64::MAX);
        assert(cells@[b].0 < u64::MAX && cells@[b].1 < u64::MAX);
        assert(seq_min_x(cells@) <= cells@[a].0);
    }
    let alive = cell_set(cells);
    out.append("x = ");
    push_decimal(&mut out, max_x - min_x + 1);
    out.append(", y = ");
    push_decimal(&mut out, max_y - min_y + 1);
    out.append(", rule = B3/S23\n");
    let ghost head = out@;
    let ghost x0 = min_x as int;
    let ghost end = max_x as int + 1;
    let mut y = min_y;
    let mut run_len: u64 = 0;
    let mut run_alive = alive.contains(&coord_pack(min_x, min_y));
    while y <= max_y
        invariant
            min_y <= y <= max_y + 1,
            max_y < u64::MAX,
            max_x < u64::MAX,
            min_x <= max_x,
            x0 == min_x,
            end == max_x + 1,
            forall|x: u64, yy: u64| #[trigger] alive@.contains(spec_coord_pack(x, yy)) <==> has_cell(cells@, x as int, yy as int),
            head + rows_text(cells@, min_y as int, max_y as int, x0, end) == out@ + rows_text(cells@, y as int, max_y as int, x0, end),
        decreases max_y + 1 - y,
    {
        let ghost before_row = out@;
        let mut x = min_x;
        run_len = 0;
        while x <= max_x
            invariant
                min_x <= x <= max_x + 1,
                max_x < u64::MAX,
                x0 == min_x,
                end == max_x + 1,
                min_y <= y <= max_y,
                run_len <= x - min_x,
                forall|i: int| x - run_len <= i < x ==> has_cell(cells@, i, y as int) == run_alive,
                forall|xx: u64, yy: u64| #[trigger] alive@.contains(spec_coord_pack(xx, yy)) <==> has_cell(cells@, xx as int, yy as int),
                before_row + row_text(cells@, y as int, x0, end) == out@ + row_text(cells@, y as int, x - run_len, end),
            decreases max_x + 1 - x,
        {
            let is_alive = alive.contains(&coord_pack(x, y));
            proof {
                assert(alive@.contains(spec_coord_pack(x, y)) == has_cell(cells@, x as int, y as int));
            }
            if is_alive == run_alive {
                run_len = run_len + 1;
            } else {
                if run_len > 0 {
                    let ghost o1 = out@;
                    proof {
                        lemma_row_flush(cells@, y as int, x - run_len, x as int, end, run_alive);
                        assert(o1 + row_text(cells@, y as int, x - run_len, end) =~= o1 + run_text(run_len as nat, run_alive)
                            + row_text(cells@, y as int, x as int, end));
                    }
                    push_run(&mut out, run_len, run_alive);
                }
                run_len = 1;
                run_alive = is_alive;
            }
            x = x + 1;
        }
        if run_len > 0 {
            let ghost o1 = out@;
            proof {
                lemma_row_flush(cells@, y as int, x - run_len, x as int, end, run_alive);
                assert(o1 + row_text(cells@, y as int, x - run_len, end) =~= o1 + run_text(run_len as nat, run_alive)
                    + row_text(cells@, y as int, x as int, end));
            }
            push_run(&mut out, run_len, run_alive);
            run_len = 0;
        }
        proof {
            assert(row_text(cells@, y as int, x as int, end) == Seq::<char>::empty());
            assert(before_row + row_text(cells@, y as int, x0, end) == out@);
        }
        let ghost o2 = out@;
        out.append("$");
        proof {
            reveal_strlit("$");
            assert(rows_text(cells@, y as int, max_y as int, x0, end) == row_text(cells@, y as int, x0, end) + seq!['$']
                + rows_text(cells@, y + 1, max_y as int, x0, end));
            assert(out@ == o2 + seq!['$']);
            assert(head + rows_text(cells@, min_y as int, max_y as int, x0, end) =~= out@ + rows_text(cells@, y + 1,
                max_y as int, x0, end));
        }
        y = y + 1;
    }
    let ghost o3 = out@;
    out.append("!");
    proof {
        assert(rows_text(cells@, y as int, max_y as int, x0, end) == Seq::<char>::empty());
        assert(o3 == head + rows_text(cells@, min_y as int, max_y as int, x0, end));
    }
    out
}

/// The value of decimal digit `c`, or -1 when `c` is not a digit.
pub open spec fn digit_value(c: char) -> int {
    if c == '0' {
        0
    } else if c == '1' {
        1
    } else if c == '2' {
        2
    } else if c == '3' {
        3
    } else if c == '4' {
        4
    } else if c == '5' {
        5
    } else if c == '6' {
        6
    } else if c == '7' {
        7
    } else if c == '8' {
        8
    } else if c == '9' {
        9
    } else {
        -1
    }
}

/// The cells drawn by the rows part of RLE text `t`, read from column `x` of
/// row `y` with count `n` pending (`has`: one was given): digits build the
/// count, `o` draws that many live cells and `b` skips as many (one when no
/// count was given), `$` moves down that many rows to column 0, and any
/// other character ends the pattern.
pub open spec fn rle_cells(t: Seq<char>, x: int, y: int, n: nat, has: bool) -> Set<(int, int)>
    decreases t.len(),
{
    if t.len() == 0 {
        Set::empty()
    } else {
        let c = t[0];
        let k: int = if has { n as int } else { 1 };
        let rest = t.drop_first();
        if digit_value(c) >= 0 {
            rle_cells(rest, x, y, (n * 10 + digit_value(c)) as nat, true)
        } else if c == 'o' {
            Set::new(|p: (int, int)| p.1 == y && x <= p.0 < x + k).union(rle_cells(rest, x + k, y, 0, false))
        } else if c == 'b' {
            rle_cells(rest, x + k, y, 0, false)
        } else if c == '$' {
            rle_cells(rest, 0, y + k, 0, false)
        } else {
            Set::empty()
        }
    }
}

/// The cells of row `y` from `s` to `end`, in box coordinates (column `i - x0`,
/// row `r`).
pub open spec fn row_cells(cells: Seq<(u64, u64)>, y: int, s: int, end: int, x0: int, r: int) -> Set<(int, int)> {
    Set::new(|p: (int, int)| p.1 == r && s - x0 <= p.0 < end - x0 && has_cell(cells, p.0 + x0, y))
}

proof fn lemma_digit_value(d: int)
    requires
        0 <= d < 10,
    ensures
        digit_value(digit_char(d)) == d,
{
}

/// Reading the digits of `m` leaves the count `m` pending.
proof fn lemma_read_decimal(m: nat, rest: Seq<char>, x: int, y: int)
    ensures
        rle_cells(decimal(m) + rest, x, y, 0, false) == rle_cells(rest, x, y, m, true),
    decreases m,
{
    vstd::arithmetic::div_mod::lemma_fundamental_div_mod(m as int, 10);
    if m < 10 {
        lemma_digit_value(m as int);
        let t = decimal(m) + rest;
        assert(t[0] == digit_char(m as int));
        assert(t.drop_first() =~= rest);
    } else {
        let q = m / 10;
        let d = (m % 10) as int;
        lemma_digit_value(d);
        let rest2 = seq![digit_char(d)] + rest;
        lemma_read_decimal(q, rest2, x, y);
        assert(decimal(m) + rest =~= decimal(q) + rest2);
        assert(rest2[0] == digit_char(d));
        assert(rest2.drop_first() =~= rest);
        assert(q * 10 + d == m);
    }
}

/// A run of `n` live (`v`) or dead cells draws (or skips) `n` columns.
proof fn lemma_read_run(n: nat, v: bool, rest: Seq<char>, x: int, y: int)
    requires
        n >= 1,
    ensures
        rle_cells(run_text(n, v) + rest, x, y, 0, false) == (if v {
            Set::new(|p: (int, int)| p.1 == y && x <= p.0 < x + n)
        } else {
            Set::empty()
        }).union(rle_cells(rest, x + n, y, 0, false)),
{
    let c = if v { 'o' } else { 'b' };
    let tail = seq![c] + rest;
    assert(tail[0] == c);
    assert(tail.drop_first() =~= rest);
    if n > 1 {
        assert(run_text(n, v) + rest =~= decimal(n) + tail);
        lemma_read_decimal(n, tail, x, y);
    } else {
        assert(run_text(n, v) + rest =~= tail);
    }
    if !v {
        assert(Set::<(int, int)>::empty().union(rle_cells(rest, x + n, y, 0, false)) =~= rle_cells(rest, x + n, y, 0, false));
    }
}

/// The cells of a run are all live or all dead.
proof fn lemma_run_cells(cells: Seq<(u64, u64)>, y: int, x: int, end: int, v: bool)
    ensures
        forall|i: int| x <= i < x + run_len(cells, y, x, end, v) ==> has_cell(cells, i, y) == v,
    decreases end - x,
{
    if x < end && has_cell(cells, x, y) == v {
        lemma_run_cells(cells, y, x + 1, end, v);
    }
}

/// Reading a row's runs draws its live cells.
proof fn lemma_read_row(cells: Seq<(u64, u64)>, y: int, s: int, end: int, x0: int, r: int, rest: Seq<char>)
    requires
        s <= end,
    ensures
        rle_cells(row_text(cells, y, s, end) + rest, s - x0, r, 0, false) == row_cells(cells, y, s, end, x0, r).union(
            rle_cells(rest, end - x0, r, 0, false),
        ),
    decreases end - s,
{
    if s >= end {
        assert(row_text(cells, y, s, end) + rest =~= rest);
        assert(row_cells(cells, y, s, end, x0, r) =~= Set::empty());
        assert(Set::<(int, int)>::empty().union(rle_cells(rest, end - x0, r, 0, false)) =~= rle_cells(rest, end - x0, r, 0, false));
    } else {
        let v = has_cell(cells, s, y);
        let n = run_len(cells, y, s, end, v);
        lemma_run_len_le(cells, y, s, end, v);
        assert(n >= 1);
        lemma_run_cells(cells, y, s, end, v);
        let rest2 = row_text(cells, y, s + n, end) + rest;
        assert(row_text(cells, y, s, end) == run_text(n, v) + row_text(cells, y, s + n, end));
        assert(row_text(cells, y, s, end) + rest =~= run_text(n, v) + rest2);
        lemma_read_run(n, v, rest2, s - x0, r);
        lemma_read_row(cells, y, s + n, end, x0, r, rest);
        assert(s - x0 + n == s + n - x0);
        let seg = if v {
            Set::new(|p: (int, int)| p.1 == r && s - x0 <= p.0 < s - x0 + n)
        } else {
            Set::empty()
        };
        assert(seg.union(row_cells(cells, y, s + n, end, x0, r)) =~= row_cells(cells, y, s, end, x0, r)) by {
            assert forall|p: (int, int)| #[trigger] row_cells(cells, y, s, end, x0, r).contains(p) implies seg.union(
                row_cells(cells, y, s + n, end, x0, r),
            ).contains(p) by {
                if p.0 < s + n - x0 {
                    assert(has_cell(cells, p.0 + x0, y) == v);
                }
            }
            assert forall|p: (int, int)| #[trigger] seg.contains(p) implies row_cells(cells, y, s, end, x0, r).contains(p) by {
                assert(has_cell(cells, p.0 + x0, y) == v);
            }
        }
        assert(seg.union(row_cells(cells, y, s + n, end, x0, r).union(rle_cells(rest, end - x0, r, 0, false))) =~= seg.union(
            row_cells(cells, y, s + n, end, x0, r),
        ).union(rle_cells(rest, end - x0, r, 0, false)));
    }
}

/// The cells of rows `y` to `last`, in box coordinates.
pub open spec fn rows_cells(cells: Seq<(u64, u64)>, y: int, last: int, x0: int, end: int, y0: int) -> Set<(int, int)> {
    Set::new(
        |p: (int, int)| y - y0 <= p.1 <= last - y0 && 0 <= p.0 < end - x0 && has_cell(cells, p.0 + x0, p.1 + y0),
    )
}

/// Reading the rows draws their live cells, row `y` being box row `y - y0`.
proof fn lemma_read_rows(cells: Seq<(u64, u64)>, y: int, last: int, x0: int, end: int, y0: int, rest: Seq<char>)
    requires
        x0 <= end,
        y <= last + 1,
    ensures
        rle_cells(rows_text(cells, y, last, x0, end) + rest, 0, y - y0, 0, false) == rows_cells(cells, y, last, x0, end, y0).union(
            rle_cells(rest, 0, last + 1 - y0, 0, false),
        ),
    decreases last + 1 - y,
{
    if y > last {
        assert(rows_text(cells, y, last, x0, end) + rest =~= rest);
        assert(rows_cells(cells, y, last, x0, end, y0) =~= Set::empty());
        assert(Set::<(int, int)>::empty().union(rle_cells(rest, 0, last + 1 - y0, 0, false)) =~= rle_cells(
            rest,
            0,
            last + 1 - y0,
            0,
            false,
        ));
    } else {
        let after = rows_text(cells, y + 1, last, x0, end) + rest;
        let dollar = seq!['$'] + after;
        assert(rows_text(cells, y, last, x0, end) + rest =~= row_text(cells, y, x0, end) + dollar);
        lemma_read_row(cells, y, x0, end, x0, y - y0, dollar);
        assert(dollar[0] == '$');
        assert(dollar.drop_first() =~= after);
        assert(rle_cells(dollar, end - x0, y - y0, 0, false) == rle_cells(after, 0, y + 1 - y0, 0, false));
        lemma_read_rows(cells, y + 1, last, x0, end, y0, rest);
        let row = row_cells(cells, y, x0, end, x0, y - y0);
        assert(row.union(rows_cells(cells, y + 1, last, x0, end, y0)) =~= rows_cells(cells, y, last, x0, end, y0));
        assert(row.union(rows_cells(cells, y + 1, last, x0, end, y0).union(rle_cells(rest, 0, last + 1 - y0, 0, false)))
            =~= row.union(rows_cells(cells, y + 1, last, x0, end, y0)).union(rle_cells(rest, 0, last + 1 - y0, 0, false)));
    }
}

/// Text `t` reads back as the (non-empty) cells: after the header line,
/// which gives the width and height of the cells' bounding box, the rows
/// (ended by `!`) draw exactly the cells, each relative to the box's top-left
/// corner.
pub open spec fn rle_reads_back(t: Seq<char>, cells: Seq<(u64, u64)>) -> bool {
    exists|body: Seq<char>|
        {
            &&& t == "x = "@ + decimal((seq_max_x(cells) - seq_min_x(cells) + 1) as nat) + ", y = "@ + decimal(
                (seq_max_y(cells) - seq_min_y(cells) + 1) as nat,
            ) + ", rule = B3/S23\n"@ + body
            &&& body.len() > 0 && body.last() == '!'
            &&& #[trigger] rle_cells(body, 0, 0, 0, false) == Set::new(
                |p: (int, int)| has_cell(cells, p.0 + seq_min_x(cells), p.1 + seq_min_y(cells)),
            )
        }
}

/// RLE text reads back as the cells (see `rle_reads_back`); no cells read
/// back as no cells.
pub proof fn lemma_rle_round_trip(cells: Seq<(u64, u64)>)
    ensures
        cells.len() == 0 ==> rle_cells(rle_text(cells), 0, 0, 0, false) == Set::<(int, int)>::empty(),
        cells.len() > 0 ==> rle_reads_back(rle_text(cells), cells),
{
    if cells.len() == 0 {
        reveal_strlit("b!");
        let t = rle_text(cells);
        assert(t[0] == 'b');
        assert(t.drop_first()[0] == '!');
        assert(rle_cells(t.drop_first(), 1, 0, 0, false) == Set::<(int, int)>::empty());
    } else {
        reveal_strlit("!");
        let x0 = seq_min_x(cells) as int;
        let x1 = seq_max_x(cells) as int;
        let y0 = seq_min_y(cells) as int;
        let y1 = seq_max_y(cells) as int;
        lemma_seq_max_member(cells);
        assert(x0 <= x1 && y0 <= y1) by {
            assert(seq_min_x(cells) <= cells[0].0 <= seq_max_x(cells));
        }
        let body = rows_text(cells, y0, y1, x0, x1 + 1) + "!"@;
        lemma_read_rows(cells, y0, y1, x0, x1 + 1, y0, "!"@);
        assert(("!"@)[0] == '!');
        assert(rle_cells("!"@, 0, y1 + 1 - y0, 0, false) == Set::<(int, int)>::empty());
        let want = Set::new(|p: (int, int)| has_cell(cells, p.0 + x0, p.1 + y0));
        assert(rows_cells(cells, y0, y1, x0, x1 + 1, y0).union(Set::empty()) =~= want) by {
            assert forall|p: (int, int)| #[trigger] want.contains(p) implies rows_cells(cells, y0, y1, x0, x1 + 1, y0).contains(p) by {
                let i = choose|i: int| 0 <= i < cells.len() && #[trigger] cells[i].0 == p.0 + x0 && cells[i].1 == p.1 + y0;
                assert(seq_min_x(cells) <= cells[i].0 <= seq_max_x(cells));
            }
        }
        assert(rows_text(cells, y0, y1, x0, x1 + 1) + "!"@ == body);
        assert(body.last() == '!');
        assert(rle_text(cells) == "x = "@ + decimal((x1 - x0 + 1) as nat) + ", y = "@ + decimal((y1 - y0 + 1) as nat)
            + ", rule = B3/S23\n"@ + body);
    }
}

/// The bounds of a non-empty list of cells are cells' coordinates.
proof fn lemma_seq_max_member(s: Seq<(u64, u64)>)
    requires
        s.len() > 0,
    ensures
        exists|i: int| 0 <= i < s.len() && #[trigger] s[i].0 == seq_max_x(s),
        exists|i: int| 0 <= i < s.len() && #[trigger] s[i].1 == seq_max_y(s),
        forall|i: int| 0 <= i < s.len() ==> seq_min_x(s) <= #[trigger] s[i].0 <= seq_max_x(s) && seq_min_y(s) <= s[i].1
            <= seq_max_y(s),
    decreases s.len(),
{
    if s.len() > 1 {
        let p = s.drop_last();
        lemma_seq_max_member(p);
        assert forall|i: int| 0 <= i < s.len() implies seq_min_x(s) <= #[trigger] s[i].0 <= seq_max_x(s) && seq_min_y(s)
            <= s[i].1 <= seq_max_y(s) by {
            if i < p.len() {
                assert(s[i] == p[i]);
            }
        }
        if s.last().0 <= seq_max_x(p) {
            let i = choose|i: int| 0 <= i < p.len() && #[trigger] p[i].0 == seq_max_x(p);
            assert(s[i] == p[i]);
        } else {
            assert(s[s.len() - 1].0 == seq_max_x(s));
        }
        if s.last().1 <= seq_max_y(p) {
            let i = choose|i: int| 0 <= i < p.len() && #[trigger] p[i].1 == seq_max_y(p);
            assert(s[i] == p[i]);
        } else {
            assert(s[s.len() - 1].1 == seq_max_y(s));
        }
    } else {
        assert(s[0].0 == seq_max_x(s));
        assert(s[0].1 == seq_max_y(s));
    }
}

} // verus!
