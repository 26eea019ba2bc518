//! Reading back what the writer writes.
use crate::text::{
    all_digits, comments_and_lines, comments_only, decimal, entry_line, index_expect, index_of,
    index_skip, is_blank, is_delimiter, lemma_number_round_trip, line_end, mask_union, parse_bounds,
    parse_body, parse_entries, parse_line, parse_row, parse_text, scan, scan_until, signed_decimal, signed_digits,
    skip_blanks, tab_separated, step, tabbed, value_end, value_of, values_only, bound_skip, Scan,
    ReadFailure, unsigned_part, decimal_value, signed_value,
};
use crate::axis::{is_first_position, lemma_first_position_unique};
use crate::iter::{dense_coords, logical_index, places, scatter};
use crate::tensor::{block_size_of, COOTensor};
use crate::text::{axis_lines, entry_lines, has_label, lowers, name_lines, text_of, uppers};
use vstd::prelude::*;
use vstd::utf8::valid_utf8;

verus! {

/// Whether the text `b` holds `s` from position `p`.
pub open spec fn starts_with(b: Seq<u8>, p: int, s: Seq<u8>) -> bool {
    0 <= p && p + s.len() <= b.len() && b.subrange(p, p + s.len()) == s
}

/// Whether every byte of `s` belongs in a value token.
pub open spec fn token_bytes(s: Seq<u8>) -> bool {
    forall|i: int| 0 <= i < s.len() ==> !is_delimiter(#[trigger] s[i])
}

/// Whether a token ends at `q`: the text ends there or a delimiter follows.
pub open spec fn ends_at(b: Seq<u8>, q: int) -> bool {
    q == b.len() || (0 <= q < b.len() && is_delimiter(b[q]))
}

proof fn lemma_value_run(b: Seq<u8>, p: int, d: Seq<u8>)
    requires
        starts_with(b, p, d),
        token_bytes(d),
        ends_at(b, p + d.len()),
    ensures
        value_end(b, p) == p + d.len(),
    decreases d.len(),
{
    if d.len() > 0 {
        assert(b[p] == d[0]);
        let t = d.subrange(1, d.len() as int);
        assert(b.subrange(p + 1, p + 1 + t.len()) =~= t);
        lemma_value_run(b, p + 1, t);
    }
}

/// A token of value bytes at `p` scans as that value.
proof fn lemma_scan_token(b: Seq<u8>, p: int, d: Seq<u8>, m: crate::text::TokenMask)
    requires
        starts_with(b, p, d),
        d.len() > 0,
        token_bytes(d),
        ends_at(b, p + d.len()),
        m.value,
    ensures
        scan(b, p, m) == (Scan::Value(d), p + d.len()),
{
    assert(b[p] == d[0]);
    lemma_value_run(b, p, d);
}

/// A blank then a token of value bytes scans as that value.
proof fn lemma_scan_blank_token(b: Seq<u8>, p: int, d: Seq<u8>, m: crate::text::TokenMask)
    requires
        0 <= p < b.len(),
        is_blank(b[p]),
        starts_with(b, p + 1, d),
        d.len() > 0,
        token_bytes(d),
        ends_at(b, p + 1 + d.len()),
        m.value,
    ensures
        scan(b, p, m) == (Scan::Value(d), p + 1 + d.len()),
{
    assert(b[p + 1] == d[0]);
    lemma_value_run(b, p + 1, d);
    assert(skip_blanks(b, p) == skip_blanks(b, p + 1));
}

proof fn lemma_digits_token(n: nat)
    ensures
        decimal(n).len() > 0,
        token_bytes(decimal(n)),
        index_of(decimal(n)) == if n <= usize::MAX { Some(n as usize) } else { None::<usize> },
{
    lemma_number_round_trip(0, 0);
    lemma_digits(n);
}

/// Bytes below 0x80 are UTF-8.
proof fn lemma_ascii_utf8(s: Seq<u8>)
    requires
        forall|i: int| 0 <= i < s.len() ==> #[trigger] s[i] <= 0x7f,
    ensures
        valid_utf8(s),
    decreases s.len(),
{
    if s.len() > 0 {
        let c = s[0];
        assert(c & 0x7fu8 <= 0x7fu8) by (bit_vector);
        let t = s.subrange(1, s.len() as int);
        assert forall|i: int| 0 <= i < t.len() implies #[trigger] t[i] <= 0x7f by {
            assert(t[i] == s[i + 1]);
        }
        lemma_ascii_utf8(t);
        assert(vstd::utf8::pop_first_scalar(s) == t);
    }
}

proof fn lemma_digits(n: nat)
    ensures
        decimal(n).len() > 0,
        all_digits(decimal(n)),
        decimal_value(decimal(n)) == n,
        token_bytes(decimal(n)),
        valid_utf8(decimal(n)),
        index_of(decimal(n)) == if n <= usize::MAX { Some(n as usize) } else { None::<usize> },
{
    crate::text::lemma_decimal_digits(n);
    assert forall|i: int| 0 <= i < decimal(n).len() implies #[trigger] decimal(n)[i] <= 0x7f by {
        assert(48 <= decimal(n)[i] <= 57);
    }
    lemma_ascii_utf8(decimal(n));
    let s = decimal(n);
    assert forall|i: int| 0 <= i < s.len() implies !is_delimiter(#[trigger] s[i]) by {
        assert(48 <= s[i] <= 57);
    }
    assert(s[0] != 43);
    assert(unsigned_part(s, 43) == s);
}

proof fn lemma_signed_token(v: i64)
    ensures
        signed_decimal(v as int).len() > 0,
        token_bytes(signed_decimal(v as int)),
        valid_utf8(signed_decimal(v as int)),
        value_of(signed_decimal(v as int)) == Some(v),
{
    lemma_number_round_trip(0, v);
    let t = signed_decimal(v as int);
    if v < 0 {
        lemma_digits((-v) as nat);
        assert forall|i: int| 0 <= i < t.len() implies !is_delimiter(#[trigger] t[i]) && t[i] <= 0x7f by {
            if i > 0 {
                assert(t[i] == decimal((-v) as nat)[i - 1]);
                assert(48 <= decimal((-v) as nat)[i - 1] <= 57);
            }
        }
        lemma_ascii_utf8(t);
    } else {
        lemma_digits(v as nat);
    }
}

proof fn lemma_tab_separated_prefix(nums: Seq<usize>, d: int, n: int)
    requires
        0 <= d <= n,
    ensures
        tab_separated(nums, d).len() <= tab_separated(nums, n).len(),
        tab_separated(nums, n).subrange(0, tab_separated(nums, d).len() as int) == tab_separated(nums, d),
    decreases n,
{
    if d < n {
        lemma_tab_separated_prefix(nums, d, n - 1);
        let a = tab_separated(nums, n - 1);
        let c = tab_separated(nums, n);
        if n == 1 {
            assert(tab_separated(nums, 0) =~= Seq::<u8>::empty());
            assert(c.subrange(0, 0) =~= Seq::<u8>::empty());
        } else {
            assert(c == a + seq![9u8] + decimal(nums[n - 1] as nat));
            assert(c.subrange(0, tab_separated(nums, d).len() as int) =~= a.subrange(0, tab_separated(nums, d).len() as int));
        }
    } else {
        assert(tab_separated(nums, n).subrange(0, tab_separated(nums, n).len() as int) =~= tab_separated(nums, n));
    }
}

/// Where bound `d` of a line written by `tab_separated` from `q` is read from.
pub open spec fn bound_pos(nums: Seq<usize>, q: int, d: int) -> int {
    q + tab_separated(nums, d).len()
}

#[verifier::rlimit(60)]
proof fn lemma_parse_bounds(b: Seq<u8>, q: int, nums: Seq<usize>, n: nat, d: nat)
    requires
        nums.len() == n,
        n >= 1,
        d <= n,
        starts_with(b, q, tab_separated(nums, n as int)),
        q + tab_separated(nums, n as int).len() < b.len(),
        b[q + tab_separated(nums, n as int).len()] == 10,
    ensures
        parse_bounds(b, bound_pos(nums, q, d as int), n, d) == Ok::<(Seq<usize>, int), ReadFailure>(
            (nums.subrange(d as int, n as int), bound_pos(nums, q, n as int)),
        ),
    decreases n - d,
{
    let di = d as int;
    let pd = bound_pos(nums, q, di);
    if d < n {
        lemma_parse_bounds(b, q, nums, n, (d + 1) as nat);
        lemma_tab_separated_prefix(nums, di + 1, n as int);
        lemma_tab_separated_prefix(nums, di, di + 1);
        let x = nums[d as int];
        let tok = decimal(x as nat);
        lemma_digits(x as nat);
        let whole = tab_separated(nums, n as int);
        let next = tab_separated(nums, di + 1);
        assert(b.subrange(q, q + next.len()) =~= next) by {
            assert(b.subrange(q, q + whole.len()) == whole);
            assert(whole.subrange(0, next.len() as int) == next);
            assert forall|i: int| 0 <= i < next.len() implies b.subrange(q, q + next.len())[i] == next[i] by {
                assert(b[q + i] == whole[i]);
            }
        }
        let end = bound_pos(nums, q, di + 1);
        assert(ends_at(b, end)) by {
            if di + 1 < n {
                lemma_tab_separated_prefix(nums, di + 1, di + 2);
                lemma_tab_separated_prefix(nums, di + 2, n as int);
                let nn = tab_separated(nums, di + 2);
                assert(nn == next + seq![9u8] + decimal(nums[di + 1] as nat));
                assert(b[q + next.len()] == whole[next.len() as int]);
                assert(whole.subrange(0, nn.len() as int) == nn);
                assert(whole[next.len() as int] == nn[next.len() as int]);
            }
        }
        let m = mask_union(bound_skip(d), values_only());
        if d == 0 {
            assert(next == tok);
            assert(pd == q);
            assert(starts_with(b, pd, tok));
            lemma_scan_token(b, pd, tok, m);
        } else {
            let prev = tab_separated(nums, d as int);
            assert(next == prev + seq![9u8] + tok);
            assert(b[pd] == 9) by {
                assert(b[q + prev.len()] == next[prev.len() as int]);
            }
            assert(b.subrange(pd + 1, pd + 1 + tok.len()) =~= tok) by {
                assert forall|i: int| 0 <= i < tok.len() implies b.subrange(pd + 1, pd + 1 + tok.len())[i] == tok[i] by {
                    assert(b[pd + 1 + i] == next[prev.len() + 1 + i]);
                }
            }
            lemma_scan_blank_token(b, pd, tok, m);
        }
        assert(scan_until(b, pd, values_only(), bound_skip(d)) == (Scan::Value(tok), end));
        assert(nums.subrange(d as int, n as int) =~= seq![x] + nums.subrange(di + 1, n as int));
    } else {
        assert(nums.subrange(d as int, n as int) =~= Seq::<usize>::empty());
    }
}

proof fn lemma_tabbed_prefix(row: Seq<usize>, d: int, n: int)
    requires
        0 <= d <= n,
    ensures
        tabbed(row, d).len() <= tabbed(row, n).len(),
        tabbed(row, n).subrange(0, tabbed(row, d).len() as int) == tabbed(row, d),
        d < n ==> tabbed(row, d + 1) == tabbed(row, d) + decimal(row[d] as nat) + seq![9u8],
    decreases n,
{
    if d < n {
        lemma_tabbed_prefix(row, d, n - 1);
        let a = tabbed(row, n - 1);
        let c = tabbed(row, n);
        assert(c == a + decimal(row[n - 1] as nat) + seq![9u8]);
        assert(c.subrange(0, tabbed(row, d).len() as int) =~= a.subrange(0, tabbed(row, d).len() as int));
    } else {
        assert(tabbed(row, n).subrange(0, tabbed(row, n).len() as int) =~= tabbed(row, n));
    }
}

/// The bytes of `t` from `i` to `j` are those of the text from `q + i`.
proof fn lemma_sub_text(b: Seq<u8>, q: int, t: Seq<u8>, i: int, j: int)
    requires
        starts_with(b, q, t),
        0 <= i <= j <= t.len(),
    ensures
        starts_with(b, q + i, t.subrange(i, j)),
{
    assert(b.subrange(q + i, q + j) =~= t.subrange(i, j)) by {
        assert forall|k: int| 0 <= k < j - i implies b.subrange(q + i, q + j)[k] == t.subrange(i, j)[k] by {
            assert(b[q + i + k] == b.subrange(q, q + t.len())[i + k]);
        }
    }
}

#[verifier::rlimit(60)]
proof fn lemma_parse_row(
    b: Seq<u8>,
    s: int,
    row: Seq<usize>,
    lo: Seq<usize>,
    up: Seq<usize>,
    n: nat,
    d: nat,
)
    requires
        row.len() == n,
        lo.len() == n,
        up.len() == n,
        forall|c: int| 0 <= c < n ==> lo[c] <= #[trigger] row[c] < up[c],
        1 <= d <= n,
        starts_with(b, s, tabbed(row, n as int)),
    ensures
        parse_row(b, s + tabbed(row, d as int).len() - 1, lo, up, n, d) == Ok::<Option<(Seq<usize>, int)>, ReadFailure>(
            Some((row.subrange(d as int, n as int), s + tabbed(row, n as int).len() - 1)),
        ),
    decreases n - d,
{
    let di = d as int;
    let pd = s + tabbed(row, di).len() - 1;
    if d < n {
        lemma_parse_row(b, s, row, lo, up, n, (d + 1) as nat);
        lemma_tabbed_prefix(row, di, n as int);
        lemma_tabbed_prefix(row, di + 1, n as int);
        lemma_tabbed_prefix(row, di - 1, di);
        let x = row[di];
        let tok = decimal(x as nat);
        lemma_digits(x as nat);
        let whole = tabbed(row, n as int);
        let cur = tabbed(row, di);
        let next = tabbed(row, di + 1);
        assert(next == cur + tok + seq![9u8]);
        lemma_sub_text(b, s, whole, cur.len() - 1, cur.len() as int);
        assert(cur[cur.len() - 1] == 9u8);
        assert(whole[cur.len() - 1] == cur[cur.len() - 1]);
        assert(b[pd] == whole[cur.len() - 1]) by {
            assert(b.subrange(s, s + whole.len())[cur.len() - 1] == whole[cur.len() - 1]);
        }
        lemma_sub_text(b, s, whole, cur.len() as int, (cur.len() + tok.len()) as int);
        assert(whole.subrange(cur.len() as int, (cur.len() + tok.len()) as int) =~= tok) by {
            assert forall|k: int| 0 <= k < tok.len() implies whole[cur.len() + k] == tok[k] by {
                assert(whole[cur.len() + k] == next[cur.len() + k]);
            }
        }
        assert(ends_at(b, pd + 1 + tok.len())) by {
            assert(whole[next.len() - 1] == next[next.len() - 1]);
            assert(b[s + next.len() - 1] == b.subrange(s, s + whole.len())[next.len() - 1]);
        }
        let m = mask_union(index_skip(d), index_expect(d));
        lemma_scan_blank_token(b, pd, tok, m);
        assert(scan_until(b, pd, index_expect(d), index_skip(d)) == (Scan::Value(tok), pd + 1 + tok.len()));
        assert(pd + 1 + tok.len() == s + next.len() - 1);
        assert(row.subrange(di, n as int) =~= seq![x] + row.subrange(di + 1, n as int));
    } else {
        assert(row.subrange(di, n as int) =~= Seq::<usize>::empty());
    }
}

/// `s` is where `x` stands in `b`, then `x` holds `y` from `i`: `b` holds `y` from `s + i`.
proof fn lemma_within(b: Seq<u8>, s: int, x: Seq<u8>, i: int, y: Seq<u8>)
    requires
        starts_with(b, s, x),
        starts_with(x, i, y),
    ensures
        starts_with(b, s + i, y),
{
    assert(b.subrange(s + i, s + i + y.len()) =~= y) by {
        assert forall|k: int| 0 <= k < y.len() implies b.subrange(s + i, s + i + y.len())[k] == y[k] by {
            assert(y[k] == x.subrange(i, i + y.len())[k]);
            assert(x[i + k] == b.subrange(s, s + x.len())[i + k]);
        }
    }
}

/// Both halves of `x + y` stand where they belong.
proof fn lemma_halves(x: Seq<u8>, y: Seq<u8>)
    ensures
        starts_with(x + y, 0, x),
        starts_with(x + y, x.len() as int, y),
{
    assert((x + y).subrange(0, x.len() as int) =~= x);
    assert((x + y).subrange(x.len() as int, (x.len() + y.len()) as int) =~= y);
}

/// Where a line puts its coordinates, its value and its line break.
#[verifier::rlimit(60)]
proof fn lemma_line_layout(b: Seq<u8>, s: int, row: Seq<usize>, v: i64)
    requires
        starts_with(b, s, entry_line(row, v)),
    ensures
        starts_with(b, s, tabbed(row, row.len() as int)),
        starts_with(b, s + tabbed(row, row.len() as int).len(), signed_decimal(v as int)),
        b[s + tabbed(row, row.len() as int).len() + signed_decimal(v as int).len()] == 10,
        entry_line(row, v).len() == tabbed(row, row.len() as int).len() + signed_decimal(v as int).len() + 1,
{
    let t = tabbed(row, row.len() as int);
    let sd = signed_decimal(v as int);
    let el = entry_line(row, v);
    assert(el == t + sd + seq![10u8]);
    lemma_halves(t + sd, seq![10u8]);
    lemma_halves(t, sd);
    lemma_within(b, s, el, 0, t + sd);
    lemma_within(b, s, t + sd, 0, t);
    lemma_within(b, s, t + sd, t.len() as int, sd);
    lemma_within(b, s, el, (t.len() + sd.len()) as int, seq![10u8]);
    assert(b[s + t.len() + sd.len()] == b.subrange(s + t.len() + sd.len(), s + t.len() + sd.len() + 1)[0]);
}

/// The first coordinate of a line, read from its start or from the line break before it.
#[verifier::rlimit(60)]
proof fn lemma_line_first(b: Seq<u8>, p: int, s: int, row: Seq<usize>)
    requires
        row.len() >= 1,
        starts_with(b, s, tabbed(row, row.len() as int)),
        p == s || (p == s - 1 && 0 <= p && b[p] == 10),
    ensures
        scan_until(b, p, index_expect(0), index_skip(0)) == (
            Scan::Value(decimal(row[0] as nat)),
            s + decimal(row[0] as nat).len(),
        ),
        s + decimal(row[0] as nat).len() == s + tabbed(row, 1).len() - 1,
{
    let n = row.len();
    let t = tabbed(row, n as int);
    lemma_tabbed_prefix(row, 0, n as int);
    lemma_tabbed_prefix(row, 1, n as int);
    let x = row[0];
    let tok = decimal(x as nat);
    lemma_digits(x as nat);
    assert(tabbed(row, 0) =~= Seq::<u8>::empty());
    assert(tabbed(row, 1) =~= tok + seq![9u8]);
    lemma_sub_text(b, s, t, 0, tok.len() as int);
    assert(t.subrange(0, tok.len() as int) =~= tok) by {
        assert forall|k: int| 0 <= k < tok.len() implies t[k] == tok[k] by {
            assert(t[k] == tabbed(row, 1)[k]);
        }
    }
    assert(ends_at(b, s + tok.len())) by {
        assert(t[tok.len() as int] == tabbed(row, 1)[tok.len() as int]);
        assert(b[s + tok.len()] == b.subrange(s, s + t.len())[tok.len() as int]);
    }
    let m0 = mask_union(index_skip(0), index_expect(0));
    lemma_scan_token(b, s, tok, m0);
    assert(scan_until(b, s, index_expect(0), index_skip(0)) == (Scan::Value(tok), s + tok.len()));
    if p == s - 1 {
        assert(skip_blanks(b, p) == p);
        assert(scan(b, p, m0) == (Scan::NewLine, s));
        assert(scan_until(b, p, index_expect(0), index_skip(0)) == scan_until(b, s, index_expect(0), index_skip(0)));
    }
}

/// A line of coordinates and a value, read from its start or from the line break before it.
#[verifier::rlimit(60)]
proof fn lemma_parse_line(b: Seq<u8>, p: int, s: int, row: Seq<usize>, v: i64, lo: Seq<usize>, up: Seq<usize>)
    requires
        row.len() >= 1,
        lo.len() == row.len(),
        up.len() == row.len(),
        forall|c: int| 0 <= c < row.len() ==> lo[c] <= #[trigger] row[c] < up[c],
        starts_with(b, s, entry_line(row, v)),
        p == s || (p == s - 1 && 0 <= p && b[p] == 10),
    ensures
        parse_line(b, p, lo, up) == Ok::<Option<(Seq<usize>, i64, int)>, ReadFailure>(
            Some((row, v, s + entry_line(row, v).len() - 1)),
        ),
{
    let n = row.len();
    let t = tabbed(row, n as int);
    let sd = signed_decimal(v as int);
    lemma_line_layout(b, s, row, v);
    lemma_line_first(b, p, s, row);
    let x = row[0];
    lemma_digits(x as nat);
    if n > 1 {
        lemma_parse_row(b, s, row, lo, up, n, 1);
    } else {
        assert(row.subrange(1, 1) =~= Seq::<usize>::empty());
    }
    assert(parse_row(b, s + tabbed(row, 1).len() - 1, lo, up, n, 1) == Ok::<Option<(Seq<usize>, int)>, ReadFailure>(
        Some((row.subrange(1, n as int), s + t.len() - 1)),
    ));
    assert(seq![x] + row.subrange(1, n as int) =~= row);
    assert(parse_row(b, p, lo, up, n, 0) == Ok::<Option<(Seq<usize>, int)>, ReadFailure>(Some((row, s + t.len() - 1))));
    let q = s + t.len() - 1;
    lemma_signed_token(v);
    lemma_tabbed_prefix(row, n as int - 1, n as int);
    assert(b[q] == 9) by {
        assert(t[t.len() - 1] == 9u8);
        assert(b[q] == b.subrange(s, s + t.len())[t.len() - 1]);
    }
    lemma_scan_blank_token(b, q, sd, mask_union(comments_only(), values_only()));
    assert(scan_until(b, q, values_only(), comments_only()) == (Scan::Value(sd), s + t.len() + sd.len()));
}

/// The lines of the first `k` coordinate rows and values.
pub open spec fn lines_text(rows: Seq<Seq<usize>>, vals: Seq<i64>, k: int) -> Seq<u8>
    decreases k,
{
    if k <= 0 {
        Seq::empty()
    } else {
        lines_text(rows, vals, k - 1) + entry_line(rows[k - 1], vals[k - 1])
    }
}

proof fn lemma_lines_prefix(rows: Seq<Seq<usize>>, vals: Seq<i64>, k: int, n: int)
    requires
        0 <= k <= n,
    ensures
        starts_with(lines_text(rows, vals, n), 0, lines_text(rows, vals, k)),
    decreases n,
{
    if k < n {
        lemma_lines_prefix(rows, vals, k, n - 1);
        lemma_halves(lines_text(rows, vals, n - 1), entry_line(rows[n - 1], vals[n - 1]));
        lemma_within(lines_text(rows, vals, n), 0, lines_text(rows, vals, n - 1), 0, lines_text(rows, vals, k));
    } else {
        lemma_halves(lines_text(rows, vals, n), Seq::empty());
        assert(lines_text(rows, vals, n) + Seq::<u8>::empty() =~= lines_text(rows, vals, n));
    }
}

/// Where line `k` of the lines written from `h` is read from: the line break
/// before it, or `h` for the first.
pub open spec fn line_pos(h: int, rows: Seq<Seq<usize>>, vals: Seq<i64>, k: int) -> int {
    if k == 0 {
        h
    } else {
        h + lines_text(rows, vals, k).len() - 1
    }
}

/// What the lines written from `h` need of the text and of the rows.
pub open spec fn lines_ok(b: Seq<u8>, h: int, rows: Seq<Seq<usize>>, vals: Seq<i64>, lo: Seq<usize>, up: Seq<usize>) -> bool {
    &&& rows.len() == vals.len()
    &&& lo.len() >= 1
    &&& up.len() == lo.len()
    &&& forall|m: int| 0 <= m < rows.len() ==> (#[trigger] rows[m]).len() == lo.len() && forall|c: int|
        0 <= c < lo.len() ==> lo[c] <= #[trigger] rows[m][c] < up[c]
    &&& starts_with(b, h, lines_text(rows, vals, rows.len() as int))
    &&& h + lines_text(rows, vals, rows.len() as int).len() == b.len()
}

/// Past the last line, the text ends.
#[verifier::rlimit(60)]
proof fn lemma_lines_end(b: Seq<u8>, h: int, rows: Seq<Seq<usize>>, vals: Seq<i64>, lo: Seq<usize>, up: Seq<usize>)
    requires
        lines_ok(b, h, rows, vals, lo, up),
    ensures
        parse_line(b, line_pos(h, rows, vals, rows.len() as int), lo, up) == Ok::<
            Option<(Seq<usize>, i64, int)>,
            ReadFailure,
        >(None),
{
    let n = rows.len() as int;
    let all = lines_text(rows, vals, n);
    let p = line_pos(h, rows, vals, n);
    let m0 = mask_union(index_skip(0), index_expect(0));
    if n == 0 {
        assert(all =~= Seq::<u8>::empty());
        assert(p == b.len());
        assert(scan(b, p, m0) == (Scan::Eof, p));
        assert(scan_until(b, p, index_expect(0), index_skip(0)) == (Scan::Eof, p));
    } else {
        let prev = lines_text(rows, vals, n - 1);
        let pl = entry_line(rows[n - 1], vals[n - 1]);
        assert(all == prev + pl);
        assert(pl[pl.len() - 1] == 10u8);
        lemma_halves(prev, pl);
        lemma_within(b, h, all, prev.len() as int, pl);
        assert(b[p] == b.subrange(h + prev.len(), h + prev.len() + pl.len())[pl.len() - 1]);
        assert(skip_blanks(b, p) == p);
        assert(scan(b, p, m0) == (Scan::NewLine, p + 1));
        assert(scan(b, p + 1, m0) == (Scan::Eof, p + 1));
        assert(scan_until(b, p + 1, index_expect(0), index_skip(0)) == (Scan::Eof, p + 1));
        assert(scan_until(b, p, index_expect(0), index_skip(0)) == (Scan::Eof, p + 1));
    }
    assert(parse_row(b, p, lo, up, lo.len(), 0) == Ok::<Option<(Seq<usize>, int)>, ReadFailure>(None));
}

/// Line `k` reads back as its coordinates and value, ending where line `k + 1` is read from.
#[verifier::rlimit(60)]
proof fn lemma_lines_step(
    b: Seq<u8>,
    h: int,
    rows: Seq<Seq<usize>>,
    vals: Seq<i64>,
    lo: Seq<usize>,
    up: Seq<usize>,
    k: int,
)
    requires
        lines_ok(b, h, rows, vals, lo, up),
        0 <= k < rows.len(),
        h >= 1,
        b[h - 1] == 10,
    ensures
        parse_line(b, line_pos(h, rows, vals, k), lo, up) == Ok::<Option<(Seq<usize>, i64, int)>, ReadFailure>(
            Some((rows[k], vals[k], line_pos(h, rows, vals, k + 1))),
        ),
        line_pos(h, rows, vals, k) < line_pos(h, rows, vals, k + 1) <= b.len(),
{
    let n = rows.len() as int;
    let all = lines_text(rows, vals, n);
    let p = line_pos(h, rows, vals, k);
    lemma_lines_prefix(rows, vals, k + 1, n);
    let before = lines_text(rows, vals, k);
    let line = entry_line(rows[k], vals[k]);
    assert(lines_text(rows, vals, k + 1) == before + line);
    lemma_halves(before, line);
    lemma_within(b, h, all, 0, lines_text(rows, vals, k + 1));
    lemma_within(b, h, lines_text(rows, vals, k + 1), before.len() as int, line);
    let s = h + before.len();
    if k > 0 {
        let prev = lines_text(rows, vals, k - 1);
        let pl = entry_line(rows[k - 1], vals[k - 1]);
        assert(before == prev + pl);
        assert(pl[pl.len() - 1] == 10u8);
        lemma_halves(prev, pl);
        lemma_lines_prefix(rows, vals, k, n);
        lemma_within(b, h, all, 0, before);
        lemma_within(b, h, before, prev.len() as int, pl);
        assert(b[s - 1] == b.subrange(h + prev.len(), h + prev.len() + pl.len())[pl.len() - 1]);
    } else {
        assert(before =~= Seq::<u8>::empty());
    }
    lemma_parse_line(b, p, s, rows[k], vals[k], lo, up);
    lemma_signed_token(vals[k]);
    assert(line.len() >= 2);
}

/// The lines written from position `h` read back, from line `k` on.
proof fn lemma_parse_lines(
    b: Seq<u8>,
    h: int,
    rows: Seq<Seq<usize>>,
    vals: Seq<i64>,
    lo: Seq<usize>,
    up: Seq<usize>,
    k: int,
)
    requires
        lines_ok(b, h, rows, vals, lo, up),
        0 <= k <= rows.len(),
        h >= 1,
        b[h - 1] == 10,
    ensures
        parse_entries(b, line_pos(h, rows, vals, k), lo, up) == Ok::<(Seq<Seq<usize>>, Seq<i64>), ReadFailure>(
            (rows.subrange(k, rows.len() as int), vals.subrange(k, vals.len() as int)),
        ),
    decreases rows.len() - k,
{
    let n = rows.len() as int;
    if k < n {
        lemma_lines_step(b, h, rows, vals, lo, up, k);
        lemma_parse_lines(b, h, rows, vals, lo, up, k + 1);
        assert(rows.subrange(k, n) =~= seq![rows[k]] + rows.subrange(k + 1, n));
        assert(vals.subrange(k, n) =~= seq![vals[k]] + vals.subrange(k + 1, n));
    } else {
        lemma_lines_end(b, h, rows, vals, lo, up);
        assert(rows.subrange(k, n) =~= Seq::<Seq<usize>>::empty());
        assert(vals.subrange(k, n) =~= Seq::<i64>::empty());
    }
}

/// The text of a tensor with `lo.len()` sparse axes of bounds `lo` and `up`, and
/// one line for each row of coordinates with its value.
pub open spec fn coo_text(lo: Seq<usize>, up: Seq<usize>, rows: Seq<Seq<usize>>, vals: Seq<i64>) -> Seq<u8> {
    decimal(lo.len()) + seq![10u8] + tab_separated(lo, lo.len() as int) + seq![10u8] + tab_separated(up, up.len() as int)
        + seq![10u8] + lines_text(rows, vals, rows.len() as int)
}

/// A line break at `p` scans as a line break.
proof fn lemma_scan_line_break(b: Seq<u8>, p: int, m: crate::text::TokenMask)
    requires
        0 <= p < b.len(),
        b[p] == 10,
        m.new_line,
    ensures
        scan(b, p, m) == (Scan::NewLine, p + 1),
{
    assert(skip_blanks(b, p) == p);
}

/// Where the text of a tensor puts each part of its header.
#[verifier::rlimit(60)]
proof fn lemma_header_layout(lo: Seq<usize>, up: Seq<usize>, rows: Seq<Seq<usize>>, vals: Seq<i64>)
    ensures
        ({
            let b = coo_text(lo, up, rows, vals);
            let p1 = decimal(lo.len()).len() as int;
            let p3 = p1 + 1 + tab_separated(lo, lo.len() as int).len();
            let p5 = p3 + 1 + tab_separated(up, up.len() as int).len();
            let lt = lines_text(rows, vals, rows.len() as int);
            &&& starts_with(b, 0, decimal(lo.len()))
            &&& starts_with(b, p1 + 1, tab_separated(lo, lo.len() as int))
            &&& starts_with(b, p3 + 1, tab_separated(up, up.len() as int))
            &&& starts_with(b, p5 + 1, lt)
            &&& p5 + 1 + lt.len() == b.len()
            &&& b[p1] == 10 && b[p3] == 10 && b[p5] == 10
        }),
{
    let n = lo.len();
    let a0 = decimal(n);
    let sl = tab_separated(lo, n as int);
    let su = tab_separated(up, up.len() as int);
    let lt = lines_text(rows, vals, rows.len() as int);
    let nl = seq![10u8];
    let a1 = a0 + nl;
    let a2 = a1 + sl;
    let a3 = a2 + nl;
    let a4 = a3 + su;
    let a5 = a4 + nl;
    let b = a5 + lt;
    assert(b == coo_text(lo, up, rows, vals));
    lemma_halves(a5, lt);
    lemma_halves(a4, nl);
    lemma_halves(a3, su);
    lemma_halves(a2, nl);
    lemma_halves(a1, sl);
    lemma_halves(a0, nl);
    lemma_within(b, 0, a5, 0, a4);
    lemma_within(b, 0, a5, a4.len() as int, nl);
    lemma_within(b, 0, a4, 0, a3);
    lemma_within(b, 0, a4, a3.len() as int, su);
    lemma_within(b, 0, a3, 0, a2);
    lemma_within(b, 0, a3, a2.len() as int, nl);
    lemma_within(b, 0, a2, 0, a1);
    lemma_within(b, 0, a2, a1.len() as int, sl);
    lemma_within(b, 0, a1, 0, a0);
    lemma_within(b, 0, a1, a0.len() as int, nl);
    let p1 = a0.len() as int;
    let p3 = a2.len() as int;
    let p5 = a4.len() as int;
    assert(b[p1] == b.subrange(p1, p1 + 1)[0]);
    assert(b[p3] == b.subrange(p3, p3 + 1)[0]);
    assert(b[p5] == b.subrange(p5, p5 + 1)[0]);
}

/// A text in the format reads back as what was written: the bounds of each axis,
/// and the coordinates and value of each line, in order.
#[verifier::rlimit(80)]
pub proof fn lemma_text_round_trip(lo: Seq<usize>, up: Seq<usize>, rows: Seq<Seq<usize>>, vals: Seq<i64>)
    requires
        lo.len() >= 1,
        lo.len() <= usize::MAX,
        up.len() == lo.len(),
        rows.len() == vals.len(),
        forall|m: int| 0 <= m < rows.len() ==> (#[trigger] rows[m]).len() == lo.len() && forall|c: int|
            0 <= c < lo.len() ==> lo[c] <= #[trigger] rows[m][c] < up[c],
    ensures
        parse_text(coo_text(lo, up, rows, vals)) == Ok::<
            (Seq<usize>, Seq<usize>, Seq<Seq<usize>>, Seq<i64>),
            ReadFailure,
        >((lo, up, rows, vals)),
{
    let n = lo.len();
    let b = coo_text(lo, up, rows, vals);
    lemma_header_layout(lo, up, rows, vals);
    let p1 = decimal(n).len() as int;
    let p2 = p1 + 1;
    let p3 = p2 + tab_separated(lo, n as int).len();
    let p4 = p3 + 1;
    let p5 = p4 + tab_separated(up, n as int).len();
    let p6 = p5 + 1;
    // The number of axes.
    lemma_digits(n);
    lemma_scan_token(b, 0, decimal(n), mask_union(comments_and_lines(), values_only()));
    assert(scan_until(b, 0, values_only(), comments_and_lines()) == (Scan::Value(decimal(n)), p1));
    assert(step(b, 0, values_only(), comments_and_lines()) == Ok::<(Scan, int), ReadFailure>((Scan::Value(decimal(n)), p1)));
    // The end of each header line.
    lemma_scan_line_break(b, p1, mask_union(comments_and_lines(), line_end(n)));
    assert(step(b, p1, line_end(n), comments_and_lines()) == Ok::<(Scan, int), ReadFailure>((Scan::NewLine, p2)));
    lemma_scan_line_break(b, p3, mask_union(comments_only(), line_end(n)));
    assert(step(b, p3, line_end(n), comments_only()) == Ok::<(Scan, int), ReadFailure>((Scan::NewLine, p4)));
    lemma_scan_line_break(b, p5, mask_union(comments_only(), line_end(n)));
    assert(step(b, p5, line_end(n), comments_only()) == Ok::<(Scan, int), ReadFailure>((Scan::NewLine, p6)));
    // The bounds.
    assert(tab_separated(lo, 0) =~= Seq::<u8>::empty());
    assert(tab_separated(up, 0) =~= Seq::<u8>::empty());
    lemma_parse_bounds(b, p2, lo, n, 0);
    lemma_parse_bounds(b, p4, up, n, 0);
    assert(lo.subrange(0, n as int) =~= lo);
    assert(up.subrange(0, n as int) =~= up);
    assert(parse_bounds(b, p2, n, 0) == Ok::<(Seq<usize>, int), ReadFailure>((lo, p3)));
    assert(parse_bounds(b, p4, n, 0) == Ok::<(Seq<usize>, int), ReadFailure>((up, p5)));
    // The lines.
    lemma_parse_lines(b, p6, rows, vals, lo, up, 0);
    assert(rows.subrange(0, rows.len() as int) =~= rows);
    assert(vals.subrange(0, vals.len() as int) =~= vals);
    assert(parse_body(b, p6, lo, up, false) == Ok::<
        (Seq<usize>, Seq<usize>, Seq<Seq<usize>>, Seq<i64>),
        ReadFailure,
    >((lo, up, rows, vals)));
}

proof fn lemma_scatter_in_order(base: Seq<usize>, pos: Seq<int>, vals: Seq<usize>, k: int)
    requires
        0 <= k <= pos.len(),
        k <= vals.len(),
        k <= base.len(),
        forall|i: int| 0 <= i < k ==> #[trigger] pos[i] == i,
    ensures
        scatter(base, pos, vals, k) == vals.subrange(0, k) + base.subrange(k, base.len() as int),
    decreases k,
{
    if k > 0 {
        lemma_scatter_in_order(base, pos, vals, k - 1);
        assert(scatter(base, pos, vals, k) =~= vals.subrange(0, k) + base.subrange(k, base.len() as int));
    } else {
        assert(scatter(base, pos, vals, 0) =~= vals.subrange(0, 0) + base.subrange(0, base.len() as int));
    }
}

/// Whether the tensor is a list of coordinates: no dense axes, its sparse axes are
/// its shape in order, and no two axes of the shape share their identity.
pub open spec fn is_coordinate_list(t: COOTensor) -> bool {
    &&& t.dense_axes@.len() == 0
    &&& t.sparse_view() == t.shape_view()
    &&& forall|i: int, j: int|
        0 <= i < t.shape@.len() && 0 <= j < t.shape@.len() && i != j ==> #[trigger] t.shape_view()[i].id
            != #[trigger] t.shape_view()[j].id
}

/// The values of a tensor whose blocks hold one value each.
pub open spec fn scalar_values(t: COOTensor) -> Seq<i64> {
    Seq::new(t.values@.len(), |m: int| t.blocks()[m][0])
}

/// The logical index of the value of block `m` of a list of coordinates is its row.
proof fn lemma_coordinate_index(t: COOTensor, m: int)
    requires
        t.wf(),
        is_coordinate_list(t),
        0 <= m < t.indices@.len(),
    ensures
        logical_index(t, m, 0) == t.rows()[m],
{
    let shape = t.shape_view();
    let n = shape.len() as int;
    let pl = places(t.sparse_view(), shape);
    assert forall|i: int| 0 <= i < n implies #[trigger] pl[i] == i by {
        assert(is_first_position(shape, shape[i].id, i));
        let c = choose|p: int| is_first_position(shape, t.sparse_view()[i].id, p);
        lemma_first_position_unique(shape, shape[i].id, c, i);
    }
    let base = Seq::new(n as nat, |i: int| 0usize);
    assert(t.rows()[m] == t.indices@[m]@);
    lemma_scatter_in_order(base, pl, t.rows()[m], n);
    let w = scatter(base, pl, t.rows()[m], n);
    assert(w =~= t.rows()[m]);
    assert(scatter(w, places(t.dense_view(), shape), dense_coords(t.dense_view(), 0), 0) == w);
}

proof fn lemma_lines_of_list(t: COOTensor, k: int)
    requires
        t.wf(),
        is_coordinate_list(t),
        0 <= k <= t.indices@.len(),
    ensures
        entry_lines(t, k) == lines_text(t.rows(), scalar_values(t), k),
    decreases k,
{
    if k > 0 {
        lemma_lines_of_list(t, k - 1);
        assert(t.dense_view() =~= Seq::empty());
        assert(t.block_len() == 1);
        assert((k - 1) / 1 == k - 1 && (k - 1) % 1 == 0);
        lemma_coordinate_index(t, k - 1);
    }
}

/// What the writer writes of a list of coordinates with at least one axis, no name
/// and no labels reads back as its bounds, its rows in order and the value of each
/// block.
pub proof fn lemma_write_then_read(t: COOTensor)
    requires
        t.wf(),
        is_coordinate_list(t),
        t.name.is_none(),
        !has_label(t.shape_view()),
        t.shape@.len() >= 1,
        t.shape@.len() <= usize::MAX,
    ensures
        t.blocks() == scalar_values(t).map_values(|x: i64| seq![x]),
        parse_text(text_of(t)) == Ok::<(Seq<usize>, Seq<usize>, Seq<Seq<usize>>, Seq<i64>), ReadFailure>(
            (lowers(t.shape_view()), uppers(t.shape_view()), t.rows(), scalar_values(t)),
        ),
{
    let n = t.shape@.len();
    let lo = lowers(t.shape_view());
    let up = uppers(t.shape_view());
    let rows = t.rows();
    let vals = scalar_values(t);
    assert(t.dense_view() =~= Seq::empty());
    assert(t.block_len() == 1);
    assert forall|m: int| 0 <= m < t.values@.len() implies t.blocks()[m] == seq![vals[m]] by {
        assert(t.blocks()[m] == t.values@[m]@);
        assert(t.blocks()[m] =~= seq![vals[m]]);
    }
    assert(t.blocks() =~= vals.map_values(|x: i64| seq![x]));
    lemma_lines_of_list(t, t.indices@.len() as int);
    assert(t.indices@.len() * t.block_len() == t.indices@.len());
    assert(name_lines(t.name) =~= Seq::<u8>::empty());
    assert(axis_lines(t.shape_view()) =~= Seq::<u8>::empty());
    assert(text_of(t) =~= coo_text(lo, up, rows, vals));
    assert forall|m: int| 0 <= m < rows.len() implies (#[trigger] rows[m]).len() == lo.len() && forall|c: int|
        0 <= c < lo.len() ==> lo[c] <= #[trigger] rows[m][c] < up[c] by {
        assert(rows[m] == t.indices@[m]@);
        assert(crate::tensor::row_in_range(t.indices@[m]@, t.sparse_view()));
        assert forall|c: int| 0 <= c < lo.len() implies lo[c] <= #[trigger] rows[m][c] < up[c] by {
            assert(t.sparse_view()[c].contains(rows[m][c]));
        }
    }
    lemma_text_round_trip(lo, up, rows, vals);
}

} // verus!
