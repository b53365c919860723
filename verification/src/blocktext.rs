use vstd::prelude::*;
use crate::chars::{spec_is_break, spec_is_blank, spec_is_digit, utf8_encode_all};

verus! {

// ---------------------------------------------------------------------------
// The text of a block scalar
// ---------------------------------------------------------------------------

/// The indentation state after a character: the spaces of indentation
/// seen on the current line (at most `n`), and whether the line held only
/// such spaces so far.
pub open spec fn strip_step(st: (nat, bool), c: u32, n: nat) -> (nat, bool) {
    if spec_is_break(c) {
        (0, true)
    } else if st.1 && c == 0x20 && st.0 < n {
        (st.0 + 1, true)
    } else {
        (st.0, false)
    }
}

/// The indentation state after the characters `s`.
pub open spec fn strip_state(s: Seq<u32>, n: nat) -> (nat, bool)
    decreases s.len(),
{
    if s.len() == 0 {
        (0, true)
    } else {
        strip_step(strip_state(s.drop_last(), n), s.last(), n)
    }
}

/// What the character `c` after the characters `p` adds to the text: a
/// line feed for a line break (a carriage return and a line feed make one
/// break), nothing for a space of indentation, else the character.
pub open spec fn strip_emit(p: Seq<u32>, c: u32, n: nat) -> Seq<u32> {
    let st = strip_state(p, n);
    if c == 0x0A && p.len() > 0 && p.last() == 0x0D {
        Seq::empty()
    } else if spec_is_break(c) {
        seq![0x0Au32]
    } else if st.1 && c == 0x20 && st.0 < n {
        Seq::empty()
    } else {
        seq![c]
    }
}

/// The lines of a block scalar with `n` spaces of indentation removed from
/// each and every line break made a line feed.
pub open spec fn block_lines(s: Seq<u32>, n: nat) -> Seq<u32>
    decreases s.len(),
{
    if s.len() == 0 {
        Seq::empty()
    } else {
        block_lines(s.drop_last(), n) + strip_emit(s.drop_last(), s.last(), n)
    }
}

/// The number of line feeds at the end of `v`.
pub open spec fn trailing_nl(v: Seq<u32>) -> nat
    decreases v.len(),
{
    if v.len() > 0 && v.last() == 0x0A {
        1 + trailing_nl(v.drop_last())
    } else {
        0
    }
}

/// `k` line feeds.
pub open spec fn newlines(k: nat) -> Seq<u32> {
    Seq::new(k, |i: int| 0x0Au32)
}

/// The first character of the last line of `x`.
pub open spec fn line_head(x: Seq<u32>) -> u32
    decreases x.len(),
{
    if x.len() == 0 {
        0
    } else if x.len() == 1 || x[x.len() - 2] == 0x0A {
        x.last()
    } else {
        line_head(x.drop_last())
    }
}

/// Folding: a line break between two lines that do not start with a blank
/// becomes a space, or, when empty lines follow it, is dropped. Line
/// breaks at the end are left as they are.
pub open spec fn fold_text(v: Seq<u32>) -> Seq<u32>
    decreases v.len(),
{
    if v.len() == 0 {
        Seq::empty()
    } else if v.last() == 0x0A {
        fold_text(v.drop_last()).push(0x0Au32)
    } else {
        let p = v.drop_last();
        let k = trailing_nl(p);
        let x = p.take(p.len() - k);
        if k == 0 || x.len() == 0 {
            fold_text(p).push(v.last())
        } else {
            proof {
                lemma_trailing_nl_bound(p);
            }
            fold_text(x) + fold_join(x, k, v.last()) + seq![v.last()]
        }
    }
}

/// What `k` line breaks between the line ending `x` and a line starting
/// with `c` become when folded.
pub open spec fn fold_join(x: Seq<u32>, k: nat, c: u32) -> Seq<u32> {
    if !spec_is_blank(line_head(x)) && !spec_is_blank(c) {
        if k == 1 {
            seq![0x20u32]
        } else {
            newlines((k - 1) as nat)
        }
    } else {
        newlines(k)
    }
}

/// The chomping of the end of a block scalar: `1` keeps every final line
/// break, `-1` drops them all, `0` keeps one.
pub open spec fn chomp(v: Seq<u32>, chomping: int) -> Seq<u32> {
    let k = trailing_nl(v);
    let x = v.take(v.len() - k);
    if chomping == 1 {
        v
    } else if chomping == -1 {
        x
    } else if x.len() > 0 && k > 0 {
        x.push(0x0Au32)
    } else {
        x
    }
}

/// The value of a block scalar whose lines (after the header) are `body`
/// with the indentation `n`.
pub open spec fn block_value(body: Seq<u32>, n: nat, literal: bool, chomping: int) -> Seq<u32> {
    if literal {
        chomp(block_lines(body, n), chomping)
    } else {
        chomp(fold_text(block_lines(body, n)), chomping)
    }
}

// ---------------------------------------------------------------------------
// The header and the indentation of a block scalar
// ---------------------------------------------------------------------------

/// The position just after the first line break of `r` at or after `i`
/// (a carriage return and a line feed make one break), or the length of
/// `r` when there is none.
pub open spec fn break_end_from(r: Seq<u32>, i: int) -> int
    decreases r.len() - i,
{
    if i < 0 || i >= r.len() {
        r.len() as int
    } else if spec_is_break(r[i]) {
        if r[i] == 0x0D && i + 1 < r.len() && r[i + 1] == 0x0A {
            i + 2
        } else {
            i + 1
        }
    } else {
        break_end_from(r, i + 1)
    }
}

/// The length of the header line of a block scalar, in the characters
/// after its indicator.
pub open spec fn header_len(r: Seq<u32>) -> int {
    break_end_from(r, 0)
}

/// A chomping indicator: '+' keeps the final line breaks, '-' strips them.
pub open spec fn chomp_char(c: u32) -> int {
    if c == 0x2B {
        1
    } else if c == 0x2D {
        -1
    } else {
        0
    }
}

/// The chomping a header sets (0 when it sets none).
pub open spec fn hdr_chomp(h: Seq<u32>) -> int {
    if h.len() > 0 && chomp_char(h[0]) != 0 {
        chomp_char(h[0])
    } else if h.len() > 1 && spec_is_digit(h[0]) {
        chomp_char(h[1])
    } else {
        0
    }
}

/// The indentation increment a header sets (0 when it sets none).
pub open spec fn hdr_inc(h: Seq<u32>) -> int {
    if h.len() > 0 && chomp_char(h[0]) != 0 {
        if h.len() > 1 && spec_is_digit(h[1]) {
            h[1] - 0x30
        } else {
            0
        }
    } else if h.len() > 0 && spec_is_digit(h[0]) {
        h[0] - 0x30
    } else {
        0
    }
}

/// The spaces on the current line, the most spaces on a line so far, and
/// whether a character other than a space or a line break was met, after
/// the characters `s` at the start of a block scalar.
pub open spec fn lead_acc(s: Seq<u32>) -> (nat, nat, bool)
    decreases s.len(),
{
    if s.len() == 0 {
        (0, 0, false)
    } else {
        let (c, m, stop) = lead_acc(s.drop_last());
        let x = s.last();
        if stop {
            (c, m, true)
        } else if x == 0x20 {
            (c + 1, m, false)
        } else if spec_is_break(x) {
            (0, if m > c { m } else { c }, false)
        } else {
            (c, if m > c { m } else { c }, true)
        }
    }
}

/// The most spaces before the first character of the first lines of `s`
/// that hold more than spaces, counting the empty lines before it.
pub open spec fn lead_max(s: Seq<u32>) -> nat {
    let (c, m, stop) = lead_acc(s);
    if stop || m > c {
        m
    } else {
        c
    }
}

/// The indentation of a block scalar: the increment added to the
/// indentation around it, or, without an increment, the indentation of
/// its first lines (at least one more than the indentation around it).
pub open spec fn block_indent(inc: int, parent: int, body: Seq<u32>) -> nat {
    if inc != 0 {
        if parent >= 0 {
            (parent + inc) as nat
        } else {
            inc as nat
        }
    } else {
        let l = lead_max(body) as int;
        let a = if l > parent + 1 { l } else { parent + 1 };
        (if a > 1 { a } else { 1 }) as nat
    }
}

/// The value of a block scalar from the characters read for it: its
/// indicator, its header line, and its lines.
pub open spec fn block_scalar_text(read: Seq<u32>, parent: int, literal: bool) -> Seq<u32> {
    let rest = read.skip(1);
    let h = rest.take(header_len(rest));
    let body = rest.skip(header_len(rest));
    block_value(body, block_indent(hdr_inc(h), parent, body), literal, hdr_chomp(h))
}

// ---------------------------------------------------------------------------
// Lemmas
// ---------------------------------------------------------------------------

pub proof fn lemma_trailing_nl_bound(v: Seq<u32>)
    ensures
        trailing_nl(v) <= v.len(),
        forall|i: int| v.len() - trailing_nl(v) <= i < v.len() ==> v[i] == 0x0A,
        trailing_nl(v) < v.len() ==> v[v.len() - trailing_nl(v) - 1] != 0x0A,
    decreases v.len(),
{
    if v.len() > 0 && v.last() == 0x0A {
        let w = v.drop_last();
        lemma_trailing_nl_bound(w);
        assert forall|i: int| v.len() - trailing_nl(v) <= i < v.len() implies v[i] == 0x0A by {
            if i < v.len() - 1 {
                assert(v[i] == w[i]);
            }
        }
        if trailing_nl(v) < v.len() {
            assert(v[v.len() - trailing_nl(v) - 1] == w[w.len() - trailing_nl(w) - 1]);
        }
    }
}

/// Characters that are not line breaks are passed over when looking for
/// the end of the first line break.
pub proof fn lemma_break_end_run(r: Seq<u32>, i: int, j: int)
    requires
        0 <= i <= j <= r.len(),
        forall|k: int| i <= k < j ==> !spec_is_break(#[trigger] r[k]),
    ensures
        break_end_from(r, i) == break_end_from(r, j),
    decreases j - i,
{
    if i < j {
        lemma_break_end_run(r, i + 1, j);
    }
}

/// Looking for the end of the first line break in `a + e` past `a`.
pub proof fn lemma_break_end_shift(a: Seq<u32>, e: Seq<u32>, i: int)
    requires
        0 <= i <= e.len(),
    ensures
        break_end_from(a + e, a.len() + i) == a.len() + break_end_from(e, i),
    decreases e.len() - i,
{
    let h = a + e;
    if i < e.len() {
        assert(h[a.len() + i] == e[i]);
        if i + 1 < e.len() {
            assert(h[a.len() + i + 1] == e[i + 1]);
        }
        lemma_break_end_shift(a, e, i + 1);
    }
}

/// The count of `x + k line feeds` when `x` does not end with one.
pub proof fn lemma_trailing_of(x: Seq<u32>, k: nat)
    requires
        x.len() == 0 || x.last() != 0x0A,
    ensures
        trailing_nl(x + newlines(k)) == k,
        (x + newlines(k)).take((x + newlines(k)).len() - k) == x,
    decreases k,
{
    if k == 0 {
        assert(x + newlines(0) =~= x);
    } else {
        lemma_trailing_of(x, (k - 1) as nat);
        assert((x + newlines(k)).drop_last() =~= x + newlines((k - 1) as nat));
    }
    assert((x + newlines(k)).take((x + newlines(k)).len() - k) =~= x);
}

/// Folding text that does not end with a line break, followed by line
/// feeds, keeps the line feeds.
pub proof fn lemma_fold_tail(x: Seq<u32>, k: nat)
    ensures
        fold_text(x + newlines(k)) == fold_text(x) + newlines(k),
    decreases k,
{
    if k == 0 {
        assert(x + newlines(0) =~= x);
        assert(fold_text(x) + newlines(0) =~= fold_text(x));
    } else {
        lemma_fold_tail(x, (k - 1) as nat);
        let v = x + newlines(k);
        assert(v.drop_last() =~= x + newlines((k - 1) as nat));
        assert(fold_text(x) + newlines(k) =~= (fold_text(x) + newlines((k - 1) as nat)).push(0x0Au32));
    }
}

/// Folding keeps the end of a line: a character that is not a line feed,
/// after one that is not either, is appended.
pub proof fn lemma_fold_push_char(v: Seq<u32>, c: u32)
    requires
        c != 0x0A,
        v.len() > 0 ==> v.last() != 0x0A,
    ensures
        fold_text(v.push(c)) == fold_text(v).push(c),
{
    let w = v.push(c);
    assert(w.drop_last() =~= v);
    if v.len() > 0 {
        assert(trailing_nl(v) == 0);
    }
}

/// Folding a new line after line feeds that follow a line.
pub proof fn lemma_fold_new_line(x: Seq<u32>, k: nat, c: u32)
    requires
        x.len() > 0,
        x.last() != 0x0A,
        k > 0,
        c != 0x0A,
    ensures
        fold_text((x + newlines(k)).push(c)) == fold_text(x) + fold_join(x, k, c) + seq![c],
{
    let v = (x + newlines(k)).push(c);
    assert(v.drop_last() =~= x + newlines(k));
    lemma_trailing_of(x, k);
}

/// The first content line: line feeds only before it.
pub proof fn lemma_fold_first_line(k: nat, c: u32)
    requires
        c != 0x0A,
    ensures
        fold_text(newlines(k).push(c)) == newlines(k).push(c),
{
    let e = Seq::<u32>::empty();
    assert(e + newlines(k) =~= newlines(k));
    lemma_trailing_of(e, k);
    lemma_fold_tail(e, k);
    assert(fold_text(e) =~= e);
    let v = newlines(k).push(c);
    assert(v.drop_last() =~= newlines(k));
    if k > 0 {
        assert(newlines(k).take(newlines(k).len() - k) =~= e);
    }
}

/// Lines: characters that are not line breaks, read where the indentation
/// is done with, are kept as they are.
pub proof fn lemma_lines_content(b: Seq<u32>, r: Seq<u32>, n: nat)
    requires
        strip_state(b, n).0 >= n || !strip_state(b, n).1,
        forall|i: int| 0 <= i < r.len() ==> !spec_is_break(#[trigger] r[i]),
    ensures
        block_lines(b + r, n) == block_lines(b, n) + r,
        strip_state(b + r, n).0 >= n || !strip_state(b + r, n).1,
        r.len() > 0 ==> !strip_state(b + r, n).1,
    decreases r.len(),
{
    if r.len() == 0 {
        assert(b + r =~= b);
        assert(block_lines(b, n) + r =~= block_lines(b, n));
    } else {
        let r0 = r.drop_last();
        lemma_lines_content(b, r0, n);
        assert((b + r).drop_last() =~= b + r0);
        assert(r.last() == r[r.len() - 1]);
        assert(block_lines(b, n) + r =~= (block_lines(b, n) + r0) + seq![r.last()]);
    }
}

/// Lines: a line break adds a line feed and starts a new line.
pub proof fn lemma_lines_break(b: Seq<u32>, brk: Seq<u32>, n: nat)
    requires
        brk == seq![0x0Du32, 0x0Au32] || (brk.len() == 1 && spec_is_break(brk[0]) && !(brk[0] == 0x0A
            && b.len() > 0 && b.last() == 0x0D)),
    ensures
        block_lines(b + brk, n) == block_lines(b, n).push(0x0Au32),
        strip_state(b + brk, n) == (0nat, true),
{
    if brk.len() == 1 {
        assert((b + brk).drop_last() =~= b);
    } else {
        let b1 = b.push(0x0Du32);
        assert((b + brk).drop_last() =~= b1);
        assert(b1.drop_last() =~= b);
        assert(block_lines(b1, n) =~= block_lines(b, n).push(0x0Au32));
        assert(block_lines(b + brk, n) =~= block_lines(b1, n));
    }
}

/// Lines: a space of indentation adds nothing.
pub proof fn lemma_lines_indent(b: Seq<u32>, n: nat)
    requires
        strip_state(b, n).1,
        strip_state(b, n).0 < n,
    ensures
        block_lines(b.push(0x20u32), n) == block_lines(b, n),
        strip_state(b.push(0x20u32), n) == (strip_state(b, n).0 + 1, true),
{
    assert(b.push(0x20u32).drop_last() =~= b);
    assert(block_lines(b, n) + Seq::<u32>::empty() =~= block_lines(b, n));
}

/// Chomping `x` followed by `k` line feeds.
pub proof fn lemma_chomp_of(x: Seq<u32>, k: nat, chomping: int)
    requires
        x.len() == 0 || x.last() != 0x0A,
    ensures
        chomp(x + newlines(k), chomping) == if chomping == 1 {
            x + newlines(k)
        } else if chomping == -1 {
            x
        } else if x.len() > 0 && k > 0 {
            x.push(0x0Au32)
        } else {
            x
        },
{
    lemma_trailing_of(x, k);
}

/// The first lines of a block scalar, read before its indentation is
/// known: only spaces and line breaks, and for any indentation at least as
/// deep as these lines, they give line feeds only.
#[verifier::opaque]
pub open spec fn auto_ok(r: Seq<u32>, mx: nat, col: nat, k: nat) -> bool {
    &&& lead_acc(r) == (col, mx, false)
    &&& forall|n: nat|
        n >= mx && n >= col ==> #[trigger] block_lines(r, n) == newlines(k) && strip_state(r, n) == (
            col,
            true,
        )
}

/// What the first lines give, for one indentation `n`.
pub proof fn lemma_auto_use(r: Seq<u32>, mx: nat, col: nat, k: nat, n: nat)
    requires
        auto_ok(r, mx, col, k),
    ensures
        lead_acc(r) == (col, mx, false),
        n >= mx && n >= col ==> block_lines(r, n) == newlines(k) && strip_state(r, n) == (col, true),
{
    reveal(auto_ok);
    if n >= mx && n >= col {
        assert(block_lines(r, n) == newlines(k));
    }
}

pub proof fn lemma_auto_start()
    ensures
        auto_ok(Seq::empty(), 0, 0, 0),
{
    reveal(auto_ok);
    assert forall|n: nat| n >= 0 && n >= 0 implies #[trigger] block_lines(Seq::<u32>::empty(), n)
        == newlines(0) && strip_state(Seq::<u32>::empty(), n) == (0nat, true) by {
        assert(newlines(0) =~= Seq::<u32>::empty());
    }
}

pub proof fn lemma_auto_space(r: Seq<u32>, mx: nat, col: nat, k: nat)
    requires
        auto_ok(r, mx, col, k),
    ensures
        auto_ok(r.push(0x20u32), mx, col + 1, k),
{
    let r2 = r.push(0x20u32);
    assert(r2.drop_last() =~= r);
    lemma_auto_use(r, mx, col, k, 0);
    assert(lead_acc(r2) == (col + 1, mx, false));
    assert forall|n: nat| n >= mx && n >= col + 1 implies #[trigger] block_lines(r2, n) == newlines(k)
        && strip_state(r2, n) == (col + 1, true) by {
        lemma_auto_use(r, mx, col, k, n);
        lemma_lines_indent(r, n);
    }
    reveal(auto_ok);
}

pub proof fn lemma_auto_break(r: Seq<u32>, mx: nat, col: nat, k: nat, brk: Seq<u32>)
    requires
        auto_ok(r, mx, col, k),
        brk == seq![0x0Du32, 0x0Au32] || (brk.len() == 1 && spec_is_break(brk[0]) && !(brk[0] == 0x0A
            && r.len() > 0 && r.last() == 0x0D)),
    ensures
        auto_ok(r + brk, if mx > col { mx } else { col }, 0, k + 1),
{
    lemma_auto_use(r, mx, col, k, 0);
    let m2: nat = if mx > col { mx } else { col };
    let r2 = r + brk;
    if brk.len() == 1 {
        assert(r2.drop_last() =~= r);
        assert(lead_acc(r2) == (0nat, m2, false));
    } else {
        let r1 = r.push(0x0Du32);
        assert(r2.drop_last() =~= r1);
        assert(r1.drop_last() =~= r);
        assert(lead_acc(r1) == (0nat, m2, false));
        assert(lead_acc(r2) == (0nat, m2, false));
    }
    assert forall|n: nat| n >= m2 && n >= 0 implies #[trigger] block_lines(r2, n) == newlines(k + 1)
        && strip_state(r2, n) == (0nat, true) by {
        lemma_auto_use(r, mx, col, k, n);
        lemma_lines_break(r, brk, n);
        assert(newlines(k).push(0x0Au32) =~= newlines(k + 1));
    }
    reveal(auto_ok);
}

/// Once a character other than a space or a line break is met, the first
/// lines are over.
pub proof fn lemma_lead_stop(r: Seq<u32>, rest: Seq<u32>)
    requires
        !lead_acc(r).2,
        rest.len() == 0 || (rest[0] != 0x20 && !spec_is_break(rest[0])),
    ensures
        lead_max(r + rest) == lead_max(r),
    decreases rest.len(),
{
    if rest.len() == 0 {
        assert(r + rest =~= r);
    } else if rest.len() == 1 {
        assert((r + rest).drop_last() =~= r);
    } else {
        let init = rest.drop_last();
        lemma_lead_stop(r, init);
        assert((r + rest).drop_last() =~= r + init);
        lemma_lead_stopped(r, init);
    }
}

proof fn lemma_lead_stopped(r: Seq<u32>, rest: Seq<u32>)
    requires
        !lead_acc(r).2,
        rest.len() > 0,
        rest[0] != 0x20 && !spec_is_break(rest[0]),
    ensures
        lead_acc(r + rest).2,
    decreases rest.len(),
{
    if rest.len() == 1 {
        assert((r + rest).drop_last() =~= r);
    } else {
        let init = rest.drop_last();
        lemma_lead_stopped(r, init);
        assert((r + rest).drop_last() =~= r + init);
    }
}

/// `j` spaces.
pub open spec fn spaces(j: nat) -> Seq<u32> {
    Seq::new(j, |i: int| 0x20u32)
}

/// Spaces of indentation add nothing to the lines.
pub proof fn lemma_lines_spaces(b: Seq<u32>, n: nat, c: nat, j: nat)
    requires
        strip_state(b, n) == (c, true),
        c + j <= n,
    ensures
        block_lines(b + spaces(j), n) == block_lines(b, n),
        strip_state(b + spaces(j), n) == (c + j, true),
    decreases j,
{
    if j == 0 {
        assert(b + spaces(0) =~= b);
    } else {
        lemma_lines_spaces(b, n, c, (j - 1) as nat);
        let b1 = b + spaces((j - 1) as nat);
        lemma_lines_indent(b1, n);
        assert(b1.push(0x20u32) =~= b + spaces(j));
    }
}

pub proof fn lemma_auto_spaces(r: Seq<u32>, mx: nat, col: nat, k: nat, j: nat)
    requires
        auto_ok(r, mx, col, k),
    ensures
        auto_ok(r + spaces(j), mx, col + j, k),
    decreases j,
{
    if j == 0 {
        assert(r + spaces(0) =~= r);
    } else {
        lemma_auto_spaces(r, mx, col, k, (j - 1) as nat);
        let r1 = r + spaces((j - 1) as nat);
        lemma_auto_space(r1, mx, col + (j - 1) as nat, k);
        assert(r1.push(0x20u32) =~= r + spaces(j));
    }
}

/// Where the reading of a block scalar's lines stands: at the start of a
/// line after some spaces of indentation, or past the indentation.
pub open spec fn line_pos_ok(b: Seq<u32>, n: nat, col: int) -> bool {
    ||| (strip_state(b, n) == (col as nat, true) && 0 <= col <= n)
    ||| col > n
}

/// Folding a new line `r` after the text `x` and `k` line feeds.
pub proof fn lemma_fold_line(x: Seq<u32>, k: nat, r: Seq<u32>)
    requires
        r.len() > 0,
        forall|i: int| 0 <= i < r.len() ==> #[trigger] r[i] != 0x0A,
        x.len() == 0 || x.last() != 0x0A,
        x.len() > 0 ==> k > 0,
    ensures
        fold_text(x + newlines(k) + r) == fold_text(x) + (if x.len() > 0 {
            fold_join(x, k, r[0])
        } else {
            newlines(k)
        }) + r,
    decreases r.len(),
{
    let sep = if x.len() > 0 { fold_join(x, k, r[0]) } else { newlines(k) };
    if r.len() == 1 {
        assert(x + newlines(k) + r =~= (x + newlines(k)).push(r[0]));
        if x.len() > 0 {
            lemma_fold_new_line(x, k, r[0]);
        } else {
            assert(x + newlines(k) =~= newlines(k));
            lemma_fold_first_line(k, r[0]);
            assert(fold_text(x) =~= Seq::<u32>::empty());
        }
        assert(fold_text(x) + sep + r =~= fold_text(x) + sep + seq![r[0]]);
        if x.len() == 0 {
            assert(fold_text(x) + sep + r =~= newlines(k).push(r[0]));
        }
    } else {
        let r0 = r.drop_last();
        assert forall|i: int| 0 <= i < r0.len() implies #[trigger] r0[i] != 0x0A by {
            assert(r0[i] == r[i]);
        }
        lemma_fold_line(x, k, r0);
        let v = x + newlines(k) + r0;
        assert(v.last() == r0.last());
        assert(r0.last() == r[r.len() - 2]);
        assert(r.last() == r[r.len() - 1]);
        lemma_fold_push_char(v, r.last());
        assert(v.push(r.last()) =~= x + newlines(k) + r);
        assert(r0[0] == r[0]);
        assert(fold_text(x) + sep + r =~= (fold_text(x) + sep + r0).push(r.last()));
    }
}

/// The first character of the last line of text ending with a new line `r`.
pub proof fn lemma_line_head_new(v: Seq<u32>, r: Seq<u32>)
    requires
        v.len() == 0 || v.last() == 0x0A,
        r.len() > 0,
        forall|i: int| 0 <= i < r.len() ==> #[trigger] r[i] != 0x0A,
    ensures
        line_head(v + r) == r[0],
    decreases r.len(),
{
    let w = v + r;
    if r.len() == 1 {
        if v.len() > 0 {
            assert(w[w.len() - 2] == v.last());
        }
    } else {
        let r0 = r.drop_last();
        assert forall|i: int| 0 <= i < r0.len() implies #[trigger] r0[i] != 0x0A by {
            assert(r0[i] == r[i]);
        }
        lemma_line_head_new(v, r0);
        assert(w.drop_last() =~= v + r0);
        assert(w[w.len() - 2] == r[r.len() - 2]);
        assert(r0[0] == r[0]);
    }
}

/// Folded text ends as the text does.
pub proof fn lemma_fold_end(x: Seq<u32>)
    requires
        x.len() > 0,
        x.last() != 0x0A,
    ensures
        fold_text(x).len() > 0,
        fold_text(x).last() == x.last(),
{
    let p = x.drop_last();
    let k = trailing_nl(p);
    if !(k == 0 || p.take(p.len() - k).len() == 0) {
        lemma_trailing_nl_bound(p);
    }
}

/// The header ends at its line break also when the lines follow it.
pub proof fn lemma_header_len_concat(h: Seq<u32>, body: Seq<u32>, i: int)
    requires
        0 <= i <= h.len(),
        body.len() > 0 ==> i < h.len(),
        break_end_from(h, i) == h.len(),
        body.len() > 0 ==> h.len() > 0 && spec_is_break(h.last()),
        h.len() > 0 && h.last() == 0x0D && body.len() > 0 ==> body[0] != 0x0A,
    ensures
        break_end_from(h + body, i) == h.len(),
    decreases h.len() - i,
{
    let w = h + body;
    if i < h.len() {
        assert(w[i] == h[i]);
        if spec_is_break(h[i]) {
            if h[i] == 0x0D && i + 1 < h.len() && h[i + 1] == 0x0A {
                assert(w[i + 1] == h[i + 1]);
            } else {
                assert(i + 1 == h.len());
                if body.len() > 0 {
                    assert(w[i + 1] == body[0]);
                }
            }
        } else {
            if body.len() > 0 {
                assert(h.last() == h[h.len() - 1]);
            }
            lemma_header_len_concat(h, body, i + 1);
        }
    } else {
        assert(w =~= h);
    }
}

/// Line feeds as octets.
pub open spec fn nl_octets(k: nat) -> Seq<u8> {
    Seq::new(k, |i: int| 0x0Au8)
}

pub proof fn lemma_encode_newlines(k: nat)
    ensures
        utf8_encode_all(newlines(k)) == nl_octets(k),
    decreases k,
{
    if k > 0 {
        lemma_encode_newlines((k - 1) as nat);
        assert(newlines(k).drop_last() =~= newlines((k - 1) as nat));
        assert(nl_octets(k) =~= nl_octets((k - 1) as nat) + seq![0x0Au8]);
    } else {
        assert(newlines(0) =~= Seq::<u32>::empty());
        assert(nl_octets(0) =~= Seq::<u8>::empty());
    }
}

/// The state of the scan of a block scalar's lines: the lines `b` read so
/// far give the text `x` (as folded when not `literal`) in `s`, then the
/// line feeds of `lb` (the break after the last line) and `tb` (the empty
/// lines after it); `lblank` tells whether the last line starts with a
/// blank.
pub open spec fn lines_inv(
    b: Seq<u32>,
    n: nat,
    literal: bool,
    s: Seq<u8>,
    lb: Seq<u8>,
    tb: Seq<u8>,
    lblank: bool,
) -> bool {
    let k = lb.len() + tb.len();
    let v = block_lines(b, n);
    let x = v.take(v.len() - k);
    &&& k <= v.len()
    &&& v == x + newlines(k)
    &&& x.len() == 0 || x.last() != 0x0A
    &&& lb == nl_octets(lb.len())
    &&& tb == nl_octets(tb.len())
    &&& lb.len() <= 1
    &&& (lb.len() == 1) == (x.len() > 0 && k > 0)
    &&& s == utf8_encode_all(if literal { x } else { fold_text(x) })
    &&& x.len() > 0 ==> lblank == spec_is_blank(line_head(x))
}

} // verus!
