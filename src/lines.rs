use vstd::prelude::*;
use crate::osm::Coord;

verus! {

/// One direction or branch of a tram route.
#[derive(Clone, Debug, PartialEq, Eq)]
pub struct TransportLine {
    pub number: u8,
    pub from: String,
    pub to: String,
    /// Independent coordinate sequences, one per way member, in member order.
    pub geometry: Vec<Vec<Coord>>,
    /// Stop node identifiers, in member order.
    pub stations: Vec<i64>,
}

pub struct LineView {
    pub number: u8,
    pub from: Seq<char>,
    pub to: Seq<char>,
    pub geometry: Seq<Seq<Coord>>,
    pub stations: Seq<i64>,
}

impl View for TransportLine {
    type V = LineView;

    open spec fn view(&self) -> LineView {
        LineView {
            number: self.number,
            from: self.from@,
            to: self.to@,
            geometry: self.geometry@.map_values(|p: Vec<Coord>| p@),
            stations: self.stations@,
        }
    }
}

/// Code-point order of character sequences (the order of `str`).
pub open spec fn chars_lt(a: Seq<char>, b: Seq<char>) -> bool
    decreases a.len(),
{
    if a.len() == 0 {
        b.len() > 0
    } else if b.len() == 0 {
        false
    } else if a[0] != b[0] {
        a[0] < b[0]
    } else {
        chars_lt(a.drop_first(), b.drop_first())
    }
}

/// What lines are ordered by: `(number, from, to)`.
pub type LineKey = (u8, Seq<char>, Seq<char>);

pub open spec fn line_key(l: LineView) -> LineKey {
    (l.number, l.from, l.to)
}

pub open spec fn key_triple_lt(a: LineKey, b: LineKey) -> bool {
    a.0 < b.0 || (a.0 == b.0 && (chars_lt(a.1, b.1) || (a.1 == b.1 && chars_lt(a.2, b.2))))
}

/// Lines are ordered by their keys; geometry and stops take no part.
pub open spec fn key_lt(a: LineView, b: LineView) -> bool {
    key_triple_lt(line_key(a), line_key(b))
}

pub open spec fn key_le(a: LineView, b: LineView) -> bool {
    !key_lt(b, a)
}

/// Where a stable insertion puts `x` into `s`: after every line not greater than it.
pub open spec fn insert_pos(s: Seq<LineView>, x: LineView) -> int
    decreases s.len(),
{
    if s.len() == 0 || key_le(s.last(), x) {
        s.len() as int
    } else {
        insert_pos(s.drop_last(), x)
    }
}

/// The lines in key order, lines with equal keys kept in their given order.
pub open spec fn sort_lines(s: Seq<LineView>) -> Seq<LineView>
    decreases s.len(),
{
    if s.len() == 0 {
        s
    } else {
        let r = sort_lines(s.drop_last());
        r.insert(insert_pos(r, s.last()), s.last())
    }
}

pub open spec fn sorted_by_key(s: Seq<LineView>) -> bool {
    forall|i: int, j: int| 0 <= i < j < s.len() ==> key_le(s[i], s[j])
}

pub open spec fn views(v: Seq<TransportLine>) -> Seq<LineView> {
    v.map_values(|l: TransportLine| l@)
}

/// Compares two strings in code-point order.
fn str_lt(a: &str, b: &str) -> (r: bool)
    ensures
        r == chars_lt(a@, b@),
{
    let la = a.unicode_len();
    let lb = b.unicode_len();
    let mut i: usize = 0;
    assert(a@.subrange(0, la as int) =~= a@);
    assert(b@.subrange(0, lb as int) =~= b@);
    assert(a@.subrange(0, 0) =~= b@.subrange(0, 0));
    while i < la && i < lb
        invariant
            la == a@.len(),
            lb == b@.len(),
            i <= la && i <= lb,
            a@.subrange(0, i as int) == b@.subrange(0, i as int),
            chars_lt(a@, b@) == chars_lt(a@.subrange(i as int, la as int), b@.subrange(i as int, lb as int)),
        decreases la - i,
    {
        let ca = a.get_char(i);
        let cb = b.get_char(i);
        let ghost ra = a@.subrange(i as int, la as int);
        let ghost rb = b@.subrange(i as int, lb as int);
        if ca != cb {
            return ca < cb;
        }
        assert(ra.drop_first() =~= a@.subrange(i + 1, la as int));
        assert(rb.drop_first() =~= b@.subrange(i + 1, lb as int));
        assert(a@.subrange(0, i + 1) =~= a@.subrange(0, i as int).push(ca));
        assert(b@.subrange(0, i + 1) =~= b@.subrange(0, i as int).push(cb));
        i = i + 1;
    }
    i == la && i < lb
}

fn line_lt(a: &TransportLine, b: &TransportLine) -> (r: bool)
    ensures
        r == key_lt(a@, b@),
{
    if a.number != b.number {
        return a.number < b.number;
    }
    if str_lt(&a.from, &b.from) {
        return true;
    }
    if str_lt(&b.from, &a.from) {
        return false;
    }
    proof {
        lemma_chars_lt_total(a.from@, b.from@);
    }
    str_lt(&a.to, &b.to)
}

proof fn lemma_chars_lt_total(a: Seq<char>, b: Seq<char>)
    ensures
        a == b || chars_lt(a, b) || chars_lt(b, a),
    decreases a.len(),
{
    if a.len() > 0 && b.len() > 0 && a[0] == b[0] {
        lemma_chars_lt_total(a.drop_first(), b.drop_first());
        if a.drop_first() == b.drop_first() {
            assert(a =~= seq![a[0]] + a.drop_first());
            assert(b =~= seq![b[0]] + b.drop_first());
        }
    } else if a.len() == 0 && b.len() == 0 {
        assert(a =~= b);
    } else if a.len() > 0 && b.len() > 0 {
        assert(a[0] != b[0]);
    }
}

/// Inserts `line` after every line of `lines` whose key is not greater.
pub fn insert_line(lines: &mut Vec<TransportLine>, line: TransportLine)
    ensures
        views(final(lines)@) == views(old(lines)@).insert(
            insert_pos(views(old(lines)@), line@),
            line@,
        ),
{
    let ghost s = views(lines@);
    let mut i = lines.len();
    assert(s.subrange(0, i as int) =~= s);
    while i > 0 && line_lt(&line, &lines[i - 1])
        invariant
            i <= lines.len(),
            s == views(lines@),
            insert_pos(s, line@) == insert_pos(s.subrange(0, i as int), line@),
        decreases i,
    {
        let ghost t = s.subrange(0, i as int);
        assert(t.drop_last() =~= s.subrange(0, i - 1));
        i = i - 1;
    }
    proof {
        let t = s.subrange(0, i as int);
        assert(insert_pos(t, line@) == i);
    }
    lines.insert(i, line);
    assert(views(lines@) =~= s.insert(i as int, line@));
}

pub open spec fn keys(s: Seq<LineView>) -> Seq<LineKey> {
    s.map_values(|l: LineView| line_key(l))
}

pub open spec fn keys_sorted(ks: Seq<LineKey>) -> bool {
    forall|i: int, j: int| 0 <= i < j < ks.len() ==> !key_triple_lt(ks[j], ks[i])
}

proof fn lemma_chars_lt_irrefl(a: Seq<char>)
    ensures
        !chars_lt(a, a),
    decreases a.len(),
{
    if a.len() > 0 {
        lemma_chars_lt_irrefl(a.drop_first());
    }
}

proof fn lemma_chars_lt_trans(a: Seq<char>, b: Seq<char>, c: Seq<char>)
    requires
        chars_lt(a, b),
        chars_lt(b, c),
    ensures
        chars_lt(a, c),
    decreases a.len(),
{
    if a.len() > 0 && b.len() > 0 && c.len() > 0 && a[0] == b[0] && b[0] == c[0] {
        lemma_chars_lt_trans(a.drop_first(), b.drop_first(), c.drop_first());
    }
}

proof fn lemma_key_order(a: LineKey, b: LineKey, c: LineKey)
    ensures
        !key_triple_lt(a, a),
        a == b || key_triple_lt(a, b) || key_triple_lt(b, a),
        key_triple_lt(a, b) && key_triple_lt(b, c) ==> key_triple_lt(a, c),
{
    lemma_chars_lt_irrefl(a.1);
    lemma_chars_lt_irrefl(a.2);
    lemma_chars_lt_total(a.1, b.1);
    lemma_chars_lt_total(a.2, b.2);
    if chars_lt(a.1, b.1) && chars_lt(b.1, c.1) {
        lemma_chars_lt_trans(a.1, b.1, c.1);
    }
    if chars_lt(a.2, b.2) && chars_lt(b.2, c.2) {
        lemma_chars_lt_trans(a.2, b.2, c.2);
    }
    if chars_lt(a.1, b.1) && chars_lt(b.1, a.1) {
        lemma_chars_lt_trans(a.1, b.1, a.1);
    }
}

/// Not-greater is transitive.
proof fn lemma_key_le_trans(a: LineKey, b: LineKey, c: LineKey)
    requires
        !key_triple_lt(b, a),
        !key_triple_lt(c, b),
    ensures
        !key_triple_lt(c, a),
{
    lemma_key_order(a, b, c);
    lemma_key_order(b, c, a);
    lemma_key_order(c, a, b);
    lemma_key_order(a, c, b);
    lemma_key_order(b, a, c);
    lemma_key_order(c, b, a);
}

proof fn lemma_insert_pos(s: Seq<LineView>, x: LineView)
    ensures
        0 <= insert_pos(s, x) <= s.len(),
        forall|k: int| insert_pos(s, x) <= k < s.len() ==> key_lt(x, #[trigger] s[k]),
        insert_pos(s, x) > 0 ==> key_le(s[insert_pos(s, x) - 1], x),
    decreases s.len(),
{
    if s.len() > 0 && !key_le(s.last(), x) {
        lemma_insert_pos(s.drop_last(), x);
        assert(forall|k: int| 0 <= k < s.len() - 1 ==> s.drop_last()[k] == s[k]);
    }
}

proof fn lemma_insert_sorted(r: Seq<LineView>, x: LineView)
    requires
        keys_sorted(keys(r)),
    ensures
        keys_sorted(keys(r.insert(insert_pos(r, x), x))),
{
    let p = insert_pos(r, x);
    lemma_insert_pos(r, x);
    let t = r.insert(p, x);
    assert forall|i: int, j: int| 0 <= i < j < t.len() implies !key_triple_lt(
        keys(t)[j],
        keys(t)[i],
    ) by {
        if j < p {
            assert(t[i] == r[i] && t[j] == r[j]);
            assert(keys(r)[i] == line_key(r[i]) && keys(r)[j] == line_key(r[j]));
        } else if j == p {
            if i < p - 1 {
                assert(keys(r)[i] == line_key(r[i]) && keys(r)[p - 1] == line_key(r[p - 1]));
                lemma_key_le_trans(line_key(r[i]), line_key(r[p - 1]), line_key(x));
            }
        } else if i == p {
            lemma_key_order(line_key(x), line_key(r[j - 1]), line_key(x));
        } else if i > p {
            assert(t[i] == r[i - 1] && t[j] == r[j - 1]);
            assert(keys(r)[i - 1] == line_key(r[i - 1]) && keys(r)[j - 1] == line_key(r[j - 1]));
        } else {
            assert(t[i] == r[i] && t[j] == r[j - 1]);
            assert(keys(r)[i] == line_key(r[i]) && keys(r)[j - 1] == line_key(r[j - 1]));
        }
    }
}

/// The lines come out in non-decreasing key order.
pub proof fn lemma_sort_lines_sorted(s: Seq<LineView>)
    ensures
        keys_sorted(keys(sort_lines(s))),
    decreases s.len(),
{
    if s.len() > 0 {
        lemma_sort_lines_sorted(s.drop_last());
        lemma_insert_sorted(sort_lines(s.drop_last()), s.last());
    }
}

/// Sorting neither adds nor drops lines: the same lines come out, each as often.
pub proof fn lemma_sort_lines_permutes(s: Seq<LineView>)
    ensures
        sort_lines(s).to_multiset() == s.to_multiset(),
        keys(sort_lines(s)).to_multiset() == keys(s).to_multiset(),
    decreases s.len(),
{
    broadcast use vstd::seq_lib::to_multiset_insert, vstd::seq_lib::to_multiset_build;

    if s.len() > 0 {
        let r = sort_lines(s.drop_last());
        let p = insert_pos(r, s.last());
        lemma_sort_lines_permutes(s.drop_last());
        lemma_insert_pos(r, s.last());
        assert(s.drop_last().push(s.last()) =~= s);
        assert(keys(r.insert(p, s.last())) =~= keys(r).insert(p, line_key(s.last())));
        assert(keys(s) =~= keys(s.drop_last()).push(line_key(s.last())));
    }
}

proof fn lemma_sorted_keys_unique(a: Seq<LineKey>, b: Seq<LineKey>)
    requires
        keys_sorted(a),
        keys_sorted(b),
        a.to_multiset() == b.to_multiset(),
    ensures
        a == b,
    decreases a.len(),
{
    broadcast use vstd::seq_lib::to_multiset_remove, vstd::seq_lib::to_multiset_len,
        vstd::seq_lib::to_multiset_contains;

    vstd::seq_lib::to_multiset_len(a);
    vstd::seq_lib::to_multiset_len(b);
    if a.len() == 0 {
        assert(b.len() == 0);
        assert(a =~= b);
    } else {
        assert(b.len() == a.len());
        let x = a.last();
        let y = b.last();
        vstd::seq_lib::to_multiset_contains(a, x);
        vstd::seq_lib::to_multiset_contains(b, x);
        vstd::seq_lib::to_multiset_contains(a, y);
        vstd::seq_lib::to_multiset_contains(b, y);
        assert(a.contains(x) && b.contains(y));
        assert(b.contains(x));
        assert(a.contains(y));
        let i = choose|i: int| 0 <= i < b.len() && b[i] == x;
        let j = choose|j: int| 0 <= j < a.len() && a[j] == y;
        lemma_key_order(x, y, x);
        if j < a.len() - 1 {
            assert(!key_triple_lt(x, y));
        }
        if i < b.len() - 1 {
            assert(!key_triple_lt(y, x));
        }
        assert(x == y);
        let a2 = a.remove(a.len() - 1);
        let b2 = b.remove(b.len() - 1);
        assert(a2 =~= a.drop_last());
        assert(b2 =~= b.drop_last());
        lemma_sorted_keys_unique(a2, b2);
        assert(a =~= a2.push(x));
        assert(b =~= b2.push(y));
    }
}

/// The order of the lines handed in does not matter: lines with the same keys,
/// in any order, come out with the same sequence of keys.
pub proof fn lemma_sort_lines_order_independent(s1: Seq<LineView>, s2: Seq<LineView>)
    requires
        keys(s1).to_multiset() == keys(s2).to_multiset(),
    ensures
        keys(sort_lines(s1)) == keys(sort_lines(s2)),
{
    lemma_sort_lines_sorted(s1);
    lemma_sort_lines_sorted(s2);
    lemma_sort_lines_permutes(s1);
    lemma_sort_lines_permutes(s2);
    lemma_sorted_keys_unique(keys(sort_lines(s1)), keys(sort_lines(s2)));
}

} // verus!
