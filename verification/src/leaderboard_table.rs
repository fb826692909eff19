//! The order of the leaderboard table: by person, or by the ranking metric in
//! either direction, over the ranked rows.
use vstd::prelude::*;

use crate::leaderboard::{ContributorDay, LeaderboardSort, Row, METRIC_LABELED, METRIC_REVIEWED, METRIC_SCORE};

verus! {

/// A display name in lower case: what `str::to_lowercase` gives for it.
pub uninterp spec fn lowercase(s: Seq<char>) -> Seq<char>;

/// Calls `str::to_lowercase`; trusted to return exactly [`lowercase`] of its
/// argument.
#[verifier::external_body]
fn to_lowercase(s: &str) -> (r: String)
    ensures
        r@ == lowercase(s@),
{
    s.to_lowercase()
}

/// `a` comes before `b` in the lexicographic order of their characters (by
/// code point, which is how strings compare).
pub open spec fn text_less(a: Seq<char>, b: Seq<char>) -> bool
    decreases a.len(),
{
    if a.len() == 0 {
        b.len() > 0
    } else if b.len() == 0 {
        false
    } else if a[0] != b[0] {
        (a[0] as int) < (b[0] as int)
    } else {
        text_less(a.drop_first(), b.drop_first())
    }
}

/// The metric has a value for `day`: always, but for acceptance, which needs
/// a decided review.
pub open spec fn rated(day: ContributorDay, metric: usize) -> bool {
    metric == METRIC_LABELED || metric == METRIC_REVIEWED || metric == METRIC_SCORE || day.accepted + day.rejected > 0
}

/// What the table sorts a ranked entry (rank, row index) by: the person's name
/// in lower case, whether the metric has a value, and the rank.
pub open spec fn table_key(rows: Seq<Row>, metric: usize, e: (usize, usize)) -> (Seq<char>, bool, int) {
    (lowercase(rows[e.1 as int].name@), rated(rows[e.1 as int].total, metric), e.0 as int)
}

/// Key `a` goes strictly before key `b` in the table: by name in the chosen
/// direction; ascending by metric, entries with a value first and worse ranks
/// first; descending by metric, the ranked order stays.
pub open spec fn key_before(sort: LeaderboardSort, a: (Seq<char>, bool, int), b: (Seq<char>, bool, int)) -> bool {
    if sort.sort_by_name {
        if sort.sort_descending {
            text_less(b.0, a.0)
        } else {
            text_less(a.0, b.0)
        }
    } else if !sort.sort_descending {
        (a.1 && !b.1) || (a.1 == b.1 && a.2 > b.2)
    } else {
        false
    }
}

/// Text order is dictionary order: a text comes before every longer text that
/// starts with it, and otherwise the first differing character decides, the
/// smaller code point first.
pub proof fn text_order_is_dictionary_order(p: Seq<char>, x: Seq<char>, y: Seq<char>, c: char, d: char)
    ensures
        x.len() > 0 ==> text_less(p, p + x),
        (c as int) < (d as int) ==> text_less(p + seq![c] + x, p + seq![d] + y),
        !text_less(p + x, p),
    decreases p.len(),
{
    if p.len() > 0 {
        text_order_is_dictionary_order(p.drop_first(), x, y, c, d);
        assert((p + x).drop_first() =~= p.drop_first() + x);
        assert((p + x)[0] == p[0]);
        assert((p + seq![c] + x).drop_first() =~= p.drop_first() + seq![c] + x);
        assert((p + seq![d] + y).drop_first() =~= p.drop_first() + seq![d] + y);
        assert((p + seq![c] + x)[0] == p[0]);
        assert((p + seq![d] + y)[0] == p[0]);
    } else {
        assert(p + x =~= x);
        assert(p + seq![c] + x =~= seq![c] + x);
        assert(p + seq![d] + y =~= seq![d] + y);
        assert((seq![c] + x)[0] == c);
        assert((seq![d] + y)[0] == d);
    }
}

/// Sorting by name puts names in dictionary order of their lower-case text,
/// ascending or descending as chosen; sorting ascending by metric puts the
/// entries with a value first and, among them, the worse ranks first; sorting
/// descending by metric keeps the ranking's order.
pub proof fn table_sorts_in_the_chosen_direction(sort: LeaderboardSort, a: (Seq<char>, bool, int), b: (Seq<char>, bool, int))
    ensures
        sort.sort_by_name && !sort.sort_descending ==> (key_before(sort, a, b) <==> text_less(a.0, b.0)),
        sort.sort_by_name && sort.sort_descending ==> (key_before(sort, a, b) <==> text_less(b.0, a.0)),
        !sort.sort_by_name && !sort.sort_descending && a.1 && !b.1 ==> key_before(sort, a, b),
        !sort.sort_by_name && !sort.sort_descending && !a.1 && b.1 ==> !key_before(sort, a, b),
        !sort.sort_by_name && !sort.sort_descending && a.1 == b.1 ==> (key_before(sort, a, b) <==> a.2 > b.2),
        !sort.sort_by_name && sort.sort_descending ==> !key_before(sort, a, b),
{
}

/// No text comes before itself.
proof fn lemma_text_irreflexive(a: Seq<char>)
    ensures
        !text_less(a, a),
    decreases a.len(),
{
    if a.len() > 0 {
        lemma_text_irreflexive(a.drop_first());
    }
}

/// The text order is transitive.
proof fn lemma_text_transitive(a: Seq<char>, b: Seq<char>, c: Seq<char>)
    requires
        text_less(a, b),
        text_less(b, c),
    ensures
        text_less(a, c),
    decreases a.len(),
{
    if a.len() > 0 && b.len() > 0 && c.len() > 0 && a[0] == b[0] && b[0] == c[0] {
        lemma_text_transitive(a.drop_first(), b.drop_first(), c.drop_first());
    }
}

/// Two different texts are ordered one way or the other.
proof fn lemma_text_total(a: Seq<char>, b: Seq<char>)
    requires
        a != b,
    ensures
        text_less(a, b) || text_less(b, a),
    decreases a.len(),
{
    if a.len() > 0 && b.len() > 0 {
        if a[0] == b[0] {
            if a.drop_first() == b.drop_first() {
                assert(a =~= seq![a[0]] + a.drop_first());
                assert(b =~= seq![b[0]] + b.drop_first());
            }
            lemma_text_total(a.drop_first(), b.drop_first());
        } else {
            assert((a[0] as int) != (b[0] as int));
        }
    } else if a.len() == 0 && b.len() == 0 {
        assert(a =~= b);
    }
}

/// The table order is a strict weak order: irreflexive, transitive, and
/// whatever goes before `c` goes before anything it does not follow.
proof fn lemma_key_order(sort: LeaderboardSort, a: (Seq<char>, bool, int), b: (Seq<char>, bool, int), c: (Seq<char>, bool, int))
    ensures
        !key_before(sort, a, a),
        key_before(sort, a, b) && key_before(sort, b, c) ==> key_before(sort, a, c),
        key_before(sort, a, c) ==> key_before(sort, a, b) || key_before(sort, b, c),
{
    lemma_text_irreflexive(a.0);
    if sort.sort_by_name {
        if sort.sort_descending {
            if text_less(b.0, a.0) && text_less(c.0, b.0) {
                lemma_text_transitive(c.0, b.0, a.0);
            }
            if text_less(c.0, a.0) && !text_less(b.0, a.0) && !text_less(c.0, b.0) {
                if b.0 == a.0 {
                } else {
                    lemma_text_total(a.0, b.0);
                    lemma_text_transitive(c.0, a.0, b.0);
                }
            }
        } else {
            if text_less(a.0, b.0) && text_less(b.0, c.0) {
                lemma_text_transitive(a.0, b.0, c.0);
            }
            if text_less(a.0, c.0) && !text_less(a.0, b.0) && !text_less(b.0, c.0) {
                if b.0 == a.0 {
                } else {
                    lemma_text_total(a.0, b.0);
                    lemma_text_transitive(b.0, a.0, c.0);
                }
            }
        }
    }
}

/// Whether `a` comes before `b` in the text order.
fn text_before(a: &str, b: &str) -> (r: bool)
    ensures
        r == text_less(a@, b@),
{
    let n = a.unicode_len();
    let m = b.unicode_len();
    let mut i: usize = 0;
    proof {
        assert(a@.skip(0) =~= a@);
        assert(b@.skip(0) =~= b@);
    }
    while i < n && i < m
        invariant
            n == a@.len(),
            m == b@.len(),
            i <= n,
            i <= m,
            text_less(a@, b@) == text_less(a@.skip(i as int), b@.skip(i as int)),
        decreases n - i,
    {
        let x = a.get_char(i);
        let y = b.get_char(i);
        proof {
            assert(a@.skip(i as int)[0] == x);
            assert(b@.skip(i as int)[0] == y);
        }
        if x != y {
            return (x as u32) < (y as u32);
        }
        proof {
            assert(a@.skip(i as int).drop_first() =~= a@.skip(i as int + 1));
            assert(b@.skip(i as int).drop_first() =~= b@.skip(i as int + 1));
        }
        i += 1;
    }
    i == n && i < m
}

/// The lower-case names and whether the metric has a value, per ranked entry.
fn entry_keys(rows: &Vec<Row>, ranked: &Vec<(usize, usize)>, metric: usize) -> (r: (Vec<String>, Vec<bool>))
    requires
        forall|k: int| 0 <= k < ranked@.len() ==> (#[trigger] ranked@[k]).1 < rows@.len(),
    ensures
        r.0@.len() == ranked@.len(),
        r.1@.len() == ranked@.len(),
        forall|k: int| 0 <= k < ranked@.len() ==> (#[trigger] r.0@[k])@ == table_key(rows@, metric, ranked@[k]).0,
        forall|k: int| 0 <= k < ranked@.len() ==> #[trigger] r.1@[k] == table_key(rows@, metric, ranked@[k]).1,
{
    let mut names: Vec<String> = Vec::new();
    let mut values: Vec<bool> = Vec::new();
    let mut k: usize = 0;
    while k < ranked.len()
        invariant
            k <= ranked@.len(),
            forall|q: int| 0 <= q < ranked@.len() ==> (#[trigger] ranked@[q]).1 < rows@.len(),
            names@.len() == k,
            values@.len() == k,
            forall|q: int| 0 <= q < k ==> (#[trigger] names@[q])@ == table_key(rows@, metric, ranked@[q]).0,
            forall|q: int| 0 <= q < k ==> #[trigger] values@[q] == table_key(rows@, metric, ranked@[q]).1,
        decreases ranked@.len() - k,
    {
        let row = &rows[ranked[k].1];
        names.push(to_lowercase(row.name.as_str()));
        let has_value = metric == METRIC_LABELED || metric == METRIC_REVIEWED || metric == METRIC_SCORE
            || row.total.accepted > 0 || row.total.rejected > 0;
        values.push(has_value);
        k += 1;
    }
    (names, values)
}

impl LeaderboardSort {
    /// Whether the key of entry `i` goes strictly before that of entry `j`.
    fn entry_before(&self, names: &Vec<String>, values: &Vec<bool>, ranked: &Vec<(usize, usize)>, i: usize, j: usize) -> (r: bool)
        requires
            i < ranked@.len(),
            j < ranked@.len(),
            names@.len() == ranked@.len(),
            values@.len() == ranked@.len(),
        ensures
            r == key_before(*self, (names@[i as int]@, values@[i as int], ranked@[i as int].0 as int), (names@[j as int]@, values@[j as int], ranked@[j as int].0 as int)),
    {
        if self.sort_by_name {
            if self.sort_descending {
                text_before(names[j].as_str(), names[i].as_str())
            } else {
                text_before(names[i].as_str(), names[j].as_str())
            }
        } else if !self.sort_descending {
            (values[i] && !values[j]) || (values[i] == values[j] && ranked[i].0 > ranked[j].0)
        } else {
            false
        }
    }

    /// The order in which the `ranked` entries (rank, row index; see
    /// [`crate::leaderboard::sorted`]) are shown, as positions in `ranked`:
    /// every position once, sorted by [`key_before`] on [`table_key`], and
    /// entries that neither goes before the other kept in ranked order.
    pub fn table_rows(&self, rows: &Vec<Row>, ranked: &Vec<(usize, usize)>) -> (r: Vec<usize>)
        requires
            forall|k: int| 0 <= k < ranked@.len() ==> (#[trigger] ranked@[k]).1 < rows@.len(),
        ensures
            r@.len() == ranked@.len(),
            forall|a: int| 0 <= a < r@.len() ==> #[trigger] r@[a] < ranked@.len(),
            forall|a: int, b: int| 0 <= a < b < r@.len() ==> #[trigger] r@[a] != #[trigger] r@[b],
            forall|a: int, b: int|
                0 <= a < b < r@.len() ==> !key_before(
                    *self,
                    table_key(rows@, self.ranking_metric, ranked@[#[trigger] r@[b] as int]),
                    table_key(rows@, self.ranking_metric, ranked@[#[trigger] r@[a] as int]),
                ),
            forall|a: int, b: int|
                0 <= a < b < r@.len() && !key_before(
                    *self,
                    table_key(rows@, self.ranking_metric, ranked@[#[trigger] r@[a] as int]),
                    table_key(rows@, self.ranking_metric, ranked@[#[trigger] r@[b] as int]),
                ) ==> r@[a] < r@[b],
    {
        let metric = self.ranking_metric;
        let (names, values) = entry_keys(rows, ranked, metric);
        let ghost key = |p: usize| table_key(rows@, metric, ranked@[p as int]);
        let n = ranked.len();
        let mut out: Vec<usize> = Vec::new();
        let mut i: usize = 0;
        while i < n
            invariant
                n == ranked@.len(),
                names@.len() == n,
                values@.len() == n,
                metric == self.ranking_metric,
                forall|k: int| 0 <= k < n ==> (#[trigger] names@[k])@ == table_key(rows@, metric, ranked@[k]).0,
                forall|k: int| 0 <= k < n ==> #[trigger] values@[k] == table_key(rows@, metric, ranked@[k]).1,
                forall|p: usize| #[trigger] key(p) == table_key(rows@, metric, ranked@[p as int]),
                i <= n,
                out@.len() == i,
                forall|a: int| 0 <= a < out@.len() ==> #[trigger] out@[a] < i,
                forall|a: int, b: int| 0 <= a < b < out@.len() ==> #[trigger] out@[a] != #[trigger] out@[b],
                forall|a: int, b: int|
                    0 <= a < b < out@.len() ==> !key_before(*self, key(#[trigger] out@[b]), key(#[trigger] out@[a])),
                forall|a: int, b: int|
                    0 <= a < b < out@.len() && !key_before(*self, key(#[trigger] out@[a]), key(#[trigger] out@[b]))
                        ==> out@[a] < out@[b],
            decreases n - i,
        {
            let ghost before_insert = out@;
            let mut p: usize = 0;
            while p < out.len() && !self.entry_before(&names, &values, ranked, i, out[p])
                invariant
                    n == ranked@.len(),
                    names@.len() == n,
                    values@.len() == n,
                    i < n,
                    out@ == before_insert,
                    forall|a: int| 0 <= a < out@.len() ==> #[trigger] out@[a] < i,
                    forall|k: int| 0 <= k < n ==> (#[trigger] names@[k])@ == table_key(rows@, metric, ranked@[k]).0,
                    forall|k: int| 0 <= k < n ==> #[trigger] values@[k] == table_key(rows@, metric, ranked@[k]).1,
                    forall|p: usize| #[trigger] key(p) == table_key(rows@, metric, ranked@[p as int]),
                    p <= out@.len(),
                    forall|q: int| 0 <= q < p ==> !key_before(*self, key(i), key(#[trigger] out@[q])),
                decreases out@.len() - p,
            {
                proof {
                    assert(key(out@[p as int]) == (names@[out@[p as int] as int]@, values@[out@[p as int] as int], ranked@[out@[p as int] as int].0 as int));
                }
                p += 1;
            }
            proof {
                if p < out@.len() {
                    assert(key(i) == (names@[i as int]@, values@[i as int], ranked@[i as int].0 as int));
                    assert(key(out@[p as int]) == (names@[out@[p as int] as int]@, values@[out@[p as int] as int], ranked@[out@[p as int] as int].0 as int));
                    assert(key_before(*self, key(i), key(out@[p as int])));
                }
            }
            out.insert(p, i);
            proof {
                let o = before_insert;
                assert(out@ == o.insert(p as int, i));
                assert forall|a: int, b: int| 0 <= a < b < out@.len() implies !key_before(*self, key(#[trigger] out@[b]), key(#[trigger] out@[a])) by {
                    if b < p {
                    } else if b == p {
                        assert(out@[a] == o[a]);
                    } else if a < p {
                        assert(out@[b] == o[b - 1]);
                    } else if a == p {
                        assert(out@[b] == o[b - 1]);
                        lemma_key_order(*self, key(o[b - 1]), key(i), key(o[p as int]));
                        if b - 1 > p {
                            assert(!key_before(*self, key(o[b - 1]), key(o[p as int])));
                        }
                    } else {
                        assert(out@[a] == o[a - 1] && out@[b] == o[b - 1]);
                    }
                }
                assert forall|a: int, b: int|
                    0 <= a < b < out@.len() && !key_before(*self, key(#[trigger] out@[a]), key(#[trigger] out@[b])) implies out@[a]
                        < out@[b] by {
                    if b < p {
                    } else if b == p {
                        assert(out@[a] == o[a]);
                    } else if a < p {
                        assert(out@[b] == o[b - 1]);
                    } else if a == p {
                        assert(out@[b] == o[b - 1]);
                        let c = o[p as int];
                        lemma_key_order(*self, key(i), key(o[b - 1]), key(c));
                        if b - 1 > p {
                            assert(!key_before(*self, key(o[b - 1]), key(c)));
                        }
                    } else {
                        assert(out@[a] == o[a - 1] && out@[b] == o[b - 1]);
                    }
                }
                assert forall|a: int, b: int| 0 <= a < b < out@.len() implies #[trigger] out@[a] != #[trigger] out@[b] by {
                    if a == p {
                        assert(out@[b] == o[b - 1]);
                    } else if b == p {
                        assert(out@[a] == o[a]);
                    } else if a < p && b < p {
                    } else if a < p {
                        assert(out@[b] == o[b - 1]);
                    } else {
                        assert(out@[a] == o[a - 1] && out@[b] == o[b - 1]);
                    }
                }
            }
            i += 1;
        }
        out
    }
}

} // verus!
