use vstd::prelude::*;
use crate::bytes_order::{bytes_le, bytes_lt, lex_le, lex_lt, lemma_lex_le_total, lemma_lex_le_transitive, lemma_lex_le_antisymmetric, lemma_lex_trichotomy, lemma_lex_transitive};
use crate::command::CommandData;
use crate::error::KvsError;
use itertools::Itertools;

verus! {

/// The key range of a table: the keys of its first and of its last command.
#[derive(Debug, Clone)]
pub struct Score {
    pub start: Vec<u8>,
    pub end: Vec<u8>,
}

/// A key range over plain byte sequences.
pub struct ScoreView {
    pub start: Seq<u8>,
    pub end: Seq<u8>,
}

impl View for Score {
    type V = ScoreView;

    open spec fn view(&self) -> ScoreView {
        ScoreView { start: self.start@, end: self.end@ }
    }
}

/// The smallest of a non-empty sequence of keys.
pub open spec fn least(xs: Seq<Seq<u8>>) -> Seq<u8>
    decreases xs.len(),
{
    if xs.len() <= 1 {
        xs[0]
    } else {
        let m = least(xs.drop_last());
        if lex_le(m, xs.last()) {
            m
        } else {
            xs.last()
        }
    }
}

/// The largest of a non-empty sequence of keys.
pub open spec fn greatest(xs: Seq<Seq<u8>>) -> Seq<u8>
    decreases xs.len(),
{
    if xs.len() <= 1 {
        xs[0]
    } else {
        let m = greatest(xs.drop_last());
        if lex_le(xs.last(), m) {
            m
        } else {
            xs.last()
        }
    }
}

pub open spec fn starts(xs: Seq<ScoreView>) -> Seq<Seq<u8>> {
    xs.map_values(|s: ScoreView| s.start)
}

pub open spec fn ends(xs: Seq<ScoreView>) -> Seq<Seq<u8>> {
    xs.map_values(|s: ScoreView| s.end)
}

/// The range that spans a non-empty collection of ranges.
pub open spec fn fuse(xs: Seq<ScoreView>) -> ScoreView {
    ScoreView { start: least(starts(xs)), end: greatest(ends(xs)) }
}

/// The overlap test used by compaction. It is deliberately not a plain interval
/// intersection: a range that only touches another at its start does not meet it.
pub open spec fn meets(a: ScoreView, b: ScoreView) -> bool {
    (lex_le(a.start, b.start) && lex_lt(b.start, a.end)) || (lex_lt(a.start, b.end) && lex_le(
        b.end,
        a.end,
    ))
}

pub open spec fn is_least(m: Seq<u8>, xs: Seq<Seq<u8>>) -> bool {
    xs.contains(m) && forall|i: int| 0 <= i < xs.len() ==> lex_le(m, #[trigger] xs[i])
}

pub open spec fn is_greatest(m: Seq<u8>, xs: Seq<Seq<u8>>) -> bool {
    xs.contains(m) && forall|i: int| 0 <= i < xs.len() ==> lex_le(#[trigger] xs[i], m)
}

pub proof fn lemma_least_is_least(xs: Seq<Seq<u8>>)
    requires
        xs.len() > 0,
    ensures
        is_least(least(xs), xs),
    decreases xs.len(),
{
    if xs.len() == 1 {
        assert(xs[0] == xs[0]);
        assert(xs.contains(xs[0]));
    } else {
        let d = xs.drop_last();
        lemma_least_is_least(d);
        let m = least(d);
        lemma_lex_le_total(m, xs.last());
        let j = choose|j: int| 0 <= j < d.len() && d[j] == m;
        assert(xs[j] == m);
        assert(xs[xs.len() - 1] == xs.last());
        assert forall|i: int| 0 <= i < xs.len() implies lex_le(least(xs), #[trigger] xs[i]) by {
            if i < xs.len() - 1 {
                assert(d[i] == xs[i]);
                if !lex_le(m, xs.last()) {
                    lemma_lex_le_transitive(xs.last(), m, xs[i]);
                }
            }
        }
    }
}

pub proof fn lemma_greatest_is_greatest(xs: Seq<Seq<u8>>)
    requires
        xs.len() > 0,
    ensures
        is_greatest(greatest(xs), xs),
    decreases xs.len(),
{
    if xs.len() == 1 {
        assert(xs.contains(xs[0]));
    } else {
        let d = xs.drop_last();
        lemma_greatest_is_greatest(d);
        let m = greatest(d);
        lemma_lex_le_total(m, xs.last());
        let j = choose|j: int| 0 <= j < d.len() && d[j] == m;
        assert(xs[j] == m);
        assert(xs[xs.len() - 1] == xs.last());
        assert forall|i: int| 0 <= i < xs.len() implies lex_le(#[trigger] xs[i], greatest(xs)) by {
            if i < xs.len() - 1 {
                assert(d[i] == xs[i]);
                if !lex_le(xs.last(), m) {
                    lemma_lex_le_transitive(xs[i], m, xs.last());
                }
            }
        }
    }
}

/// The least element is the only one that is below all others.
pub proof fn lemma_least_unique(m: Seq<u8>, xs: Seq<Seq<u8>>)
    requires
        is_least(m, xs),
    ensures
        m == least(xs),
{
    lemma_least_is_least(xs);
    let a = choose|i: int| 0 <= i < xs.len() && xs[i] == m;
    let b = choose|i: int| 0 <= i < xs.len() && xs[i] == least(xs);
    assert(lex_le(m, xs[b]));
    assert(lex_le(least(xs), xs[a]));
    lemma_lex_le_antisymmetric(m, least(xs));
}

pub proof fn lemma_greatest_unique(m: Seq<u8>, xs: Seq<Seq<u8>>)
    requires
        is_greatest(m, xs),
    ensures
        m == greatest(xs),
{
    lemma_greatest_is_greatest(xs);
    let a = choose|i: int| 0 <= i < xs.len() && xs[i] == m;
    let b = choose|i: int| 0 <= i < xs.len() && xs[i] == greatest(xs);
    assert(lex_le(xs[b], m));
    assert(lex_le(xs[a], greatest(xs)));
    lemma_lex_le_antisymmetric(m, greatest(xs));
}

/// Fusing a single range gives that range back.
pub proof fn lemma_fuse_single(s: ScoreView)
    ensures
        fuse(seq![s]) == s,
{
}

/// Fusion depends only on the multiset of the ranges fused, not on their order.
pub proof fn lemma_fuse_commutative(xs: Seq<ScoreView>, ys: Seq<ScoreView>)
    requires
        xs.len() > 0,
        xs.to_multiset() == ys.to_multiset(),
    ensures
        fuse(xs) == fuse(ys),
{
    broadcast use vstd::seq_lib::group_seq_properties;

    assert forall|s: ScoreView| xs.contains(s) <==> ys.contains(s) by {
        xs.to_multiset_ensures();
        ys.to_multiset_ensures();
        assert(xs.to_multiset().count(s) == ys.to_multiset().count(s));
        assert(xs.contains(s) <==> xs.to_multiset().count(s) > 0);
        assert(ys.contains(s) <==> ys.to_multiset().count(s) > 0);
    }
    assert(ys.len() > 0) by {
        xs.to_multiset_ensures();
        ys.to_multiset_ensures();
    }
    let sx = starts(xs);
    let sy = starts(ys);
    let ex = ends(xs);
    let ey = ends(ys);
    lemma_least_is_least(sx);
    lemma_greatest_is_greatest(ex);
    let m = least(sx);
    let g = greatest(ex);
    let i = choose|i: int| 0 <= i < sx.len() && sx[i] == m;
    assert(xs.contains(xs[i]));
    let i2 = choose|k: int| 0 <= k < ys.len() && ys[k] == xs[i];
    assert(sy[i2] == m);
    assert forall|k: int| 0 <= k < sy.len() implies lex_le(m, #[trigger] sy[k]) by {
        assert(ys.contains(ys[k]));
        let k2 = choose|j: int| 0 <= j < xs.len() && xs[j] == ys[k];
        assert(sx[k2] == sy[k]);
    }
    lemma_least_unique(m, sy);
    let j = choose|j: int| 0 <= j < ex.len() && ex[j] == g;
    assert(xs.contains(xs[j]));
    let j2 = choose|k: int| 0 <= k < ys.len() && ys[k] == xs[j];
    assert(ey[j2] == g);
    assert forall|k: int| 0 <= k < ey.len() implies lex_le(#[trigger] ey[k], g) by {
        assert(ys.contains(ys[k]));
        let k2 = choose|l: int| 0 <= l < xs.len() && xs[l] == ys[k];
        assert(ex[k2] == ey[k]);
    }
    lemma_greatest_unique(g, ey);
}

/// Fusing the fusions of two groups is fusing the two groups together.
pub proof fn lemma_fuse_associative(xs: Seq<ScoreView>, ys: Seq<ScoreView>)
    requires
        xs.len() > 0,
        ys.len() > 0,
    ensures
        fuse(seq![fuse(xs), fuse(ys)]) == fuse(xs + ys),
{
    let zs = xs + ys;
    let a = least(starts(xs));
    let b = least(starts(ys));
    lemma_least_is_least(starts(xs));
    lemma_least_is_least(starts(ys));
    lemma_lex_le_total(a, b);
    let m = least(seq![a, b]);
    assert(starts(seq![fuse(xs), fuse(ys)]) =~= seq![a, b]);
    lemma_least_is_least(seq![a, b]);
    let sz = starts(zs);
    assert forall|k: int| 0 <= k < sz.len() implies lex_le(m, #[trigger] sz[k]) by {
        if k < xs.len() {
            assert(sz[k] == starts(xs)[k]);
            assert(lex_le(m, a)) by { assert(seq![a, b][0] == a); }
            lemma_lex_le_transitive(m, a, sz[k]);
        } else {
            assert(sz[k] == starts(ys)[k - xs.len()]);
            assert(lex_le(m, b)) by { assert(seq![a, b][1] == b); }
            lemma_lex_le_transitive(m, b, sz[k]);
        }
    }
    assert(sz.contains(m)) by {
        if m == a {
            let i = choose|i: int| 0 <= i < starts(xs).len() && starts(xs)[i] == a;
            assert(sz[i] == a);
        } else {
            assert(m == b) by { assert(seq![a, b].contains(m)); let t = choose|t: int| 0 <= t < 2 && seq![a, b][t] == m; }
            let i = choose|i: int| 0 <= i < starts(ys).len() && starts(ys)[i] == b;
            assert(sz[i + xs.len()] == b);
        }
    }
    lemma_least_unique(m, sz);

    let c = greatest(ends(xs));
    let d = greatest(ends(ys));
    lemma_greatest_is_greatest(ends(xs));
    lemma_greatest_is_greatest(ends(ys));
    let g = greatest(seq![c, d]);
    assert(ends(seq![fuse(xs), fuse(ys)]) =~= seq![c, d]);
    lemma_greatest_is_greatest(seq![c, d]);
    let ez = ends(zs);
    assert forall|k: int| 0 <= k < ez.len() implies lex_le(#[trigger] ez[k], g) by {
        if k < xs.len() {
            assert(ez[k] == ends(xs)[k]);
            assert(lex_le(c, g)) by { assert(seq![c, d][0] == c); }
            lemma_lex_le_transitive(ez[k], c, g);
        } else {
            assert(ez[k] == ends(ys)[k - xs.len()]);
            assert(lex_le(d, g)) by { assert(seq![c, d][1] == d); }
            lemma_lex_le_transitive(ez[k], d, g);
        }
    }
    assert(ez.contains(g)) by {
        if g == c {
            let i = choose|i: int| 0 <= i < ends(xs).len() && ends(xs)[i] == c;
            assert(ez[i] == c);
        } else {
            assert(g == d) by { let t = choose|t: int| 0 <= t < 2 && seq![c, d][t] == g; }
            let i = choose|i: int| 0 <= i < ends(ys).len() && ends(ys)[i] == d;
            assert(ez[i + xs.len()] == d);
        }
    }
    lemma_greatest_unique(g, ez);
}

/// On ranges that are not nested strictly inside one another, the overlap test
/// does not depend on the order of its arguments.
pub proof fn lemma_meets_symmetric(a: ScoreView, b: ScoreView)
    requires
        lex_lt(a.start, a.end),
        lex_lt(b.start, b.end),
        !(lex_lt(a.start, b.start) && lex_lt(b.end, a.end)),
        !(lex_lt(b.start, a.start) && lex_lt(a.end, b.end)),
    ensures
        meets(a, b) == meets(b, a),
{
    lemma_lex_trichotomy(a.start, b.start);
    lemma_lex_trichotomy(a.end, b.end);
    lemma_lex_trichotomy(a.start, b.end);
    lemma_lex_trichotomy(b.start, a.end);
    if lex_lt(a.start, b.start) {
        lemma_lex_transitive(a.start, b.start, b.end);
    }
    if lex_lt(b.start, a.start) {
        lemma_lex_transitive(b.start, a.start, a.end);
    }
    if lex_lt(b.start, a.end) && lex_lt(a.end, b.end) {
        lemma_lex_transitive(b.start, a.end, b.end);
    }
    if lex_lt(a.start, b.end) && lex_lt(b.end, a.end) {
        lemma_lex_transitive(a.start, b.end, a.end);
    }
}

pub open spec fn key_views(v: Seq<Vec<u8>>) -> Seq<Seq<u8>> {
    v.map_values(|k: Vec<u8>| k@)
}

/// Both sequences hold the same keys, each as often as the other.
pub open spec fn same_keys(a: Seq<Seq<u8>>, b: Seq<Seq<u8>>) -> bool {
    a.to_multiset() == b.to_multiset()
}

pub open spec fn ascending(a: Seq<Seq<u8>>) -> bool {
    forall|i: int, j: int| 0 <= i <= j < a.len() ==> lex_le(#[trigger] a[i], #[trigger] a[j])
}

/// Relies on itertools::Itertools::sorted: the same keys, in ascending order of
/// `Vec<u8>`'s `Ord`, which std documents as lexicographic.
#[verifier::external_body]
fn sorted_keys(keys: Vec<Vec<u8>>) -> (r: Vec<Vec<u8>>)
    ensures
        same_keys(key_views(r@), key_views(keys@)),
        ascending(key_views(r@)),
{
    keys.into_iter().sorted().collect()
}

proof fn lemma_sorted_ends(r: Seq<Seq<u8>>, keys: Seq<Seq<u8>>)
    requires
        keys.len() > 0,
        same_keys(r, keys),
        ascending(r),
    ensures
        r.len() == keys.len(),
        r[0] == least(keys),
        r[r.len() - 1] == greatest(keys),
{
    r.to_multiset_ensures();
    keys.to_multiset_ensures();
    assert forall|x: Seq<u8>| r.contains(x) <==> keys.contains(x) by {
        assert(r.to_multiset().count(x) == keys.to_multiset().count(x));
        assert(r.contains(x) <==> r.to_multiset().count(x) > 0);
        assert(keys.contains(x) <==> keys.to_multiset().count(x) > 0);
    }
    let n = r.len() - 1;
    assert(r.contains(r[0]));
    assert(r.contains(r[n]));
    assert forall|k: int| 0 <= k < keys.len() implies lex_le(r[0], #[trigger] keys[k]) && lex_le(keys[k], r[n]) by {
        assert(keys.contains(keys[k]));
        let t = choose|t: int| 0 <= t < r.len() && r[t] == keys[k];
        assert(lex_le(r[0], r[t]));
        assert(lex_le(r[t], r[n]));
    }
    lemma_least_unique(r[0], keys);
    lemma_greatest_unique(r[n], keys);
}

pub open spec fn views_of(v: Seq<&Score>) -> Seq<ScoreView> {
    v.map_values(|s: &Score| s@)
}

fn copy_bytes(b: &Vec<u8>) -> (r: Vec<u8>)
    ensures
        r@ == b@,
{
    let r = b.clone();
    assert(r@ =~= b@);
    r
}

impl Score {
    /// The range from the key of `first` to the key of `last`.
    pub fn from_cmd_data(first: &CommandData, last: &CommandData) -> (r: Score)
        ensures
            r@ == (ScoreView { start: first@.key(), end: last@.key() }),
    {
        Score { start: first.get_key_clone(), end: last.get_key_clone() }
    }

    /// The range of a batch of commands: the key of its first command to that of its last.
    pub fn from_vec_cmd_data(vec_mem_data: &Vec<CommandData>) -> (r: Result<Score, KvsError>)
        ensures
            vec_mem_data.len() == 0 <==> r == Err::<Score, KvsError>(KvsError::DataEmpty),
            vec_mem_data.len() > 0 <==> r is Ok,
            r is Ok ==> r->Ok_0@ == (ScoreView {
                start: vec_mem_data@[0]@.key(),
                end: vec_mem_data@.last()@.key(),
            }),
    {
        let n = vec_mem_data.len();
        if n == 0 {
            Err(KvsError::DataEmpty)
        } else {
            Ok(Score::from_cmd_data(&vec_mem_data[0], &vec_mem_data[n - 1]))
        }
    }

    /// The range that spans all the given ranges.
    pub fn fusion(vec_score: Vec<&Score>) -> (r: Result<Score, KvsError>)
        ensures
            vec_score.len() == 0 <==> r == Err::<Score, KvsError>(KvsError::DataEmpty),
            vec_score.len() > 0 <==> r is Ok,
            r is Ok ==> r->Ok_0@ == fuse(views_of(vec_score@)),
    {
        if vec_score.len() == 0 {
            return Err(KvsError::DataEmpty);
        }
        let ghost xs = views_of(vec_score@);
        let mut all_starts: Vec<Vec<u8>> = Vec::new();
        let mut all_ends: Vec<Vec<u8>> = Vec::new();
        let mut i: usize = 0;
        while i < vec_score.len()
            invariant
                i <= vec_score.len(),
                xs == views_of(vec_score@),
                all_starts.len() == i,
                all_ends.len() == i,
                forall|k: int| 0 <= k < i ==> #[trigger] all_starts[k]@ == starts(xs)[k],
                forall|k: int| 0 <= k < i ==> #[trigger] all_ends[k]@ == ends(xs)[k],
            decreases vec_score.len() - i,
        {
            all_starts.push(copy_bytes(&vec_score[i].start));
            all_ends.push(copy_bytes(&vec_score[i].end));
            i = i + 1;
        }
        proof {
            assert(key_views(all_starts@) =~= starts(xs));
            assert(key_views(all_ends@) =~= ends(xs));
        }
        let mut s = sorted_keys(all_starts);
        let mut e = sorted_keys(all_ends);
        proof {
            lemma_sorted_ends(key_views(s@), starts(xs));
            lemma_sorted_ends(key_views(e@), ends(xs));
            assert(key_views(s@)[0] == s@[0]@);
            assert(key_views(e@)[e@.len() - 1] == e@[e@.len() - 1]@);
        }
        let start = s.swap_remove(0);
        let end = match e.pop() {
            Some(x) => x,
            None => Vec::new(),
        };
        Ok(Score { start, end })
    }

    /// Whether this range meets `target`, by the overlap test of compaction.
    pub fn meet(&self, target: &Score) -> (r: bool)
        ensures
            r == meets(self@, target@),
    {
        (bytes_le(self.start.as_slice(), target.start.as_slice())
            && bytes_lt(target.start.as_slice(), self.end.as_slice()))
            || (bytes_lt(self.start.as_slice(), target.end.as_slice())
            && bytes_le(target.end.as_slice(), self.end.as_slice()))
    }
}

} // verus!
