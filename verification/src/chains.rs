//! Bookkeeping of segment recovery: per input segment, the ordered chain of
//! vertices along its carrier, the splitting category of each chain piece
//! and the number of splits so far. The geometry (where a piece is split,
//! which vertex is inserted or adopted) is decided elsewhere; this module
//! scans for missing pieces and records splits.
use vstd::prelude::*;

verus! {

/// Splits per segment beyond which recovery declares divergence.
pub const MAX_SPLITS_PER_SEGMENT: usize = 100_000;

/// Splitting category of a sub-segment, set by the acute endpoints of the
/// input segment and inherited across splits.
#[derive(Clone, Copy, Debug, PartialEq, Eq, Structural)]
pub enum Category {
    /// No acute endpoint.
    Plain,
    /// One acute endpoint: the start of the carrier (`at_end == false`) or
    /// its end (`at_end == true`).
    OneAcute { at_end: bool },
    /// Both endpoints acute.
    TwoAcute,
}

/// Category of a whole segment whose start and end are acute or not.
pub open spec fn initial_category(acute_start: bool, acute_end: bool) -> Category {
    match (acute_start, acute_end) {
        (false, false) => Category::Plain,
        (true, false) => Category::OneAcute { at_end: false },
        (false, true) => Category::OneAcute { at_end: true },
        (true, true) => Category::TwoAcute,
    }
}

/// Categories of the two halves of a split piece: a plain or one-acute piece
/// passes its category on; a two-acute piece splits into a half protected
/// at the start and a half protected at the end.
pub open spec fn child_cats(cat: Category) -> (Category, Category) {
    match cat {
        Category::Plain => (Category::Plain, Category::Plain),
        Category::OneAcute { at_end } => (Category::OneAcute { at_end }, Category::OneAcute { at_end }),
        Category::TwoAcute => (Category::OneAcute { at_end: false }, Category::OneAcute { at_end: true }),
    }
}

/// The category of a segment from the acuteness of its endpoints.
pub fn category_of(acute_start: bool, acute_end: bool) -> (c: Category)
    ensures
        c == initial_category(acute_start, acute_end),
{
    match (acute_start, acute_end) {
        (false, false) => Category::Plain,
        (true, false) => Category::OneAcute { at_end: false },
        (false, true) => Category::OneAcute { at_end: true },
        (true, true) => Category::TwoAcute,
    }
}

/// The categories of the two halves of a split piece.
pub fn child_categories(cat: Category) -> (r: (Category, Category))
    ensures
        r == child_cats(cat),
{
    match cat {
        Category::Plain => (Category::Plain, Category::Plain),
        Category::OneAcute { at_end } => (Category::OneAcute { at_end }, Category::OneAcute { at_end }),
        Category::TwoAcute => (Category::OneAcute { at_end: false }, Category::OneAcute { at_end: true }),
    }
}

/// The answer an edge-existence oracle gives for `(a, b)`.
pub open spec fn edge_answer<E: Fn(usize, usize) -> bool>(e: E, a: usize, b: usize) -> bool {
    choose|r: bool| call_ensures(e, (a, b), r)
}

/// `e` answers every vertex pair, and always the same way.
pub open spec fn is_edge_oracle<E: Fn(usize, usize) -> bool>(e: E) -> bool {
    &&& forall|a: usize, b: usize| #[trigger] call_requires(e, (a, b))
    &&& forall|a: usize, b: usize, r: bool, t: bool|
        #[trigger] call_ensures(e, (a, b), r) && #[trigger] call_ensures(e, (a, b), t) ==> r == t
}

fn edge_of<E: Fn(usize, usize) -> bool>(e: &E, a: usize, b: usize) -> (r: bool)
    requires
        is_edge_oracle(*e),
    ensures
        r == edge_answer(*e, a, b),
{
    e(a, b)
}

/// The rows of a table as plain sequences.
pub open spec fn row_views<T>(rows: Seq<Vec<T>>) -> Seq<Seq<T>> {
    rows.map_values(|r: Vec<T>| r@)
}

/// Piece `j` of `chain` joins `va` and `vb`, in either order.
pub open spec fn is_piece(chain: Seq<usize>, j: int, va: usize, vb: usize) -> bool {
    &&& 0 <= j
    &&& j + 1 < chain.len()
    &&& ((chain[j] == va && chain[j + 1] == vb) || (chain[j] == vb && chain[j + 1] == va))
}

/// Piece `(s, j)` comes at or after piece `(seg, i)` in scan order.
pub open spec fn at_or_after(s: int, j: int, seg: int, i: int) -> bool {
    s > seg || (s == seg && j >= i)
}

/// Piece `(s, j)` comes strictly before piece `(t, k)` in scan order.
pub open spec fn before(s: int, j: int, t: int, k: int) -> bool {
    s < t || (s == t && j < k)
}

/// The recovered state of all input segments.
pub struct SegmentChains {
    nodes: Vec<Vec<usize>>,
    cats: Vec<Vec<Category>>,
    splits: Vec<usize>,
}

impl SegmentChains {
    /// Per segment, its vertex chain along the carrier.
    pub closed spec fn chain_seqs(&self) -> Seq<Seq<usize>> {
        row_views(self.nodes@)
    }

    /// Per segment, the category of each chain piece.
    pub closed spec fn cat_seqs(&self) -> Seq<Seq<Category>> {
        row_views(self.cats@)
    }

    /// Per segment, the splits made so far.
    pub closed spec fn split_counts(&self) -> Seq<usize> {
        self.splits@
    }

    /// One category and one split count per segment; every chain has at
    /// least its two endpoints and one category per piece.
    pub open spec fn wf(&self) -> bool {
        &&& self.cat_seqs().len() == self.chain_seqs().len()
        &&& self.split_counts().len() == self.chain_seqs().len()
        &&& forall|s: int|
            0 <= s < self.chain_seqs().len() ==> #[trigger] self.chain_seqs()[s].len() >= 2
                && self.cat_seqs()[s].len() == self.chain_seqs()[s].len() - 1
    }

    /// Every piece at or after `(seg, i)` and before `(t, k)` is an edge.
    pub open spec fn present_between<E: Fn(usize, usize) -> bool>(
        &self,
        e: E,
        seg: int,
        i: int,
        t: int,
        k: int,
    ) -> bool {
        forall|s: int, j: int|
            0 <= s < self.chain_seqs().len() && 0 <= j && j + 1 < self.chain_seqs()[s].len() && at_or_after(s, j, seg, i)
                && before(s, j, t, k) ==> #[trigger] edge_answer(e, self.chain_seqs()[s][j], self.chain_seqs()[s][j + 1])
    }

    /// One chain per segment, from its start to its end vertex, the piece
    /// categorized by the acuteness of the two ends; no splits yet.
    pub fn new(segments: &[(usize, usize)], acute: &[bool]) -> (r: Self)
        requires
            forall|k: int| 0 <= k < segments@.len() ==> (#[trigger] segments@[k]).0 < acute@.len() && segments@[k].1 < acute@.len(),
        ensures
            r.wf(),
            r.chain_seqs().len() == segments@.len(),
            forall|k: int| 0 <= k < segments@.len() ==> #[trigger] r.chain_seqs()[k] == seq![segments@[k].0, segments@[k].1],
            forall|k: int|
                0 <= k < segments@.len() ==> #[trigger] r.cat_seqs()[k] == seq![
                    initial_category(acute@[segments@[k].0 as int], acute@[segments@[k].1 as int]),
                ],
            forall|k: int| 0 <= k < segments@.len() ==> #[trigger] r.split_counts()[k] == 0,
    {
        let mut nodes: Vec<Vec<usize>> = Vec::new();
        let mut cats: Vec<Vec<Category>> = Vec::new();
        let mut splits: Vec<usize> = Vec::new();
        let mut k: usize = 0;
        while k < segments.len()
            invariant
                k <= segments@.len(),
                forall|q: int| 0 <= q < segments@.len() ==> (#[trigger] segments@[q]).0 < acute@.len() && segments@[q].1 < acute@.len(),
                nodes@.len() == k,
                cats@.len() == k,
                splits@.len() == k,
                forall|q: int| 0 <= q < k ==> (#[trigger] nodes@[q])@ == seq![segments@[q].0, segments@[q].1],
                forall|q: int|
                    0 <= q < k ==> (#[trigger] cats@[q])@ == seq![
                        initial_category(acute@[segments@[q].0 as int], acute@[segments@[q].1 as int]),
                    ],
                forall|q: int| 0 <= q < k ==> #[trigger] splits@[q] == 0,
            decreases segments@.len() - k,
        {
            let (va, vb) = segments[k];
            nodes.push(vec![va, vb]);
            cats.push(vec![category_of(acute[va], acute[vb])]);
            splits.push(0);
            k += 1;
        }
        let r = SegmentChains { nodes, cats, splits };
        proof {
            assert forall|q: int| 0 <= q < r.chain_seqs().len() implies #[trigger] r.chain_seqs()[q].len() >= 2
                && r.cat_seqs()[q].len() == r.chain_seqs()[q].len() - 1 by {
                assert(r.chain_seqs()[q] == nodes@[q]@);
                assert(r.cat_seqs()[q] == cats@[q]@);
            }
            assert forall|q: int| 0 <= q < segments@.len() implies #[trigger] r.chain_seqs()[q] == seq![
                segments@[q].0,
                segments@[q].1,
            ] by {
                assert(r.chain_seqs()[q] == nodes@[q]@);
            }
            assert forall|q: int| 0 <= q < segments@.len() implies #[trigger] r.cat_seqs()[q] == seq![
                initial_category(acute@[segments@[q].0 as int], acute@[segments@[q].1 as int]),
            ] by {
                assert(r.cat_seqs()[q] == cats@[q]@);
            }
        }
        r
    }

    /// Number of input segments.
    pub fn segment_count(&self) -> (n: usize)
        requires
            self.wf(),
        ensures
            n == self.chain_seqs().len(),
    {
        self.nodes.len()
    }

    /// The ordered vertex chain of a segment, endpoints included.
    pub fn chain(&self, seg: usize) -> (c: Vec<usize>)
        requires
            self.wf(),
            seg < self.chain_seqs().len(),
        ensures
            c@ == self.chain_seqs()[seg as int],
    {
        let row = &self.nodes[seg];
        let mut c: Vec<usize> = Vec::new();
        let mut j: usize = 0;
        while j < row.len()
            invariant
                j <= row@.len(),
                c@ == row@.subrange(0, j as int),
            decreases row@.len() - j,
        {
            c.push(row[j]);
            j += 1;
            proof {
                assert(c@ =~= row@.subrange(0, j as int));
            }
        }
        proof {
            assert(c@ =~= row@);
        }
        c
    }

    /// The splitting category of piece `i` of segment `seg`.
    pub fn piece_category(&self, seg: usize, i: usize) -> (c: Category)
        requires
            self.wf(),
            seg < self.chain_seqs().len(),
            i < self.cat_seqs()[seg as int].len(),
        ensures
            c == self.cat_seqs()[seg as int][i as int],
    {
        proof {
            assert(self.cat_seqs()[seg as int] == self.cats@[seg as int]@);
        }
        self.cats[seg][i]
    }

    /// Whether segment `seg` may still be split under the divergence bound.
    pub fn split_budget_left(&self, seg: usize) -> (b: bool)
        requires
            self.wf(),
            seg < self.chain_seqs().len(),
        ensures
            b == (self.split_counts()[seg as int] < MAX_SPLITS_PER_SEGMENT),
    {
        self.splits[seg] < MAX_SPLITS_PER_SEGMENT
    }

    /// The first piece of segment `seg` joining `va` and `vb` (in either
    /// order), or `None` if they are no longer consecutive on the chain.
    pub fn find_piece(&self, seg: usize, va: usize, vb: usize) -> (r: Option<usize>)
        requires
            self.wf(),
            seg < self.chain_seqs().len(),
        ensures
            match r {
                Some(i) => is_piece(self.chain_seqs()[seg as int], i as int, va, vb) && forall|j: int|
                    0 <= j < i ==> !is_piece(self.chain_seqs()[seg as int], j, va, vb),
                None => forall|j: int| !is_piece(self.chain_seqs()[seg as int], j, va, vb),
            },
    {
        let row = &self.nodes[seg];
        let ghost ch = self.chain_seqs()[seg as int];
        proof {
            assert(ch == row@);
        }
        let mut i: usize = 0;
        while i < row.len() && i + 1 < row.len()
            invariant
                ch == self.chain_seqs()[seg as int],
                ch == row@,
                ch.len() >= 2,
                i + 1 <= row@.len(),
                forall|j: int| 0 <= j < i ==> !is_piece(ch, j, va, vb),
            decreases row@.len() - i,
        {
            let x = row[i];
            let y = row[i + 1];
            if (x == va && y == vb) || (x == vb && y == va) {
                return Some(i);
            }
            i += 1;
        }
        None
    }

    /// Splits piece `i` of segment `seg` at vertex `vm`: the vertex goes
    /// between the piece's ends, the piece's category passes to its two
    /// halves, and the segment's split count grows by one.
    pub fn split_piece(&mut self, seg: usize, i: usize, vm: usize)
        requires
            old(self).wf(),
            seg < old(self).chain_seqs().len(),
            i + 1 < old(self).chain_seqs()[seg as int].len(),
            old(self).split_counts()[seg as int] < usize::MAX,
        ensures
            final(self).wf(),
            final(self).chain_seqs() == old(self).chain_seqs().update(
                seg as int,
                old(self).chain_seqs()[seg as int].insert(i + 1, vm),
            ),
            final(self).cat_seqs() == old(self).cat_seqs().update(
                seg as int,
                old(self).cat_seqs()[seg as int].update(i as int, child_cats(old(self).cat_seqs()[seg as int][i as int]).0).insert(
                    i + 1,
                    child_cats(old(self).cat_seqs()[seg as int][i as int]).1,
                ),
            ),
            final(self).split_counts() == old(self).split_counts().update(
                seg as int,
                (old(self).split_counts()[seg as int] + 1) as usize,
            ),
            final(self).chain_seqs()[seg as int].first() == old(self).chain_seqs()[seg as int].first(),
            final(self).chain_seqs()[seg as int].last() == old(self).chain_seqs()[seg as int].last(),
    {
        let ghost ch0 = self.chain_seqs();
        let ghost ca0 = self.cat_seqs();
        let ghost sp0 = self.split_counts();
        let mut row: Vec<usize> = Vec::new();
        std::mem::swap(&mut row, &mut self.nodes[seg]);
        proof {
            assert(row@ == ch0[seg as int]);
        }
        let len = row.len();
        proof {
            assert(i + 1 < len);
        }
        row.insert(i + 1, vm);
        std::mem::swap(&mut row, &mut self.nodes[seg]);
        let mut crow: Vec<Category> = Vec::new();
        std::mem::swap(&mut crow, &mut self.cats[seg]);
        proof {
            assert(crow@ == ca0[seg as int]);
        }
        let (left, right) = child_categories(crow[i]);
        crow.set(i, left);
        crow.insert(i + 1, right);
        std::mem::swap(&mut crow, &mut self.cats[seg]);
        let n = self.splits[seg];
        self.splits.set(seg, n + 1);
        proof {
            assert(self.chain_seqs() =~= ch0.update(seg as int, ch0[seg as int].insert(i + 1, vm)));
            assert(self.cat_seqs() =~= ca0.update(
                seg as int,
                ca0[seg as int].update(i as int, child_cats(ca0[seg as int][i as int]).0).insert(
                    i + 1,
                    child_cats(ca0[seg as int][i as int]).1,
                ),
            ));
            assert(self.split_counts() =~= sp0.update(seg as int, (sp0[seg as int] + 1) as usize));
            assert forall|s: int| 0 <= s < self.chain_seqs().len() implies #[trigger] self.chain_seqs()[s].len() >= 2
                && self.cat_seqs()[s].len() == self.chain_seqs()[s].len() - 1 by {
                if s != seg {
                    assert(self.chain_seqs()[s] == ch0[s]);
                    assert(self.cat_seqs()[s] == ca0[s]);
                }
            }
            let c = ch0[seg as int].insert(i + 1, vm);
            assert(c[0] == ch0[seg as int][0]);
            assert(c[c.len() - 1] == ch0[seg as int][ch0[seg as int].len() - 1]);
        }
    }

    /// The first piece, in scan order from piece `i` of segment `seg` on
    /// (the rest of that segment, then every later segment from its first
    /// piece), that the oracle says is not an edge; `None` when every such
    /// piece is one.
    pub fn next_missing<E: Fn(usize, usize) -> bool>(&self, seg: usize, i: usize, e: &E) -> (r: Option<(usize, usize)>)
        requires
            self.wf(),
            is_edge_oracle(*e),
        ensures
            match r {
                Some((s, j)) => {
                    &&& s < self.chain_seqs().len()
                    &&& j + 1 < self.chain_seqs()[s as int].len()
                    &&& at_or_after(s as int, j as int, seg as int, i as int)
                    &&& !edge_answer(*e, self.chain_seqs()[s as int][j as int], self.chain_seqs()[s as int][j + 1])
                    &&& self.present_between(*e, seg as int, i as int, s as int, j as int)
                },
                None => self.present_between(*e, seg as int, i as int, self.chain_seqs().len() as int, 0),
            },
    {
        let n = self.nodes.len();
        let ghost cs = self.chain_seqs();
        let mut s: usize = seg;
        if s >= n {
            return None;
        }
        let mut j: usize = i;
        while s < n
            invariant
                n == cs.len(),
                cs == self.chain_seqs(),
                self.wf(),
                is_edge_oracle(*e),
                seg <= s,
                s == seg ==> j == i,
                s > seg ==> j == 0,
                self.present_between(*e, seg as int, i as int, s as int, j as int),
            decreases n - s,
        {
            let row = &self.nodes[s];
            proof {
                assert(row@ == cs[s as int]);
            }
            let j0 = j;
            while j < row.len() && j + 1 < row.len()
                invariant
                    n == cs.len(),
                    cs == self.chain_seqs(),
                    row@ == cs[s as int],
                    s < n,
                    seg <= s,
                    j0 <= j,
                    s == seg ==> j0 == i,
                    s > seg ==> j0 == 0,
                    is_edge_oracle(*e),
                    self.present_between(*e, seg as int, i as int, s as int, j as int),
                decreases row@.len() - j,
            {
                if !edge_of(e, row[j], row[j + 1]) {
                    return Some((s, j));
                }
                proof {
                    assert forall|s2: int, j2: int|
                        0 <= s2 < cs.len() && 0 <= j2 && j2 + 1 < cs[s2].len() && at_or_after(s2, j2, seg as int, i as int)
                            && before(s2, j2, s as int, j + 1) implies #[trigger] edge_answer(
                        *e,
                        cs[s2][j2],
                        cs[s2][j2 + 1],
                    ) by {
                        if !before(s2, j2, s as int, j as int) {
                            assert(s2 == s && j2 == j);
                        }
                    }
                }
                j += 1;
            }
            proof {
                assert forall|s2: int, j2: int|
                    0 <= s2 < cs.len() && 0 <= j2 && j2 + 1 < cs[s2].len() && at_or_after(s2, j2, seg as int, i as int)
                        && before(s2, j2, s + 1, 0) implies #[trigger] edge_answer(*e, cs[s2][j2], cs[s2][j2 + 1]) by {
                    if !before(s2, j2, s as int, j as int) {
                        assert(s2 == s);
                        assert(j2 >= j);
                        assert(false);
                    }
                }
            }
            s += 1;
            j = 0;
        }
        None
    }
}

} // verus!
