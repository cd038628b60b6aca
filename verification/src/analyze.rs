use vstd::prelude::*;
use crate::as_chars::{utf16_of, AsChars, AsUsize};
use crate::info::Info;
use crate::double_array::views_of;
use crate::matrix::Matrix;
use crate::prefix_map::PrefixMap;

verus! {

/// One lattice candidate: the word entry read at this position, the best
/// total cost of the suffix starting here, the number of units the word
/// spans, and which candidate of the following column it joins. `id` is the
/// entry's left context id; the right context id and the entry's own cost
/// are kept so the chosen segmentation can be reported exactly.
struct Node {
    id: u16,
    right_id: u16,
    wcost: i16,
    cost: i32,
    len: usize,
    next: usize,
}

impl Node {
    fn new(id: u16, right_id: u16, wcost: i16, cost: i32, len: usize, next: usize) -> (r: Node)
        ensures
            r == (Node { id, right_id, wcost, cost, len, next }),
    {
        Node { id, right_id, wcost, cost, len, next }
    }
}

/// The word entry a candidate stands for.
spec fn node_info(nd: Node) -> Info {
    Info { left_id: nd.id, right_id: nd.right_id, cost: nd.wcost }
}

/// The fixed fallback entry for units no dictionary entry covers: a
/// single-unit pseudo-word with the unclassified-proper-noun context pair
/// and a large penalty.
pub const UNKNOWN_ID: u16 = 1288;

pub const UNKNOWN_COST: i16 = 10000;

/// Columns are stored back to front: `nodes[k]` is the column of candidates
/// for the suffix starting at unit `N - k`; `nodes[0]` holds the sentence
/// boundary. Each candidate spans `len` units and points into the column
/// `len` positions closer to the end.
pub struct Analyzed {
    sentence: Vec<u16>,
    nodes: Vec<Vec<Node>>,
    pub cost: i32,
    index: usize,
}

/// Conditions every analysis result satisfies: one column per suffix, none
/// empty, every candidate's span and successor in bounds, and the chosen
/// start candidate valid. The boundary column holds the single zero-length
/// terminal candidate.
spec fn column_ok(nodes: Seq<Seq<Node>>, k: int) -> bool {
    forall|m: int|
        0 <= m < nodes[k].len() ==> {
            let nd = #[trigger] nodes[k][m];
            &&& 1 <= nd.len <= k
            &&& nd.next < nodes[k - nd.len].len()
            &&& -0x10000 <= nd.cost - nodes[k - nd.len][nd.next as int].cost <= 0x10000
        }
}

impl Analyzed {
    pub closed spec fn wf(&self) -> bool {
        let nodes = views_of(self.nodes@);
        &&& self.nodes@.len() == self.sentence@.len() + 1
        &&& nodes[0].len() == 1
        &&& nodes[0][0].len == 0
        &&& nodes[0][0].id == 0
        &&& nodes[0][0].cost == 0
        &&& forall|k: int| 1 <= k < nodes.len() ==> (#[trigger] nodes[k]).len() >= 1
        &&& forall|k: int| 1 <= k < nodes.len() ==> column_ok(nodes, k)
        &&& self.index < nodes[nodes.len() - 1].len()
    }

    pub closed spec fn spec_sentence(&self) -> Seq<u16> {
        self.sentence@
    }

    spec fn nodes_view(&self) -> Seq<Vec<Node>> {
        self.nodes@
    }

    /// The reported total cost, as an integer.
    pub closed spec fn spec_cost(&self) -> int {
        self.cost as int
    }

    /// The word entry of the candidate at consumed position `y`, slot `x`.
    pub closed spec fn spec_entry(&self, y: int, x: int) -> Info {
        node_info(views_of(self.nodes@)[self.nodes@.len() - 1 - y][x])
    }

    /// How many units that candidate spans (0 only at the boundary).
    pub closed spec fn spec_span(&self, y: int, x: int) -> int {
        views_of(self.nodes@)[self.nodes@.len() - 1 - y][x].len as int
    }

    /// The candidate's score: the best total cost of the suffix from `y` on
    /// when it is read through this candidate.
    pub closed spec fn spec_score(&self, y: int, x: int) -> int {
        views_of(self.nodes@)[self.nodes@.len() - 1 - y][x].cost as int
    }

    /// The slot of the successor candidate this one joins.
    pub closed spec fn spec_succ(&self, y: int, x: int) -> int {
        views_of(self.nodes@)[self.nodes@.len() - 1 - y][x].next as int
    }

    /// The slot the chosen segmentation starts at.
    pub closed spec fn spec_start_slot(&self) -> int {
        self.index as int
    }

    /// A restartable cursor over the chosen segmentation.
    pub fn iter<'a>(&'a self) -> (r: Iter<'a>)
        requires
            self.wf(),
        ensures
            r.wf(),
            r.spec_analyzed() == self,
            r.spec_pos() == 0,
            r.spec_slot() == self.spec_start_slot(),
    {
        Iter { x: self.index, y: 0, analyzed: self }
    }
}

/// One emitted token: the unit span it covers, the word entry's left
/// context id, and the incremental cost this word adds to the path — its
/// own entry cost plus the transition into the following word.
pub struct Token {
    pub word: Vec<u16>,
    pub id: u16,
    pub cost: i32,
}

pub struct Iter<'a> {
    x: usize,
    y: usize,
    analyzed: &'a Analyzed,
}

impl<'a> Iter<'a> {
    /// The cursor always sits on a valid candidate of the column for the
    /// suffix starting at unit `y`.
    pub closed spec fn wf(&self) -> bool {
        let nodes = views_of(self.analyzed.nodes@);
        &&& self.analyzed.wf()
        &&& self.y <= self.analyzed.sentence@.len()
        &&& self.x < nodes[nodes.len() - 1 - self.y as int].len()
    }

    /// The next token of the segmentation, or `None` at the zero-length
    /// terminal candidate, which only the final column holds. Each token is
    /// the exact unit span, left id and incremental cost of the candidate
    /// the cursor sits on, and the cursor advances to that candidate's
    /// chosen successor — the whole traversal is a function of the
    /// `Analyzed` value alone.
    pub fn next(&mut self) -> (r: Option<Token>)
        requires
            old(self).wf(),
        ensures
            final(self).wf(),
            final(self).spec_analyzed() == old(self).spec_analyzed(),
            match r {
                Option::Some(t) => {
                    let a = old(self).spec_analyzed();
                    let y0 = old(self).spec_pos();
                    let x0 = old(self).spec_slot();
                    &&& a.spec_span(y0, x0) >= 1
                    &&& final(self).spec_pos() == y0 + a.spec_span(y0, x0)
                    &&& final(self).spec_pos() <= a.spec_sentence().len()
                    &&& final(self).spec_slot() == a.spec_succ(y0, x0)
                    &&& t.word@ == a.spec_sentence().subrange(y0, final(self).spec_pos())
                    &&& t.id == a.spec_entry(y0, x0).left_id
                    &&& t.cost as int == a.spec_score(y0, x0) - a.spec_score(
                        y0 + a.spec_span(y0, x0),
                        a.spec_succ(y0, x0),
                    )
                    &&& a.spec_chosen_from(y0, x0) == seq![
                        (a.spec_span(y0, x0), a.spec_entry(y0, x0)),
                    ] + a.spec_chosen_from(y0 + a.spec_span(y0, x0), a.spec_succ(y0, x0))
                },
                Option::None => *final(self) == *old(self) && old(self).spec_pos() == old(
                    self,
                ).spec_analyzed().spec_sentence().len() && old(self).spec_analyzed().spec_span(
                    old(self).spec_pos(),
                    old(self).spec_slot(),
                ) == 0 && old(self).spec_analyzed().spec_chosen_from(
                    old(self).spec_pos(),
                    old(self).spec_slot(),
                ) == Seq::<(int, Info)>::empty(),
            },
    {
        let nodes = &self.analyzed.nodes;
        proof {
            let cols = views_of(self.analyzed.nodes@);
            let k = cols.len() - 1 - self.y as int;
            assert(cols[k] == self.analyzed.nodes@[k]@);
            if k >= 1 {
                assert(column_ok(cols, k));
                assert(1 <= cols[k][self.x as int].len <= k);
                assert(cols[k][self.x as int].next < cols[k - cols[k][self.x as int].len].len());
            }
        }
        let node = &nodes[nodes.len() - self.y - 1][self.x];
        if node.len == 0 {
            // a zero-length candidate is the boundary terminal, which only
            // the final column holds, so the whole sentence is consumed
            proof {
                let cols = views_of(self.analyzed.nodes@);
                let k = cols.len() - 1 - self.y as int;
                if k >= 1 {
                    assert(1 <= cols[k][self.x as int].len);
                }
                assert(self.analyzed.spec_chosen_from(self.y as int, self.x as int)
                    =~= Seq::<(int, Info)>::empty());
            }
            return None;
        }
        proof {
            let cols = views_of(self.analyzed.nodes@);
            let k = cols.len() - 1 - self.y as int;
            assert(k >= 1) by {
                if k == 0 {
                    assert(cols[0].len() == 1);
                    assert(cols[0][0].len == 0);
                }
            }
        }
        let index = self.y;
        self.x = node.next;
        self.y = self.y + node.len;
        proof {
            let cols = views_of(self.analyzed.nodes@);
            let k2 = cols.len() - 1 - self.y as int;
            assert(cols[k2] == self.analyzed.nodes@[k2]@);
        }
        let word = vstd::slice::slice_to_vec(
            vstd::slice::slice_subrange(self.analyzed.sentence.as_slice(), index, self.y),
        );
        let succ_cost = nodes[nodes.len() - self.y - 1][self.x].cost;
        proof {
            let cols = views_of(self.analyzed.nodes@);
            let k = cols.len() - 1 - index as int;
            assert(column_ok(cols, k));
            assert(-0x10000 <= cols[k][old(self).x as int].cost - cols[k - cols[k][old(
                self,
            ).x as int].len][cols[k][old(self).x as int].next as int].cost <= 0x10000);
            let a = self.analyzed;
            let y0 = index as int;
            let x0 = old(self).x as int;
            assert(a.spec_chosen_from(y0, x0) == seq![(a.spec_span(y0, x0), a.spec_entry(y0, x0))]
                + a.spec_chosen_from(y0 + a.spec_span(y0, x0), a.spec_succ(y0, x0))) by {
                assert(1 <= a.spec_span(y0, x0) <= a.spec_sentence().len() - y0);
            }
        }
        Some(Token { word, id: node.id, cost: node.cost - succ_cost })
    }

    pub closed spec fn spec_pos(&self) -> int {
        self.y as int
    }

    pub closed spec fn spec_slot(&self) -> int {
        self.x as int
    }

    pub closed spec fn spec_analyzed(&self) -> &'a Analyzed {
        self.analyzed
    }
}

/// Whether every entry the dictionary can yield keeps its context ids inside
/// the matrix dimensions.
pub open spec fn dic_in_range<K: AsUsize, D: PrefixMap<K, Info>>(dic: &D, matrix: &Matrix) -> bool {
    forall|k: Seq<K>, j: int|
        0 <= j < dic.lookup(k).len() ==> (#[trigger] dic.lookup(k)[j]).left_id < matrix.width
            && dic.lookup(k)[j].right_id < matrix.height
}

/// The fixed fallback word entry.
pub open spec fn unknown_entry() -> Info {
    Info { left_id: UNKNOWN_ID, right_id: UNKNOWN_ID, cost: UNKNOWN_COST }
}

/// Whether no dictionary key matches any prefix of the suffix at `pos`.
pub open spec fn no_entry_at<D: PrefixMap<u16, Info>>(dic: &D, sent: Seq<u16>, pos: int) -> bool {
    forall|l: int|
        1 <= l <= sent.len() - pos ==> (#[trigger] dic.lookup(
            sent.subrange(pos, pos + l),
        )).len() == 0
}

/// Whether some position of the sentence has no dictionary entry at any
/// prefix length, so the unknown-word fallback must fire.
pub open spec fn needs_fallback<D: PrefixMap<u16, Info>>(dic: &D, sent: Seq<u16>) -> bool {
    exists|ix: int| 0 <= ix < sent.len() && #[trigger] no_entry_at(dic, sent, ix)
}

/// Whether `segs` reads `sent` from `pos` to its end, word by word: every
/// span carries an entry of the dictionary's bucket for exactly that unit
/// range, except that the single-unit fallback entry stands — and only
/// stands — where no dictionary key matches any prefix.
pub open spec fn valid_seg<D: PrefixMap<u16, Info>>(
    dic: &D,
    sent: Seq<u16>,
    pos: int,
    segs: Seq<(int, Info)>,
) -> bool
    decreases segs.len(),
{
    if segs.len() == 0 {
        pos == sent.len()
    } else {
        let l = segs[0].0;
        let e = segs[0].1;
        &&& 1 <= l
        &&& pos + l <= sent.len()
        &&& (dic.lookup(sent.subrange(pos, pos + l)).contains(e) || (l == 1 && e
            == unknown_entry() && no_entry_at(dic, sent, pos)))
        &&& valid_seg(dic, sent, pos + l, segs.drop_first())
    }
}

/// The score of a reading joined from right context `r`: each word's own
/// cost plus the transition into it, the last word joining the boundary
/// context 0.
pub open spec fn path_cost(matrix: &Matrix, r: int, segs: Seq<(int, Info)>) -> int
    decreases segs.len(),
{
    if segs.len() == 0 {
        matrix.spec_get(r, 0)
    } else {
        matrix.spec_get(r, segs[0].1.left_id as int) + segs[0].1.cost + path_cost(
            matrix,
            segs[0].1.right_id as int,
            segs.drop_first(),
        )
    }
}

/// The per-candidate soundness of one column: every candidate reads a real
/// word of the dictionary at its position (or the fallback entry where
/// nothing matches), scores it against its chosen successor per the
/// recurrence, and that successor is a first-encountered minimum over the
/// whole following column.
spec fn col_consistent<D: PrefixMap<u16, Info>>(
    dic: &D,
    matrix: &Matrix,
    sent: Seq<u16>,
    cols: Seq<Seq<Node>>,
    k: int,
) -> bool {
    &&& forall|m: int|
        0 <= m < cols[k].len() ==> {
            let nd = #[trigger] cols[k][m];
            let pos = sent.len() - k;
            let succ = cols[k - nd.len][nd.next as int];
            &&& (dic.lookup(sent.subrange(pos, pos + nd.len)).contains(node_info(nd)) || (nd.len
                == 1 && node_info(nd) == unknown_entry() && no_entry_at(dic, sent, pos)))
            &&& nd.cost == succ.cost + matrix.spec_get(nd.right_id as int, succ.id as int)
                + nd.wcost
            &&& forall|m2: int|
                0 <= m2 < cols[k - nd.len].len() ==> nd.cost <= (#[trigger] cols[k
                    - nd.len][m2]).cost + matrix.spec_get(
                    nd.right_id as int,
                    cols[k - nd.len][m2].id as int,
                ) + nd.wcost
            &&& forall|m2: int|
                0 <= m2 < nd.next ==> (nd.cost as int) < (#[trigger] cols[k - nd.len][m2]).cost
                    + matrix.spec_get(nd.right_id as int, cols[k - nd.len][m2].id as int)
                    + nd.wcost
        }
}

impl Analyzed {
    /// Every candidate of every column is sound for this dictionary and
    /// matrix, and the chosen start is a first-encountered minimum over the
    /// first column, scored from the boundary context.
    pub closed spec fn consistent<D: PrefixMap<u16, Info>>(
        &self,
        dic: &D,
        matrix: &Matrix,
    ) -> bool {
        let cols = views_of(self.nodes@);
        let last = cols[cols.len() - 1];
        &&& forall|k: int|
            1 <= k < cols.len() ==> #[trigger] col_consistent(dic, matrix, self.sentence@, cols, k)
        &&& self.cost as int == last[self.index as int].cost + matrix.spec_get(
            0,
            last[self.index as int].id as int,
        )
        &&& forall|m2: int|
            0 <= m2 < last.len() ==> self.cost as int <= (#[trigger] last[m2]).cost
                + matrix.spec_get(0, last[m2].id as int)
        &&& forall|m2: int|
            0 <= m2 < self.index ==> (self.cost as int) < (#[trigger] last[m2]).cost
                + matrix.spec_get(0, last[m2].id as int)
    }

    /// The segmentation the stored pointers choose, read from a cursor on:
    /// (span, word entry) pairs.
    pub closed spec fn spec_chosen_from(&self, y: int, x: int) -> Seq<(int, Info)>
        decreases self.spec_sentence().len() - y,
    {
        if 0 <= y <= self.spec_sentence().len() {
            let l = self.spec_span(y, x);
            if 1 <= l <= self.spec_sentence().len() - y {
                seq![(l, self.spec_entry(y, x))] + self.spec_chosen_from(y + l, self.spec_succ(y, x))
            } else {
                Seq::empty()
            }
        } else {
            Seq::empty()
        }
    }

    /// The whole chosen segmentation.
    pub closed spec fn spec_chosen(&self) -> Seq<(int, Info)> {
        self.spec_chosen_from(0, self.spec_start_slot())
    }
}

/// The chosen pointers spell out a valid reading of the sentence, and its
/// score from any joining context is the candidate's stored score plus the
/// join.
proof fn lemma_chosen_path<D: PrefixMap<u16, Info>>(
    a: &Analyzed,
    dic: &D,
    matrix: &Matrix,
    y: int,
    x: int,
)
    requires
        a.wf(),
        a.consistent(dic, matrix),
        0 <= y <= a.spec_sentence().len(),
        0 <= x < views_of(a.nodes_view())[a.nodes_view().len() - 1 - y].len(),
    ensures
        valid_seg(dic, a.spec_sentence(), y, a.spec_chosen_from(y, x)),
        forall|r: int| #[trigger] path_cost(matrix, r, a.spec_chosen_from(y, x))
            == matrix.spec_get(r, a.spec_entry(y, x).left_id as int) + a.spec_score(y, x),
    decreases a.spec_sentence().len() - y,
{
    let cols = views_of(a.nodes_view());
    let sent = a.spec_sentence();
    let nn = sent.len() as int;
    let k = cols.len() - 1 - y;
    let nd = cols[k][x];
    if nd.len == 0 {
        assert(k == 0) by {
            if k >= 1 {
                assert(column_ok(cols, k));
                assert(1 <= cols[k][x].len);
            }
        }
        assert(y == nn);
        assert(a.spec_chosen_from(y, x) =~= Seq::<(int, Info)>::empty());
        assert(x == 0);
        assert(nd.id == 0 && nd.cost == 0);
        assert forall|r: int| #[trigger] path_cost(matrix, r, a.spec_chosen_from(y, x))
            == matrix.spec_get(r, a.spec_entry(y, x).left_id as int) + a.spec_score(y, x) by {
            assert(path_cost(matrix, r, Seq::<(int, Info)>::empty()) == matrix.spec_get(r, 0));
        }
    } else {
        assert(k >= 1) by {
            if k == 0 {
                assert(cols[0].len() == 1 && cols[0][0].len == 0);
            }
        }
        assert(column_ok(cols, k));
        assert(1 <= nd.len <= k);
        assert(col_consistent(dic, matrix, sent, cols, k));
        let l = nd.len as int;
        let e = node_info(nd);
        let y2 = y + l;
        let x2 = nd.next as int;
        assert(cols.len() - 1 - y2 == k - l);
        assert(x2 < cols[k - l].len());
        lemma_chosen_path(a, dic, matrix, y2, x2);
        let rest = a.spec_chosen_from(y2, x2);
        let segs = a.spec_chosen_from(y, x);
        assert(segs == seq![(l, e)] + rest);
        assert(segs.len() > 0);
        assert(segs[0] == (l, e));
        assert(segs.drop_first() =~= rest);
        let succ = cols[k - l][x2];
        assert(valid_seg(dic, sent, y, segs)) by {
            assert(sent.len() - k == y);
        }
        assert forall|r: int| #[trigger] path_cost(matrix, r, segs) == matrix.spec_get(
            r,
            e.left_id as int,
        ) + nd.cost as int by {
            assert(path_cost(matrix, r, segs) == matrix.spec_get(r, e.left_id as int) + e.cost
                + path_cost(matrix, e.right_id as int, rest));
            assert(path_cost(matrix, e.right_id as int, rest) == matrix.spec_get(
                e.right_id as int,
                a.spec_entry(y2, x2).left_id as int,
            ) + a.spec_score(y2, x2));
            assert(a.spec_entry(y2, x2).left_id == succ.id);
            assert(a.spec_score(y2, x2) == succ.cost as int);
            assert(nd.cost == succ.cost + matrix.spec_get(nd.right_id as int, succ.id as int)
                + nd.wcost);
        }
    }
}

/// The least suffix cost among a column's candidates when joined from a word
/// with right context `src_id`, together with the first candidate attaining
/// it — first-encountered minimum wins, so bucket order is observable.
fn find_min_cost(src_id: u16, nodes: &Vec<Node>, matrix: &Matrix) -> (r: Option<(usize, i32)>)
    requires
        matrix.wf(),
        src_id < matrix.height,
        forall|j: int| 0 <= j < nodes@.len() ==> (#[trigger] nodes@[j]).id < matrix.width,
        forall|j: int|
            0 <= j < nodes@.len() ==> -0x7FFF_0000 <= (#[trigger] nodes@[j]).cost
                <= 0x7FFF_0000,
    ensures
        (r is Some) <==> nodes@.len() > 0,
        match r {
            Option::Some(p) => {
                &&& p.0 < nodes@.len()
                &&& p.1 as int == nodes@[p.0 as int].cost + matrix.spec_get(
                    src_id as int,
                    nodes@[p.0 as int].id as int,
                )
                &&& forall|j: int|
                    0 <= j < nodes@.len() ==> p.1 as int <= (#[trigger] nodes@[j]).cost
                        + matrix.spec_get(src_id as int, nodes@[j].id as int)
                &&& forall|j: int|
                    0 <= j < p.0 ==> (p.1 as int) < (#[trigger] nodes@[j]).cost + matrix.spec_get(
                        src_id as int,
                        nodes@[j].id as int,
                    )
            },
            Option::None => true,
        },
{
    if nodes.len() == 0 {
        return None;
    }
    let mut best_ix: usize = 0;
    let mut best: i32 = nodes[0].cost + matrix.get(src_id, nodes[0].id) as i32;
    let mut j: usize = 1;
    while j < nodes.len()
        invariant
            matrix.wf(),
            src_id < matrix.height,
            forall|m: int| 0 <= m < nodes@.len() ==> (#[trigger] nodes@[m]).id < matrix.width,
            forall|m: int|
                0 <= m < nodes@.len() ==> -0x7FFF_0000 <= (#[trigger] nodes@[m]).cost
                    <= 0x7FFF_0000,
            1 <= j <= nodes@.len(),
            best_ix < j,
            best as int == nodes@[best_ix as int].cost + matrix.spec_get(
                src_id as int,
                nodes@[best_ix as int].id as int,
            ),
            forall|m: int|
                0 <= m < j ==> best as int <= (#[trigger] nodes@[m]).cost + matrix.spec_get(
                    src_id as int,
                    nodes@[m].id as int,
                ),
            forall|m: int|
                0 <= m < best_ix ==> (best as int) < (#[trigger] nodes@[m]).cost + matrix.spec_get(
                    src_id as int,
                    nodes@[m].id as int,
                ),
        decreases nodes@.len() - j,
    {
        let c = nodes[j].cost + matrix.get(src_id, nodes[j].id) as i32;
        if c < best {
            best = c;
            best_ix = j;
        }
        j += 1;
    }
    Some((best_ix, best))
}

/// Segments a sentence into the minimum-cost word sequence: a dynamic
/// program over suffix start positions, scanning right to left. At each
/// position every dictionary entry that matches a prefix of the suffix
/// becomes a candidate, costed against the already-finished column at the
/// position after the match; positions nothing matches get the single-unit
/// unknown-word fallback, so no column is ever empty. Analysis fails only
/// when the sentence is too long for the cost arithmetic, or when the
/// fallback is needed but its context pair lies outside the matrix.
#[verifier::rlimit(100)]
#[verifier::spinoff_prover]
pub fn analyze<D: PrefixMap<u16, Info>>(sentence: &str, dic: &D, matrix: &Matrix) -> (r: Result<
    Analyzed,
    (),
>)
    requires
        dic.wf(),
        matrix.wf(),
        matrix.height >= 1,
        matrix.width >= 1,
        dic_in_range(dic, matrix),
    ensures
        match r {
            Result::Ok(a) => {
                &&& a.wf()
                &&& a.spec_sentence() == utf16_of(sentence@)
                &&& a.consistent(dic, matrix)
                &&& valid_seg(dic, utf16_of(sentence@), 0, a.spec_chosen())
                &&& a.spec_cost() == path_cost(matrix, 0, a.spec_chosen())
            },
            Result::Err(e) => utf16_of(sentence@).len() > 0x7FFF || (needs_fallback(
                dic,
                utf16_of(sentence@),
            ) && !(UNKNOWN_ID < matrix.height && UNKNOWN_ID < matrix.width)),
        },
{
    let sentence16: Vec<u16> = <str as AsChars<u16>>::as_chars(sentence);
    let ghost sent = sentence16@;
    let n = sentence16.len();
    if n > 0x7FFF {
        return Err(());
    }
    let mut nodes: Vec<Vec<Node>> = Vec::new();
    let mut boundary: Vec<Node> = Vec::new();
    boundary.push(Node::new(0, 0, 0, 0, 0, 0));
    nodes.push(boundary);
    let mut ix = n;
    while ix > 0
        invariant
            dic.wf(),
            matrix.wf(),
            matrix.height >= 1,
            matrix.width >= 1,
            dic_in_range(dic, matrix),
            sent == sentence16@,
            sent == utf16_of(sentence@),
            n == sent.len(),
            n <= 0x7FFF,
            ix <= n,
            nodes@.len() == n - ix + 1,
            views_of(nodes@)[0].len() == 1,
            views_of(nodes@)[0][0].len == 0,
            views_of(nodes@)[0][0].id == 0,
            views_of(nodes@)[0][0].cost == 0,
            forall|k: int|
                1 <= k < nodes@.len() ==> (#[trigger] views_of(nodes@)[
                k]).len() >= 1,
            forall|k: int|
                1 <= k < nodes@.len() ==> column_ok(views_of(nodes@), k),
            forall|k: int|
                1 <= k < nodes@.len() ==> #[trigger] col_consistent(
                    dic,
                    matrix,
                    sent,
                    views_of(nodes@),
                    k,
                ),
            forall|k: int, m: int|
                0 <= k < nodes@.len() && 0 <= m < views_of(nodes@)[k].len()
                    ==> {
                    let nd = #[trigger] views_of(nodes@)[k][m];
                    &&& nd.id < matrix.width
                    &&& -(k * 65536) <= nd.cost <= k * 65536
                },
        decreases ix,
    {
        ix = ix - 1;
        let ghost cols0 = views_of(nodes@);
        let suffix = vstd::slice::slice_subrange(sentence16.as_slice(), ix, n);
        let ghost suf = sent.skip(ix as int);
        proof {
            assert(suffix@ =~= suf);
        }
        let hits = dic.each_prefix(suffix);
        proof {
            assert(<[u16] as AsChars<u16>>::units(suffix) == suffix@);
            assert forall|l: int|
                1 <= l <= suf.len() && (#[trigger] dic.lookup(suf.take(l))).len()
                    > 0 implies exists|j: int|
                0 <= j < hits@.len() && (#[trigger] hits@[j]).0 == l by {
                assert(suffix@.take(l) == suf.take(l));
                assert(dic.lookup(suffix@.take(l)).len() > 0);
            }
        }
        let mut column: Vec<Node> = Vec::new();
        let mut h: usize = 0;
        while h < hits.len()
            invariant
                dic.wf(),
                matrix.wf(),
                matrix.height >= 1,
                matrix.width >= 1,
                dic_in_range(dic, matrix),
                sent == sentence16@,
                n == sent.len(),
                n <= 0x7FFF,
                ix < n,
                suf == sent.skip(ix as int),
                suffix@ == suf,
                nodes@.len() == n - ix,
                h <= hits@.len(),
                forall|j: int|
                    0 <= j < hits@.len() ==> {
                        &&& 1 <= (#[trigger] hits@[j]).0 <= suf.len()
                        &&& hits@[j].1@ == dic.lookup(suffix@.take(hits@[j].0 as int))
                    },
                cols0 == views_of(nodes@),
                forall|k: int| 1 <= k < cols0.len() ==> (#[trigger] cols0[k]).len() >= 1,
                cols0[0].len() == 1,
                cols0[0][0].len == 0,
                cols0[0][0].id == 0,
                cols0[0][0].cost == 0,
                forall|k: int, m: int|
                    0 <= k < cols0.len() && 0 <= m < cols0[k].len() ==> {
                        let nd = #[trigger] cols0[k][m];
                        &&& nd.id < matrix.width
                        &&& -(k * 65536) <= nd.cost <= k * 65536
                    },
                forall|m: int|
                    0 <= m < column@.len() ==> {
                        let nd = #[trigger] column@[m];
                        &&& 1 <= nd.len <= n - ix
                        &&& nd.next < cols0[nodes@.len() - nd.len].len()
                        &&& nd.id < matrix.width
                        &&& -((n - ix) * 65536) <= nd.cost <= (n - ix) * 65536
                        &&& -0x10000 <= nd.cost - cols0[nodes@.len() - nd.len][nd.next as int].cost
                            <= 0x10000
                    },
                forall|m: int|
                    0 <= m < column@.len() ==> {
                        let nd = #[trigger] column@[m];
                        let succ = cols0[nodes@.len() - nd.len][nd.next as int];
                        &&& dic.lookup(sent.subrange(ix as int, ix as int + nd.len)).contains(
                            node_info(nd),
                        )
                        &&& nd.cost == succ.cost + matrix.spec_get(
                            nd.right_id as int,
                            succ.id as int,
                        ) + nd.wcost
                        &&& forall|m2: int|
                            0 <= m2 < cols0[nodes@.len() - nd.len].len() ==> nd.cost <= (
                            #[trigger] cols0[nodes@.len() - nd.len][m2]).cost + matrix.spec_get(
                                nd.right_id as int,
                                cols0[nodes@.len() - nd.len][m2].id as int,
                            ) + nd.wcost
                        &&& forall|m2: int|
                            0 <= m2 < nd.next ==> (nd.cost as int) < (#[trigger] cols0[nodes@.len()
                                - nd.len][m2]).cost + matrix.spec_get(
                                nd.right_id as int,
                                cols0[nodes@.len() - nd.len][m2].id as int,
                            ) + nd.wcost
                    },
                column@.len() == 0 ==> forall|j: int|
                    0 <= j < h ==> (#[trigger] hits@[j]).1@.len() == 0,
                forall|l: int|
                    1 <= l <= suf.len() && (#[trigger] dic.lookup(suf.take(l))).len() > 0
                        ==> exists|j: int| 0 <= j < hits@.len() && (#[trigger] hits@[j]).0 == l,
            decreases hits@.len() - h,
        {
            let hit_len = hits[h].0;
            let info_list = &hits[h].1;
            let ghost hkey = suffix@.take(hit_len as int);
            let mut q: usize = 0;
            while q < info_list.len()
                invariant
                    dic.wf(),
                    matrix.wf(),
                    matrix.height >= 1,
                    matrix.width >= 1,
                    dic_in_range(dic, matrix),
                    sent == sentence16@,
                    n == sent.len(),
                    n <= 0x7FFF,
                    ix < n,
                    nodes@.len() == n - ix,
                    1 <= hit_len as int <= n - ix,
                    info_list@ == dic.lookup(hkey),
                    q <= info_list@.len(),
                    column@.len() >= q,
                    cols0 == views_of(nodes@),
                    forall|k: int| 1 <= k < cols0.len() ==> (#[trigger] cols0[k]).len() >= 1,
                    cols0[0].len() == 1,
                    cols0[0][0].len == 0,
                    cols0[0][0].id == 0,
                    cols0[0][0].cost == 0,
                    forall|k: int, m: int|
                        0 <= k < cols0.len() && 0 <= m < cols0[k].len() ==> {
                            let nd = #[trigger] cols0[k][m];
                            &&& nd.id < matrix.width
                            &&& -(k * 65536) <= nd.cost <= k * 65536
                        },
                    forall|m: int|
                        0 <= m < column@.len() ==> {
                            let nd = #[trigger] column@[m];
                            &&& 1 <= nd.len <= n - ix
                            &&& nd.next < cols0[nodes@.len() - nd.len].len()
                            &&& nd.id < matrix.width
                            &&& -((n - ix) * 65536) <= nd.cost <= (n - ix) * 65536
                            &&& -0x10000 <= nd.cost - cols0[nodes@.len() - nd.len][nd.next as int].cost
                                <= 0x10000
                        },
                    forall|m: int|
                        0 <= m < column@.len() ==> {
                            let nd = #[trigger] column@[m];
                            let succ = cols0[nodes@.len() - nd.len][nd.next as int];
                            &&& dic.lookup(sent.subrange(ix as int, ix as int + nd.len)).contains(
                                node_info(nd),
                            )
                            &&& nd.cost == succ.cost + matrix.spec_get(
                                nd.right_id as int,
                                succ.id as int,
                            ) + nd.wcost
                            &&& forall|m2: int|
                                0 <= m2 < cols0[nodes@.len() - nd.len].len() ==> nd.cost <= (
                                #[trigger] cols0[nodes@.len() - nd.len][m2]).cost
                                    + matrix.spec_get(
                                    nd.right_id as int,
                                    cols0[nodes@.len() - nd.len][m2].id as int,
                                ) + nd.wcost
                            &&& forall|m2: int|
                                0 <= m2 < nd.next ==> (nd.cost as int) < (#[trigger] cols0[
                                nodes@.len() - nd.len][m2]).cost + matrix.spec_get(
                                    nd.right_id as int,
                                    cols0[nodes@.len() - nd.len][m2].id as int,
                                ) + nd.wcost
                        },
                    column@.len() == 0 ==> forall|j: int|
                        0 <= j < h ==> (#[trigger] hits@[j]).1@.len() == 0,
                    suffix@ == suf,
                    suf == sent.skip(ix as int),
                    hkey == suffix@.take(hit_len as int),
                    hits@[h as int].1@ == info_list@,
                    hits@[h as int].0 == hit_len,
                    forall|j: int|
                        0 <= j < hits@.len() ==> {
                            &&& 1 <= (#[trigger] hits@[j]).0 <= suf.len()
                            &&& hits@[j].1@ == dic.lookup(suffix@.take(hits@[j].0 as int))
                        },
                decreases info_list@.len() - q,
            {
                let info = info_list[q];
                proof {
                    assert(dic.lookup(hkey)[q as int] == info);
                }
                let search_nodes = &nodes[nodes.len() - hit_len];
                proof {
                    let sidx = nodes@.len() - hit_len as int;
                    assert(views_of(nodes@)[sidx] == nodes@[sidx]@);
                    assert(search_nodes@ == cols0[sidx]);
                    assert(cols0[sidx].len() >= 1) by {
                        if sidx == 0 {
                            assert(cols0[0].len() == 1);
                        }
                    }
                    assert forall|m: int|
                        0 <= m < search_nodes@.len() implies -0x7FFF_0000 <= (
                    #[trigger] search_nodes@[m]).cost <= 0x7FFF_0000 by {
                        assert(search_nodes@[m] == cols0[sidx][m]);
                        assert(-(sidx * 65536) <= cols0[sidx][m].cost <= sidx * 65536);
                        assert(sidx <= n - 1);
                        assert(sidx * 65536 <= (n - 1) * 65536) by (nonlinear_arith)
                            requires
                                sidx <= n - 1,
                                sidx >= 0,
                        ;
                    }
                }
                match find_min_cost(info.right_id, search_nodes, matrix) {
                    Option::Some(p) => {
                        let min_cost = p.1;
                        proof {
                            let sidx = nodes@.len() - hit_len as int;
                            assert(search_nodes@ == cols0[sidx]);
                            assert(min_cost as int == search_nodes@[p.0 as int].cost
                                + matrix.spec_get(
                                info.right_id as int,
                                search_nodes@[p.0 as int].id as int,
                            ));
                            assert(-(sidx * 65536) <= search_nodes@[p.0 as int].cost <= sidx
                                * 65536);
                            assert((sidx + 1) * 65536 == sidx * 65536 + 65536) by (
                            nonlinear_arith);
                            assert(sidx + 1 <= n - ix);
                            assert((sidx + 1) * 65536 <= (n - ix) * 65536) by (nonlinear_arith)
                                requires
                                    sidx + 1 <= n - ix,
                                    sidx >= 0,
                            ;
                            assert(-((n - ix) * 65536) <= min_cost as int + info.cost as int <= (
                            n - ix) * 65536);
                            assert((n - ix) * 65536 <= 0x7FFF_0000) by (nonlinear_arith)
                                requires
                                    n - ix <= 0x7FFF,
                                    n - ix >= 0,
                            ;
                            assert(-0x10000 <= (min_cost as int + info.cost as int)
                                - search_nodes@[p.0 as int].cost <= 0x10000);
                            assert(sent.subrange(ix as int, ix as int + hit_len as int)
                                =~= suffix@.take(hit_len as int));
                            assert(hkey == sent.subrange(ix as int, ix as int + hit_len as int));
                            assert(dic.lookup(hkey)[q as int] == info);
                            assert(dic.lookup(hkey).contains(info));
                        }
                        let ghost c0 = column@;
                        column.push(
                            Node::new(
                                info.left_id,
                                info.right_id,
                                info.cost,
                                min_cost + info.cost as i32,
                                hit_len,
                                p.0,
                            ),
                        );
                        proof {
                            assert(column@ == c0.push(column@.last()));
                            assert(node_info(column@[c0.len() as int]) == info);
                            assert(forall|m: int|
                                0 <= m < c0.len() ==> #[trigger] column@[m] == c0[m]);
                        }
                    },
                    Option::None => {
                        // the scored column is never empty
                        proof {
                            assert(false);
                        }
                    },
                }
                q += 1;
            }
            proof {
                if column@.len() == 0 {
                    assert(info_list@.len() == 0);
                    assert forall|j: int| 0 <= j < h + 1 implies (#[trigger] hits@[j]).1@.len()
                        == 0 by {
                        if j == h as int {
                            assert(hits@[j].1@ == info_list@);
                        }
                    }
                }
            }
            h += 1;
        }
        if column.len() == 0 {
            // unknown-word fallback: a single-unit pseudo-entry so the
            // lattice never dead-ends
            proof {
                assert(no_entry_at(dic, sent, ix as int)) by {
                    assert forall|l: int|
                        1 <= l <= sent.len() - ix implies (#[trigger] dic.lookup(
                        sent.subrange(ix as int, ix as int + l),
                    )).len() == 0 by {
                        assert(sent.subrange(ix as int, ix as int + l) =~= suf.take(l));
                        assert(suffix@.take(l) == suf.take(l));
                        if dic.lookup(suf.take(l)).len() > 0 {
                            let j = choose|j: int|
                                0 <= j < hits@.len() && (#[trigger] hits@[j]).0 == l;
                            assert(hits@[j].1@.len() == 0);
                            assert(hits@[j].1@ == dic.lookup(suffix@.take(l)));
                        }
                    }
                }
                assert(needs_fallback(dic, sent)) by {
                    assert(0 <= ix < sent.len());
                }
            }
            if UNKNOWN_ID >= matrix.height || UNKNOWN_ID >= matrix.width {
                return Err(());
            }
            let info = Info::new(UNKNOWN_ID, UNKNOWN_ID, UNKNOWN_COST);
            let search_nodes = &nodes[nodes.len() - 1];
            proof {
                let sidx = nodes@.len() - 1;
                assert(views_of(nodes@)[sidx] == nodes@[sidx]@);
                assert(search_nodes@ == cols0[sidx]);
                assert(cols0[sidx].len() >= 1) by {
                    if sidx == 0 {
                        assert(cols0[0].len() == 1);
                    }
                }
                assert forall|m: int|
                    0 <= m < search_nodes@.len() implies -0x7FFF_0000 <= (
                #[trigger] search_nodes@[m]).cost <= 0x7FFF_0000 by {
                    assert(search_nodes@[m] == cols0[sidx][m]);
                    assert(-(sidx * 65536) <= cols0[sidx][m].cost <= sidx * 65536);
                    assert(sidx <= n - 1);
                    assert(sidx * 65536 <= (n - 1) * 65536) by (nonlinear_arith)
                        requires
                            sidx <= n - 1,
                            sidx >= 0,
                    ;
                }
            }
            match find_min_cost(info.right_id, search_nodes, matrix) {
                Option::Some(p) => {
                    let min_cost = p.1;
                    proof {
                        let sidx = nodes@.len() - 1;
                        assert(search_nodes@ == cols0[sidx]);
                        assert(min_cost as int == search_nodes@[p.0 as int].cost
                            + matrix.spec_get(
                            info.right_id as int,
                            search_nodes@[p.0 as int].id as int,
                        ));
                        assert(-(sidx * 65536) <= search_nodes@[p.0 as int].cost <= sidx * 65536);
                        assert((sidx + 1) * 65536 == sidx * 65536 + 65536) by (nonlinear_arith);
                        assert(sidx + 1 == n - ix);
                        assert(-((n - ix) * 65536) <= min_cost as int + info.cost as int <= (n
                            - ix) * 65536);
                        assert((n - ix) * 65536 <= 0x7FFF_0000) by (nonlinear_arith)
                            requires
                                n - ix <= 0x7FFF,
                                n - ix >= 0,
                        ;
                        assert(-0x10000 <= (min_cost as int + info.cost as int)
                            - search_nodes@[p.0 as int].cost <= 0x10000);
                        assert(info == unknown_entry());
                        assert(no_entry_at(dic, sent, ix as int));
                    }
                    let ghost col0 = column@;
                    column.push(
                        Node::new(
                            info.left_id,
                            info.right_id,
                            info.cost,
                            min_cost + info.cost as i32,
                            1,
                            p.0,
                        ),
                    );
                    proof {
                        assert(col0.len() == 0);
                        assert(column@.len() == 1);
                        assert(node_info(column@[0]) == unknown_entry());
                        assert(column@[0].len == 1);
                    }
                },
                Option::None => {
                    proof {
                        assert(cols0[nodes@.len() - 1].len() >= 1) by {
                            if nodes@.len() - 1 == 0 {
                            }
                        }
                        assert(false);
                    }
                },
            }
        }
        let ghost colv = column@;
        nodes.push(column);
        proof {
            let cols1 = views_of(nodes@);
            assert(cols1 =~= cols0.push(colv));
            assert(cols1[cols1.len() - 1] == colv);
            assert forall|k: int|
                1 <= k < cols1.len() implies #[trigger] col_consistent(
                dic,
                matrix,
                sent,
                cols1,
                k,
            ) by {
                if k < cols1.len() - 1 {
                    assert(col_consistent(dic, matrix, sent, cols0, k));
                    assert(cols1[k] == cols0[k]);
                    assert forall|m: int| 0 <= m < cols1[k].len() implies {
                        let nd = #[trigger] cols1[k][m];
                        let pos = sent.len() - k;
                        let succ = cols1[k - nd.len][nd.next as int];
                        &&& (dic.lookup(sent.subrange(pos, pos + nd.len)).contains(node_info(nd))
                            || (nd.len == 1 && node_info(nd) == unknown_entry() && no_entry_at(
                            dic,
                            sent,
                            pos,
                        )))
                        &&& nd.cost == succ.cost + matrix.spec_get(
                            nd.right_id as int,
                            succ.id as int,
                        ) + nd.wcost
                        &&& forall|m2: int|
                            0 <= m2 < cols1[k - nd.len].len() ==> nd.cost <= (#[trigger] cols1[k
                                - nd.len][m2]).cost + matrix.spec_get(
                                nd.right_id as int,
                                cols1[k - nd.len][m2].id as int,
                            ) + nd.wcost
                        &&& forall|m2: int|
                            0 <= m2 < nd.next ==> (nd.cost as int) < (#[trigger] cols1[k
                                - nd.len][m2]).cost + matrix.spec_get(
                                nd.right_id as int,
                                cols1[k - nd.len][m2].id as int,
                            ) + nd.wcost
                    } by {
                        assert(column_ok(cols0, k));
                        assert(cols0[k][m] == cols1[k][m]);
                        assert(1 <= cols0[k][m].len <= k);
                        assert(cols1[k - cols0[k][m].len] == cols0[k - cols0[k][m].len]);
                    }
                } else {
                    assert(cols1[k] == colv);
                    assert(sent.len() - k == ix as int);
                    assert forall|m: int| 0 <= m < cols1[k].len() implies {
                        let nd = #[trigger] cols1[k][m];
                        let pos = sent.len() - k;
                        let succ = cols1[k - nd.len][nd.next as int];
                        &&& (dic.lookup(sent.subrange(pos, pos + nd.len)).contains(node_info(nd))
                            || (nd.len == 1 && node_info(nd) == unknown_entry() && no_entry_at(
                            dic,
                            sent,
                            pos,
                        )))
                        &&& nd.cost == succ.cost + matrix.spec_get(
                            nd.right_id as int,
                            succ.id as int,
                        ) + nd.wcost
                        &&& forall|m2: int|
                            0 <= m2 < cols1[k - nd.len].len() ==> nd.cost <= (#[trigger] cols1[k
                                - nd.len][m2]).cost + matrix.spec_get(
                                nd.right_id as int,
                                cols1[k - nd.len][m2].id as int,
                            ) + nd.wcost
                        &&& forall|m2: int|
                            0 <= m2 < nd.next ==> (nd.cost as int) < (#[trigger] cols1[k
                                - nd.len][m2]).cost + matrix.spec_get(
                                nd.right_id as int,
                                cols1[k - nd.len][m2].id as int,
                            ) + nd.wcost
                    } by {
                        assert(colv[m].len <= n - ix);
                        assert(cols1[k - colv[m].len] == cols0[k - colv[m].len]);
                    }
                }
            }
            assert forall|k: int| 1 <= k < cols1.len() implies column_ok(cols1, k) by {
                if k < cols1.len() - 1 {
                    assert(cols1[k] == cols0[k]);
                    assert(column_ok(cols0, k));
                    assert forall|m: int| 0 <= m < cols1[k].len() implies {
                        let nd = #[trigger] cols1[k][m];
                        &&& 1 <= nd.len <= k
                        &&& nd.next < cols1[k - nd.len].len()
                        &&& -0x10000 <= nd.cost - cols1[k - nd.len][nd.next as int].cost
                            <= 0x10000
                    } by {
                        assert(cols0[k][m] == cols1[k][m]);
                        assert(cols1[k - cols0[k][m].len] == cols0[k - cols0[k][m].len]);
                    }
                } else {
                    assert forall|m: int| 0 <= m < cols1[k].len() implies {
                        let nd = #[trigger] cols1[k][m];
                        &&& 1 <= nd.len <= k
                        &&& nd.next < cols1[k - nd.len].len()
                        &&& -0x10000 <= nd.cost - cols1[k - nd.len][nd.next as int].cost
                            <= 0x10000
                    } by {
                        assert(colv[m].len <= n - ix);
                        assert(cols1[k - colv[m].len] == cols0[k - colv[m].len]);
                    }
                }
            }
        }
    }
    let last = &nodes[nodes.len() - 1];
    proof {
        assert(views_of(nodes@)[nodes@.len() - 1] == last@);
        if nodes@.len() - 1 == 0 {
            assert(last@.len() == 1);
        } else {
            assert(last@.len() >= 1);
        }
        assert(nodes@.len() == n + 1);
        let lidx = nodes@.len() - 1;
        assert forall|m: int|
            0 <= m < last@.len() implies -0x7FFF_0000 <= (#[trigger] last@[m]).cost
            <= 0x7FFF_0000 by {
            assert(last@[m] == views_of(nodes@)[lidx][m]);
            assert(-(lidx * 65536) <= views_of(nodes@)[lidx][m].cost <= lidx * 65536);
            assert(lidx <= 0x7FFF);
            assert(lidx * 65536 <= 0x7FFF * 65536) by (nonlinear_arith)
                requires
                    lidx <= 0x7FFF,
                    lidx >= 0,
            ;
        }
    }
    match find_min_cost(0, last, matrix) {
        Option::Some(p) => {
            let a = Analyzed { sentence: sentence16, nodes, cost: p.1, index: p.0 };
            proof {
                let cols = views_of(a.nodes_view());
                assert(a.wf());
                assert(a.consistent(dic, matrix)) by {
                    assert(cols == views_of(nodes@));
                    assert(cols[cols.len() - 1] == last@);
                }
                lemma_chosen_path(&a, dic, matrix, 0, a.index as int);
                assert(a.spec_chosen() == a.spec_chosen_from(0, a.index as int));
                assert(a.cost as int == path_cost(matrix, 0, a.spec_chosen())) by {
                    assert(path_cost(matrix, 0, a.spec_chosen_from(0, a.index as int))
                        == matrix.spec_get(0, a.spec_entry(0, a.index as int).left_id as int)
                        + a.spec_score(0, a.index as int));
                    assert(a.spec_entry(0, a.index as int).left_id == last@[a.index as int].id);
                    assert(a.spec_score(0, a.index as int) == last@[a.index as int].cost as int);
                }
                assert(valid_seg(dic, utf16_of(sentence@), 0, a.spec_chosen())) by {
                    assert(a.spec_sentence() == utf16_of(sentence@));
                }
            }
            Ok(a)
        },
        Option::None => {
            proof {
                assert(false);
            }
            Err(())
        },
    }
}

} // verus!
