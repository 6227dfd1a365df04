//! The atomic renderable and clickable unit of the status line, and the
//! sequence-level arithmetic its layout relies on.

use vstd::prelude::*;

verus! {

/// One rendered piece of the line: its text, its display width in terminal
/// columns, and, when it is interactive, the tab position a click should
/// jump toward.
#[derive(Clone, Debug, PartialEq, Eq)]
pub struct Segment {
    pub content: String,
    pub width: usize,
    pub tab_ref: Option<usize>,
}

/// Mathematical model of a segment.
pub ghost struct SegModel {
    pub content: Seq<char>,
    pub width: nat,
    pub tab_ref: Option<int>,
}

impl View for Segment {
    type V = SegModel;

    open spec fn view(&self) -> SegModel {
        SegModel {
            content: self.content@,
            width: self.width as nat,
            tab_ref: match self.tab_ref {
                Some(p) => Some(p as int),
                None => None,
            },
        }
    }
}

/// The models of a sequence of segments.
pub open spec fn segs(s: Seq<Segment>) -> Seq<SegModel> {
    s.map_values(|x: Segment| x@)
}

/// Total display width of a sequence of segments.
pub open spec fn sum_w(s: Seq<SegModel>) -> int
    decreases s.len(),
{
    if s.len() == 0 {
        0
    } else {
        s[0].width + sum_w(s.drop_first())
    }
}

/// Number of occurrences of a segment model in a sequence.
pub open spec fn occ(s: Seq<SegModel>, x: SegModel) -> int
    decreases s.len(),
{
    if s.len() == 0 {
        0
    } else {
        (if s[0] == x {
            1int
        } else {
            0int
        }) + occ(s.drop_first(), x)
    }
}

pub proof fn lemma_sum_w_nonneg(s: Seq<SegModel>)
    ensures
        sum_w(s) >= 0,
    decreases s.len(),
{
    if s.len() > 0 {
        lemma_sum_w_nonneg(s.drop_first());
    }
}

pub proof fn lemma_sum_w_concat(a: Seq<SegModel>, b: Seq<SegModel>)
    ensures
        sum_w(a + b) == sum_w(a) + sum_w(b),
    decreases a.len(),
{
    if a.len() == 0 {
        assert(a + b =~= b);
    } else {
        assert((a + b).drop_first() =~= a.drop_first() + b);
        lemma_sum_w_concat(a.drop_first(), b);
    }
}

pub proof fn lemma_occ_concat(a: Seq<SegModel>, b: Seq<SegModel>, x: SegModel)
    ensures
        occ(a + b, x) == occ(a, x) + occ(b, x),
    decreases a.len(),
{
    if a.len() == 0 {
        assert(a + b =~= b);
    } else {
        assert((a + b).drop_first() =~= a.drop_first() + b);
        lemma_occ_concat(a.drop_first(), b, x);
    }
}

/// A sequence none of whose elements equals `x` holds no occurrence of it.
pub proof fn lemma_occ_none(s: Seq<SegModel>, x: SegModel)
    requires
        forall|i: int| 0 <= i < s.len() ==> s[i] != x,
    ensures
        occ(s, x) == 0,
    decreases s.len(),
{
    if s.len() > 0 {
        assert(forall|i: int|
            0 <= i < s.drop_first().len() ==> #[trigger] s.drop_first()[i] == s[i + 1]);
        lemma_occ_none(s.drop_first(), x);
    }
}

pub proof fn lemma_occ_singleton(y: SegModel, x: SegModel)
    ensures
        occ(seq![y], x) == (if y == x {
            1int
        } else {
            0int
        }),
{
    assert(seq![y].drop_first() =~= Seq::<SegModel>::empty());
    assert(occ(Seq::<SegModel>::empty(), x) == 0);
    assert(seq![y][0] == y);
}

/// Sum of the widths of the given segments.
pub fn get_current_title_len(current_title: &Vec<Segment>) -> (r: usize)
    requires
        sum_w(segs(current_title@)) <= usize::MAX,
    ensures
        r == sum_w(segs(current_title@)),
{
    let mut total: usize = 0;
    let mut i: usize = 0;
    proof {
        assert(segs(current_title@).skip(0) =~= segs(current_title@));
        lemma_sum_w_nonneg(segs(current_title@));
    }
    while i < current_title.len()
        invariant
            0 <= i <= current_title@.len(),
            sum_w(segs(current_title@)) <= usize::MAX,
            total + sum_w(segs(current_title@).skip(i as int)) == sum_w(segs(current_title@)),
            total >= 0,
        decreases current_title@.len() - i,
    {
        proof {
            let rest = segs(current_title@).skip(i as int);
            assert(rest[0] == current_title@[i as int]@);
            assert(rest.drop_first() =~= segs(current_title@).skip(i + 1));
            lemma_sum_w_nonneg(rest.drop_first());
        }
        total = total + current_title[i].width;
        i = i + 1;
    }
    proof {
        assert(segs(current_title@).skip(current_title@.len() as int)
            =~= Seq::<SegModel>::empty());
    }
    total
}

} // verus!
