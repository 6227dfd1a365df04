//! The line composer: which tabs are visible within the column budget, with
//! collapse indicators for the hidden ones.

use vstd::prelude::*;
use vstd::string::{StrSliceExecFns, StringExecFns};

use crate::config::{has_mode, lookup_mode, mode_label, InputMode, UserConfiguration};
use crate::segment::{lemma_occ_concat, lemma_occ_none, lemma_occ_singleton, occ, segs, sum_w, lemma_sum_w_concat, lemma_sum_w_nonneg, Segment, SegModel};
use crate::text::{dec_str, join_dash, join_dash_range, lemma_dec_str_len_bound,
    lemma_dec_str_len_mono, lemma_split_dash_len, lemma_split_join_roundtrip, pow10, split_dash,
    split_dash_exec, strs, usize_to_string};
use crate::width::{display_width, display_width_of};

verus! {

/// The segment drawn when nothing is collapsed on a side: empty text,
/// zero width, not clickable.
pub open spec fn empty_seg() -> SegModel {
    SegModel { content: Seq::empty(), width: 0, tab_ref: None }
}

/// Text of the left collapse indicator for `n >= 1` hidden tabs.
pub open spec fn lind_text(n: int) -> Seq<char> {
    if n < 10000 {
        " ← +"@ + dec_str(n as nat) + " "@
    } else {
        " ← +many "@
    }
}

/// Text of the right collapse indicator for `n >= 1` hidden tabs.
pub open spec fn rind_text(n: int) -> Seq<char> {
    if n < 10000 {
        " +"@ + dec_str(n as nat) + " → "@
    } else {
        " +many → "@
    }
}

/// Width of the left indicator for `n` hidden tabs (zero when none hide).
pub open spec fn l_more_w(n: int) -> int {
    if n <= 0 {
        0
    } else {
        lind_text(n).len() as int
    }
}

pub open spec fn r_more_w(n: int) -> int {
    if n <= 0 {
        0
    } else {
        rind_text(n).len() as int
    }
}

/// The left indicator segment for `n >= 1` hidden tabs, pointing at the tab
/// adjacent to the collapsed run.
pub open spec fn lind_seg(n: int, adj: int) -> SegModel {
    SegModel { content: lind_text(n), width: lind_text(n).len(), tab_ref: Some(adj) }
}

pub open spec fn rind_seg(n: int, adj: int) -> SegModel {
    SegModel { content: rind_text(n), width: rind_text(n).len(), tab_ref: Some(adj) }
}

pub open spec fn l_more_model(n: int, adj: int) -> SegModel {
    if n == 0 {
        empty_seg()
    } else {
        lind_seg(n, adj)
    }
}

pub open spec fn r_more_model(n: int, adj: int) -> SegModel {
    if n == 0 {
        empty_seg()
    } else {
        rind_seg(n, adj)
    }
}

/// The left indicator as inserted at finalization: present only when tabs
/// hide on that side.
pub open spec fn l_opt(n: int) -> Seq<SegModel> {
    if n == 0 {
        Seq::empty()
    } else {
        seq![lind_seg(n, n - 1)]
    }
}

pub open spec fn r_opt(n: int, adj: int) -> Seq<SegModel> {
    if n == 0 {
        Seq::empty()
    } else {
        seq![rind_seg(n, adj)]
    }
}

/// Indicator widths are at most nine columns.
pub proof fn lemma_ind_w_bounds(n: int)
    ensures
        0 <= l_more_w(n) <= 9,
        0 <= r_more_w(n) <= 9,
        n >= 1 ==> l_more_w(n) == lind_text(n).len(),
        n >= 1 ==> r_more_w(n) == rind_text(n).len(),
{
    reveal_strlit(" ← +");
    reveal_strlit(" +");
    reveal_strlit(" ");
    reveal_strlit(" → ");
    reveal_strlit(" ← +many ");
    reveal_strlit(" +many → ");
    if n >= 1 && n < 10000 {
        assert(pow10(4) == 10000) by {
            reveal_with_fuel(pow10, 5);
        }
        lemma_dec_str_len_bound(n as nat, 4);
    }
}

/// Releasing one hidden tab never widens that side's indicator.
pub proof fn lemma_l_more_w_mono(n: int)
    requires
        n >= 1,
    ensures
        l_more_w(n - 1) <= l_more_w(n),
        r_more_w(n - 1) <= r_more_w(n),
{
    reveal_strlit(" ← +");
    reveal_strlit(" +");
    reveal_strlit(" ");
    reveal_strlit(" → ");
    reveal_strlit(" ← +many ");
    reveal_strlit(" +many → ");
    if n == 1 {
        lemma_ind_w_bounds(n);
    } else if n < 10000 {
        lemma_dec_str_len_mono((n - 1) as nat, n as nat);
    } else if n == 10000 {
        assert(dec_str(9999nat).len() == 4) by {
            reveal_with_fuel(dec_str, 5);
        }
    } else {
    }
}

/// Builds the left collapse indicator: empty when no tab hides on the left,
/// otherwise " ← +{n} " (or " ← +many " for ten thousand and more), one
/// column per character, pointing at tab `tab_index`.
pub fn left_more_message(tab_count_to_the_left: usize, tab_index: usize) -> (seg: Segment)
    ensures
        seg@ == l_more_model(tab_count_to_the_left as int, tab_index as int),
{
    if tab_count_to_the_left == 0 {
        let seg = Segment { content: String::new(), width: 0, tab_ref: None };
        proof {
            assert(seg@ == empty_seg());
        }
        return seg;
    }
    let more_text = if tab_count_to_the_left < 10000 {
        let mut t = " ← +".to_owned();
        t.append(usize_to_string(tab_count_to_the_left).as_str());
        t.append(" ");
        t
    } else {
        " ← +many ".to_owned()
    };
    proof {
        assert(more_text@ == lind_text(tab_count_to_the_left as int));
    }
    let more_text_len = more_text.as_str().unicode_len();
    Segment { content: more_text, width: more_text_len, tab_ref: Some(tab_index) }
}

/// Builds the right collapse indicator, " +{n} → " / " +many → ".
pub fn right_more_message(tab_count_to_the_right: usize, tab_index: usize) -> (seg: Segment)
    ensures
        seg@ == r_more_model(tab_count_to_the_right as int, tab_index as int),
{
    if tab_count_to_the_right == 0 {
        let seg = Segment { content: String::new(), width: 0, tab_ref: None };
        proof {
            assert(seg@ == empty_seg());
        }
        return seg;
    }
    let more_text = if tab_count_to_the_right < 10000 {
        let mut t = " +".to_owned();
        t.append(usize_to_string(tab_count_to_the_right).as_str());
        t.append(" → ");
        t
    } else {
        " +many → ".to_owned()
    };
    proof {
        assert(more_text@ == rind_text(tab_count_to_the_right as int));
    }
    let more_text_len = more_text.as_str().unicode_len();
    Segment { content: more_text, width: more_text_len, tab_ref: Some(tab_index) }
}

/// Whether the minimal frame — both indicators around the placed tabs —
/// still fits the budget.
pub open spec fn frame_fits(
    before: Seq<SegModel>,
    after: Seq<SegModel>,
    rendered: Seq<SegModel>,
    cols: int,
) -> bool {
    l_more_w(before.len() as int) + sum_w(rendered) + r_more_w(after.len() as int) <= cols
}

/// Whether the next left tab can be placed: adding its width to the frame —
/// minus the left indicator's width when that tab is the last one hidden,
/// since placing it makes the indicator disappear — stays within budget.
pub open spec fn left_eligible(
    before: Seq<SegModel>,
    after: Seq<SegModel>,
    rendered: Seq<SegModel>,
    cols: int,
) -> bool {
    let total = l_more_w(before.len() as int) + sum_w(rendered) + r_more_w(after.len() as int);
    let disc: int = if before.len() == 1 {
        l_more_w(1)
    } else {
        0
    };
    before.len() > 0 && total - disc + before.last().width <= cols
}

pub open spec fn right_eligible(
    before: Seq<SegModel>,
    after: Seq<SegModel>,
    rendered: Seq<SegModel>,
    cols: int,
) -> bool {
    let total = l_more_w(before.len() as int) + sum_w(rendered) + r_more_w(after.len() as int);
    let disc: int = if after.len() == 1 {
        r_more_w(1)
    } else {
        0
    };
    after.len() > 0 && total - disc + after.first().width <= cols
}

/// State after composing: the rendered sequence, what remains hidden on each
/// side, the accumulated widths, and whether the loop finalized by inserting
/// indicators (as opposed to stopping because the frame itself overflowed).
pub ghost struct ComposeSt {
    pub rendered: Seq<SegModel>,
    pub before: Seq<SegModel>,
    pub after: Seq<SegModel>,
    pub tl: int,
    pub tr: int,
    pub indicators: bool,
}

/// The composer's fixed-point loop: grow the rendered middle with the next
/// left or right tab — preferring the side with less accumulated width, or
/// the only eligible one — until neither side fits, then frame the result
/// with the collapse indicators.
pub open spec fn compose_st(
    before: Seq<SegModel>,
    after: Seq<SegModel>,
    rendered: Seq<SegModel>,
    tl: int,
    tr: int,
    cols: int,
) -> ComposeSt
    decreases before.len() + after.len(),
{
    if !frame_fits(before, after, rendered, cols) {
        ComposeSt { rendered, before, after, tl, tr, indicators: false }
    } else {
        let l_ok = left_eligible(before, after, rendered, cols);
        let r_ok = right_eligible(before, after, rendered, cols);
        if (tl <= tr || !r_ok) && l_ok {
            compose_st(
                before.drop_last(),
                after,
                seq![before.last()] + rendered,
                tl + before.last().width,
                tr,
                cols,
            )
        } else if r_ok {
            compose_st(
                before,
                after.drop_first(),
                rendered.push(after.first()),
                tl,
                tr + after.first().width,
                cols,
            )
        } else {
            ComposeSt {
                rendered: l_opt(before.len() as int) + rendered + r_opt(
                    after.len() as int,
                    before.len() + rendered.len() as int,
                ),
                before,
                after,
                tl,
                tr,
                indicators: true,
            }
        }
    }
}

/// Moves tabs from `tabs_before_active` and `tabs_after_active` into
/// `tabs_to_render` while they fit in `cols`, framing the result with
/// collapse indicators for whatever remains hidden.
pub fn populate_tabs_in_tab_line(
    tabs_before_active: &mut Vec<Segment>,
    tabs_after_active: &mut Vec<Segment>,
    tabs_to_render: &mut Vec<Segment>,
    cols: usize,
)
    requires
        sum_w(segs(old(tabs_to_render)@)) <= cols as int,
        cols as int <= usize::MAX - 18,
        old(tabs_before_active)@.len() + old(tabs_after_active)@.len() + old(
            tabs_to_render,
        )@.len() <= usize::MAX,
    ensures
        ({
            let out = compose_st(
                segs(old(tabs_before_active)@),
                segs(old(tabs_after_active)@),
                segs(old(tabs_to_render)@),
                0,
                0,
                cols as int,
            );
            &&& segs(final(tabs_to_render)@) == out.rendered
            &&& segs(final(tabs_before_active)@) == out.before
            &&& segs(final(tabs_after_active)@) == out.after
        }),
        sum_w(segs(final(tabs_to_render)@)) <= cols as int,
{
    let ghost goal = compose_st(
        segs(tabs_before_active@),
        segs(tabs_after_active@),
        segs(tabs_to_render@),
        0,
        0,
        cols as int,
    );
    let mut middle_size = crate::segment::get_current_title_len(tabs_to_render);
    let mut total_left: usize = 0;
    let mut total_right: usize = 0;
    loop
        invariant_except_break
            middle_size == sum_w(segs(tabs_to_render@)),
            middle_size <= cols,
            total_left as int + total_right as int <= middle_size as int,
            compose_st(
                segs(tabs_before_active@),
                segs(tabs_after_active@),
                segs(tabs_to_render@),
                total_left as int,
                total_right as int,
                cols as int,
            ) == goal,
            tabs_before_active@.len() + tabs_after_active@.len() + tabs_to_render@.len()
                <= usize::MAX,
        invariant
            cols as int <= usize::MAX - 18,
        ensures
            segs(tabs_to_render@) == goal.rendered,
            segs(tabs_before_active@) == goal.before,
            segs(tabs_after_active@) == goal.after,
            sum_w(segs(tabs_to_render@)) <= cols as int,
        decreases tabs_before_active@.len() + tabs_after_active@.len(),
    {
        let ghost bs = segs(tabs_before_active@);
        let ghost as_ = segs(tabs_after_active@);
        let ghost rs = segs(tabs_to_render@);
        let ghost tl = total_left as int;
        let ghost tr = total_right as int;

        let left_count = tabs_before_active.len();
        let right_count = tabs_after_active.len();

        // the tab to the left of the leftmost visible tab
        let left_more_tab_index = if left_count == 0 {
            0
        } else {
            left_count - 1
        };
        let collapsed_left = left_more_message(left_count, left_more_tab_index);
        // the tab to the right of the rightmost visible tab
        let right_more_tab_index = left_count + tabs_to_render.len();
        let collapsed_right = right_more_message(right_count, right_more_tab_index);
        proof {
            lemma_ind_w_bounds(left_count as int);
            lemma_ind_w_bounds(right_count as int);
            assert(collapsed_left.width as int == l_more_w(left_count as int));
            assert(collapsed_right.width as int == r_more_w(right_count as int));
        }

        let total_size = collapsed_left.width + middle_size + collapsed_right.width;

        if total_size > cols {
            // not even the minimal frame fits; the placed set is final
            proof {
                assert(!frame_fits(bs, as_, rs, cols as int));
                assert(compose_st(bs, as_, rs, tl, tr, cols as int) == (ComposeSt {
                    rendered: rs,
                    before: bs,
                    after: as_,
                    tl,
                    tr,
                    indicators: false,
                }));
            }
            break;
        }

        let left_fits = if left_count > 0 {
            let w = tabs_before_active[left_count - 1].width;
            let disc = if left_count == 1 {
                collapsed_left.width
            } else {
                0
            };
            let base = total_size - disc;
            w <= cols - base
        } else {
            false
        };
        let right_fits = if right_count > 0 {
            let w = tabs_after_active[0].width;
            let disc = if right_count == 1 {
                collapsed_right.width
            } else {
                0
            };
            let base = total_size - disc;
            w <= cols - base
        } else {
            false
        };
        proof {
            if left_count > 0 {
                assert(bs.last() == tabs_before_active@[left_count - 1]@);
            }
            if right_count > 0 {
                assert(as_.first() == tabs_after_active@[0]@);
            }
            assert(left_fits == left_eligible(bs, as_, rs, cols as int));
            assert(right_fits == right_eligible(bs, as_, rs, cols as int));
        }

        // keep the active tab centered: grow the narrower side, or the only
        // eligible one
        if (total_left <= total_right || !right_fits) && left_fits {
            let tab = tabs_before_active.pop().unwrap();
            proof {
                assert(segs(tabs_before_active@) =~= bs.drop_last());
                assert(tab@ == bs.last());
                lemma_sum_w_nonneg(rs);
            }
            middle_size = middle_size + tab.width;
            total_left = total_left + tab.width;
            tabs_to_render.insert(0, tab);
            proof {
                assert(segs(tabs_to_render@) =~= seq![bs.last()] + rs);
                lemma_sum_w_concat(seq![bs.last()], rs);
                assert(sum_w(seq![bs.last()]) == bs.last().width) by {
                    assert(seq![bs.last()].drop_first() =~= Seq::<SegModel>::empty());
                    assert(sum_w(Seq::<SegModel>::empty()) == 0);
                    assert(seq![bs.last()][0] == bs.last());
                }
                assert(compose_st(bs, as_, rs, tl, tr, cols as int) == compose_st(
                    bs.drop_last(),
                    as_,
                    seq![bs.last()] + rs,
                    tl + bs.last().width,
                    tr,
                    cols as int,
                ));
            }
        } else if right_fits {
            let tab = tabs_after_active.remove(0);
            proof {
                assert(segs(tabs_after_active@) =~= as_.drop_first());
                assert(tab@ == as_.first());
                lemma_sum_w_nonneg(rs);
            }
            middle_size = middle_size + tab.width;
            total_right = total_right + tab.width;
            tabs_to_render.push(tab);
            proof {
                assert(segs(tabs_to_render@) =~= rs.push(as_.first()));
                lemma_sum_w_concat(rs, seq![as_.first()]);
                assert(rs.push(as_.first()) =~= rs + seq![as_.first()]);
                assert(sum_w(seq![as_.first()]) == as_.first().width) by {
                    assert(seq![as_.first()].drop_first() =~= Seq::<SegModel>::empty());
                    assert(sum_w(Seq::<SegModel>::empty()) == 0);
                    assert(seq![as_.first()][0] == as_.first());
                }
                assert(compose_st(bs, as_, rs, tl, tr, cols as int) == compose_st(
                    bs,
                    as_.drop_first(),
                    rs.push(as_.first()),
                    tl,
                    tr + as_.first().width,
                    cols as int,
                ));
            }
        } else {
            // neither side fits: frame what is placed with the indicators
            proof {
                assert(compose_st(bs, as_, rs, tl, tr, cols as int) == (ComposeSt {
                    rendered: l_opt(left_count as int) + rs + r_opt(
                        right_count as int,
                        left_count + rs.len() as int,
                    ),
                    before: bs,
                    after: as_,
                    tl,
                    tr,
                    indicators: true,
                }));
            }
            if left_count > 0 {
                tabs_to_render.insert(0, collapsed_left);
            }
            if right_count > 0 {
                tabs_to_render.push(collapsed_right);
            }
            proof {
                assert(segs(tabs_to_render@) =~= l_opt(left_count as int) + rs + r_opt(
                    right_count as int,
                    left_count + rs.len() as int,
                ));
                lemma_sum_w_concat(l_opt(left_count as int), rs);
                lemma_sum_w_concat(
                    l_opt(left_count as int) + rs,
                    r_opt(right_count as int, left_count + rs.len() as int),
                );
                if left_count > 0 {
                    assert(sum_w(l_opt(left_count as int)) == l_more_w(left_count as int)) by {
                        assert(l_opt(left_count as int).drop_first()
                            =~= Seq::<SegModel>::empty());
                        assert(sum_w(Seq::<SegModel>::empty()) == 0);
                        assert(l_opt(left_count as int)[0]
                            == lind_seg(left_count as int, left_count as int - 1));
                    }
                }
                if right_count > 0 {
                    assert(sum_w(r_opt(right_count as int, left_count + rs.len() as int))
                        == r_more_w(right_count as int)) by {
                        assert(r_opt(right_count as int, left_count + rs.len() as int).drop_first()
                            =~= Seq::<SegModel>::empty());
                        assert(sum_w(Seq::<SegModel>::empty()) == 0);
                        assert(r_opt(right_count as int, left_count + rs.len() as int)[0]
                            == rind_seg(right_count as int, left_count + rs.len() as int));
                    }
                }
            }
            break;
        }
    }
}

/// `a - b`, floored at zero.
pub open spec fn sat_sub(a: int, b: int) -> int {
    if a >= b {
        a - b
    } else {
        0
    }
}

/// The leading segments of the line: an optional session prefix (the session
/// directory, or all but the last two dash-separated parts of the session
/// name), the session name segment, and the mode label — the latter two kept
/// only if they fit the budget left over after the prefix segment.
pub open spec fn prefix_spec(
    session_name: Seq<char>,
    mode: InputMode,
    md: Seq<(InputMode, String)>,
    dsd: bool,
    cols: int,
    session_directory: Seq<char>,
) -> Seq<SegModel> {
    let parts = split_dash(session_name);
    let np = parts.len() as int;
    let has_prefix = dsd || np > 2;
    let ptext = if !has_prefix {
        Seq::<char>::empty()
    } else if dsd {
        session_directory
    } else {
        join_dash(parts.take(np - 2))
    };
    let pw: int = if has_prefix {
        ptext.len() as int
    } else {
        0
    };
    let name_core = if dsd {
        session_name
    } else if np == 1 {
        session_name
    } else {
        join_dash(parts.skip(np - 2))
    };
    let name_text = (if has_prefix {
        "-"@
    } else {
        Seq::<char>::empty()
    }) + name_core + " "@;
    let mode_text = mode_label(md, mode) + " "@;
    (if has_prefix {
        seq![(SegModel { content: ptext, width: ptext.len(), tab_ref: None })]
    } else {
        Seq::<SegModel>::empty()
    }) + (if display_width_of(name_text) <= sat_sub(cols, pw) {
        seq![(SegModel { content: name_text, width: display_width_of(name_text), tab_ref: None })]
    } else {
        Seq::<SegModel>::empty()
    }) + (if display_width_of(mode_text) <= sat_sub(cols, pw) {
        seq![(SegModel { content: mode_text, width: display_width_of(mode_text), tab_ref: None })]
    } else {
        Seq::<SegModel>::empty()
    })
}

/// Builds the session-name and mode segments ahead of the tabs.
pub fn tab_line_prefix(
    session_name: &String,
    mode: InputMode,
    user_conf: &UserConfiguration,
    cols: usize,
    session_directory: &String,
) -> (parts: Vec<Segment>)
    requires
        has_mode(user_conf.mode_display@, mode),
    ensures
        segs(parts@) == prefix_spec(
            session_name@,
            mode,
            user_conf.mode_display@,
            user_conf.display_session_directory,
            cols as int,
            session_directory@,
        ),
{
    let ghost spec_out = prefix_spec(
        session_name@,
        mode,
        user_conf.mode_display@,
        user_conf.display_session_directory,
        cols as int,
        session_directory@,
    );
    let mut parts_out: Vec<Segment> = Vec::new();
    let name_parts = split_dash_exec(session_name.as_str());
    let np = name_parts.len();
    proof {
        lemma_split_dash_len(session_name@.drop_first());
        assert(strs(name_parts@).len() == name_parts@.len());
    }
    let has_prefix = user_conf.display_session_directory || np > 2;
    let mut prefix_text_len: usize = 0;
    if has_prefix {
        let prefix_text: String = if user_conf.display_session_directory {
            session_directory.clone()
        } else {
            join_dash_range(&name_parts, 0, np - 2)
        };
        proof {
            assert(strs(name_parts@).subrange(0, np - 2)
                =~= split_dash(session_name@).take(np - 2));
        }
        prefix_text_len = prefix_text.as_str().unicode_len();
        parts_out.push(Segment { content: prefix_text, width: prefix_text_len, tab_ref: None });
    }
    let mut name_part = String::new();
    if has_prefix {
        name_part.append("-");
    }
    if user_conf.display_session_directory {
        name_part.append(session_name.as_str());
    } else if np == 1 {
        name_part.append(session_name.as_str());
    } else {
        let joined = join_dash_range(&name_parts, np - 2, np);
        proof {
            assert(strs(name_parts@).subrange(np - 2, np as int)
                =~= split_dash(session_name@).skip(np - 2));
        }
        name_part.append(joined.as_str());
    }
    name_part.append(" ");
    proof {
        reveal_strlit("-");
        reveal_strlit(" ");
    }
    let name_part_len = display_width(name_part.as_str());
    let avail = if cols >= prefix_text_len {
        cols - prefix_text_len
    } else {
        0
    };
    if avail >= name_part_len {
        parts_out.push(Segment { content: name_part, width: name_part_len, tab_ref: None });
    }
    let mut mode_part = lookup_mode(&user_conf.mode_display, mode).clone();
    mode_part.append(" ");
    let mode_part_len = display_width(mode_part.as_str());
    if avail >= mode_part_len {
        parts_out.push(Segment { content: mode_part, width: mode_part_len, tab_ref: None });
    }
    proof {
        assert(segs(parts_out@) =~= spec_out);
    }
    parts_out
}

/// An element's width never exceeds the sum of widths.
pub proof fn lemma_sum_w_elem(s: Seq<SegModel>, i: int)
    requires
        0 <= i < s.len(),
    ensures
        s[i].width <= sum_w(s),
    decreases s.len(),
{
    if i == 0 {
        lemma_sum_w_nonneg(s.drop_first());
    } else {
        lemma_sum_w_elem(s.drop_first(), i - 1);
    }
}

/// A prefix of the parts joins to something no longer than the whole join.
pub proof fn lemma_join_prefix_len(p: Seq<Seq<char>>, k: int)
    requires
        0 <= k <= p.len(),
    ensures
        join_dash(p.take(k)).len() <= join_dash(p).len(),
    decreases p.len(),
{
    if k == p.len() {
        assert(p.take(k) =~~= p);
    } else if k == 0 {
        assert(p.take(0) =~~= Seq::<Seq<char>>::empty());
    } else {
        assert(p.len() >= 2);
        assert(p.take(k).drop_first() =~~= p.drop_first().take(k - 1));
        assert(p.take(k)[0] == p[0]);
        lemma_join_prefix_len(p.drop_first(), k - 1);
        if k == 1 {
            assert(join_dash(p.take(1)) == p[0]);
            assert(join_dash(p) == p[0] + seq!['-'] + join_dash(p.drop_first()));
        }
    }
}

/// The prefix segments' total width is bounded by the inputs' lengths plus
/// twice the budget (each fits-checked segment is at most `cols` wide).
pub proof fn lemma_prefix_sum_bound(
    session_name: Seq<char>,
    mode: InputMode,
    md: Seq<(InputMode, String)>,
    dsd: bool,
    cols: int,
    session_directory: Seq<char>,
)
    requires
        cols >= 0,
    ensures
        0 <= sum_w(prefix_spec(session_name, mode, md, dsd, cols, session_directory))
            <= session_name.len() + session_directory.len() + 2 * cols,
{
    let out = prefix_spec(session_name, mode, md, dsd, cols, session_directory);
    let parts = split_dash(session_name);
    let np = parts.len() as int;
    lemma_split_dash_len(session_name.drop_first());
    let has_prefix = dsd || np > 2;
    let ptext = if !has_prefix {
        Seq::<char>::empty()
    } else if dsd {
        session_directory
    } else {
        join_dash(parts.take(np - 2))
    };
    assert(ptext.len() <= session_name.len() + session_directory.len()) by {
        if has_prefix && !dsd {
            lemma_join_prefix_len(parts, np - 2);
            lemma_split_join_roundtrip(session_name);
        }
    }
    let a = if has_prefix {
        seq![(SegModel { content: ptext, width: ptext.len(), tab_ref: None })]
    } else {
        Seq::<SegModel>::empty()
    };
    let name_core = if dsd {
        session_name
    } else if np == 1 {
        session_name
    } else {
        join_dash(parts.skip(np - 2))
    };
    let name_text = (if has_prefix {
        "-"@
    } else {
        Seq::<char>::empty()
    }) + name_core + " "@;
    let mode_text = mode_label(md, mode) + " "@;
    let pw: int = if has_prefix {
        ptext.len() as int
    } else {
        0
    };
    let b = if display_width_of(name_text) <= sat_sub(cols, pw) {
        seq![(SegModel { content: name_text, width: display_width_of(name_text), tab_ref: None })]
    } else {
        Seq::<SegModel>::empty()
    };
    let c = if display_width_of(mode_text) <= sat_sub(cols, pw) {
        seq![(SegModel { content: mode_text, width: display_width_of(mode_text), tab_ref: None })]
    } else {
        Seq::<SegModel>::empty()
    };
    lemma_sum_w_concat(a, b);
    lemma_sum_w_concat(a + b, c);
    assert(out =~= (a + b) + c);
    assert(sum_w(Seq::<SegModel>::empty()) == 0);
    assert(sum_w(a) <= ptext.len()) by {
        if has_prefix {
            assert(a.drop_first() =~= Seq::<SegModel>::empty());
            assert(a[0].width == ptext.len());
        }
    }
    assert(sum_w(b) <= cols) by {
        if display_width_of(name_text) <= sat_sub(cols, pw) {
            assert(b.drop_first() =~= Seq::<SegModel>::empty());
            assert(b[0].width == display_width_of(name_text));
        }
    }
    assert(sum_w(c) <= cols) by {
        if display_width_of(mode_text) <= sat_sub(cols, pw) {
            assert(c.drop_first() =~= Seq::<SegModel>::empty());
            assert(c[0].width == display_width_of(mode_text));
        }
    }
    lemma_sum_w_nonneg(a);
    lemma_sum_w_nonneg(b);
    lemma_sum_w_nonneg(c);
}

/// The whole line for one render: the prefix, then — unless even the active
/// tab cannot fit beside it — the composed tab area.
pub open spec fn tab_line_spec(
    session_name: Seq<char>,
    tabs: Seq<SegModel>,
    active_tab_index: int,
    cols: int,
    mode: InputMode,
    md: Seq<(InputMode, String)>,
    dsd: bool,
    session_directory: Seq<char>,
) -> Seq<SegModel> {
    let prefix = prefix_spec(session_name, mode, md, dsd, cols, session_directory);
    let pw = sum_w(prefix);
    let active = tabs[active_tab_index];
    if pw + active.width > cols {
        prefix
    } else {
        prefix + compose_st(
            tabs.take(active_tab_index),
            tabs.skip(active_tab_index + 1),
            seq![active],
            0,
            0,
            cols - pw,
        ).rendered
    }
}

/// Renders the tab line: the prefix segments followed by the visible tabs,
/// the active one always among them when it fits at all, with collapse
/// indicators for the hidden tabs.
pub fn tab_line(
    session_name: String,
    all_tabs: Vec<Segment>,
    active_tab_index: usize,
    cols: usize,
    user_conf: &UserConfiguration,
    mode: InputMode,
    session_directory: String,
) -> (res: Vec<Segment>)
    requires
        0 < all_tabs@.len(),
        active_tab_index < all_tabs@.len(),
        cols <= usize::MAX / 8,
        session_name@.len() <= usize::MAX / 8,
        session_directory@.len() <= usize::MAX / 8,
        sum_w(segs(all_tabs@)) <= usize::MAX / 8,
        has_mode(user_conf.mode_display@, mode),
    ensures
        segs(res@) == tab_line_spec(
            session_name@,
            segs(all_tabs@),
            active_tab_index as int,
            cols as int,
            mode,
            user_conf.mode_display@,
            user_conf.display_session_directory,
            session_directory@,
        ),
{
    let ghost all0 = segs(all_tabs@);
    let mut all_tabs = all_tabs;
    let n_tabs = all_tabs.len();
    let mut tabs_after_active = all_tabs.split_off(active_tab_index);
    let mut tabs_before_active = all_tabs;
    let active_tab = tabs_after_active.remove(0);
    proof {
        assert(segs(tabs_before_active@) =~= all0.take(active_tab_index as int));
        assert(segs(tabs_after_active@) =~= all0.skip(active_tab_index + 1));
        assert(active_tab@ == all0[active_tab_index as int]);
        lemma_prefix_sum_bound(
            session_name@,
            mode,
            user_conf.mode_display@,
            user_conf.display_session_directory,
            cols as int,
            session_directory@,
        );
        lemma_sum_w_elem(all0, active_tab_index as int);
    }
    let mut prefix = tab_line_prefix(&session_name, mode, user_conf, cols, &session_directory);
    let prefix_len = crate::segment::get_current_title_len(&prefix);

    // if the active tab alone will not fit beside the prefix, draw no tabs
    if prefix_len + active_tab.width > cols {
        return prefix;
    }

    let mut tabs_to_render: Vec<Segment> = Vec::new();
    tabs_to_render.push(active_tab);
    proof {
        assert(segs(tabs_to_render@) =~= seq![all0[active_tab_index as int]]);
        assert(sum_w(segs(tabs_to_render@)) == all0[active_tab_index as int].width) by {
            assert(segs(tabs_to_render@).drop_first() =~= Seq::<SegModel>::empty());
            assert(sum_w(Seq::<SegModel>::empty()) == 0);
            assert(segs(tabs_to_render@)[0] == all0[active_tab_index as int]);
        }
        assert(tabs_before_active@.len() + tabs_after_active@.len() + tabs_to_render@.len()
            == n_tabs as int);
    }
    populate_tabs_in_tab_line(
        &mut tabs_before_active,
        &mut tabs_after_active,
        &mut tabs_to_render,
        cols - prefix_len,
    );
    let ghost old_prefix_view = prefix@;
    let ghost old_render_view = tabs_to_render@;
    prefix.append(&mut tabs_to_render);
    proof {
        assert(segs(prefix@) =~= segs(old_prefix_view) + segs(old_render_view));
    }
    prefix
}


/// Mirrors the composer's first branch choice: a left tab is placed.
pub open spec fn compose_takes_left(
    before: Seq<SegModel>,
    after: Seq<SegModel>,
    rendered: Seq<SegModel>,
    tl: int,
    tr: int,
    cols: int,
) -> bool {
    &&& frame_fits(before, after, rendered, cols)
    &&& (tl <= tr || !right_eligible(before, after, rendered, cols))
    &&& left_eligible(before, after, rendered, cols)
}

/// Mirrors the composer's second branch choice: a right tab is placed.
pub open spec fn compose_takes_right(
    before: Seq<SegModel>,
    after: Seq<SegModel>,
    rendered: Seq<SegModel>,
    tl: int,
    tr: int,
    cols: int,
) -> bool {
    &&& frame_fits(before, after, rendered, cols)
    &&& !compose_takes_left(before, after, rendered, tl, tr, cols)
    &&& right_eligible(before, after, rendered, cols)
}

/// Centering: the composer never places a tab from an ineligible side; when
/// both sides could take one, it grows the side whose accumulated width is
/// smaller (the left on ties); and one placement changes the left/right
/// width difference by no more than the placed tab's own width.
pub proof fn lemma_centering(
    before: Seq<SegModel>,
    after: Seq<SegModel>,
    rendered: Seq<SegModel>,
    tl: int,
    tr: int,
    cols: int,
)
    ensures
        compose_takes_left(before, after, rendered, tl, tr, cols) ==> left_eligible(
            before,
            after,
            rendered,
            cols,
        ),
        compose_takes_right(before, after, rendered, tl, tr, cols) ==> right_eligible(
            before,
            after,
            rendered,
            cols,
        ),
        (frame_fits(before, after, rendered, cols) && left_eligible(before, after, rendered, cols)
            && right_eligible(before, after, rendered, cols)) ==> (compose_takes_left(
            before,
            after,
            rendered,
            tl,
            tr,
            cols,
        ) <==> tl <= tr),
        compose_takes_left(before, after, rendered, tl, tr, cols) ==> vstd::math::abs(
            (tl + before.last().width) - tr,
        ) <= vstd::math::abs(tl - tr) + before.last().width,
        compose_takes_right(before, after, rendered, tl, tr, cols) ==> vstd::math::abs(
            tl - (tr + after.first().width),
        ) <= vstd::math::abs(tl - tr) + after.first().width,
        compose_takes_left(before, after, rendered, tl, tr, cols) ==> compose_st(
            before,
            after,
            rendered,
            tl,
            tr,
            cols,
        ) == compose_st(
            before.drop_last(),
            after,
            seq![before.last()] + rendered,
            tl + before.last().width,
            tr,
            cols,
        ),
        compose_takes_right(before, after, rendered, tl, tr, cols) ==> compose_st(
            before,
            after,
            rendered,
            tl,
            tr,
            cols,
        ) == compose_st(
            before,
            after.drop_first(),
            rendered.push(after.first()),
            tl,
            tr + after.first().width,
            cols,
        ),
{
}

/// Where the composer's output comes from: the rendered line is a suffix of
/// `before`, the seeded middle, and a prefix of `after` — each side kept in
/// its original order — framed, when the loop finalized, by the collapse
/// indicators for exactly the hidden tabs. Returns how many tabs stay
/// hidden on the left (`km.0`) and how many are shown on the right
/// (`km.1`).
#[verifier::rlimit(60)]
pub proof fn lemma_compose_structure(
    before: Seq<SegModel>,
    after: Seq<SegModel>,
    rendered: Seq<SegModel>,
    tl: int,
    tr: int,
    cols: int,
) -> (km: (int, int))
    ensures
        ({
            let out = compose_st(before, after, rendered, tl, tr, cols);
            let k = km.0;
            let m = km.1;
            &&& 0 <= k <= before.len()
            &&& 0 <= m <= after.len()
            &&& out.before == before.take(k)
            &&& out.after == after.skip(m)
            &&& out.rendered == (if out.indicators {
                l_opt(k)
            } else {
                Seq::<SegModel>::empty()
            }) + before.skip(k) + rendered + after.take(m) + (if out.indicators {
                r_opt(after.len() - m, before.len() + rendered.len() as int + m)
            } else {
                Seq::<SegModel>::empty()
            })
        }),
    decreases before.len() + after.len(),
{
    let out = compose_st(before, after, rendered, tl, tr, cols);
    if !frame_fits(before, after, rendered, cols) {
        let k = before.len() as int;
        assert(out.rendered =~= Seq::<SegModel>::empty() + before.skip(k) + rendered + after.take(
            0,
        ) + Seq::<SegModel>::empty());
        assert(out.before =~= before.take(k));
        assert(out.after =~= after.skip(0));
        (k, 0)
    } else {
        let l_ok = left_eligible(before, after, rendered, cols);
        let r_ok = right_eligible(before, after, rendered, cols);
        if (tl <= tr || !r_ok) && l_ok {
            let km = lemma_compose_structure(
                before.drop_last(),
                after,
                seq![before.last()] + rendered,
                tl + before.last().width,
                tr,
                cols,
            );
            let k = km.0;
            let m = km.1;
            assert(before.drop_last().take(k) =~= before.take(k));
            assert((if out.indicators {
                l_opt(k)
            } else {
                Seq::<SegModel>::empty()
            }) + before.drop_last().skip(k) + (seq![before.last()] + rendered) + after.take(m) + (
            if out.indicators {
                r_opt(
                    after.len() - m,
                    before.drop_last().len() + (seq![before.last()] + rendered).len() as int + m,
                )
            } else {
                Seq::<SegModel>::empty()
            }) =~= (if out.indicators {
                l_opt(k)
            } else {
                Seq::<SegModel>::empty()
            }) + before.skip(k) + rendered + after.take(m) + (if out.indicators {
                r_opt(after.len() - m, before.len() + rendered.len() as int + m)
            } else {
                Seq::<SegModel>::empty()
            }));
            km
        } else if r_ok {
            let km = lemma_compose_structure(
                before,
                after.drop_first(),
                rendered.push(after.first()),
                tl,
                tr + after.first().width,
                cols,
            );
            let k = km.0;
            let m = km.1 + 1;
            assert(out.after =~= after.skip(m));
            assert((if out.indicators {
                l_opt(k)
            } else {
                Seq::<SegModel>::empty()
            }) + before.skip(k) + rendered.push(after.first()) + after.drop_first().take(m - 1) + (
            if out.indicators {
                r_opt(
                    after.drop_first().len() - (m - 1),
                    before.len() + rendered.push(after.first()).len() as int + (m - 1),
                )
            } else {
                Seq::<SegModel>::empty()
            }) =~= (if out.indicators {
                l_opt(k)
            } else {
                Seq::<SegModel>::empty()
            }) + before.skip(k) + rendered + after.take(m) + (if out.indicators {
                r_opt(after.len() - m, before.len() + rendered.len() as int + m)
            } else {
                Seq::<SegModel>::empty()
            }));
            (k, m)
        } else {
            let k = before.len() as int;
            assert(out.rendered =~= l_opt(k) + before.skip(k) + rendered + after.take(0) + r_opt(
                after.len() - 0,
                before.len() + rendered.len() as int + 0,
            ));
            assert(out.before =~= before.take(k));
            assert(out.after =~= after.skip(0));
            (k, 0)
        }
    }
}

/// Once the initial frame fits, the loop always ends by inserting the
/// indicators: placements only ever shrink the frame.
pub proof fn lemma_compose_finalizes(
    before: Seq<SegModel>,
    after: Seq<SegModel>,
    rendered: Seq<SegModel>,
    tl: int,
    tr: int,
    cols: int,
)
    requires
        frame_fits(before, after, rendered, cols),
    ensures
        compose_st(before, after, rendered, tl, tr, cols).indicators,
    decreases before.len() + after.len(),
{
    let lc = before.len() as int;
    let rc = after.len() as int;
    let l_ok = left_eligible(before, after, rendered, cols);
    let r_ok = right_eligible(before, after, rendered, cols);
    lemma_ind_w_bounds(lc);
    lemma_ind_w_bounds(rc);
    if (tl <= tr || !r_ok) && l_ok {
        let r2 = seq![before.last()] + rendered;
        assert(sum_w(r2) == before.last().width + sum_w(rendered)) by {
            lemma_sum_w_concat(seq![before.last()], rendered);
            assert(seq![before.last()].drop_first() =~= Seq::<SegModel>::empty());
            assert(sum_w(Seq::<SegModel>::empty()) == 0);
            assert(seq![before.last()][0] == before.last());
        }
        lemma_l_more_w_mono(lc);
        assert(frame_fits(before.drop_last(), after, r2, cols));
        lemma_compose_finalizes(
            before.drop_last(),
            after,
            r2,
            tl + before.last().width,
            tr,
            cols,
        );
    } else if r_ok {
        let r2 = rendered.push(after.first());
        assert(sum_w(r2) == sum_w(rendered) + after.first().width) by {
            assert(r2 =~= rendered + seq![after.first()]);
            lemma_sum_w_concat(rendered, seq![after.first()]);
            assert(seq![after.first()].drop_first() =~= Seq::<SegModel>::empty());
            assert(sum_w(Seq::<SegModel>::empty()) == 0);
            assert(seq![after.first()][0] == after.first());
        }
        lemma_l_more_w_mono(rc);
        assert(frame_fits(before, after.drop_first(), r2, cols));
        lemma_compose_finalizes(
            before,
            after.drop_first(),
            r2,
            tl,
            tr + after.first().width,
            cols,
        );
    } else {
    }
}

/// Indicator correctness: when the initial frame fits, the composed line is
/// exactly the visible tabs framed by one indicator per side that still
/// hides tabs — the left one counting the `km.0` tabs hidden on the left
/// and pointing just left of the visible run, the right one counting the
/// tabs hidden on the right and pointing just right of it. A side with
/// nothing hidden gets no indicator, and the indicator's text encodes the
/// hidden count itself (or "many" exactly when it reaches ten thousand).
pub proof fn lemma_indicator_correctness(
    before: Seq<SegModel>,
    after: Seq<SegModel>,
    rendered: Seq<SegModel>,
    tl: int,
    tr: int,
    cols: int,
) -> (km: (int, int))
    requires
        frame_fits(before, after, rendered, cols),
    ensures
        ({
            let out = compose_st(before, after, rendered, tl, tr, cols);
            let k = km.0;
            let m = km.1;
            &&& 0 <= k <= before.len()
            &&& 0 <= m <= after.len()
            &&& out.before == before.take(k)
            &&& out.after == after.skip(m)
            &&& out.rendered == l_opt(k) + before.skip(k) + rendered + after.take(m) + r_opt(
                after.len() - m,
                before.len() + rendered.len() as int + m,
            )
        }),
{
    lemma_compose_finalizes(before, after, rendered, tl, tr, cols);
    lemma_compose_structure(before, after, rendered, tl, tr, cols)
}


/// Every prefix segment is decorative: it carries no tab reference.
pub proof fn lemma_prefix_tab_ref_none(
    session_name: Seq<char>,
    mode: InputMode,
    md: Seq<(InputMode, String)>,
    dsd: bool,
    cols: int,
    session_directory: Seq<char>,
)
    ensures
        ({
            let prefix = prefix_spec(session_name, mode, md, dsd, cols, session_directory);
            forall|j: int| 0 <= j < prefix.len() ==> (#[trigger] prefix[j].tab_ref) is None
        }),
{
    let prefix = prefix_spec(session_name, mode, md, dsd, cols, session_directory);
    let parts = split_dash(session_name);
    let np = parts.len() as int;
    let has_prefix = dsd || np > 2;
    let ptext = if !has_prefix {
        Seq::<char>::empty()
    } else if dsd {
        session_directory
    } else {
        join_dash(parts.take(np - 2))
    };
    let pw: int = if has_prefix {
        ptext.len() as int
    } else {
        0
    };
    let name_core = if dsd {
        session_name
    } else if np == 1 {
        session_name
    } else {
        join_dash(parts.skip(np - 2))
    };
    let name_text = (if has_prefix {
        "-"@
    } else {
        Seq::<char>::empty()
    }) + name_core + " "@;
    let mode_text = mode_label(md, mode) + " "@;
    let a = if has_prefix {
        seq![(SegModel { content: ptext, width: ptext.len(), tab_ref: None })]
    } else {
        Seq::<SegModel>::empty()
    };
    let b = if display_width_of(name_text) <= sat_sub(cols, pw) {
        seq![(SegModel { content: name_text, width: display_width_of(name_text), tab_ref: None })]
    } else {
        Seq::<SegModel>::empty()
    };
    let c = if display_width_of(mode_text) <= sat_sub(cols, pw) {
        seq![(SegModel { content: mode_text, width: display_width_of(mode_text), tab_ref: None })]
    } else {
        Seq::<SegModel>::empty()
    };
    assert(prefix =~= (a + b) + c);
    assert forall|j: int| 0 <= j < prefix.len() implies (#[trigger] prefix[j].tab_ref) is None by {
        if j < a.len() {
            assert(prefix[j] == a[0]);
        } else if j < a.len() + b.len() {
            assert(prefix[j] == b[0]);
        } else {
            assert(prefix[j] == c[0]);
        }
    }
}

/// Active-tab visibility: whenever the active tab's width beside the prefix
/// fits the column budget, the rendered line holds that tab's segment
/// exactly once — provided each input segment references its own position,
/// as the tab renderer guarantees.
pub proof fn lemma_active_tab_visible(
    session_name: Seq<char>,
    tabs: Seq<SegModel>,
    active_tab_index: int,
    cols: int,
    mode: InputMode,
    md: Seq<(InputMode, String)>,
    dsd: bool,
    session_directory: Seq<char>,
)
    requires
        0 <= active_tab_index < tabs.len(),
        forall|i: int| 0 <= i < tabs.len() ==> (#[trigger] tabs[i].tab_ref) == Some(i),
        sum_w(prefix_spec(session_name, mode, md, dsd, cols, session_directory))
            + tabs[active_tab_index].width <= cols,
    ensures
        occ(
            tab_line_spec(
                session_name,
                tabs,
                active_tab_index,
                cols,
                mode,
                md,
                dsd,
                session_directory,
            ),
            tabs[active_tab_index],
        ) == 1,
{
    let prefix = prefix_spec(session_name, mode, md, dsd, cols, session_directory);
    let pw = sum_w(prefix);
    let act = tabs[active_tab_index];
    let b = tabs.take(active_tab_index);
    let a = tabs.skip(active_tab_index + 1);
    let out = compose_st(b, a, seq![act], 0, 0, cols - pw);
    let line = tab_line_spec(
        session_name,
        tabs,
        active_tab_index,
        cols,
        mode,
        md,
        dsd,
        session_directory,
    );
    assert(line == prefix + out.rendered);
    let km = lemma_compose_structure(b, a, seq![act], 0, 0, cols - pw);
    let k = km.0;
    let m = km.1;
    let lpart = if out.indicators {
        l_opt(k)
    } else {
        Seq::<SegModel>::empty()
    };
    let rpart = if out.indicators {
        r_opt(a.len() - m, b.len() + seq![act].len() as int + m)
    } else {
        Seq::<SegModel>::empty()
    };
    assert(out.rendered == lpart + b.skip(k) + seq![act] + a.take(m) + rpart);
    lemma_prefix_tab_ref_none(session_name, mode, md, dsd, cols, session_directory);
    assert(act.tab_ref == Some(active_tab_index));
    lemma_occ_none(prefix, act);
    assert(occ(lpart, act) == 0) by {
        if out.indicators && k != 0 {
            assert(lpart[0].tab_ref == Some(k - 1));
            assert(k <= active_tab_index);
            lemma_occ_none(lpart, act);
        } else {
            lemma_occ_none(lpart, act);
        }
    }
    assert(occ(b.skip(k), act) == 0) by {
        assert(forall|j: int| 0 <= j < b.skip(k).len() ==> #[trigger] b.skip(k)[j] == tabs[k + j]);
        lemma_occ_none(b.skip(k), act);
    }
    lemma_occ_singleton(act, act);
    assert(occ(a.take(m), act) == 0) by {
        assert(forall|j: int|
            0 <= j < a.take(m).len() ==> #[trigger] a.take(m)[j] == tabs[active_tab_index + 1
                + j]);
        lemma_occ_none(a.take(m), act);
    }
    assert(occ(rpart, act) == 0) by {
        if out.indicators && a.len() - m != 0 {
            assert(rpart[0].tab_ref == Some(b.len() + seq![act].len() as int + m));
            lemma_occ_none(rpart, act);
        } else {
            lemma_occ_none(rpart, act);
        }
    }
    lemma_occ_concat(lpart, b.skip(k), act);
    lemma_occ_concat(lpart + b.skip(k), seq![act], act);
    lemma_occ_concat(lpart + b.skip(k) + seq![act], a.take(m), act);
    lemma_occ_concat(lpart + b.skip(k) + seq![act] + a.take(m), rpart, act);
    lemma_occ_concat(prefix, out.rendered, act);
}


/// No overflow: as long as the seeded middle fits, the composed line's
/// total width never exceeds the column budget.
pub proof fn lemma_compose_no_overflow(
    before: Seq<SegModel>,
    after: Seq<SegModel>,
    rendered: Seq<SegModel>,
    tl: int,
    tr: int,
    cols: int,
)
    requires
        sum_w(rendered) <= cols,
    ensures
        sum_w(compose_st(before, after, rendered, tl, tr, cols).rendered) <= cols,
    decreases before.len() + after.len(),
{
    let lc = before.len() as int;
    let rc = after.len() as int;
    lemma_ind_w_bounds(lc);
    lemma_ind_w_bounds(rc);
    if !frame_fits(before, after, rendered, cols) {
    } else {
        let l_ok = left_eligible(before, after, rendered, cols);
        let r_ok = right_eligible(before, after, rendered, cols);
        if (tl <= tr || !r_ok) && l_ok {
            let r2 = seq![before.last()] + rendered;
            assert(sum_w(r2) == before.last().width + sum_w(rendered)) by {
                lemma_sum_w_concat(seq![before.last()], rendered);
                assert(seq![before.last()].drop_first() =~= Seq::<SegModel>::empty());
                assert(sum_w(Seq::<SegModel>::empty()) == 0);
                assert(seq![before.last()][0] == before.last());
            }
            lemma_compose_no_overflow(
                before.drop_last(),
                after,
                r2,
                tl + before.last().width,
                tr,
                cols,
            );
        } else if r_ok {
            let r2 = rendered.push(after.first());
            assert(sum_w(r2) == sum_w(rendered) + after.first().width) by {
                assert(r2 =~= rendered + seq![after.first()]);
                lemma_sum_w_concat(rendered, seq![after.first()]);
                assert(seq![after.first()].drop_first() =~= Seq::<SegModel>::empty());
                assert(sum_w(Seq::<SegModel>::empty()) == 0);
                assert(seq![after.first()][0] == after.first());
            }
            lemma_compose_no_overflow(
                before,
                after.drop_first(),
                r2,
                tl,
                tr + after.first().width,
                cols,
            );
        } else {
            let lpart = l_opt(lc);
            let rpart = r_opt(rc, lc + rendered.len() as int);
            lemma_sum_w_concat(lpart, rendered);
            lemma_sum_w_concat(lpart + rendered, rpart);
            assert(sum_w(lpart) == l_more_w(lc)) by {
                if lc != 0 {
                    assert(lpart.drop_first() =~= Seq::<SegModel>::empty());
                    assert(sum_w(Seq::<SegModel>::empty()) == 0);
                    assert(lpart[0] == lind_seg(lc, lc - 1));
                }
            }
            assert(sum_w(rpart) == r_more_w(rc)) by {
                if rc != 0 {
                    assert(rpart.drop_first() =~= Seq::<SegModel>::empty());
                    assert(sum_w(Seq::<SegModel>::empty()) == 0);
                    assert(rpart[0] == rind_seg(rc, lc + rendered.len() as int));
                }
            }
            assert(compose_st(before, after, rendered, tl, tr, cols).rendered == (lpart
                + rendered) + rpart);
        }
    }
}

/// No overflow for the whole line: whenever the prefix itself fits the
/// budget, the rendered line's total width never exceeds it. (When even the
/// prefix alone overflows, the prefix is still emitted, as its own
/// fits-checks only guard the name and mode segments.)
pub proof fn lemma_tab_line_no_overflow(
    session_name: Seq<char>,
    tabs: Seq<SegModel>,
    active_tab_index: int,
    cols: int,
    mode: InputMode,
    md: Seq<(InputMode, String)>,
    dsd: bool,
    session_directory: Seq<char>,
)
    requires
        0 <= active_tab_index < tabs.len(),
        sum_w(prefix_spec(session_name, mode, md, dsd, cols, session_directory)) <= cols,
    ensures
        sum_w(
            tab_line_spec(
                session_name,
                tabs,
                active_tab_index,
                cols,
                mode,
                md,
                dsd,
                session_directory,
            ),
        ) <= cols,
{
    let prefix = prefix_spec(session_name, mode, md, dsd, cols, session_directory);
    let pw = sum_w(prefix);
    let act = tabs[active_tab_index];
    if pw + act.width > cols {
    } else {
        let b = tabs.take(active_tab_index);
        let a = tabs.skip(active_tab_index + 1);
        assert(sum_w(seq![act]) == act.width) by {
            assert(seq![act].drop_first() =~= Seq::<SegModel>::empty());
            assert(sum_w(Seq::<SegModel>::empty()) == 0);
            assert(seq![act][0] == act);
        }
        lemma_compose_no_overflow(b, a, seq![act], 0, 0, cols - pw);
        lemma_sum_w_concat(prefix, compose_st(b, a, seq![act], 0, 0, cols - pw).rendered);
    }
}


} // verus!
