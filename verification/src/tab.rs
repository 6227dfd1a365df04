//! Per-tab label formatting — including replacement of auto-generated
//! "Tab #N" names — and resolution of mouse clicks on the rendered line.

use vstd::prelude::*;
use vstd::string::{StrSliceExecFns, StringExecFns};

use crate::config::{TabInfo, UserConfiguration};
use crate::segment::{segs, sum_w, lemma_sum_w_nonneg, Segment, SegModel};
use crate::text::{
    all_digits, canonical_digits, dec_str, digit_val, lemma_dec_str_canonical,
    is_digit, lemma_dec_str_len_bound, lemma_dec_str_roundtrip, lemma_pow10_mono, pow10,
    usize_to_string, val_of,
};
use crate::width::{display_width, display_width_of};

verus! {

/// The auto-generated name for the tab numbered `n`.
pub open spec fn auto_name(n: int) -> Seq<char> {
    "Tab #"@ + dec_str(n as nat)
}

/// Whether a name is an auto-generated one and should be replaced: either
/// the name for this tab's own number, or — after tabs were reordered — the
/// canonical "Tab #N" form of any number that fits the host's counter.
pub open spec fn is_auto_named(text: Seq<char>, idx: int) -> bool {
    text == auto_name(idx) || (exists|n: int| 0 <= n <= u32::MAX && text == auto_name(n))
}

/// The space-padded text "{number} {shown}" of a tab's segment: one trailing
/// pad always, and a leading pad for every tab but the first.
pub open spec fn padded_tab_text(shown: Seq<char>, position: int) -> Seq<char> {
    let body = dec_str((position + 1) as nat) + " "@ + shown + " "@;
    if position == 0 {
        body
    } else {
        " "@ + body
    }
}

/// The final text of a tab's segment: a space-padded "{number} {name}",
/// where an auto-generated name is replaced by the configured default.
pub open spec fn tab_text_model(text: Seq<char>, position: int, default_name: Seq<char>) -> Seq<
    char,
> {
    padded_tab_text(
        (if is_auto_named(text, position + 1) {
            default_name
        } else {
            text
        }),
        position,
    )
}

pub open spec fn render_tab_model(text: Seq<char>, position: int, default_name: Seq<char>)
    -> SegModel {
    SegModel {
        content: tab_text_model(text, position, default_name),
        width: display_width_of(tab_text_model(text, position, default_name)),
        tab_ref: Some(position),
    }
}

/// The styled tab's segment: the name is normalized first, and " (Sync)" is
/// appended to the already-normalized name when the tab's panes are
/// synchronized.
pub open spec fn tab_style_model(
    name: Seq<char>,
    position: int,
    default_name: Seq<char>,
    sync: bool,
) -> SegModel {
    let shown = (if is_auto_named(name, position + 1) {
        default_name
    } else {
        name
    }) + (if sync {
        " (Sync)"@
    } else {
        Seq::<char>::empty()
    });
    SegModel {
        content: padded_tab_text(shown, position),
        width: display_width_of(padded_tab_text(shown, position)),
        tab_ref: Some(position),
    }
}

/// The numeric value of a digit character; 10 for any other character.
fn digit_value(c: char) -> (d: usize)
    ensures
        d == digit_val(c),
{
    if c == '0' {
        0
    } else if c == '1' {
        1
    } else if c == '2' {
        2
    } else if c == '3' {
        3
    } else if c == '4' {
        4
    } else if c == '5' {
        5
    } else if c == '6' {
        6
    } else if c == '7' {
        7
    } else if c == '8' {
        8
    } else if c == '9' {
        9
    } else {
        10
    }
}

/// Decides whether a tab name is an auto-generated "Tab #N" that should be
/// replaced by the default name.
fn is_auto_name(text: &String, tab_index: usize) -> (b: bool)
    ensures
        b == is_auto_named(text@, tab_index as int),
{
    proof {
        reveal_strlit("Tab #");
    }
    let mut cand = "Tab #".to_owned();
    cand.append(usize_to_string(tab_index).as_str());
    proof {
        assert(cand@ == auto_name(tab_index as int));
    }
    if *text == cand {
        return true;
    }
    // from here on, the name is not this tab's own auto-name; it is replaced
    // only if it is the canonical auto-name of some other number
    let n = text.as_str().unicode_len();
    if n < 6 {
        proof {
            assert forall|m: int| 0 <= m <= u32::MAX implies text@ != auto_name(m) by {
                lemma_dec_str_canonical(m as nat);
            }
        }
        return false;
    }
    let s = text.as_str();
    if !(s.get_char(0) == 'T' && s.get_char(1) == 'a' && s.get_char(2) == 'b' && s.get_char(3)
        == ' ' && s.get_char(4) == '#') {
        proof {
            assert forall|m: int| 0 <= m <= u32::MAX implies text@ != auto_name(m) by {
                assert(auto_name(m)[0] == 'T');
                assert(auto_name(m)[1] == 'a');
                assert(auto_name(m)[2] == 'b');
                assert(auto_name(m)[3] == ' ');
                assert(auto_name(m)[4] == '#');
            }
        }
        return false;
    }
    let ghost ds = text@.subrange(5, n as int);
    if s.get_char(5) == '0' && n > 6 {
        proof {
            assert forall|m: int| 0 <= m <= u32::MAX implies text@ != auto_name(m) by {
                lemma_dec_str_canonical(m as nat);
                if text@ == auto_name(m) {
                    assert(dec_str(m as nat) =~= ds);
                    assert(ds[0] == '0' && ds.len() > 1);
                }
            }
        }
        return false;
    }
    if n - 5 > 10 {
        proof {
            assert(pow10(10) == 10000000000) by {
                reveal_with_fuel(pow10, 11);
            }
            assert forall|m: int| 0 <= m <= u32::MAX implies text@ != auto_name(m) by {
                lemma_dec_str_len_bound(m as nat, 10);
                if text@ == auto_name(m) {
                    assert(dec_str(m as nat) =~= ds);
                }
            }
        }
        return false;
    }
    let mut v: u64 = 0;
    let mut i: usize = 5;
    proof {
        assert(pow10(10) == 10000000000) by {
            reveal_with_fuel(pow10, 11);
        }
        assert(text@.subrange(5, 5) =~= Seq::<char>::empty());
        assert(pow10(0) == 1);
    }
    while i < n
        invariant
            5 <= i <= n,
            s@ == text@,
            n == text@.len(),
            n - 5 <= 10,
            text@[0] == 'T' && text@[1] == 'a' && text@[2] == 'b' && text@[3] == ' ' && text@[4]
                == '#',
            text@[5] != '0' || n == 6,
            text@ != auto_name(tab_index as int),
            all_digits(text@.subrange(5, i as int)),
            v == val_of(text@.subrange(5, i as int)),
            v < pow10((i - 5) as nat),
            pow10((i - 5) as nat) <= 10000000000,
        decreases n - i,
    {
        let c = s.get_char(i);
        let d = digit_value(c);
        if d == 10 {
            proof {
                reveal_strlit("Tab #");
                assert forall|m: int| 0 <= m <= u32::MAX implies text@ != auto_name(m) by {
                    lemma_dec_str_canonical(m as nat);
                    if text@ == auto_name(m) {
                        assert(dec_str(m as nat) =~= text@.subrange(5, n as int));
                        assert(is_digit(dec_str(m as nat)[i - 5]));
                        assert(dec_str(m as nat)[i - 5] == text@[i as int]);
                    }
                }
            }
            return false;
        }
        proof {
            let pre = text@.subrange(5, i as int);
            let nxt = text@.subrange(5, i + 1);
            assert(nxt.drop_last() =~= pre);
            assert(nxt.last() == text@[i as int]);
            assert(val_of(nxt) == val_of(pre) * 10 + digit_val(text@[i as int]));
            assert(forall|k: int| 0 <= k < i - 5 ==> nxt[k] == pre[k]);
            assert(pow10((i + 1 - 5) as nat) == 10 * pow10((i - 5) as nat));
            lemma_pow10_mono((i + 1 - 5) as nat, 10);
            assert(pow10(10) == 10000000000) by {
                reveal_with_fuel(pow10, 11);
            }
        }
        v = v * 10 + (d as u64);
        i = i + 1;
    }
    proof {
        assert(ds == text@.subrange(5, n as int));
        assert(canonical_digits(ds)) by {
            assert(ds.len() == n - 5 >= 1);
            assert(ds[0] == text@[5]);
        }
        lemma_dec_str_roundtrip(ds);
    }
    if v <= 0xFFFF_FFFFu64 {
        proof {
            assert(text@ =~= "Tab #"@ + ds);
            let m = v as int;
            assert(text@ == auto_name(m));
            assert(0 <= m <= u32::MAX && text@ == auto_name(m));
        }
        true
    } else {
        proof {
            assert forall|m: int| 0 <= m <= u32::MAX implies text@ != auto_name(m) by {
                lemma_dec_str_canonical(m as nat);
                if text@ == auto_name(m) {
                    assert(dec_str(m as nat) =~= ds);
                    assert(val_of(dec_str(m as nat)) == m);
                }
            }
        }
        false
    }
}

/// Builds a tab's segment from the name to show, space-padded and numbered,
/// pointing a click at the tab's own position.
fn build_tab_segment(shown: String, position: usize) -> (seg: Segment)
    requires
        position < usize::MAX,
    ensures
        seg@ == (SegModel {
            content: padded_tab_text(shown@, position as int),
            width: display_width_of(padded_tab_text(shown@, position as int)),
            tab_ref: Some(position as int),
        }),
{
    let tab_index = position + 1;
    let mut tab_text = String::new();
    if position > 0 {
        tab_text.append(" ");
    }
    tab_text.append(usize_to_string(tab_index).as_str());
    tab_text.append(" ");
    tab_text.append(shown.as_str());
    tab_text.append(" ");
    proof {
        reveal_strlit(" ");
        assert(tab_text@ == padded_tab_text(shown@, position as int));
    }
    let tab_text_len = display_width(tab_text.as_str());
    Segment { content: tab_text, width: tab_text_len, tab_ref: Some(position) }
}

/// Renders one tab's segment: its 1-based number and its (normalized) name,
/// padded with spaces.
pub fn render_tab(text: String, tab: &TabInfo, user_conf: &UserConfiguration) -> (seg: Segment)
    requires
        tab.position < usize::MAX,
    ensures
        seg@ == render_tab_model(text@, tab.position as int, user_conf.default_tab_name@),
{
    let auto = is_auto_name(&text, tab.position + 1);
    let shown = if auto {
        user_conf.default_tab_name.clone()
    } else {
        text
    };
    build_tab_segment(shown, tab.position)
}

/// Renders a tab: its name is normalized first, and " (Sync)" is appended to
/// the already-normalized name when its panes are synchronized.
pub fn tab_style(tabname: String, tab: &TabInfo, user_conf: &UserConfiguration) -> (seg: Segment)
    requires
        tab.position < usize::MAX,
    ensures
        seg@ == tab_style_model(
            tabname@,
            tab.position as int,
            user_conf.default_tab_name@,
            tab.is_sync_panes_active,
        ),
{
    let auto = is_auto_name(&tabname, tab.position + 1);
    let mut shown = if auto {
        user_conf.default_tab_name.clone()
    } else {
        tabname
    };
    if tab.is_sync_panes_active {
        shown.append(" (Sync)");
    }
    proof {
        reveal_strlit(" (Sync)");
        if !tab.is_sync_panes_active {
            assert(shown@ =~= shown@ + Seq::<char>::empty());
        }
    }
    build_tab_segment(shown, tab.position)
}

/// The first segment whose half-open column interval contains the click.
pub open spec fn clicked_part(line: Seq<SegModel>, col: int) -> Option<SegModel>
    decreases line.len(),
{
    if line.len() == 0 {
        None
    } else if col < line[0].width {
        Some(line[0])
    } else {
        clicked_part(line.drop_first(), col - line[0].width)
    }
}

/// A clicked segment is one of the line's segments.
pub proof fn lemma_clicked_part_in_line(line: Seq<SegModel>, col: int)
    ensures
        clicked_part(line, col) matches Some(m) ==> exists|i: int|
            0 <= i < line.len() && line[i] == m,
    decreases line.len(),
{
    if line.len() > 0 {
        if col < line[0].width {
            assert(line[0] == line[0]);
        } else {
            lemma_clicked_part_in_line(line.drop_first(), col - line[0].width);
            match clicked_part(line, col) {
                Some(m) => {
                    let i = choose|i: int|
                        0 <= i < line.drop_first().len() && line.drop_first()[i] == m;
                    assert(line[i + 1] == m);
                },
                None => {},
            }
        }
    }
}

/// The tab a click should focus: the 1-based index carried by the clicked
/// segment, unless the click missed, hit a decorative segment, or hit the
/// already-active tab.
pub open spec fn tab_to_focus(line: Seq<SegModel>, active_tab_idx: int, col: int) -> Option<int> {
    match clicked_part(line, col) {
        None => None,
        Some(seg) => match seg.tab_ref {
            None => None,
            Some(p) => if p + 1 == active_tab_idx {
                None
            } else {
                Some(p + 1)
            },
        },
    }
}

/// Finds the segment under a mouse click, scanning the line left to right.
pub fn get_clicked_line_part<'a>(tab_line: &'a Vec<Segment>, mouse_click_col: usize) -> (r: Option<
    &'a Segment,
>)
    requires
        sum_w(segs(tab_line@)) <= usize::MAX,
    ensures
        match r {
            Some(seg) => clicked_part(segs(tab_line@), mouse_click_col as int) == Some(seg@),
            None => clicked_part(segs(tab_line@), mouse_click_col as int) is None,
        },
{
    let col = mouse_click_col;
    let mut len: usize = 0;
    let mut i: usize = 0;
    proof {
        assert(segs(tab_line@).skip(0) =~= segs(tab_line@));
        lemma_sum_w_nonneg(segs(tab_line@));
    }
    while i < tab_line.len()
        invariant
            0 <= i <= tab_line@.len(),
            sum_w(segs(tab_line@)) <= usize::MAX,
            col == mouse_click_col,
            len <= col || i == 0,
            len as int + sum_w(segs(tab_line@).skip(i as int)) == sum_w(segs(tab_line@)),
            clicked_part(segs(tab_line@), col as int) == clicked_part(
                segs(tab_line@).skip(i as int),
                col - len,
            ),
        decreases tab_line@.len() - i,
    {
        proof {
            let rest = segs(tab_line@).skip(i as int);
            assert(rest[0] == tab_line@[i as int]@);
            assert(rest.drop_first() =~= segs(tab_line@).skip(i + 1));
            lemma_sum_w_nonneg(rest.drop_first());
        }
        let part = &tab_line[i];
        if col >= len && col < len + part.width {
            return Some(part);
        }
        proof {
            if col < len + part.width {
                assert(i == 0 || len <= col);
                assert(col < len);
                assert(false);
            }
        }
        len = len + part.width;
        i = i + 1;
    }
    proof {
        assert(segs(tab_line@).skip(tab_line@.len() as int) =~= Seq::<SegModel>::empty());
    }
    None
}

/// Resolves a click to the 1-based tab index to focus, if any.
pub fn get_tab_to_focus(tab_line: &Vec<Segment>, active_tab_idx: usize, mouse_click_col: usize)
    -> (r: Option<usize>)
    requires
        sum_w(segs(tab_line@)) <= usize::MAX,
        forall|i: int| 0 <= i < tab_line@.len() ==> tab_line@[i].tab_ref != Some(usize::MAX),
    ensures
        match r {
            Some(t) => tab_to_focus(segs(tab_line@), active_tab_idx as int, mouse_click_col as int)
                == Some(t as int),
            None => tab_to_focus(segs(tab_line@), active_tab_idx as int, mouse_click_col as int)
                is None,
        },
{
    let clicked = get_clicked_line_part(tab_line, mouse_click_col);
    match clicked {
        None => None,
        Some(part) => {
            match part.tab_ref {
                None => None,
                Some(p) => {
                    proof {
                        lemma_clicked_part_in_line(segs(tab_line@), mouse_click_col as int);
                        let i = choose|i: int|
                            0 <= i < segs(tab_line@).len() && segs(tab_line@)[i] == part@;
                        assert(tab_line@[i].tab_ref != Some(usize::MAX));
                        assert(segs(tab_line@)[i] == tab_line@[i]@);
                        assert(p < usize::MAX);
                    }
                    // tabs are numbered from one on the rendered line
                    let clicked_tab_idx = p + 1;
                    if clicked_tab_idx != active_tab_idx {
                        Some(clicked_tab_idx)
                    } else {
                        None
                    }
                },
            }
        },
    }
}

/// A click anywhere inside a visible tab segment's column interval focuses
/// that tab's 1-based index — unless that tab is already the active one, in
/// which case the click is a no-op.
pub proof fn lemma_click_round_trip(line: Seq<SegModel>, i: int, col: int, active_tab_idx: int)
    requires
        0 <= i < line.len(),
        sum_w(line.take(i)) <= col < sum_w(line.take(i)) + line[i].width,
    ensures
        clicked_part(line, col) == Some(line[i]),
        line[i].tab_ref matches Some(p) ==> tab_to_focus(line, active_tab_idx, col) == (if p + 1
            == active_tab_idx {
            None::<int>
        } else {
            Some(p + 1)
        }),
    decreases i,
{
    if i == 0 {
        assert(line.take(0) =~= Seq::<SegModel>::empty());
        assert(sum_w(line.take(0)) == 0);
    } else {
        let t = line.drop_first();
        assert(line.take(i).drop_first() =~= t.take(i - 1));
        assert(line.take(i)[0] == line[0]);
        assert(sum_w(line.take(i)) == line[0].width + sum_w(t.take(i - 1)));
        assert(t[i - 1] == line[i]);
        lemma_sum_w_nonneg(t.take(i - 1));
        lemma_click_round_trip(t, i - 1, col - line[0].width, active_tab_idx);
    }
}

} // verus!
