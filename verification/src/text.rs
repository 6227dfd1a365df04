//! Decimal rendering of numbers and dash-splitting of session names, with
//! exact sequence-level specifications.

use vstd::prelude::*;
use vstd::string::{StrSliceExecFns, StringExecFns};

verus! {

/// Numeric value of a decimal digit character; 10 for any other character.
pub open spec fn digit_val(c: char) -> int {
    if c == '0' {
        0
    } else if c == '1' {
        1
    } else if c == '2' {
        2
    } else if c == '3' {
        3
    } else if c == '4' {
        4
    } else if c == '5' {
        5
    } else if c == '6' {
        6
    } else if c == '7' {
        7
    } else if c == '8' {
        8
    } else if c == '9' {
        9
    } else {
        10
    }
}

pub open spec fn is_digit(c: char) -> bool {
    digit_val(c) < 10
}

/// The digit character for a value below ten.
pub open spec fn digit_char(d: int) -> char {
    if d == 0 {
        '0'
    } else if d == 1 {
        '1'
    } else if d == 2 {
        '2'
    } else if d == 3 {
        '3'
    } else if d == 4 {
        '4'
    } else if d == 5 {
        '5'
    } else if d == 6 {
        '6'
    } else if d == 7 {
        '7'
    } else if d == 8 {
        '8'
    } else {
        '9'
    }
}

/// Canonical decimal representation of a natural number.
pub open spec fn dec_str(n: nat) -> Seq<char>
    decreases n,
{
    if n < 10 {
        seq![digit_char(n as int)]
    } else {
        dec_str(n / 10) + seq![digit_char((n % 10) as int)]
    }
}

/// Value of a sequence read as decimal digits.
pub open spec fn val_of(s: Seq<char>) -> int
    decreases s.len(),
{
    if s.len() == 0 {
        0
    } else {
        val_of(s.drop_last()) * 10 + digit_val(s.last())
    }
}

pub open spec fn all_digits(s: Seq<char>) -> bool {
    forall|i: int| 0 <= i < s.len() ==> is_digit(#[trigger] s[i])
}

/// A canonical decimal string: nonempty, all digits, no leading zero except "0" itself.
pub open spec fn canonical_digits(s: Seq<char>) -> bool {
    &&& s.len() > 0
    &&& all_digits(s)
    &&& (s.len() == 1 || s[0] != '0')
}

pub proof fn lemma_digit_char_val(c: char)
    requires
        is_digit(c),
    ensures
        digit_char(digit_val(c)) == c,
{
}

pub proof fn lemma_dec_str_canonical(n: nat)
    ensures
        canonical_digits(dec_str(n)),
        val_of(dec_str(n)) == n,
    decreases n,
{
    if n < 10 {
        let s = dec_str(n);
        assert(s =~= seq![digit_char(n as int)]);
        assert(s.len() == 1);
        assert(s.last() == digit_char(n as int));
        assert(s.drop_last() =~= Seq::<char>::empty());
        assert(val_of(s.drop_last()) == 0);
        assert(digit_val(digit_char(n as int)) == n);
        assert(val_of(s) == digit_val(s.last()));
    } else {
        lemma_dec_str_canonical(n / 10);
        let d1 = dec_str(n / 10);
        let s = dec_str(n);
        assert(s =~= d1 + seq![digit_char((n % 10) as int)]);
        assert(s.drop_last() =~= d1);
        assert(s.last() == digit_char((n % 10) as int));
        assert(digit_val(digit_char((n % 10) as int)) == n % 10);
        assert(val_of(s) == val_of(d1) * 10 + n % 10);
        assert(val_of(s) == (n / 10) * 10 + n % 10);
        assert(n == (n / 10) * 10 + n % 10) by {
            vstd::arithmetic::div_mod::lemma_fundamental_div_mod(n as int, 10);
        }
        assert(s[0] == d1[0]);
        assert(n / 10 >= 1);
        if n / 10 < 10 {
            assert(d1 =~= seq![digit_char((n / 10) as int)]);
            assert(d1[0] != '0');
        } else {
            assert(d1 =~= dec_str(n / 10 / 10) + seq![digit_char((n / 10 % 10) as int)]);
            lemma_dec_str_canonical(n / 10 / 10);
            assert(d1.len() >= 2);
            assert(d1[0] != '0');
        }
    }
}

pub proof fn lemma_val_of_nonneg(s: Seq<char>)
    ensures
        val_of(s) >= 0,
    decreases s.len(),
{
    if s.len() > 0 {
        lemma_val_of_nonneg(s.drop_last());
        if is_digit(s.last()) {
        } else {
        }
    }
}

pub proof fn lemma_val_of_pos(s: Seq<char>)
    requires
        s.len() > 0,
        all_digits(s),
        s[0] != '0',
    ensures
        val_of(s) >= 1,
    decreases s.len(),
{
    if s.len() == 1 {
        assert(s.last() == s[0]);
        assert(s.drop_last().len() == 0);
        assert(val_of(s.drop_last()) == 0);
        assert(is_digit(s[0]));
        assert(digit_val(s[0]) >= 1);
        assert(val_of(s) == digit_val(s[0]));
    } else {
        assert(s.drop_last()[0] == s[0]);
        assert(all_digits(s.drop_last())) by {
            assert(forall|i: int|
                0 <= i < s.drop_last().len() ==> #[trigger] s.drop_last()[i] == s[i]);
        }
        lemma_val_of_pos(s.drop_last());
        assert(digit_val(s.last()) >= 0);
        assert(val_of(s) == val_of(s.drop_last()) * 10 + digit_val(s.last()));
    }
}

/// A canonical digit string renders back to itself.
pub proof fn lemma_dec_str_roundtrip(s: Seq<char>)
    requires
        canonical_digits(s),
    ensures
        val_of(s) >= 0,
        dec_str(val_of(s) as nat) == s,
    decreases s.len(),
{
    lemma_val_of_nonneg(s);
    if s.len() == 1 {
        assert(digit_val(s[0]) < 10);
        assert(val_of(s) == digit_val(s[0]));
        lemma_digit_char_val(s[0]);
        assert(dec_str(val_of(s) as nat) =~= s);
    } else {
        let s1 = s.drop_last();
        assert(s1[0] == s[0]);
        assert(all_digits(s1)) by {
            assert(forall|i: int| 0 <= i < s1.len() ==> #[trigger] s1[i] == s[i]);
        }
        assert(canonical_digits(s1));
        lemma_dec_str_roundtrip(s1);
        lemma_val_of_pos(s1);
        let v1 = val_of(s1);
        let d = digit_val(s.last());
        let v = val_of(s);
        assert(v == v1 * 10 + d);
        assert(v >= 10) by {
            assert(v1 >= 1);
            assert(d >= 0);
        }
        assert(v / 10 == v1 && v % 10 == d) by {
            vstd::arithmetic::div_mod::lemma_fundamental_div_mod_converse(v as int, 10, v1, d);
        }
        lemma_digit_char_val(s.last());
        assert(dec_str(v as nat) =~= dec_str(v1 as nat) + seq![digit_char(d)]);
        assert(dec_str(v as nat) =~= s1 + seq![s.last()]);
        assert(s1 + seq![s.last()] =~= s);
    }
}

/// Powers of ten, for bounding digit counts.
pub open spec fn pow10(k: nat) -> int
    decreases k,
{
    if k == 0 {
        1
    } else {
        10 * pow10((k - 1) as nat)
    }
}

pub proof fn lemma_pow10_pos(k: nat)
    ensures
        pow10(k) >= 1,
    decreases k,
{
    if k > 0 {
        lemma_pow10_pos((k - 1) as nat);
    }
}

pub proof fn lemma_pow10_mono(a: nat, b: nat)
    requires
        a <= b,
    ensures
        0 < pow10(a) <= pow10(b),
    decreases b,
{
    lemma_pow10_pos(a);
    if a < b {
        lemma_pow10_mono(a, (b - 1) as nat);
    }
}

pub proof fn lemma_dec_str_len_bound(n: nat, k: nat)
    requires
        k >= 1,
        n < pow10(k),
    ensures
        1 <= dec_str(n).len() <= k,
    decreases n,
{
    if n < 10 {
    } else {
        assert(pow10(k) == 10 * pow10((k - 1) as nat));
        assert(k >= 2) by {
            if k == 1 {
                assert(pow10(1) == 10);
            }
        }
        assert(n / 10 < pow10((k - 1) as nat)) by {
            vstd::arithmetic::div_mod::lemma_fundamental_div_mod(n as int, 10);
        }
        lemma_dec_str_len_bound(n / 10, (k - 1) as nat);
    }
}

/// Longer canonical strings denote larger values; used to compare digit counts.
pub proof fn lemma_dec_str_len_mono(a: nat, b: nat)
    requires
        a <= b,
    ensures
        dec_str(a).len() <= dec_str(b).len(),
    decreases b,
{
    if a < 10 {
        lemma_dec_str_canonical(b);
    } else {
        assert(a / 10 <= b / 10) by {
            vstd::arithmetic::div_mod::lemma_div_is_ordered(a as int, b as int, 10);
        }
        assert(b / 10 < b) by {
            vstd::arithmetic::div_mod::lemma_div_decreases(b as int, 10);
        }
        lemma_dec_str_len_mono(a / 10, b / 10);
    }
}

/// The digit character for a value below ten, as a one-character string slice.
fn digit_str(d: usize) -> (r: &'static str)
    requires
        d < 10,
    ensures
        r@ == seq![digit_char(d as int)],
{
    let r: &'static str = match d {
        0 => "0",
        1 => "1",
        2 => "2",
        3 => "3",
        4 => "4",
        5 => "5",
        6 => "6",
        7 => "7",
        8 => "8",
        _ => "9",
    };
    proof {
        reveal_strlit("0");
        reveal_strlit("1");
        reveal_strlit("2");
        reveal_strlit("3");
        reveal_strlit("4");
        reveal_strlit("5");
        reveal_strlit("6");
        reveal_strlit("7");
        reveal_strlit("8");
        reveal_strlit("9");
        assert(r@ =~= seq![digit_char(d as int)]);
    }
    r
}

/// Renders a number in decimal.
pub fn usize_to_string(n: usize) -> (r: String)
    ensures
        r@ == dec_str(n as nat),
    decreases n,
{
    let d = n % 10;
    let ds = digit_str(d);
    if n < 10 {
        let r = ds.to_owned();
        proof {
            assert(r@ =~= dec_str(n as nat));
        }
        r
    } else {
        let mut r = usize_to_string(n / 10);
        r.append(ds);
        proof {
            assert(r@ =~= dec_str(n as nat));
        }
        r
    }
}

/// Splitting a sequence on '-', as `str::split` does: splitting the empty
/// sequence yields one empty part, and every separator starts a new part.
pub open spec fn split_dash(s: Seq<char>) -> Seq<Seq<char>>
    decreases s.len(),
{
    if s.len() == 0 {
        seq![Seq::<char>::empty()]
    } else if s[0] == '-' {
        seq![Seq::<char>::empty()] + split_dash(s.drop_first())
    } else {
        let rest = split_dash(s.drop_first());
        seq![seq![s[0]] + rest[0]] + rest.drop_first()
    }
}

/// Joining parts with a single '-' between them.
pub open spec fn join_dash(parts: Seq<Seq<char>>) -> Seq<char>
    decreases parts.len(),
{
    if parts.len() == 0 {
        Seq::empty()
    } else if parts.len() == 1 {
        parts[0]
    } else {
        parts[0] + seq!['-'] + join_dash(parts.drop_first())
    }
}

pub proof fn lemma_split_dash_len(s: Seq<char>)
    ensures
        split_dash(s).len() >= 1,
    decreases s.len(),
{
    if s.len() == 0 {
    } else if s[0] == '-' {
        lemma_split_dash_len(s.drop_first());
    } else {
        lemma_split_dash_len(s.drop_first());
    }
}

/// How a scan relates to the split: if no separator occurs before position
/// `j`, and `j` is the end of the sequence or a separator, then the first
/// part is exactly `s[0..j)`.
pub proof fn lemma_split_dash_scan(s: Seq<char>, j: int)
    requires
        0 <= j <= s.len(),
        forall|k: int| 0 <= k < j ==> s[k] != '-',
        j == s.len() || s[j] == '-',
    ensures
        j == s.len() ==> split_dash(s) == seq![s],
        j < s.len() ==> split_dash(s) == seq![s.take(j)] + split_dash(s.skip(j + 1)),
    decreases j,
{
    if s.len() > 0 {
        lemma_split_dash_len(s.drop_first());
    }
    if j == 0 {
        if s.len() == 0 {
            assert(split_dash(s) =~~= seq![s]);
        } else {
            assert(s[0] == '-');
            assert(s.take(0) =~= Seq::<char>::empty());
            assert(s.skip(1) =~= s.drop_first());
            assert(split_dash(s) =~~= seq![s.take(0)] + split_dash(s.skip(1)));
        }
    } else {
        let t = s.drop_first();
        assert(forall|k: int| 0 <= k < j - 1 ==> #[trigger] t[k] == s[k + 1]);
        lemma_split_dash_scan(t, j - 1);
        let rest = split_dash(t);
        if j == s.len() {
            assert(rest == seq![t]);
            assert(split_dash(s) =~~= seq![seq![s[0]] + t]);
            assert(seq![s[0]] + t =~= s);
        } else {
            assert(rest == seq![t.take(j - 1)] + split_dash(t.skip(j)));
            assert(rest[0] == t.take(j - 1));
            assert(rest.drop_first() =~~= split_dash(t.skip(j)));
            assert(seq![s[0]] + t.take(j - 1) =~= s.take(j));
            assert(t.skip(j) =~= s.skip(j + 1));
            assert(split_dash(s) =~~= seq![s.take(j)] + split_dash(s.skip(j + 1)));
        }
    }
}

/// Appending one more part to a nonempty join adds a separator and the part.
pub proof fn lemma_join_dash_push(parts: Seq<Seq<char>>, x: Seq<char>)
    requires
        parts.len() >= 1,
    ensures
        join_dash(parts.push(x)) == join_dash(parts) + seq!['-'] + x,
    decreases parts.len(),
{
    if parts.len() == 1 {
        let p = parts.push(x);
        assert(p.len() == 2);
        assert(p[0] == parts[0]);
        assert(p.drop_first() =~~= seq![x]);
        assert(join_dash(p.drop_first()) == x);
    } else {
        assert(parts.push(x).drop_first() =~~= parts.drop_first().push(x));
        lemma_join_dash_push(parts.drop_first(), x);
        assert(parts.push(x)[0] == parts[0]);
    }
}

/// Joining the parts of a split restores the sequence.
pub proof fn lemma_split_join_roundtrip(s: Seq<char>)
    ensures
        join_dash(split_dash(s)) == s,
    decreases s.len(),
{
    if s.len() == 0 {
    } else if s[0] == '-' {
        lemma_split_dash_len(s.drop_first());
        lemma_split_join_roundtrip(s.drop_first());
        let p = split_dash(s);
        assert(p[0] =~= Seq::<char>::empty());
        assert(p.drop_first() =~~= split_dash(s.drop_first()));
        assert(p.len() >= 2);
        assert(join_dash(p) =~= p[0] + seq!['-'] + join_dash(p.drop_first()));
        assert(join_dash(p) =~= s);
    } else {
        lemma_split_dash_len(s.drop_first());
        lemma_split_join_roundtrip(s.drop_first());
        let rest = split_dash(s.drop_first());
        let p = split_dash(s);
        assert(p[0] == seq![s[0]] + rest[0]);
        assert(p.drop_first() =~~= rest.drop_first());
        if rest.len() == 1 {
            assert(p.len() == 1);
            assert(join_dash(rest) == rest[0]);
            assert(join_dash(p) == seq![s[0]] + rest[0]);
            assert(join_dash(p) =~= s);
        } else {
            assert(join_dash(p) =~= p[0] + seq!['-'] + join_dash(p.drop_first()));
            assert(join_dash(rest) =~= rest[0] + seq!['-'] + join_dash(rest.drop_first()));
            assert(join_dash(p) =~= seq![s[0]] + join_dash(rest));
            assert(join_dash(p) =~= s);
        }
    }
}

/// The views of a sequence of strings.
pub open spec fn strs(s: Seq<String>) -> Seq<Seq<char>> {
    s.map_values(|x: String| x@)
}

/// Splits a string at every '-', as the pieces of `str::split` collected.
pub fn split_dash_exec(s: &str) -> (parts: Vec<String>)
    ensures
        strs(parts@) == split_dash(s@),
{
    let n = s.unicode_len();
    let mut parts: Vec<String> = Vec::new();
    let mut start: usize = 0;
    let mut i: usize = 0;
    proof {
        assert(s@.skip(0) =~= s@);
    }
    while i < n
        invariant
            0 <= start <= i <= n,
            n == s@.len(),
            forall|k: int| start <= k < i ==> s@[k] != '-',
            split_dash(s@) == strs(parts@) + split_dash(s@.skip(start as int)),
        decreases n - i,
    {
        let c = s.get_char(i);
        if c == '-' {
            let part = s.substring_char(start, i).to_owned();
            proof {
                let t = s@.skip(start as int);
                assert(forall|k: int| 0 <= k < i - start ==> #[trigger] t[k] == s@[k + start]);
                assert(t[i - start] == s@[i as int]);
                lemma_split_dash_scan(t, i - start);
                assert(t.take(i - start) =~= s@.subrange(start as int, i as int));
                assert(t.skip(i - start + 1) =~= s@.skip(i + 1));
                assert(strs(parts@.push(part)) =~= strs(parts@) + seq![part@]);
                assert(strs(parts@) + (seq![part@] + split_dash(s@.skip(i + 1)))
                    =~= (strs(parts@) + seq![part@]) + split_dash(s@.skip(i + 1)));
            }
            parts.push(part);
            start = i + 1;
        }
        i = i + 1;
    }
    let last = s.substring_char(start, n).to_owned();
    proof {
        let t = s@.skip(start as int);
        assert(forall|k: int| 0 <= k < t.len() ==> #[trigger] t[k] == s@[k + start]);
        lemma_split_dash_scan(t, n - start);
        assert(t =~= s@.subrange(start as int, n as int));
        assert(strs(parts@.push(last)) =~= strs(parts@) + seq![last@]);
    }
    parts.push(last);
    parts
}

/// Joins `parts[from..to)` with dashes.
pub fn join_dash_range(parts: &Vec<String>, from: usize, to: usize) -> (r: String)
    requires
        from <= to <= parts@.len(),
    ensures
        r@ == join_dash(strs(parts@).subrange(from as int, to as int)),
{
    let mut r = String::new();
    let mut j = from;
    proof {
        reveal_strlit("-");
        assert(strs(parts@).subrange(from as int, from as int) =~= Seq::<Seq<char>>::empty());
    }
    while j < to
        invariant
            from <= j <= to <= parts@.len(),
            r@ == join_dash(strs(parts@).subrange(from as int, j as int)),
            "-"@ == seq!['-'],
        decreases to - j,
    {
        if j > from {
            r.append("-");
        }
        r.append(parts[j].as_str());
        proof {
            let pre = strs(parts@).subrange(from as int, j as int);
            assert(strs(parts@).subrange(from as int, j + 1) =~= pre.push(parts@[j as int]@));
            if j > from {
                lemma_join_dash_push(pre, parts@[j as int]@);
            } else {
                assert(pre.len() == 0);
                assert(join_dash(pre.push(parts@[j as int]@)) == parts@[j as int]@);
            }
        }
        j = j + 1;
    }
    r
}


} // verus!
