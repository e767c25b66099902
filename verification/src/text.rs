//! Character-level helpers shared by the assembly reader: string
//! equality, whitespace tests, and decimal parsing.

use vstd::prelude::*;

verus! {

/// The characters treated as token separators inside a line.
pub open spec fn char_is_space(c: char) -> bool {
    c == ' ' || c == '\t' || c == '\r'
}

/// An exec test matching `char_is_space`.
pub fn is_space(c: char) -> (r: bool)
    ensures
        r == char_is_space(c),
{
    c == ' ' || c == '\t' || c == '\r'
}

pub open spec fn char_is_digit(c: char) -> bool {
    '0' <= c && c <= '9'
}

pub open spec fn digit_val(c: char) -> int {
    c as int - '0' as int
}

/// Every character of the sequence is a decimal digit.
pub open spec fn all_digits(s: Seq<char>) -> bool {
    forall|i: int| 0 <= i < s.len() ==> char_is_digit(#[trigger] s[i])
}

/// The value of a digit sequence read as a decimal numeral.
pub open spec fn dec_val(s: Seq<char>) -> int
    decreases s.len(),
{
    if s.len() == 0 {
        0
    } else {
        dec_val(s.drop_last()) * 10 + digit_val(s.last())
    }
}

/// A sequence that parses as a `usize`: non-empty, all digits, in range.
pub open spec fn is_usize_numeral(s: Seq<char>) -> bool {
    s.len() > 0 && all_digits(s) && dec_val(s) <= usize::MAX
}

/// The numeral value never shrinks as digits are appended.
proof fn lemma_dec_val_monotonic(s: Seq<char>, i: int)
    requires
        0 <= i <= s.len(),
        all_digits(s),
    ensures
        dec_val(s.subrange(0, i)) <= dec_val(s),
        dec_val(s) >= 0,
    decreases s.len() - i,
{
    if i == s.len() {
        assert(s.subrange(0, i) =~= s);
        lemma_dec_val_nonneg(s);
    } else {
        lemma_dec_val_monotonic(s, i + 1);
        let p = s.subrange(0, i);
        let q = s.subrange(0, i + 1);
        assert(q.drop_last() =~= p);
        lemma_dec_val_nonneg(p);
        assert(dec_val(p) * 10 >= dec_val(p)) by (nonlinear_arith)
            requires
                dec_val(p) >= 0,
        ;
        assert(char_is_digit(s[i]));
        assert(dec_val(q) == dec_val(p) * 10 + digit_val(s[i]));
    }
}

proof fn lemma_dec_val_nonneg(s: Seq<char>)
    requires
        all_digits(s),
    ensures
        dec_val(s) >= 0,
    decreases s.len(),
{
    if s.len() > 0 {
        let p = s.drop_last();
        assert(all_digits(p));
        lemma_dec_val_nonneg(p);
        assert(dec_val(p) * 10 >= 0) by (nonlinear_arith)
            requires
                dec_val(p) >= 0,
        ;
    }
}

/// Equality of two strings, decided character by character.
pub fn str_eq(a: &str, b: &str) -> (r: bool)
    ensures
        r == (a@ == b@),
{
    let la = a.unicode_len();
    let lb = b.unicode_len();
    if la != lb {
        return false;
    }
    let mut i: usize = 0;
    while i < la
        invariant
            0 <= i <= la,
            la == a@.len(),
            la == b@.len(),
            forall|j: int| 0 <= j < i ==> a@[j] == b@[j],
        decreases la - i,
    {
        if a.get_char(i) != b.get_char(i) {
            return false;
        }
        i = i + 1;
    }
    proof {
        assert(a@ =~= b@);
    }
    true
}

/// Reads a non-empty, all-digit string as a `usize`; `None` on any other
/// input or when the value does not fit.
pub fn parse_usize(s: &str) -> (r: Option<usize>)
    ensures
        r is Some <==> is_usize_numeral(s@),
        r is Some ==> r->0 == dec_val(s@),
{
    let n = s.unicode_len();
    if n == 0 {
        return None;
    }
    let mut i: usize = 0;
    let mut val: usize = 0;
    while i < n
        invariant
            0 <= i <= n,
            n == s@.len(),
            all_digits(s@.subrange(0, i as int)),
            val == dec_val(s@.subrange(0, i as int)),
        decreases n - i,
    {
        let c = s.get_char(i);
        if c < '0' || c > '9' {
            proof {
                assert(!char_is_digit(s@[i as int]));
            }
            return None;
        }
        let d: usize = (c as u32 as usize) - 48;
        proof {
            assert('0' <= c && c <= '9');
            assert(48 <= c as u32 <= 57);
        }
        let next = match val.checked_mul(10) {
            Some(v) => v.checked_add(d),
            None => None,
        };
        match next {
            Some(v) => {
                proof {
                    let p = s@.subrange(0, i as int);
                    let q = s@.subrange(0, i as int + 1);
                    assert(q.drop_last() =~= p);
                    assert(q.last() == s@[i as int]);
                }
                val = v;
            },
            None => {
                proof {
                    let p = s@.subrange(0, i as int);
                    let q = s@.subrange(0, i as int + 1);
                    assert(q.drop_last() =~= p);
                    assert(dec_val(q) > usize::MAX);
                    if all_digits(s@) {
                        lemma_dec_val_monotonic(s@, i as int + 1);
                    }
                }
                return None;
            },
        }
        i = i + 1;
    }
    proof {
        assert(s@.subrange(0, n as int) =~= s@);
    }
    Some(val)
}

} // verus!

verus! {

/// The distance to the first newline, or the length if there is none.
pub open spec fn first_newline(s: Seq<char>) -> int
    decreases s.len(),
{
    if s.len() == 0 {
        0
    } else if s[0] == '\n' {
        0
    } else {
        1 + first_newline(s.drop_first())
    }
}

/// The distance to the first separator, or the length if there is none.
pub open spec fn first_space(s: Seq<char>) -> int
    decreases s.len(),
{
    if s.len() == 0 {
        0
    } else if char_is_space(s[0]) {
        0
    } else {
        1 + first_space(s.drop_first())
    }
}

/// Both distances stay within the sequence.
pub proof fn lemma_first_indices(s: Seq<char>)
    ensures
        0 <= first_newline(s) <= s.len(),
        first_newline(s) < s.len() ==> s[first_newline(s)] == '\n',
        forall|i: int| 0 <= i < first_newline(s) ==> s[i] != '\n',
        0 <= first_space(s) <= s.len(),
        first_space(s) < s.len() ==> char_is_space(s[first_space(s)]),
        forall|i: int| 0 <= i < first_space(s) ==> !char_is_space(s[i]),
    decreases s.len(),
{
    if s.len() > 0 {
        lemma_first_indices(s.drop_first());
        if s[0] != '\n' {
            assert forall|i: int| 0 <= i < first_newline(s) implies s[i] != '\n' by {
                if i > 0 {
                    assert(s.drop_first()[i - 1] != '\n');
                }
            }
        }
        if !char_is_space(s[0]) {
            assert forall|i: int| 0 <= i < first_space(s) implies !char_is_space(s[i]) by {
                if i > 0 {
                    assert(!char_is_space(s.drop_first()[i - 1]));
                }
            }
        }
    }
}

/// The input cut at newlines. The text after the last newline is a line
/// too, so the empty input is one empty line.
pub open spec fn spec_lines(s: Seq<char>) -> Seq<Seq<char>>
    decreases s.len(),
{
    let k = first_newline(s);
    if !(0 <= k < s.len()) {
        seq![s]
    } else {
        seq![s.subrange(0, k)] + spec_lines(s.subrange(k + 1, s.len() as int))
    }
}

/// A line cut at the start of its comment: everything before the first
/// two adjacent dashes.
pub open spec fn comment_start(s: Seq<char>) -> int
    decreases s.len(),
{
    if s.len() < 2 {
        s.len() as int
    } else if s[0] == '-' && s[1] == '-' {
        0
    } else {
        1 + comment_start(s.drop_first())
    }
}

pub proof fn lemma_comment_start(s: Seq<char>)
    ensures
        0 <= comment_start(s) <= s.len(),
    decreases s.len(),
{
    if s.len() >= 2 && !(s[0] == '-' && s[1] == '-') {
        lemma_comment_start(s.drop_first());
    }
}

/// The line without its comment.
pub open spec fn stripped(s: Seq<char>) -> Seq<char> {
    if 0 <= comment_start(s) <= s.len() {
        s.subrange(0, comment_start(s))
    } else {
        s
    }
}

/// The whitespace-separated tokens of a sequence.
pub open spec fn spec_tokens(s: Seq<char>) -> Seq<Seq<char>>
    decreases s.len(),
{
    if s.len() == 0 {
        Seq::empty()
    } else if char_is_space(s[0]) {
        spec_tokens(s.drop_first())
    } else {
        let e = first_space(s);
        if 1 <= e <= s.len() {
            seq![s.subrange(0, e)] + spec_tokens(s.subrange(e, s.len() as int))
        } else {
            Seq::empty()
        }
    }
}

/// The tokens of a line, after cutting its comment.
pub open spec fn line_tokens(s: Seq<char>) -> Seq<Seq<char>> {
    spec_tokens(stripped(s))
}

/// The sequence without leading separators.
pub open spec fn trim_front(s: Seq<char>) -> Seq<char>
    decreases s.len(),
{
    if s.len() > 0 && char_is_space(s[0]) {
        trim_front(s.drop_first())
    } else {
        s
    }
}

/// The sequence without trailing separators.
pub open spec fn trim_back(s: Seq<char>) -> Seq<char>
    decreases s.len(),
{
    if s.len() > 0 && char_is_space(s.last()) {
        trim_back(s.drop_last())
    } else {
        s
    }
}

/// The sequence without leading or trailing separators.
pub open spec fn spec_trim(s: Seq<char>) -> Seq<char> {
    trim_back(trim_front(s))
}

proof fn lemma_trim_front_at(s: Seq<char>, a: int)
    requires
        0 <= a <= s.len(),
        forall|i: int| 0 <= i < a ==> char_is_space(s[i]),
        a == s.len() || !char_is_space(s[a]),
    ensures
        trim_front(s) == s.subrange(a, s.len() as int),
    decreases a,
{
    if a == 0 {
        if s.len() > 0 {
            assert(!char_is_space(s[0]));
        }
        assert(s.subrange(0, s.len() as int) =~= s);
    } else {
        assert(char_is_space(s[0]));
        let s1 = s.drop_first();
        assert forall|i: int| 0 <= i < a - 1 implies char_is_space(s1[i]) by {
            assert(s1[i] == s[i + 1]);
        }
        lemma_trim_front_at(s1, a - 1);
        assert(s1.subrange(a - 1, s1.len() as int) =~= s.subrange(a, s.len() as int));
    }
}

proof fn lemma_trim_back_at(s: Seq<char>, b: int)
    requires
        0 <= b <= s.len(),
        forall|i: int| b <= i < s.len() ==> char_is_space(s[i]),
        b == 0 || !char_is_space(s[b - 1]),
    ensures
        trim_back(s) == s.subrange(0, b),
    decreases s.len(),
{
    if b == s.len() {
        if s.len() > 0 {
            assert(!char_is_space(s.last()));
        }
        assert(s.subrange(0, s.len() as int) =~= s);
    } else {
        assert(char_is_space(s.last()));
        let s1 = s.drop_last();
        lemma_trim_back_at(s1, b);
        assert(s1.subrange(0, b) =~= s.subrange(0, b));
    }
}

/// The input without leading or trailing separators.
pub fn trim(s: &str) -> (r: &str)
    ensures
        r@ == spec_trim(s@),
{
    let n = s.unicode_len();
    let mut a: usize = 0;
    while a < n && is_space(s.get_char(a))
        invariant
            0 <= a <= n,
            n == s@.len(),
            forall|i: int| 0 <= i < a ==> char_is_space(s@[i]),
        decreases n - a,
    {
        a = a + 1;
    }
    proof {
        lemma_trim_front_at(s@, a as int);
    }
    let mut b: usize = n;
    while b > a && is_space(s.get_char(b - 1))
        invariant
            a <= b <= n,
            n == s@.len(),
            forall|i: int| 0 <= i < a ==> char_is_space(s@[i]),
            a == s@.len() || !char_is_space(s@[a as int]),
            forall|i: int| b <= i < n ==> char_is_space(s@[i]),
        decreases b,
    {
        b = b - 1;
    }
    let r = s.substring_char(a, b);
    proof {
        let tf = s@.subrange(a as int, n as int);
        assert forall|i: int| b - a <= i < tf.len() implies char_is_space(tf[i]) by {
            assert(tf[i] == s@[a + i]);
        }
        if b > a {
            assert(!char_is_space(tf[b - a - 1]));
        }
        lemma_trim_back_at(tf, b - a);
        assert(tf.subrange(0, b - a) =~= s@.subrange(a as int, b as int));
    }
    r
}

} // verus!

verus! {

/// The views of a list of strings.
pub open spec fn views_of(v: Seq<String>) -> Seq<Seq<char>> {
    Seq::new(v.len(), |i: int| (v[i])@)
}

/// Cuts the input at newlines.
pub fn split_lines(s: &str) -> (r: Vec<String>)
    ensures
        views_of(r@) == spec_lines(s@),
{
    let n = s.unicode_len();
    let mut r: Vec<String> = Vec::new();
    let mut start: usize = 0;
    proof {
        assert(s@.subrange(0, n as int) =~= s@);
        assert(views_of(r@) =~= Seq::<Seq<char>>::empty());
        assert(views_of(r@) + spec_lines(s@) =~= spec_lines(s@));
    }
    loop
        invariant_except_break
            spec_lines(s@) =~= views_of(r@) + spec_lines(s@.subrange(start as int, n as int)),
        invariant
            0 <= start <= n,
            n == s@.len(),
        ensures
            views_of(r@) =~= spec_lines(s@),
        decreases n - start,
    {
        let ghost rest = s@.subrange(start as int, n as int);
        let mut j: usize = start;
        while j < n && s.get_char(j) != '\n'
            invariant
                start <= j <= n,
                n == s@.len(),
                forall|i: int| start <= i < j ==> s@[i] != '\n',
            decreases n - j,
        {
            j = j + 1;
        }
        proof {
            lemma_first_indices(rest);
            assert forall|i: int| 0 <= i < j - start implies rest[i] != '\n' by {
                assert(rest[i] == s@[start + i]);
            }
            if j < n {
                assert(rest[j - start] == '\n');
                if first_newline(rest) < j - start {
                    assert(rest[first_newline(rest)] != '\n');
                    assert(false);
                }
                if first_newline(rest) > j - start {
                    assert(rest[j - start] != '\n');
                    assert(false);
                }
            } else {
                if first_newline(rest) < rest.len() {
                    assert(rest[first_newline(rest)] != '\n');
                    assert(false);
                }
            }
        }
        let piece = s.substring_char(start, j).to_owned();
        r.push(piece);
        if j == n {
            proof {
                assert(spec_lines(rest) =~= seq![rest]);
                assert(s@.subrange(start as int, j as int) =~= rest);
                assert(views_of(r@) =~= views_of(r@.drop_last()) + seq![rest]);
            }
            break;
        }
        proof {
            let k = first_newline(rest);
            assert(spec_lines(rest) =~= seq![rest.subrange(0, k)] + spec_lines(
                rest.subrange(k + 1, rest.len() as int),
            ));
            assert(rest.subrange(0, k) =~= s@.subrange(start as int, j as int));
            assert(rest.subrange(k + 1, rest.len() as int) =~= s@.subrange(
                j as int + 1,
                n as int,
            ));
            assert(views_of(r@) =~= views_of(r@.drop_last()) + seq![
                s@.subrange(start as int, j as int),
            ]);
        }
        start = j + 1;
    }
    r
}

/// The whitespace-separated tokens of a line, with its comment cut away.
pub fn tokenize(line: &str) -> (r: Vec<String>)
    ensures
        views_of(r@) == line_tokens(line@),
{
    let n = line.unicode_len();
    // find where the comment starts
    let mut c: usize = 0;
    proof {
        assert(line@.subrange(0, n as int) =~= line@);
    }
    while c < n && c + 1 < n && !(line.get_char(c) == '-' && line.get_char(c + 1) == '-')
        invariant
            0 <= c <= n,
            n == line@.len(),
            c < n || n == 0,
            comment_start(line@) == c + comment_start(line@.subrange(c as int, n as int)),
        decreases n - c,
    {
        proof {
            let rest = line@.subrange(c as int, n as int);
            let rest1 = line@.subrange(c as int + 1, n as int);
            assert(rest.len() >= 2);
            assert(rest[0] == line@[c as int] && rest[1] == line@[c as int + 1]);
            assert(rest.drop_first() =~= rest1);
        }
        c = c + 1;
    }
    proof {
        let rest = line@.subrange(c as int, n as int);
        if c + 1 < n {
            assert(rest.len() >= 2 && rest[0] == '-' && rest[1] == '-');
            assert(comment_start(rest) == 0);
        } else {
            assert(rest.len() < 2);
            assert(comment_start(rest) == rest.len());
        }
        lemma_comment_start(line@);
    }
    let cend = if c + 1 < n {
        c
    } else {
        n
    };
    proof {
        assert(stripped(line@) =~= line@.subrange(0, cend as int));
    }

    // split what is left on separators
    let mut r: Vec<String> = Vec::new();
    let mut pos: usize = 0;
    while pos < cend
        invariant
            0 <= pos <= cend <= n,
            n == line@.len(),
            stripped(line@) == line@.subrange(0, cend as int),
            line_tokens(line@) =~= views_of(r@) + spec_tokens(
                line@.subrange(pos as int, cend as int),
            ),
        decreases cend - pos,
    {
        let ghost rest = line@.subrange(pos as int, cend as int);
        if is_space(line.get_char(pos)) {
            proof {
                assert(rest[0] == line@[pos as int]);
                assert(rest.drop_first() =~= line@.subrange(pos as int + 1, cend as int));
            }
            pos = pos + 1;
        } else {
            let mut e: usize = pos;
            while e < cend && !is_space(line.get_char(e))
                invariant
                    pos <= e <= cend <= n,
                    n == line@.len(),
                    forall|i: int| pos <= i < e ==> !char_is_space(line@[i]),
                decreases cend - e,
            {
                e = e + 1;
            }
            proof {
                lemma_first_indices(rest);
                assert forall|i: int| 0 <= i < e - pos implies !char_is_space(rest[i]) by {
                    assert(rest[i] == line@[pos + i]);
                }
                if e < cend {
                    assert(char_is_space(rest[e - pos]));
                    if first_space(rest) < e - pos {
                        assert(!char_is_space(rest[first_space(rest)]));
                        assert(false);
                    }
                    if first_space(rest) > e - pos {
                        assert(!char_is_space(rest[e - pos]));
                        assert(false);
                    }
                } else {
                    if first_space(rest) < rest.len() {
                        assert(!char_is_space(rest[first_space(rest)]));
                        assert(false);
                    }
                }
                assert(first_space(rest) == e - pos);
            }
            let tok = line.substring_char(pos, e).to_owned();
            r.push(tok);
            proof {
                let k = first_space(rest);
                assert(spec_tokens(rest) =~= seq![rest.subrange(0, k)] + spec_tokens(
                    rest.subrange(k, rest.len() as int),
                ));
                assert(rest.subrange(0, k) =~= line@.subrange(pos as int, e as int));
                assert(rest.subrange(k, rest.len() as int) =~= line@.subrange(
                    e as int,
                    cend as int,
                ));
                assert(views_of(r@) =~= views_of(r@.drop_last()) + seq![
                    line@.subrange(pos as int, e as int),
                ]);
            }
            pos = e;
        }
    }
    proof {
        assert(line@.subrange(cend as int, cend as int) =~= Seq::<char>::empty());
        assert(spec_tokens(Seq::<char>::empty()) =~= Seq::<Seq<char>>::empty());
        assert(views_of(r@) + Seq::<Seq<char>>::empty() =~= views_of(r@));
    }
    r
}

} // verus!
