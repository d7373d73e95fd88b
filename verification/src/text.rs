//! Character and token level helpers: splitting a message into
//! whitespace-separated tokens, joining tokens back together, substring
//! search, and decimal parsing and printing.

use vstd::prelude::*;
use vstd::string::StrSliceExecFns;
use vstd::string::StringExecFns;

verus! {

/// The characters treated as token separators.
pub open spec fn is_space_spec(c: char) -> bool {
    c == ' ' || c == '\t' || c == '\n' || c == '\r' || c == '\u{b}' || c == '\u{c}'
}

#[verifier::when_used_as_spec(is_space_spec)]
pub fn is_space(c: char) -> (r: bool)
    ensures
        r == is_space_spec(c),
{
    c == ' ' || c == '\t' || c == '\n' || c == '\r' || c == '\u{b}' || c == '\u{c}'
}

/// Collects the characters of a string slice into a vector.
pub fn chars_vec(s: &str) -> (r: Vec<char>)
    ensures
        r@ == s@,
{
    let n = s.unicode_len();
    let mut out: Vec<char> = Vec::new();
    let mut i: usize = 0;
    while i < n
        invariant
            i <= n,
            n == s@.len(),
            out@ == s@.subrange(0, i as int),
        decreases n - i,
    {
        out.push(s.get_char(i));
        i += 1;
        proof {
            assert(out@ =~= s@.subrange(0, i as int));
        }
    }
    proof {
        assert(out@ =~= s@);
    }
    out
}

/// Relies on String::push: appends the given character to the end of the
/// string.
#[verifier::external_body]
pub fn push_char(s: &mut String, c: char)
    ensures
        final(s)@ == old(s)@.push(c),
{
    s.push(c);
}

/// Builds a string out of a sequence of characters.
pub fn chars_to_string(cs: &Vec<char>) -> (r: String)
    ensures
        r@ == cs@,
{
    let mut out = String::new();
    let mut i: usize = 0;
    while i < cs.len()
        invariant
            i <= cs@.len(),
            out@ == cs@.subrange(0, i as int),
        decreases cs@.len() - i,
    {
        push_char(&mut out, cs[i]);
        i += 1;
        proof {
            assert(out@ =~= cs@.subrange(0, i as int));
        }
    }
    proof {
        assert(out@ =~= cs@);
    }
    out
}

/// Length of the run of non-space characters starting at `i`.
pub open spec fn run_len_from(s: Seq<char>, i: int) -> nat
    decreases s.len() - i when 0 <= i <= s.len()
{
    if i >= s.len() || is_space_spec(s[i]) {
        0
    } else {
        1 + run_len_from(s, i + 1)
    }
}

pub proof fn lemma_run_len_from(s: Seq<char>, i: int, j: int)
    requires
        0 <= i <= j <= s.len(),
        forall|k: int| i <= k < j ==> !is_space_spec(s[k]),
        j == s.len() || is_space_spec(s[j]),
    ensures
        run_len_from(s, i) == j - i,
    decreases j - i,
{
    if i < j {
        lemma_run_len_from(s, i + 1, j);
    }
}

/// The whitespace-separated tokens of `s`, starting from position `i`.
pub open spec fn tokens_from(s: Seq<char>, i: int) -> Seq<Seq<char>>
    decreases s.len() - i when 0 <= i <= s.len()
{
    if i >= s.len() {
        Seq::empty()
    } else if is_space_spec(s[i]) {
        tokens_from(s, i + 1)
    } else {
        let r = vstd::math::min(run_len_from(s, i) as int, s.len() - i);
        seq![s.subrange(i, i + r)] + tokens_from(s, i + r)
    }
}

/// The whitespace-separated tokens of `s`.
pub open spec fn tokens_of(s: Seq<char>) -> Seq<Seq<char>> {
    tokens_from(s, 0)
}

/// A well-formed token: non-empty and free of separator characters.
pub open spec fn token_wf(tok: Seq<char>) -> bool {
    tok.len() > 0 && forall|k: int| 0 <= k < tok.len() ==> !is_space_spec(tok[k])
}

/// Every member of the token list is a well-formed token.
pub open spec fn all_tokens_wf(toks: Seq<Seq<char>>) -> bool {
    forall|t: int| 0 <= t < toks.len() ==> token_wf(#[trigger] toks[t])
}

/// Every token is non-empty and free of separator characters.
pub proof fn lemma_tokens_from_wf(s: Seq<char>, i: int)
    requires
        0 <= i <= s.len(),
    ensures
        all_tokens_wf(tokens_from(s, i)),
    decreases s.len() - i,
{
    if i >= s.len() {
        assert(tokens_from(s, i).len() == 0);
    } else if is_space_spec(s[i]) {
        lemma_tokens_from_wf(s, i + 1);
        assert(tokens_from(s, i) == tokens_from(s, i + 1));
    } else {
        lemma_run_len_pos(s, i);
        let r = run_len_from(s, i) as int;
        let head = s.subrange(i, i + r);
        lemma_tokens_from_wf(s, i + r);
        assert(tokens_from(s, i) == seq![head] + tokens_from(s, i + r));
        assert(token_wf(head)) by {
            assert(forall|k: int| 0 <= k < head.len() ==> head[k] == s[i + k]);
        }
        assert forall|t: int| 0 <= t < tokens_from(s, i).len() implies token_wf(
            #[trigger] tokens_from(s, i)[t],
        ) by {
            if t == 0 {
                assert(tokens_from(s, i)[t] == head);
            } else {
                assert(tokens_from(s, i)[t] == tokens_from(s, i + r)[t - 1]);
            }
        }
    }
}

proof fn lemma_run_len_pos(s: Seq<char>, i: int)
    requires
        0 <= i < s.len(),
        !is_space_spec(s[i]),
    ensures
        1 <= run_len_from(s, i) <= s.len() - i,
        forall|k: int| i <= k < i + run_len_from(s, i) ==> !is_space_spec(s[k]),
    decreases s.len() - i,
{
    assert(run_len_from(s, i) == 1 + run_len_from(s, i + 1));
    if i + 1 < s.len() && !is_space_spec(s[i + 1]) {
        lemma_run_len_pos(s, i + 1);
    } else {
        assert(run_len_from(s, i + 1) == 0);
    }
}

/// Splits a string into its whitespace-separated tokens.
pub fn tokenize(s: &str) -> (r: Vec<String>)
    ensures
        r.deep_view() == tokens_of(s@),
{
    let cs = chars_vec(s);
    let n = cs.len();
    let mut out: Vec<String> = Vec::new();
    let mut i: usize = 0;
    while i < n
        invariant
            i <= n,
            n == cs@.len(),
            cs@ == s@,
            out.deep_view() + tokens_from(s@, i as int) == tokens_of(s@),
        decreases n - i,
    {
        if is_space(cs[i]) {
            i += 1;
        } else {
            let start = i;
            let mut cur: Vec<char> = Vec::new();
            while i < n && !is_space(cs[i])
                invariant
                    start <= i <= n,
                    n == cs@.len(),
                    cs@ == s@,
                    start < n,
                    !is_space_spec(s@[start as int]),
                    forall|k: int| start <= k < i ==> !is_space_spec(s@[k]),
                    cur@ == s@.subrange(start as int, i as int),
                decreases n - i,
            {
                cur.push(cs[i]);
                i += 1;
                proof {
                    assert(cur@ =~= s@.subrange(start as int, i as int));
                }
            }
            proof {
                lemma_run_len_from(s@, start as int, i as int);
            }
            let tok = chars_to_string(&cur);
            let ghost prev = out.deep_view();
            out.push(tok);
            proof {
                let t = s@.subrange(start as int, i as int);
                assert(out.deep_view() =~= prev.push(t));
                assert(tokens_from(s@, start as int) == seq![t] + tokens_from(s@, i as int));
                assert(prev.push(t) + tokens_from(s@, i as int) =~= prev + tokens_from(
                    s@,
                    start as int,
                ));
            }
        }
    }
    proof {
        assert(out.deep_view() =~= tokens_of(s@));
    }
    out
}

/// The tokens joined with one trailing space after each token.
pub open spec fn join_spaced(toks: Seq<Seq<char>>) -> Seq<char>
    decreases toks.len(),
{
    if toks.len() == 0 {
        Seq::empty()
    } else {
        join_spaced(toks.drop_last()) + toks.last() + seq![' ']
    }
}

/// Joins tokens into one string, each token followed by a single space.
pub fn join_tokens(toks: &Vec<String>) -> (r: String)
    ensures
        r@ == join_spaced(toks.deep_view()),
{
    let mut out = String::new();
    let mut i: usize = 0;
    while i < toks.len()
        invariant
            i <= toks@.len(),
            out@ == join_spaced(toks.deep_view().subrange(0, i as int)),
        decreases toks@.len() - i,
    {
        out.append(toks[i].as_str());
        push_char(&mut out, ' ');
        i += 1;
        proof {
            let pre = toks.deep_view().subrange(0, i as int);
            assert(pre.drop_last() =~= toks.deep_view().subrange(0, i - 1));
            assert(pre.last() == toks.deep_view()[i - 1]);
        }
    }
    proof {
        assert(toks.deep_view().subrange(0, toks.deep_view().len() as int) =~= toks.deep_view());
    }
    out
}

proof fn lemma_run_len_shift(s: Seq<char>, j: int, i: int)
    requires
        0 <= j,
        0 <= i,
        j + i <= s.len(),
    ensures
        run_len_from(s.skip(j), i) == run_len_from(s, j + i),
    decreases s.len() - j - i,
{
    let t = s.skip(j);
    if j + i == s.len() {
    } else if is_space_spec(s[j + i]) {
        assert(t[i] == s[j + i]);
    } else {
        assert(t[i] == s[j + i]);
        lemma_run_len_shift(s, j, i + 1);
    }
}

proof fn lemma_tokens_from_shift(s: Seq<char>, j: int, i: int)
    requires
        0 <= j,
        0 <= i,
        j + i <= s.len(),
    ensures
        tokens_from(s.skip(j), i) == tokens_from(s, j + i),
    decreases s.len() - j - i,
{
    let t = s.skip(j);
    if j + i == s.len() {
        assert(tokens_from(t, i).len() == 0);
        assert(tokens_from(s, j + i).len() == 0);
    } else if is_space_spec(s[j + i]) {
        assert(t[i] == s[j + i]);
        lemma_tokens_from_shift(s, j, i + 1);
    } else {
        assert(t[i] == s[j + i]);
        lemma_run_len_shift(s, j, i);
        lemma_run_len_pos(s, j + i);
        let r = run_len_from(s, j + i) as int;
        assert(t.subrange(i, i + r) =~= s.subrange(j + i, j + i + r));
        lemma_tokens_from_shift(s, j, i + r);
        assert(tokens_from(t, i) =~= tokens_from(s, j + i));
    }
}

/// Splitting a space-joined list of well-formed tokens gives the list back.
pub proof fn lemma_tokens_of_join(toks: Seq<Seq<char>>)
    requires
        all_tokens_wf(toks),
    ensures
        tokens_of(join_spaced(toks)) == toks,
    decreases toks.len(),
{
    if toks.len() == 0 {
        assert(tokens_of(join_spaced(toks)).len() == 0);
        assert(tokens_of(join_spaced(toks)) =~= toks);
    } else {
        lemma_join_left_unfold(toks);
        let s = join_spaced(toks);
        let t0 = toks[0];
        let rest = join_spaced(toks.drop_first());
        assert(token_wf(t0));
        let n0 = t0.len() as int;
        assert(s.len() == n0 + 1 + rest.len());
        assert(forall|k: int| 0 <= k < n0 ==> s[k] == t0[k]);
        assert(s[n0] == ' ');
        lemma_run_len_from(s, 0, n0);
        assert(tokens_from(s, 0) == seq![s.subrange(0, n0)] + tokens_from(s, n0));
        assert(s.subrange(0, n0) =~= t0);
        assert(tokens_from(s, n0) == tokens_from(s, n0 + 1));
        lemma_tokens_from_shift(s, n0 + 1, 0);
        assert(s.skip(n0 + 1) =~= rest);
        assert(all_tokens_wf(toks.drop_first())) by {
            assert forall|q: int| 0 <= q < toks.drop_first().len() implies token_wf(
                #[trigger] toks.drop_first()[q],
            ) by {
                assert(toks.drop_first()[q] == toks[q + 1]);
            }
        }
        lemma_tokens_of_join(toks.drop_first());
        assert(tokens_of(s) =~= toks);
    }
}

/// Joining also unfolds from the left: the first token, a space, the rest.
proof fn lemma_join_left_unfold(toks: Seq<Seq<char>>)
    requires
        toks.len() > 0,
    ensures
        join_spaced(toks) == toks[0] + seq![' '] + join_spaced(toks.drop_first()),
    decreases toks.len(),
{
    if toks.len() == 1 {
        assert(toks.drop_last() =~= Seq::<Seq<char>>::empty());
        assert(toks.drop_first() =~= Seq::<Seq<char>>::empty());
        assert(join_spaced(toks) =~= toks[0] + seq![' '] + join_spaced(toks.drop_first()));
    } else {
        lemma_join_left_unfold(toks.drop_last());
        assert(toks.drop_last()[0] == toks[0]);
        assert(toks.drop_last().drop_first() =~= toks.drop_first().drop_last());
        assert(toks.drop_first().last() == toks.last());
        assert(join_spaced(toks) =~= toks[0] + seq![' '] + join_spaced(toks.drop_first()));
    }
}

/// The tokens joined with single spaces between them and none trailing.
pub open spec fn join_words(toks: Seq<Seq<char>>) -> Seq<char>
    decreases toks.len(),
{
    if toks.len() == 0 {
        Seq::empty()
    } else if toks.len() == 1 {
        toks[0]
    } else {
        join_words(toks.drop_last()) + seq![' '] + toks.last()
    }
}

/// Joins the tokens from position `from` on with single spaces.
pub fn join_words_from(toks: &Vec<String>, from: usize) -> (r: String)
    requires
        from <= toks@.len(),
    ensures
        r@ == join_words(toks.deep_view().skip(from as int)),
{
    let mut out = String::new();
    let mut i: usize = from;
    while i < toks.len()
        invariant
            from <= i <= toks@.len(),
            out@ == join_words(toks.deep_view().subrange(from as int, i as int)),
        decreases toks@.len() - i,
    {
        if i > from {
            push_char(&mut out, ' ');
        }
        out.append(toks[i].as_str());
        i += 1;
        proof {
            let sub = toks.deep_view().subrange(from as int, i as int);
            assert(sub.last() == toks.deep_view()[i - 1]);
            assert(sub.drop_last() =~= toks.deep_view().subrange(from as int, i - 1));
            if sub.len() == 1 {
                assert(out@ =~= join_words(sub));
            } else {
                assert(out@ =~= join_words(sub));
            }
        }
    }
    proof {
        assert(toks.deep_view().subrange(from as int, toks.deep_view().len() as int)
            =~= toks.deep_view().skip(from as int));
    }
    out
}

/// `pat` occurs in `s` starting at position `i`.
pub open spec fn is_substring_at(s: Seq<char>, pat: Seq<char>, i: int) -> bool {
    0 <= i && i + pat.len() <= s.len() && s.subrange(i, i + pat.len() as int) == pat
}

/// `pat` occurs somewhere in `s`.
pub open spec fn contains_seq(s: Seq<char>, pat: Seq<char>) -> bool {
    exists|i: int| is_substring_at(s, pat, i)
}

/// Substring search: does `pat` occur anywhere in `s`?
pub fn contains_sub(s: &str, pat: &str) -> (r: bool)
    ensures
        r == contains_seq(s@, pat@),
{
    let cs = chars_vec(s);
    let ps = chars_vec(pat);
    let n = cs.len();
    let m = ps.len();
    if m > n {
        proof {
            assert(forall|i: int| !is_substring_at(s@, pat@, i));
        }
        return false;
    }
    if m == 0 {
        proof {
            assert(s@.subrange(0, 0) =~= pat@);
            assert(is_substring_at(s@, pat@, 0));
        }
        return true;
    }
    let mut i: usize = 0;
    while i <= n - m
        invariant
            0 < m <= n,
            n == s@.len(),
            m == pat@.len(),
            cs@ == s@,
            ps@ == pat@,
            i <= n - m + 1,
            forall|k: int| 0 <= k < i ==> !is_substring_at(s@, pat@, k),
        decreases n - m + 1 - i,
    {
        let mut j: usize = 0;
        let mut hit: bool = true;
        while j < m
            invariant
                m <= n,
                n == s@.len(),
                m == pat@.len(),
                cs@ == s@,
                ps@ == pat@,
                i + m <= n,
                j <= m,
                hit ==> forall|k: int| 0 <= k < j ==> s@[i + k] == pat@[k],
                !hit ==> !is_substring_at(s@, pat@, i as int),
            decreases m - j,
        {
            if cs[i + j] != ps[j] {
                proof {
                    let sub = s@.subrange(i as int, i + m);
                    assert(sub[j as int] == s@[i + j]);
                }
                hit = false;
                j = m;
            } else {
                j += 1;
            }
        }
        if hit {
            proof {
                assert(s@.subrange(i as int, i + m) =~= pat@);
                assert(is_substring_at(s@, pat@, i as int));
            }
            return true;
        }
        i += 1;
    }
    proof {
        assert forall|k: int| !is_substring_at(s@, pat@, k) by {
            if 0 <= k && k + pat@.len() <= s@.len() {
                assert(k < i);
            }
        }
    }
    false
}

/// `p` is a prefix of `s`.
pub open spec fn has_prefix(s: Seq<char>, p: Seq<char>) -> bool {
    p.len() <= s.len() && s.subrange(0, p.len() as int) == p
}

/// Strips the prefix `p` from `s`, if `s` starts with it.
pub fn strip_prefix_str(s: &str, p: &str) -> (r: Option<String>)
    ensures
        has_prefix(s@, p@) ==> (r matches Some(t) && t@ == s@.subrange(
            p@.len() as int,
            s@.len() as int,
        )),
        !has_prefix(s@, p@) ==> r is None,
{
    let n = s.unicode_len();
    let m = p.unicode_len();
    if m > n {
        return None;
    }
    let mut j: usize = 0;
    while j < m
        invariant
            m <= n,
            n == s@.len(),
            m == p@.len(),
            j <= m,
            forall|k: int| 0 <= k < j ==> s@[k] == p@[k],
        decreases m - j,
    {
        if s.get_char(j) != p.get_char(j) {
            proof {
                assert(s@.subrange(0, p@.len() as int)[j as int] == s@[j as int]);
            }
            return None;
        }
        j += 1;
    }
    proof {
        assert(s@.subrange(0, p@.len() as int) =~= p@);
    }
    let rest = s.substring_char(m, n);
    Some(rest.to_owned())
}

/// A decimal digit.
pub open spec fn is_dec_digit(c: char) -> bool {
    48 <= c as u32 && c as u32 <= 57
}

pub open spec fn dec_digit_val(c: char) -> int {
    c as u32 - 48
}

/// A non-empty string of decimal digits.
pub open spec fn all_digits(s: Seq<char>) -> bool {
    s.len() > 0 && forall|i: int| 0 <= i < s.len() ==> is_dec_digit(#[trigger] s[i])
}

/// The value of a digit string, most significant digit first.
pub open spec fn digits_val(s: Seq<char>) -> int
    decreases s.len(),
{
    if s.len() == 0 {
        0
    } else {
        digits_val(s.drop_last()) * 10 + dec_digit_val(s.last())
    }
}

/// The value denoted by an optionally signed decimal literal, if any.
pub open spec fn int_literal_value(s: Seq<char>) -> Option<int> {
    if s.len() > 0 && (s[0] == '-' || s[0] == '+') {
        if all_digits(s.drop_first()) {
            let v = digits_val(s.drop_first());
            Some(
                if s[0] == '-' {
                    -v
                } else {
                    v
                },
            )
        } else {
            Option::None
        }
    } else if all_digits(s) {
        Some(digits_val(s))
    } else {
        Option::None
    }
}

/// The probability stored for a given textual input: the literal's value
/// clamped into [0, 100] when it denotes a 32-bit integer, and 5 otherwise.
pub open spec fn prob_of_input(s: Seq<char>) -> int {
    match int_literal_value(s) {
        Some(v) => {
            if v > 0x7fffffff || v < -0x80000000 {
                5
            } else if v > 100 {
                100
            } else if v < 0 {
                0
            } else {
                v
            }
        },
        Option::None => 5,
    }
}

proof fn lemma_digits_val_nonneg(s: Seq<char>)
    requires
        forall|i: int| 0 <= i < s.len() ==> is_dec_digit(#[trigger] s[i]),
    ensures
        digits_val(s) >= 0,
    decreases s.len(),
{
    if s.len() > 0 {
        lemma_digits_val_nonneg(s.drop_last());
    }
}

/// Parses a probability input leniently: a 32-bit decimal literal is clamped
/// into [0, 100]; anything else stores 5.
pub fn parse_prob(s: &str) -> (r: u8)
    ensures
        r as int == prob_of_input(s@),
{
    let cs = chars_vec(s);
    let n = cs.len();
    if n == 0 {
        return 5;
    }
    let neg: bool = cs[0] == '-';
    let signed: bool = neg || cs[0] == '+';
    let start: usize = if signed {
        1
    } else {
        0
    };
    let ghost ds = s@.subrange(start as int, n as int);
    if start >= n {
        // a bare sign has no digits
        return 5;
    }
    let mut acc: u64 = 0;
    let mut over: bool = false;
    let mut j: usize = start;
    while j < n
        invariant
            start < n,
            n == s@.len(),
            cs@ == s@,
            ds == s@.subrange(start as int, n as int),
            neg == (s@[0] == '-'),
            signed == (s@[0] == '-' || s@[0] == '+'),
            start as int == (if signed {
                1int
            } else {
                0int
            }),
            start <= j <= n,
            forall|k: int| 0 <= k < j - start ==> is_dec_digit(#[trigger] ds[k]),
            !over ==> acc <= 0xffffffff && acc as int == digits_val(ds.subrange(0, j - start)),
            over ==> digits_val(ds.subrange(0, j - start)) > 0xffffffff,
        decreases n - j,
    {
        let c = cs[j];
        let cv = c as u32;
        if cv < 48 || cv > 57 {
            proof {
                assert(ds[j - start] == s@[j as int]);
                assert(!all_digits(ds));
                if signed {
                    assert(s@.drop_first() =~= s@.subrange(1, n as int));
                } else {
                    assert(ds =~= s@);
                }
            }
            return 5;
        }
        let d = (cv - 48) as u64;
        let ghost pre = ds.subrange(0, j - start);
        let ghost nxt = ds.subrange(0, j + 1 - start);
        proof {
            assert(ds[j - start] == s@[j as int]);
            assert(is_dec_digit(ds[j - start]));
            assert(nxt.drop_last() =~= pre);
            assert(nxt.last() == ds[j - start]);
            lemma_digits_val_nonneg(pre);
            assert(digits_val(nxt) == digits_val(pre) * 10 + (d as int));
        }
        if over {
        } else if acc > 0xffffffff / 10 {
            over = true;
        } else {
            acc = acc * 10 + d;
            if acc > 0xffffffff {
                over = true;
            }
        }
        j += 1;
        proof {
            assert(ds.subrange(0, j - start) == nxt);
            assert(forall|k: int| 0 <= k < j - start ==> is_dec_digit(#[trigger] ds[k]));
        }
    }
    proof {
        assert(ds.subrange(0, n - start as int) =~= ds);
        assert(all_digits(ds));
        if signed {
            assert(s@.drop_first() =~= ds);
        } else {
            assert(ds =~= s@);
        }
    }
    if over {
        return 5;
    }
    if neg {
        if acc > 0x80000000 {
            5
        } else {
            0
        }
    } else {
        if acc > 0x7fffffff {
            5
        } else if acc > 100 {
            100
        } else {
            acc as u8
        }
    }
}

/// The decimal representation of a non-negative integer.
pub open spec fn dec_str(n: int) -> Seq<char>
    decreases n when n >= 0
{
    if 0 <= n && n < 10 {
        seq![dec_char(n)]
    } else {
        dec_str(n / 10).push(dec_char(n % 10))
    }
}

pub open spec fn dec_char(d: int) -> char {
    ((48 + d) as u8) as char
}

/// Prints a byte value in decimal.
pub fn u8_dec_string(n: u8) -> (r: String)
    ensures
        r@ == dec_str(n as int),
{
    let mut out = String::new();
    if n >= 100 {
        push_char(&mut out, (48 + n / 100) as char);
        push_char(&mut out, (48 + (n / 10) % 10) as char);
        push_char(&mut out, (48 + n % 10) as char);
        proof {
            reveal_with_fuel(dec_str, 4);
            assert((n as int / 10) / 10 == n as int / 100) by (nonlinear_arith);
            assert(dec_str(n as int) =~= seq![
                dec_char(n as int / 100),
                dec_char((n as int / 10) % 10),
                dec_char(n as int % 10),
            ]);
            assert(out@ =~= dec_str(n as int));
        }
    } else if n >= 10 {
        push_char(&mut out, (48 + n / 10) as char);
        push_char(&mut out, (48 + n % 10) as char);
        proof {
            reveal_with_fuel(dec_str, 3);
            assert(dec_str(n as int) =~= seq![dec_char(n as int / 10), dec_char(n as int % 10)]);
            assert(out@ =~= dec_str(n as int));
        }
    } else {
        push_char(&mut out, (48 + n) as char);
        proof {
            reveal_with_fuel(dec_str, 2);
            assert(out@ =~= dec_str(n as int));
        }
    }
    out
}

/// Is this string a well-formed token: non-empty and free of separators?
pub fn token_is_wf(s: &str) -> (r: bool)
    ensures
        r == token_wf(s@),
{
    let cs = chars_vec(s);
    if cs.len() == 0 {
        return false;
    }
    let mut i: usize = 0;
    while i < cs.len()
        invariant
            i <= cs@.len(),
            cs@ == s@,
            forall|k: int| 0 <= k < i ==> !is_space_spec(s@[k]),
        decreases cs@.len() - i,
    {
        if is_space(cs[i]) {
            return false;
        }
        i += 1;
    }
    true
}

/// Copies a token list, element for element.
pub fn clone_tokens(v: &Vec<String>) -> (r: Vec<String>)
    ensures
        r@ == v@,
{
    let mut out: Vec<String> = Vec::new();
    let mut i: usize = 0;
    while i < v.len()
        invariant
            i <= v@.len(),
            out@ == v@.subrange(0, i as int),
        decreases v@.len() - i,
    {
        out.push(v[i].clone());
        i += 1;
        proof {
            assert(out@ =~= v@.subrange(0, i as int));
        }
    }
    proof {
        assert(out@ =~= v@);
    }
    out
}

/// Character-for-character equality of two string slices.
pub fn str_eq(a: &str, b: &str) -> (r: bool)
    ensures
        r == (a@ == b@),
{
    let n = a.unicode_len();
    if n != b.unicode_len() {
        return false;
    }
    let mut i: usize = 0;
    while i < n
        invariant
            i <= n,
            n == a@.len(),
            n == b@.len(),
            forall|j: int| 0 <= j < i ==> a@[j] == b@[j],
        decreases n - i,
    {
        if a.get_char(i) != b.get_char(i) {
            return false;
        }
        i += 1;
    }
    proof {
        assert(a@ =~= b@);
    }
    true
}

} // verus!
