//! The whitespace structure of a line: splitting into tokens, joining
//! tokens back with single spaces, trimming, and blankness.

use vstd::prelude::*;

verus! {

/// Unicode whitespace: the characters with the White_Space property,
/// which `char::is_whitespace` accepts.
pub open spec fn is_ws(c: char) -> bool {
    let u = c as int;
    ||| u == 0x20
    ||| 0x09 <= u && u <= 0x0d
    ||| u == 0x85
    ||| u == 0xa0
    ||| u == 0x1680
    ||| 0x2000 <= u && u <= 0x200a
    ||| u == 0x2028
    ||| u == 0x2029
    ||| u == 0x202f
    ||| u == 0x205f
    ||| u == 0x3000
}

pub fn is_ws_char(c: char) -> (r: bool)
    ensures
        r == is_ws(c),
{
    let u = c as u32;
    u == 0x20 || (0x09 <= u && u <= 0x0d) || u == 0x85 || u == 0xa0 || u == 0x1680 || (0x2000 <= u
        && u <= 0x200a) || u == 0x2028 || u == 0x2029 || u == 0x202f || u == 0x205f || u == 0x3000
}

/// A word: nonempty and free of whitespace. Every token of a line is one.
pub open spec fn is_word(t: Seq<char>) -> bool {
    t.len() > 0 && forall|i: int| 0 <= i < t.len() ==> !is_ws(#[trigger] t[i])
}

/// A line is blank when every character is whitespace.
pub open spec fn is_blank(s: Seq<char>) -> bool {
    forall|i: int| 0 <= i < s.len() ==> is_ws(#[trigger] s[i])
}

pub fn line_is_blank(line: &str) -> (r: bool)
    ensures
        r == is_blank(line@),
{
    let n = line.unicode_len();
    let mut i: usize = 0;
    while i < n
        invariant
            0 <= i <= n,
            n == line@.len(),
            forall|k: int| 0 <= k < i ==> is_ws(#[trigger] line@[k]),
        decreases n - i,
    {
        if !is_ws_char(line.get_char(i)) {
            return false;
        }
        i += 1;
    }
    true
}

/// Length of the leading whitespace-free run.
pub open spec fn token_len(s: Seq<char>) -> nat
    decreases s.len(),
{
    if s.len() == 0 || is_ws(s[0]) {
        0
    } else {
        1 + token_len(s.drop_first())
    }
}

/// The whitespace-split tokens of a line, in order.
pub open spec fn tokens_of(s: Seq<char>) -> Seq<Seq<char>>
    decreases s.len(),
{
    if s.len() == 0 {
        Seq::empty()
    } else if is_ws(s[0]) {
        tokens_of(s.drop_first())
    } else if s.len() == 1 || is_ws(s[1]) {
        seq![seq![s[0]]] + tokens_of(s.drop_first())
    } else {
        let rest = tokens_of(s.drop_first());
        seq![seq![s[0]] + rest[0]] + rest.drop_first()
    }
}

/// Every token of a line is a word.
pub proof fn lemma_tokens_words(s: Seq<char>)
    ensures
        forall|i: int|
            0 <= i < tokens_of(s).len() ==> is_word(#[trigger] tokens_of(s)[i]),
    decreases s.len(),
{
    if s.len() == 0 {
    } else {
        lemma_tokens_words(s.drop_first());
        if is_ws(s[0]) {
        } else if s.len() == 1 || is_ws(s[1]) {
            assert(is_word(seq![s[0]]));
            assert(forall|i: int|
                1 <= i < tokens_of(s).len() ==> #[trigger] tokens_of(s)[i] == tokens_of(
                    s.drop_first(),
                )[i - 1]);
        } else {
            let rest = tokens_of(s.drop_first());
            assert(rest.len() > 0) by {
                assert(!is_ws(s.drop_first()[0]));
            }
            assert(is_word(rest[0]));
            assert(is_word(seq![s[0]] + rest[0]));
            assert(forall|i: int|
                1 <= i < tokens_of(s).len() ==> #[trigger] tokens_of(s)[i] == rest[i]);
        }
    }
}

proof fn lemma_token_len_le(s: Seq<char>)
    ensures
        token_len(s) <= s.len(),
    decreases s.len(),
{
    if s.len() == 0 || is_ws(s[0]) {
    } else {
        lemma_token_len_le(s.drop_first());
    }
}

/// The leading run is pinned by its first whitespace boundary.
proof fn lemma_token_len_char(s: Seq<char>, j: int)
    requires
        0 <= j <= s.len(),
        forall|k: int| 0 <= k < j ==> !is_ws(#[trigger] s[k]),
        j == s.len() || is_ws(s[j]),
    ensures
        token_len(s) == j,
    decreases j,
{
    if j == 0 {
    } else {
        lemma_token_len_char(s.drop_first(), j - 1);
    }
}

/// Taking a whole token at once agrees with the one-character recursion.
proof fn lemma_tokens_step_token(s: Seq<char>)
    requires
        s.len() > 0,
        !is_ws(s[0]),
    ensures
        tokens_of(s) == seq![s.take(token_len(s) as int)] + tokens_of(
            s.skip(token_len(s) as int),
        ),
    decreases s.len(),
{
    lemma_token_len_le(s);
    let k = token_len(s) as int;
    if s.len() == 1 || is_ws(s[1]) {
        assert(token_len(s.drop_first()) == 0) by {
            if s.len() > 1 {
                assert(s.drop_first()[0] == s[1]);
            }
        }
        assert(k == 1);
        assert(s.take(1) =~= seq![s[0]]);
        assert(s.skip(1) =~= s.drop_first());
    } else {
        let d = s.drop_first();
        lemma_tokens_step_token(d);
        lemma_token_len_le(d);
        let k1 = token_len(d) as int;
        assert(k == k1 + 1);
        let rest = tokens_of(d);
        assert(rest == seq![d.take(k1)] + tokens_of(d.skip(k1)));
        assert(rest[0] == d.take(k1));
        assert(seq![s[0]] + d.take(k1) =~= s.take(k));
        assert(rest.drop_first() =~= tokens_of(d.skip(k1)));
        assert(d.skip(k1) =~= s.skip(k));
        assert(tokens_of(s) =~= seq![s.take(k)] + tokens_of(s.skip(k)));
    }
}

/// A lone word is its own token list.
pub proof fn lemma_tokens_of_word(t: Seq<char>)
    requires
        is_word(t),
    ensures
        tokens_of(t) == seq![t],
    decreases t.len(),
{
    if t.len() == 1 {
        assert(t =~= seq![t[0]]);
        assert(tokens_of(t.drop_first()) =~= Seq::<Seq<char>>::empty());
        assert(tokens_of(t) =~= seq![t]);
    } else {
        let d = t.drop_first();
        assert(is_word(d)) by {
            assert(forall|i: int| 0 <= i < d.len() ==> d[i] == t[i + 1]);
        }
        lemma_tokens_of_word(d);
        let rest = tokens_of(d);
        assert(rest[0] == d);
        assert(seq![t[0]] + d =~= t);
        assert(rest.drop_first() =~= Seq::<Seq<char>>::empty());
        assert(tokens_of(t) =~= seq![t]);
    }
}

/// A word followed by a space splits off as one token.
pub proof fn lemma_tokens_prepend(t: Seq<char>, s: Seq<char>)
    requires
        is_word(t),
    ensures
        tokens_of(t + seq![' '] + s) == seq![t] + tokens_of(s),
    decreases t.len(),
{
    let w = t + seq![' '] + s;
    if t.len() == 1 {
        assert(w[0] == t[0]);
        assert(w[1] == ' ');
        assert(is_ws(w[1]));
        assert(seq![w[0]] =~= t);
        assert(w.drop_first() =~= seq![' '] + s);
        assert((seq![' '] + s).drop_first() =~= s);
        assert(tokens_of(seq![' '] + s) == tokens_of(s)) by {
            assert(is_ws((seq![' '] + s)[0]));
        }
        assert(w.len() >= 2);
        assert(tokens_of(w) == seq![seq![w[0]]] + tokens_of(w.drop_first()));
        assert(tokens_of(w) =~= seq![t] + tokens_of(s));
    } else {
        let d = t.drop_first();
        assert(is_word(d)) by {
            assert(forall|i: int| 0 <= i < d.len() ==> d[i] == t[i + 1]);
        }
        lemma_tokens_prepend(d, s);
        assert(w[0] == t[0]);
        assert(w[1] == t[1]);
        assert(!is_ws(w[0]) && !is_ws(w[1]));
        assert(w.drop_first() =~= d + seq![' '] + s);
        let rest = tokens_of(d + seq![' '] + s);
        assert(rest == seq![d] + tokens_of(s));
        assert(rest[0] == d);
        assert(seq![w[0]] + d =~= t);
        assert(rest.drop_first() =~= tokens_of(s));
        assert(tokens_of(w) =~= seq![t] + tokens_of(s));
    }
}

/// Joining tokens with single spaces.
pub open spec fn join_spaces(ts: Seq<Seq<char>>) -> Seq<char>
    decreases ts.len(),
{
    if ts.len() == 0 {
        Seq::empty()
    } else if ts.len() == 1 {
        ts[0]
    } else {
        ts[0] + seq![' '] + join_spaces(ts.drop_first())
    }
}

/// Splitting a join of words gives the words back.
pub proof fn lemma_tokens_of_join(ts: Seq<Seq<char>>)
    requires
        forall|i: int| 0 <= i < ts.len() ==> is_word(#[trigger] ts[i]),
    ensures
        tokens_of(join_spaces(ts)) == ts,
    decreases ts.len(),
{
    if ts.len() == 0 {
        assert(tokens_of(join_spaces(ts)) =~= ts);
    } else if ts.len() == 1 {
        lemma_tokens_of_word(ts[0]);
        assert(tokens_of(join_spaces(ts)) =~= ts);
    } else {
        lemma_tokens_of_join(ts.drop_first());
        lemma_tokens_prepend(ts[0], join_spaces(ts.drop_first()));
        assert(tokens_of(join_spaces(ts)) =~= seq![ts[0]] + ts.drop_first());
        assert(seq![ts[0]] + ts.drop_first() =~= ts);
    }
}

/// Appending one more token to a join.
pub proof fn lemma_join_push(ts: Seq<Seq<char>>, t: Seq<char>)
    ensures
        join_spaces(ts.push(t)) == if ts.len() == 0 {
            t
        } else {
            join_spaces(ts) + seq![' '] + t
        },
    decreases ts.len(),
{
    if ts.len() == 0 {
        assert(ts.push(t)[0] == t);
    } else if ts.len() == 1 {
        assert(ts.push(t).drop_first() =~= seq![t]);
        assert(ts.push(t)[0] == ts[0]);
        assert(join_spaces(seq![t]) == t);
        assert(join_spaces(ts.push(t)) == ts[0] + seq![' '] + t);
    } else {
        lemma_join_push(ts.drop_first(), t);
        assert(ts.push(t).drop_first() =~= ts.drop_first().push(t));
        assert(join_spaces(ts.push(t)) == ts[0] + seq![' '] + join_spaces(
            ts.drop_first().push(t),
        ));
        assert(ts[0] + seq![' '] + (join_spaces(ts.drop_first()) + seq![' '] + t) =~= (ts[0]
            + seq![' '] + join_spaces(ts.drop_first())) + seq![' '] + t);
    }
}

/// The line without its leading whitespace.
pub open spec fn trim_front(s: Seq<char>) -> Seq<char>
    decreases s.len(),
{
    if s.len() > 0 && is_ws(s[0]) {
        trim_front(s.drop_first())
    } else {
        s
    }
}

/// The line without its trailing whitespace.
pub open spec fn trim_back(s: Seq<char>) -> Seq<char>
    decreases s.len(),
{
    if s.len() > 0 && is_ws(s.last()) {
        trim_back(s.drop_last())
    } else {
        s
    }
}

/// The line without leading and trailing whitespace.
pub open spec fn spec_trim(s: Seq<char>) -> Seq<char> {
    trim_back(trim_front(s))
}

proof fn lemma_trim_front_at(s: Seq<char>, i: int)
    requires
        0 <= i <= s.len(),
        forall|k: int| 0 <= k < i ==> is_ws(#[trigger] s[k]),
        i == s.len() || !is_ws(s[i]),
    ensures
        trim_front(s) == s.skip(i),
    decreases i,
{
    if i == 0 {
        assert(s.skip(0) =~= s);
    } else {
        lemma_trim_front_at(s.drop_first(), i - 1);
        assert(s.drop_first().skip(i - 1) =~= s.skip(i));
    }
}

proof fn lemma_trim_back_at(s: Seq<char>, j: int)
    requires
        0 <= j <= s.len(),
        forall|k: int| j <= k < s.len() ==> is_ws(#[trigger] s[k]),
        j == 0 || !is_ws(s[j - 1]),
    ensures
        trim_back(s) == s.take(j),
    decreases s.len(),
{
    if j == s.len() {
        if s.len() == 0 {
            assert(s.take(0) =~= s);
        } else {
            assert(!is_ws(s.last()));
            assert(s.take(j) =~= s);
        }
    } else {
        assert(is_ws(s.last()));
        lemma_trim_back_at(s.drop_last(), j);
        assert(s.drop_last().take(j) =~= s.take(j));
    }
}

/// A join of words carries no leading or trailing whitespace, so trimming
/// leaves it unchanged.
pub proof fn lemma_trim_join(ts: Seq<Seq<char>>)
    requires
        forall|i: int| 0 <= i < ts.len() ==> is_word(#[trigger] ts[i]),
    ensures
        spec_trim(join_spaces(ts)) == join_spaces(ts),
    decreases ts.len(),
{
    let s = join_spaces(ts);
    if ts.len() == 0 {
    } else {
        assert(s[0] == ts[0][0] && !is_ws(s[0])) by {
            if ts.len() > 1 {
                assert(s == ts[0] + seq![' '] + join_spaces(ts.drop_first()));
            }
        }
        assert(trim_front(s) == s);
        lemma_join_last(ts);
        assert(!is_ws(s.last()));
        assert(trim_back(s) == s);
    }
}

proof fn lemma_join_last(ts: Seq<Seq<char>>)
    requires
        ts.len() > 0,
        forall|i: int| 0 <= i < ts.len() ==> is_word(#[trigger] ts[i]),
    ensures
        join_spaces(ts).len() > 0,
        join_spaces(ts).last() == ts.last().last(),
    decreases ts.len(),
{
    if ts.len() == 1 {
    } else {
        lemma_join_last(ts.drop_first());
        let tail = join_spaces(ts.drop_first());
        assert(join_spaces(ts) == ts[0] + seq![' '] + tail);
        assert((ts[0] + seq![' '] + tail).last() == tail.last());
        assert(ts.drop_first().last() == ts.last());
    }
}

/// The whitespace-split tokens of a line, left to right.
pub fn tokenize(line: &str) -> (r: Vec<String>)
    ensures
        r.deep_view() == tokens_of(line@),
{
    let n = line.unicode_len();
    let mut toks: Vec<String> = Vec::new();
    let mut i: usize = 0;
    proof {
        assert(line@.skip(0) =~= line@);
        assert(toks.deep_view() =~= Seq::<Seq<char>>::empty());
        assert(toks.deep_view() + tokens_of(line@) =~= tokens_of(line@));
    }
    while i < n
        invariant
            0 <= i <= n,
            n == line@.len(),
            toks.deep_view() + tokens_of(line@.skip(i as int)) == tokens_of(line@),
        decreases n - i,
    {
        let ghost dv = toks.deep_view();
        let c = line.get_char(i);
        if is_ws_char(c) {
            proof {
                assert(line@.skip(i as int)[0] == line@[i as int]);
                assert(line@.skip(i as int).drop_first() =~= line@.skip(i + 1));
            }
            i += 1;
        } else {
            let mut j = i + 1;
            while j < n && !is_ws_char(line.get_char(j))
                invariant
                    i < j <= n,
                    n == line@.len(),
                    forall|k: int| i <= k < j ==> !is_ws(#[trigger] line@[k]),
                decreases n - j,
            {
                j += 1;
            }
            let t = line.substring_char(i, j).to_owned();
            proof {
                let ss = line@.skip(i as int);
                assert(forall|k: int| 0 <= k < j - i ==> !is_ws(#[trigger] ss[k]));
                assert(j - i == ss.len() || is_ws(ss[j - i]));
                lemma_token_len_char(ss, j - i);
                lemma_tokens_step_token(ss);
                assert(ss.take(j - i) =~= line@.subrange(i as int, j as int));
                assert(ss.skip(j - i) =~= line@.skip(j as int));
                assert(t@ == ss.take(j - i));
            }
            toks.push(t);
            proof {
                assert(toks.deep_view() =~= dv.push(t@));
                assert(dv.push(t@) + tokens_of(line@.skip(j as int)) =~= dv + (seq![t@]
                    + tokens_of(line@.skip(j as int))));
            }
            i = j;
        }
    }
    proof {
        assert(line@.skip(n as int) =~= Seq::<char>::empty());
        assert(toks.deep_view() + tokens_of(line@.skip(n as int)) =~= toks.deep_view());
    }
    toks
}

/// The line without leading and trailing whitespace.
pub fn trim_str<'a>(s: &'a str) -> (r: &'a str)
    ensures
        r@ == spec_trim(s@),
{
    let n = s.unicode_len();
    let mut i: usize = 0;
    while i < n && is_ws_char(s.get_char(i))
        invariant
            0 <= i <= n,
            n == s@.len(),
            forall|k: int| 0 <= k < i ==> is_ws(#[trigger] s@[k]),
        decreases n - i,
    {
        i += 1;
    }
    let mut j = n;
    while j > i && is_ws_char(s.get_char(j - 1))
        invariant
            i <= j <= n,
            n == s@.len(),
            forall|k: int| j <= k < n ==> is_ws(#[trigger] s@[k]),
        decreases j,
    {
        j -= 1;
    }
    proof {
        lemma_trim_front_at(s@, i as int);
        if j == i {
            lemma_trim_back_at(s@.skip(i as int), 0);
        } else {
            lemma_trim_back_at(s@.skip(i as int), j - i);
        }
        assert(s@.skip(i as int).take(j - i) =~= s@.subrange(i as int, j as int));
    }
    s.substring_char(i, j)
}

/// The tokens from position `from` on, rejoined with single spaces.
pub fn join_tokens(toks: &Vec<String>, from: usize) -> (r: String)
    requires
        from <= toks.len(),
    ensures
        r@ == join_spaces(toks.deep_view().skip(from as int)),
{
    let mut out = String::new();
    let mut k = from;
    while k < toks.len()
        invariant
            from <= k <= toks.len(),
            out@ == join_spaces(toks.deep_view().subrange(from as int, k as int)),
        decreases toks.len() - k,
    {
        let ghost part = toks.deep_view().subrange(from as int, k as int);
        if k > from {
            out.append(" ");
            proof {
                reveal_strlit(" ");
            }
        }
        out.append(toks[k].as_str());
        proof {
            assert(toks.deep_view().subrange(from as int, k + 1) =~= part.push(
                toks.deep_view()[k as int],
            ));
            lemma_join_push(part, toks.deep_view()[k as int]);
            if k > from {
                assert(out@ =~= join_spaces(part.push(toks.deep_view()[k as int])));
            } else {
                assert(out@ =~= join_spaces(part.push(toks.deep_view()[k as int])));
            }
        }
        k += 1;
    }
    proof {
        assert(toks.deep_view().subrange(from as int, toks.len() as int) =~= toks.deep_view().skip(
            from as int,
        ));
    }
    out
}

/// Whether some entry of the vector holds the same text.
pub fn contains_string(v: &Vec<String>, s: &String) -> (r: bool)
    ensures
        r == v.deep_view().contains(s@),
{
    let mut k: usize = 0;
    while k < v.len()
        invariant
            0 <= k <= v.len(),
            forall|i: int| 0 <= i < k ==> v.deep_view()[i] != s@,
        decreases v.len() - k,
    {
        if v[k].eq(s) {
            assert(v.deep_view()[k as int] == s@);
            return true;
        }
        k += 1;
    }
    assert(!v.deep_view().contains(s@));
    false
}

} // verus!
