//! Reading one line as a record and writing a record back as a line: the
//! strictly positional precedence rules, tag extraction, and the
//! canonical serialized form.

use vstd::prelude::*;

use crate::date::{
    date_of_token, date_token_of, format_date, is_date_token, parse_date_token, Date,
};
use crate::record::{RecordModel, TodoError, TodoItem};
use crate::text::{join_spaces, join_tokens, spec_trim, tokenize, tokens_of, trim_str};

verus! {

/// The completion marker token.
pub open spec fn x_token() -> Seq<char> {
    seq!['x']
}

pub open spec fn is_upper(c: char) -> bool {
    ('A' as int) <= c as int && c as int <= ('Z' as int)
}

/// A priority token: `(`, one uppercase letter, `)`.
pub open spec fn is_priority_token(t: Seq<char>) -> bool {
    t.len() == 3 && t[0] == '(' && t[2] == ')' && is_upper(t[1])
}

/// A tag token: the sigil and at least one more character.
pub open spec fn is_tag_token(t: Seq<char>, sigil: char) -> bool {
    t.len() >= 2 && t[0] == sigil
}

/// The names of the tags with the given sigil among the tokens, as a set.
pub open spec fn tag_names(ts: Seq<Seq<char>>, sigil: char) -> Set<Seq<char>>
    decreases ts.len(),
{
    if ts.len() == 0 {
        Set::empty()
    } else {
        let rest = tag_names(ts.drop_last(), sigil);
        if is_tag_token(ts.last(), sigil) {
            rest.insert(ts.last().drop_first())
        } else {
            rest
        }
    }
}

/// What one token list means. Consumption is strictly positional from the
/// front: the completion marker, then a priority, then up to two dates;
/// once a stage declines a token, that stage and all later positional
/// stages are skipped for good. Everything left is the description, with
/// tag tokens extracted in addition to staying in the text.
pub open spec fn spec_parse_tokens(ts: Seq<Seq<char>>) -> RecordModel {
    let completed = ts.len() > 0 && ts[0] == x_token();
    let ts1 = if completed {
        ts.drop_first()
    } else {
        ts
    };
    let has_p = ts1.len() > 0 && is_priority_token(ts1[0]);
    let priority = if has_p {
        Some(ts1[0][1])
    } else {
        None::<char>
    };
    let ts2 = if has_p {
        ts1.drop_first()
    } else {
        ts1
    };
    let has_d1 = ts2.len() > 0 && is_date_token(ts2[0]);
    let ts3 = if has_d1 {
        ts2.drop_first()
    } else {
        ts2
    };
    let has_d2 = has_d1 && ts3.len() > 0 && is_date_token(ts3[0]);
    let rest = if has_d2 {
        ts3.drop_first()
    } else {
        ts3
    };
    RecordModel {
        completed,
        priority,
        completion_date: if has_d2 {
            Some(date_of_token(ts2[0]))
        } else {
            None::<Date>
        },
        creation_date: if has_d2 {
            Some(date_of_token(ts3[0]))
        } else if has_d1 {
            Some(date_of_token(ts2[0]))
        } else {
            None::<Date>
        },
        contexts: tag_names(rest, '@'),
        projects: tag_names(rest, '+'),
        description: join_spaces(rest),
    }
}

/// What one line means.
pub open spec fn spec_parse_line(s: Seq<char>) -> RecordModel {
    spec_parse_tokens(tokens_of(s))
}

/// A record can be written back unless it holds a completion date without
/// a creation date, the one invalid in-memory state.
pub open spec fn serializable(m: RecordModel) -> bool {
    !(m.completion_date is Some && m.creation_date is None)
}

/// The canonical line of a record: `x `, then `(P) `, then the completion
/// and creation dates, each segment followed by one space and omitted when
/// its field is unset, then the trimmed description. Tags are not
/// re-appended: they already sit in the description.
pub open spec fn spec_serialize(m: RecordModel) -> Seq<char> {
    (if m.completed {
        seq!['x', ' ']
    } else {
        Seq::<char>::empty()
    }) + (match m.priority {
        Some(p) => seq!['(', p, ')', ' '],
        None => Seq::<char>::empty(),
    }) + (match m.completion_date {
        Some(d) => date_token_of(d) + seq![' '],
        None => Seq::<char>::empty(),
    }) + (match m.creation_date {
        Some(d) => date_token_of(d) + seq![' '],
        None => Seq::<char>::empty(),
    }) + spec_trim(m.description)
}

/// The shape of every record the parser can produce. The description is a
/// canonical join of words carrying exactly the tag sets; dates and the
/// priority are valid; and the first description token can never be one
/// that a still-active positional stage would have consumed.
pub open spec fn parsed_wf(m: RecordModel) -> bool {
    let dts = tokens_of(m.description);
    &&& join_spaces(dts) == m.description
    &&& m.projects == tag_names(dts, '+')
    &&& m.contexts == tag_names(dts, '@')
    &&& (m.priority matches Some(p) ==> is_upper(p))
    &&& (m.completion_date is Some ==> m.creation_date is Some)
    &&& (m.completion_date matches Some(d) ==> d.wf())
    &&& (m.creation_date matches Some(d) ==> d.wf())
    &&& (dts.len() > 0 ==> {
        &&& (!m.completed && m.priority is None && m.creation_date is None ==> dts[0]
            != x_token())
        &&& (m.priority is None && m.creation_date is None ==> !is_priority_token(dts[0]))
        &&& (m.completion_date is None ==> !is_date_token(dts[0]))
    })
}

fn token_is_x(t: &String) -> (r: bool)
    ensures
        r == (t@ == x_token()),
{
    let r = t.as_str().unicode_len() == 1 && t.as_str().get_char(0) == 'x';
    proof {
        if r {
            assert(t@ =~= x_token());
        }
    }
    r
}

fn token_priority(t: &String) -> (r: Option<char>)
    ensures
        r == if is_priority_token(t@) {
            Some(t@[1])
        } else {
            None::<char>
        },
{
    if t.as_str().unicode_len() == 3 {
        let c0 = t.as_str().get_char(0);
        let c1 = t.as_str().get_char(1);
        let c2 = t.as_str().get_char(2);
        let u = c1 as u32;
        if c0 == '(' && c2 == ')' && 65 <= u && u <= 90 {
            return Some(c1);
        }
    }
    None
}

fn token_tag_name(t: &String, sigil: char) -> (r: Option<String>)
    ensures
        r matches Some(name) ==> is_tag_token(t@, sigil) && name@ == t@.drop_first(),
        r is None ==> !is_tag_token(t@, sigil),
{
    let len = t.as_str().unicode_len();
    if len >= 2 && t.as_str().get_char(0) == sigil {
        let name = t.as_str().substring_char(1, len).to_owned();
        assert(name@ =~= t@.drop_first());
        Some(name)
    } else {
        None
    }
}

impl TodoItem {
    /// Reads one line as a record. Every line has a meaning in this
    /// dialect, so the result is always `Ok`; the error type is part of
    /// the interface for stricter callers.
    pub fn parse_line(line: &str) -> (r: Result<TodoItem, TodoError>)
        ensures
            r matches Ok(item) && item@ == spec_parse_line(line@) && item.wf(),
    {
        let toks = tokenize(line);
        let ghost ts = toks.deep_view();
        let n = toks.len();
        let mut i: usize = 0;

        let mut completed = false;
        if i < n && token_is_x(&toks[i]) {
            completed = true;
            i = 1;
        }
        let ghost i1 = i as int;
        proof {
            assert(completed == (ts.len() > 0 && ts[0] == x_token()));
            let ts1 = if completed { ts.drop_first() } else { ts };
            assert(ts1 =~= ts.skip(i1));
        }
        let ghost ts1 = ts.skip(i1);

        let mut priority: Option<char> = None;
        if i < n {
            match token_priority(&toks[i]) {
                Some(c) => {
                    priority = Some(c);
                    i += 1;
                },
                None => {},
            }
        }
        let ghost i2 = i as int;
        proof {
            assert(ts1.len() > 0 ==> ts1[0] == ts[i1]);
            let has_p = ts1.len() > 0 && is_priority_token(ts1[0]);
            assert(priority == if has_p { Some(ts1[0][1]) } else { None::<char> });
            let n2 = if has_p { ts1.drop_first() } else { ts1 };
            assert(n2 =~= ts.skip(i2));
        }
        let ghost ts2 = ts.skip(i2);

        let mut completion_date: Option<Date> = None;
        let mut creation_date: Option<Date> = None;
        let ghost mut i3 = i as int;
        if i < n {
            match parse_date_token(toks[i].as_str()) {
                Some(d1) => {
                    i += 1;
                    proof {
                        i3 = i as int;
                    }
                    creation_date = Some(d1);
                    if i < n {
                        match parse_date_token(toks[i].as_str()) {
                            Some(d2) => {
                                completion_date = Some(d1);
                                creation_date = Some(d2);
                                i += 1;
                            },
                            None => {},
                        }
                    }
                },
                None => {},
            }
        }
        let ghost i4 = i as int;
        let ghost ts3 = ts.skip(i3);
        proof {
            assert(ts2.len() > 0 ==> ts2[0] == ts[i2]);
            let has_d1 = ts2.len() > 0 && is_date_token(ts2[0]);
            let m3 = if has_d1 { ts2.drop_first() } else { ts2 };
            assert(m3 =~= ts.skip(i3));
            assert(ts3.len() > 0 ==> ts3[0] == ts[i3]);
            let has_d2 = has_d1 && ts3.len() > 0 && is_date_token(ts3[0]);
            let rest = if has_d2 { ts3.drop_first() } else { ts3 };
            assert(rest =~= ts.skip(i4));
            assert(completion_date == if has_d2 {
                Some(date_of_token(ts2[0]))
            } else {
                None::<Date>
            });
            assert(creation_date == if has_d2 {
                Some(date_of_token(ts3[0]))
            } else if has_d1 {
                Some(date_of_token(ts2[0]))
            } else {
                None::<Date>
            });
        }
        let ghost rest = ts.skip(i4);

        let description = join_tokens(&toks, i);

        let mut projects: Vec<String> = Vec::new();
        let mut contexts: Vec<String> = Vec::new();
        let mut k: usize = i;
        while k < n
            invariant
                i <= k <= n,
                n == toks.len(),
                ts == toks.deep_view(),
                i4 == i as int,
                projects.deep_view().to_set() == tag_names(
                    ts.subrange(i as int, k as int),
                    '+',
                ),
                contexts.deep_view().to_set() == tag_names(
                    ts.subrange(i as int, k as int),
                    '@',
                ),
                projects.deep_view().no_duplicates(),
                contexts.deep_view().no_duplicates(),
            decreases n - k,
        {
            let ghost pre = ts.subrange(i as int, k as int);
            let ghost post = ts.subrange(i as int, k + 1);
            proof {
                assert(post.drop_last() =~= pre);
                assert(post.last() == ts[k as int]);
            }
            match token_tag_name(&toks[k], '+') {
                Some(name) => {
                    if !crate::text::contains_string(&projects, &name) {
                        let ghost dv = projects.deep_view();
                        projects.push(name);
                        proof {
                            assert(projects.deep_view() =~= dv.push(name@));
                            lemma_push_set(dv, name@);
                            assert(projects.deep_view().to_set() =~= tag_names(post, '+'));
                        }
                    } else {
                        proof {
                            assert(projects.deep_view().to_set().contains(name@));
                            assert(projects.deep_view().to_set() =~= tag_names(post, '+'));
                        }
                    }
                },
                None => {
                    proof {
                        assert(tag_names(post, '+') =~= tag_names(pre, '+'));
                    }
                },
            }
            match token_tag_name(&toks[k], '@') {
                Some(name) => {
                    if !crate::text::contains_string(&contexts, &name) {
                        let ghost dv = contexts.deep_view();
                        contexts.push(name);
                        proof {
                            assert(contexts.deep_view() =~= dv.push(name@));
                            lemma_push_set(dv, name@);
                            assert(contexts.deep_view().to_set() =~= tag_names(post, '@'));
                        }
                    } else {
                        proof {
                            assert(contexts.deep_view().to_set().contains(name@));
                            assert(contexts.deep_view().to_set() =~= tag_names(post, '@'));
                        }
                    }
                },
                None => {
                    proof {
                        assert(tag_names(post, '@') =~= tag_names(pre, '@'));
                    }
                },
            }
            k += 1;
        }
        proof {
            assert(ts.subrange(i as int, n as int) =~= rest);
        }

        let item = TodoItem {
            completed,
            priority,
            completion_date,
            creation_date,
            contexts,
            projects,
            description,
        };
        proof {
            assert(item@ =~= spec_parse_tokens(ts));
        }
        Ok(item)
    }
}

/// Relies on char::to_string: the string holding exactly the one
/// character.
#[verifier::external_body]
fn char_string(c: char) -> (r: String)
    ensures
        r@ == seq![c],
{
    c.to_string()
}

impl TodoItem {
    /// Writes the record back as its canonical line. Fails only on the one
    /// invalid in-memory state: a completion date without a creation date.
    pub fn render_line(&self) -> (r: Result<String, TodoError>)
        ensures
            serializable(self@) ==> (r matches Ok(s) && s@ == spec_serialize(self@)),
            !serializable(self@) ==> r == Err::<String, TodoError>(TodoError::Format),
    {
        match (&self.completion_date, &self.creation_date) {
            (Some(_), None) => {
                return Err(TodoError::Format);
            },
            _ => {},
        }
        let mut s = String::new();
        if self.completed {
            s.append("x ");
            proof {
                reveal_strlit("x ");
                assert("x "@ =~= seq!['x', ' ']);
            }
        }
        match self.priority {
            Some(p) => {
                s.append("(");
                s.append(char_string(p).as_str());
                s.append(") ");
                proof {
                    reveal_strlit("(");
                    reveal_strlit(") ");
                }
            },
            None => {},
        }
        match &self.completion_date {
            Some(d) => {
                s.append(format_date(d).as_str());
                s.append(" ");
                proof {
                    reveal_strlit(" ");
                }
            },
            None => {},
        }
        match &self.creation_date {
            Some(d) => {
                s.append(format_date(d).as_str());
                s.append(" ");
                proof {
                    reveal_strlit(" ");
                }
            },
            None => {},
        }
        s.append(trim_str(self.description.as_str()));
        proof {
            assert(s@ =~= spec_serialize(self@));
        }
        Ok(s)
    }
}

proof fn lemma_push_set(dv: Seq<Seq<char>>, t: Seq<char>)
    ensures
        dv.push(t).to_set() =~= dv.to_set().insert(t),
        dv.no_duplicates() && !dv.contains(t) ==> dv.push(t).no_duplicates(),
{
    let p = dv.push(t);
    assert forall|x: Seq<char>| p.to_set().contains(x) implies dv.to_set().insert(t).contains(
        x,
    ) by {
        let i = choose|i: int| 0 <= i < p.len() && p[i] == x;
        if i < dv.len() {
            assert(dv[i] == x);
        }
    }
    assert forall|x: Seq<char>| dv.to_set().insert(t).contains(x) implies p.to_set().contains(
        x,
    ) by {
        if x == t {
            assert(p[dv.len() as int] == t);
        } else {
            let i = choose|i: int| 0 <= i < dv.len() && dv[i] == x;
            assert(p[i] == x);
        }
    }
    if dv.no_duplicates() && !dv.contains(t) {
        assert forall|i: int, j: int|
            0 <= i < p.len() && 0 <= j < p.len() && i != j implies p[i] != p[j] by {
            if i < dv.len() && j < dv.len() {
            } else if i < dv.len() {
                assert(p[j] == t && p[i] == dv[i]);
            } else {
                assert(p[i] == t && p[j] == dv[j]);
            }
        }
    }
}

} // verus!
