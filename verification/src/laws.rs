//! The global laws of the format: every record the parser produces is
//! well-formed, serializing such a record and parsing it back yields the
//! record unchanged, tag extraction collapses duplicates, blank lines
//! never contribute records, and a saved collection loads back intact.

use vstd::prelude::*;

use crate::date::{
    date_of_token, date_shape, date_token_of, is_date_token, is_digit,
    lemma_date_token_round_trip,
};
use crate::line::{
    is_priority_token, is_tag_token, parsed_wf, spec_parse_line, spec_parse_tokens,
    spec_serialize, tag_names, x_token, is_upper,
};
use crate::list::spec_load_lines;
use crate::record::RecordModel;
use crate::text::{
    is_blank, is_word, is_ws, join_spaces, lemma_tokens_of_join, lemma_tokens_words,
    lemma_tokens_prepend, lemma_trim_join, spec_trim, tokens_of,
};

verus! {

proof fn lemma_drop_first_words(ts: Seq<Seq<char>>)
    requires
        ts.len() > 0,
        forall|i: int| 0 <= i < ts.len() ==> is_word(#[trigger] ts[i]),
    ensures
        forall|i: int|
            0 <= i < ts.drop_first().len() ==> is_word(#[trigger] ts.drop_first()[i]),
{
    assert forall|i: int|
        0 <= i < ts.drop_first().len() implies is_word(#[trigger] ts.drop_first()[i]) by {
        assert(ts.drop_first()[i] == ts[i + 1]);
    }
}

proof fn lemma_date_token_word(t: Seq<char>)
    requires
        date_shape(t),
    ensures
        is_word(t),
{
    assert forall|i: int| 0 <= i < t.len() implies !is_ws(#[trigger] t[i]) by {
        assert(t[i] == '-' || is_digit(t[i]));
    }
}

/// Every record the parser can produce has the well-formed shape: a
/// canonical description carrying exactly the tag sets, valid fields, and
/// no leading description token that an active stage would have taken.
pub proof fn lemma_parse_line_wf(s: Seq<char>)
    ensures
        parsed_wf(spec_parse_line(s)),
{
    let ts = tokens_of(s);
    lemma_tokens_words(s);
    let m = spec_parse_tokens(ts);
    let completed = ts.len() > 0 && ts[0] == x_token();
    let ts1 = if completed {
        ts.drop_first()
    } else {
        ts
    };
    let has_p = ts1.len() > 0 && is_priority_token(ts1[0]);
    let ts2 = if has_p {
        ts1.drop_first()
    } else {
        ts1
    };
    let has_d1 = ts2.len() > 0 && is_date_token(ts2[0]);
    let ts3 = if has_d1 {
        ts2.drop_first()
    } else {
        ts2
    };
    let has_d2 = has_d1 && ts3.len() > 0 && is_date_token(ts3[0]);
    let rest = if has_d2 {
        ts3.drop_first()
    } else {
        ts3
    };
    assert(forall|i: int| 0 <= i < ts.len() ==> is_word(#[trigger] ts[i]));
    if completed {
        lemma_drop_first_words(ts);
    }
    assert(forall|i: int| 0 <= i < ts1.len() ==> is_word(#[trigger] ts1[i]));
    if has_p {
        lemma_drop_first_words(ts1);
    }
    assert(forall|i: int| 0 <= i < ts2.len() ==> is_word(#[trigger] ts2[i]));
    if has_d1 {
        lemma_drop_first_words(ts2);
    }
    assert(forall|i: int| 0 <= i < ts3.len() ==> is_word(#[trigger] ts3[i]));
    if has_d2 {
        lemma_drop_first_words(ts3);
    }
    assert(forall|i: int| 0 <= i < rest.len() ==> is_word(#[trigger] rest[i]));
    lemma_tokens_of_join(rest);
    assert(m.description == join_spaces(rest));
    assert(tokens_of(m.description) == rest);
}

/// Round trip: any record the parser can produce reads back from its
/// canonical line as exactly the same record.
#[verifier::rlimit(100)]
#[verifier::spinoff_prover]
pub proof fn lemma_round_trip(m: RecordModel)
    requires
        parsed_wf(m),
    ensures
        spec_parse_line(spec_serialize(m)) == m,
{
    let dts = tokens_of(m.description);
    lemma_tokens_words(m.description);
    assert(join_spaces(dts) == m.description);
    lemma_trim_join(dts);
    assert(spec_trim(m.description) == m.description);

    let xs: Seq<Seq<char>> = if m.completed {
        seq![x_token()]
    } else {
        Seq::empty()
    };
    let ps: Seq<Seq<char>> = match m.priority {
        Some(p) => seq![seq!['(', p, ')']],
        None => Seq::empty(),
    };
    let cds: Seq<Seq<char>> = match m.completion_date {
        Some(d) => seq![date_token_of(d)],
        None => Seq::empty(),
    };
    let crs: Seq<Seq<char>> = match m.creation_date {
        Some(d) => seq![date_token_of(d)],
        None => Seq::empty(),
    };

    // Peel the serialized text from the right, one segment at a time.
    let d_cr = (match m.creation_date {
        Some(d) => date_token_of(d) + seq![' '],
        None => Seq::<char>::empty(),
    }) + m.description;
    match m.creation_date {
        Some(cr) => {
            lemma_date_token_round_trip(cr);
            lemma_date_token_word(date_token_of(cr));
            assert(d_cr =~= date_token_of(cr) + seq![' '] + m.description);
            lemma_tokens_prepend(date_token_of(cr), m.description);
            assert(tokens_of(d_cr) =~= crs + dts);
        },
        None => {
            assert(d_cr =~= m.description);
            assert(tokens_of(d_cr) =~= crs + dts);
        },
    }
    let d_cd = (match m.completion_date {
        Some(d) => date_token_of(d) + seq![' '],
        None => Seq::<char>::empty(),
    }) + d_cr;
    match m.completion_date {
        Some(cd) => {
            lemma_date_token_round_trip(cd);
            lemma_date_token_word(date_token_of(cd));
            assert(d_cd =~= date_token_of(cd) + seq![' '] + d_cr);
            lemma_tokens_prepend(date_token_of(cd), d_cr);
            assert(tokens_of(d_cd) =~= cds + (crs + dts));
        },
        None => {
            assert(d_cd =~= d_cr);
            assert(tokens_of(d_cd) =~= cds + (crs + dts));
        },
    }
    let d_p = (match m.priority {
        Some(p) => seq!['(', p, ')', ' '],
        None => Seq::<char>::empty(),
    }) + d_cd;
    match m.priority {
        Some(p) => {
            let pt = seq!['(', p, ')'];
            assert(is_upper(p));
            assert(is_word(pt)) by {
                assert(!is_ws('(') && !is_ws(')') && !is_ws(p));
            }
            assert(d_p =~= pt + seq![' '] + d_cd);
            lemma_tokens_prepend(pt, d_cd);
            assert(tokens_of(d_p) =~= ps + (cds + (crs + dts)));
        },
        None => {
            assert(d_p =~= d_cd);
            assert(tokens_of(d_p) =~= ps + (cds + (crs + dts)));
        },
    }
    let d_x = (if m.completed {
        seq!['x', ' ']
    } else {
        Seq::<char>::empty()
    }) + d_p;
    if m.completed {
        assert(is_word(x_token())) by {
            assert(!is_ws('x'));
        }
        assert(d_x =~= x_token() + seq![' '] + d_p);
        lemma_tokens_prepend(x_token(), d_p);
        assert(tokens_of(d_x) =~= xs + (ps + (cds + (crs + dts))));
    } else {
        assert(d_x =~= d_p);
        assert(tokens_of(d_x) =~= xs + (ps + (cds + (crs + dts))));
    }
    assert(spec_serialize(m) =~= d_x);
    let full = tokens_of(spec_serialize(m));
    assert(full == xs + (ps + (cds + (crs + dts))));

    // Now walk the positional stages over the assembled token list.
    let after_x = ps + (cds + (crs + dts));
    let after_p = cds + (crs + dts);
    let after_d1 = crs + dts;

    let completed2 = full.len() > 0 && full[0] == x_token();
    assert(completed2 == m.completed) by {
        if m.completed {
            assert(full[0] == x_token());
        } else {
            assert(full =~= after_x);
            if m.priority is Some {
                assert(full[0] == ps[0] && ps[0].len() == 3);
            } else if m.completion_date is Some {
                assert(full[0] == cds[0] && cds[0].len() == 10);
            } else if m.creation_date is Some {
                assert(full[0] == crs[0] && crs[0].len() == 10);
            } else if full.len() > 0 {
                assert(full[0] == dts[0]);
                assert(dts[0] != x_token());
            }
        }
    }
    let g1 = if completed2 {
        full.drop_first()
    } else {
        full
    };
    assert(g1 =~= after_x);

    let has_p2 = g1.len() > 0 && is_priority_token(g1[0]);
    let prio2 = if has_p2 {
        Some(g1[0][1])
    } else {
        None::<char>
    };
    assert(has_p2 == (m.priority is Some) && prio2 == m.priority) by {
        match m.priority {
            Some(p) => {
                assert(g1[0] == seq!['(', p, ')']);
                assert(is_priority_token(g1[0]));
                assert(g1[0][1] == p);
            },
            None => {
                if m.completion_date is Some {
                    assert(g1[0] == cds[0] && cds[0].len() == 10);
                } else if m.creation_date is Some {
                    assert(g1[0] == crs[0] && crs[0].len() == 10);
                } else if g1.len() > 0 {
                    assert(g1[0] == dts[0]);
                    assert(!is_priority_token(dts[0]));
                }
            },
        }
    }
    let g2 = if has_p2 {
        g1.drop_first()
    } else {
        g1
    };
    assert(g2 =~= after_p);

    let has_d1b = g2.len() > 0 && is_date_token(g2[0]);
    let g3 = if has_d1b {
        g2.drop_first()
    } else {
        g2
    };
    let has_d2b = has_d1b && g3.len() > 0 && is_date_token(g3[0]);
    let rest2 = if has_d2b {
        g3.drop_first()
    } else {
        g3
    };
    match m.completion_date {
        Some(cd) => {
            let cr = m.creation_date->Some_0;
            assert(g2[0] == date_token_of(cd));
            assert(is_date_token(g2[0]) && date_of_token(g2[0]) == cd);
            assert(has_d1b);
            assert(g3 =~= after_d1);
            assert(g3[0] == date_token_of(cr));
            assert(is_date_token(g3[0]) && date_of_token(g3[0]) == cr);
            assert(has_d2b);
            assert(rest2 =~= dts);
        },
        None => {
            match m.creation_date {
                Some(cr) => {
                    assert(g2 =~= after_d1);
                    assert(g2[0] == date_token_of(cr));
                    assert(is_date_token(g2[0]) && date_of_token(g2[0]) == cr);
                    assert(has_d1b);
                    assert(g3 =~= dts);
                    if g3.len() > 0 {
                        assert(g3[0] == dts[0]);
                        assert(!is_date_token(dts[0]));
                    }
                    assert(!has_d2b);
                    assert(rest2 =~= dts);
                },
                None => {
                    assert(g2 =~= dts);
                    if g2.len() > 0 {
                        assert(!is_date_token(dts[0]));
                    }
                    assert(!has_d1b && !has_d2b);
                    assert(rest2 =~= dts);
                },
            }
        },
    }

    let pm = spec_parse_tokens(full);
    assert(pm.completed == m.completed);
    assert(pm.priority == m.priority);
    assert(pm.completion_date == m.completion_date);
    assert(pm.creation_date == m.creation_date);
    assert(pm.description == m.description);
    assert(pm.projects == m.projects);
    assert(pm.contexts == m.contexts);
    assert(pm =~= m);
}

/// Round trip at the line level: re-serializing and re-parsing any parsed
/// line gives back exactly the first parse.
pub proof fn lemma_round_trip_line(s: Seq<char>)
    ensures
        spec_parse_line(spec_serialize(spec_parse_line(s))) == spec_parse_line(s),
{
    lemma_parse_line_wf(s);
    lemma_round_trip(spec_parse_line(s));
}

proof fn lemma_tag_names_member(ts: Seq<Seq<char>>, i: int, sigil: char)
    requires
        0 <= i < ts.len(),
        is_tag_token(ts[i], sigil),
    ensures
        tag_names(ts, sigil).contains(ts[i].drop_first()),
    decreases ts.len(),
{
    if i == ts.len() - 1 {
    } else {
        lemma_tag_names_member(ts.drop_last(), i, sigil);
        assert(ts.drop_last()[i] == ts[i]);
    }
}

/// Tag extraction collapses duplicates: a tag token that occurs among the
/// tokens already contributes its name, so one more copy of it changes
/// neither tag set.
pub proof fn lemma_duplicate_tag_token(ts: Seq<Seq<char>>, t: Seq<char>, sigil: char)
    requires
        ts.contains(t),
    ensures
        tag_names(ts.push(t), sigil) == tag_names(ts, sigil),
{
    let p = ts.push(t);
    assert(p.drop_last() =~= ts);
    assert(p.last() == t);
    if is_tag_token(t, sigil) {
        let i = choose|i: int| 0 <= i < ts.len() && ts[i] == t;
        lemma_tag_names_member(ts, i, sigil);
        assert(tag_names(ts, sigil).contains(t.drop_first()));
        assert(tag_names(ts, sigil).insert(t.drop_first()) =~= tag_names(ts, sigil));
    }
}

/// A malformed priority-like token never populates the priority. Any
/// leading token that opens with `(` but is not `(`+uppercase letter+`)`
/// leaves every positional stage unfired, so the whole line, that token
/// included, becomes the description.
pub proof fn lemma_malformed_priority_is_text(s: Seq<char>)
    requires
        tokens_of(s).len() > 0,
        tokens_of(s)[0][0] == '(',
        !is_priority_token(tokens_of(s)[0]),
    ensures
        spec_parse_line(s).completed == false,
        spec_parse_line(s).priority is None,
        spec_parse_line(s).creation_date is None,
        spec_parse_line(s).description == join_spaces(tokens_of(s)),
{
    let ts = tokens_of(s);
    let t0 = ts[0];
    lemma_tokens_words(s);
    assert(t0 != x_token()) by {
        assert(t0[0] != 'x');
    }
    assert(!is_date_token(t0)) by {
        assert(!is_digit(t0[0]));
    }
}

/// Blank lines are skipped on load: inserting a blank line anywhere in a
/// file changes nothing about the records it holds.
pub proof fn lemma_blank_line_skipped(lines: Seq<Seq<char>>, i: int, l: Seq<char>)
    requires
        0 <= i <= lines.len(),
        is_blank(l),
    ensures
        spec_load_lines(lines.insert(i, l)) == spec_load_lines(lines),
    decreases lines.len(),
{
    let w = lines.insert(i, l);
    if i == 0 {
        assert(w[0] == l);
        assert(w.drop_first() =~= lines);
    } else {
        assert(w[0] == lines[0]);
        assert(w.drop_first() =~= lines.drop_first().insert(i - 1, l));
        lemma_blank_line_skipped(lines.drop_first(), i - 1, l);
    }
}

/// The serialized lines of a list of records, in order.
pub open spec fn serialized_lines(ms: Seq<RecordModel>) -> Seq<Seq<char>> {
    ms.map_values(|m: RecordModel| spec_serialize(m))
}

/// A record with any content at all: the one record with every field
/// unset and an empty description serializes to an empty line, which a
/// load would skip.
pub open spec fn has_content(m: RecordModel) -> bool {
    m.completed || m.priority is Some || m.creation_date is Some || m.description.len() > 0
}

proof fn lemma_serialize_nonblank(m: RecordModel)
    requires
        parsed_wf(m),
        has_content(m),
    ensures
        !is_blank(spec_serialize(m)),
{
    let s = spec_serialize(m);
    if m.completed {
        assert(s[0] == 'x');
        assert(!is_ws('x'));
    } else if m.priority is Some {
        assert(s[0] == '(');
        assert(!is_ws('('));
    } else if m.creation_date is Some {
        let d = if m.completion_date is Some {
            m.completion_date->Some_0
        } else {
            m.creation_date->Some_0
        };
        assert(s[0] == date_token_of(d)[0]);
        assert(!is_ws(date_token_of(d)[0]));
    } else {
        let dts = tokens_of(m.description);
        lemma_tokens_words(m.description);
        assert(join_spaces(dts) == m.description);
        lemma_trim_join(dts);
        assert(dts.len() > 0) by {
            if dts.len() == 0 {
                assert(m.description.len() == 0);
            }
        }
        assert(m.description[0] == dts[0][0]) by {
            if dts.len() > 1 {
                assert(join_spaces(dts) == dts[0] + seq![' '] + join_spaces(dts.drop_first()));
            }
        }
        assert(s =~= m.description);
        assert(!is_ws(s[0]));
    }
    assert(!is_blank(s)) by {
        if is_blank(s) {
            assert(is_ws(s[0]));
        }
    }
}

/// Saving a collection of well-formed, non-empty records and loading the
/// result yields the same records, in the same order.
pub proof fn lemma_save_then_load(ms: Seq<RecordModel>)
    requires
        forall|i: int| 0 <= i < ms.len() ==> parsed_wf(#[trigger] ms[i]),
        forall|i: int| 0 <= i < ms.len() ==> has_content(#[trigger] ms[i]),
    ensures
        spec_load_lines(serialized_lines(ms)) == ms,
    decreases ms.len(),
{
    let lines = serialized_lines(ms);
    if ms.len() == 0 {
        assert(lines =~= Seq::<Seq<char>>::empty());
        assert(spec_load_lines(lines) =~= ms);
    } else {
        assert(lines[0] == spec_serialize(ms[0]));
        lemma_serialize_nonblank(ms[0]);
        lemma_round_trip(ms[0]);
        assert(spec_parse_line(lines[0]) == ms[0]);
        assert(lines.drop_first() =~= serialized_lines(ms.drop_first()));
        assert(forall|i: int|
            0 <= i < ms.drop_first().len() ==> #[trigger] ms.drop_first()[i] == ms[i + 1]);
        lemma_save_then_load(ms.drop_first());
        assert(spec_load_lines(lines) == seq![ms[0]] + ms.drop_first());
        assert(seq![ms[0]] + ms.drop_first() =~= ms);
    }
}

} // verus!
