use vstd::prelude::*;

use crate::codec::{parse_event, spec_parse_event};
use crate::event::{Event, EventModel};

verus! {

// ------------------------------------------------------------------
// The log as a whole: newline-delimited records. Lines that do not
// parse are skipped; the events of the remaining lines, in file
// order, are the history.
// ------------------------------------------------------------------

/// Number of characters before the first line break (or to the end).
pub open spec fn line_len(s: Seq<char>) -> int
    decreases s.len(),
{
    if s.len() == 0 {
        0
    } else if s[0] == '\n' {
        0
    } else {
        1 + line_len(s.drop_first())
    }
}

pub proof fn lemma_line_len_bound(s: Seq<char>)
    ensures
        0 <= line_len(s) <= s.len(),
        line_len(s) < s.len() ==> s[line_len(s)] == '\n',
        forall|k: int| 0 <= k < line_len(s) ==> s[k] != '\n',
    decreases s.len(),
{
    if s.len() == 0 {
    } else if s[0] == '\n' {
    } else {
        lemma_line_len_bound(s.drop_first());
        assert forall|k: int| 0 <= k < line_len(s) implies s[k] != '\n' by {
            if k > 0 {
                assert(s.drop_first()[k - 1] == s[k]);
            }
        }
    }
}

/// The lines of the file, in order; a final unterminated segment
/// counts as a line, a trailing terminator does not add an empty one.
pub open spec fn split_lines(s: Seq<char>) -> Seq<Seq<char>>
    decreases s.len(),
    via split_lines_decreases
{
    if s.len() == 0 {
        Seq::empty()
    } else {
        let n = line_len(s);
        if n == s.len() {
            seq![s]
        } else {
            seq![s.take(n)] + split_lines(s.skip(n + 1))
        }
    }
}

#[via_fn]
proof fn split_lines_decreases(s: Seq<char>) {
    lemma_line_len_bound(s);
}

/// The events encoded by a sequence of lines: parse each, keep what
/// parses, in order.
pub open spec fn parse_lines(ls: Seq<Seq<char>>) -> Seq<EventModel>
    decreases ls.len(),
{
    if ls.len() == 0 {
        Seq::empty()
    } else {
        match spec_parse_event(ls[0]) {
            Some(e) => seq![e] + parse_lines(ls.drop_first()),
            None => parse_lines(ls.drop_first()),
        }
    }
}

/// The full ordered event history held in the given file content.
pub open spec fn spec_parse_log(s: Seq<char>) -> Seq<EventModel> {
    parse_lines(split_lines(s))
}

/// The largest id among the events (0 when there are none).
pub open spec fn spec_max_id(es: Seq<EventModel>) -> int
    decreases es.len(),
{
    if es.len() == 0 {
        0
    } else {
        let m = spec_max_id(es.drop_last());
        if es.last().id > m {
            es.last().id
        } else {
            m
        }
    }
}

fn find_line_end(s: &str, i: usize) -> (j: usize)
    requires
        i <= s@.len(),
    ensures
        i <= j <= s@.len(),
        line_len(s@.skip(i as int)) == j - i,
{
    let n: usize = s.unicode_len();
    let mut j: usize = i;
    loop
        invariant
            i <= j <= n,
            n == s@.len(),
            line_len(s@.skip(i as int)) == line_len(s@.skip(j as int)) + (j - i),
        decreases n - j,
    {
        if j >= n {
            proof {
                assert(s@.skip(j as int) =~= Seq::<char>::empty());
            }
            return j;
        }
        let c: char = s.get_char(j);
        proof {
            assert(s@.skip(j as int)[0] == s@[j as int]);
        }
        if c == '\n' {
            return j;
        }
        proof {
            assert(s@.skip(j as int).drop_first() =~= s@.skip(j + 1));
        }
        j = j + 1;
    }
}

/// Read the whole history out of the given file content: every line
/// that parses as an event, in file order.
pub fn load_events(content: &str) -> (r: Vec<Event>)
    ensures
        r@.map_values(|e: Event| e@) == spec_parse_log(content@),
{
    let n: usize = content.unicode_len();
    let mut out: Vec<Event> = Vec::new();
    let mut start: usize = 0;
    proof {
        assert(content@.skip(0) =~= content@);
        assert(out@.map_values(|e: Event| e@) + spec_parse_log(content@) =~= spec_parse_log(
            content@,
        ));
    }
    while start < n
        invariant
            start <= n,
            n == content@.len(),
            out@.map_values(|e: Event| e@) + spec_parse_log(content@.skip(start as int))
                == spec_parse_log(content@),
        decreases n - start,
    {
        let end: usize = find_line_end(content, start);
        let line: &str = content.substring_char(start, end);
        let ghost t = content@.skip(start as int);
        proof {
            lemma_line_len_bound(t);
            assert(t.len() == n - start);
            assert(line_len(t) == end - start);
            assert(line@ =~= t.take(end - start));
        }
        let parsed = parse_event(line);
        let ghost out_pre = out@;
        match parsed {
            Some(e) => {
                out.push(e);
                proof {
                    assert(out@ =~= out_pre.push(e));
                    assert(out@.map_values(|ev: Event| ev@) =~= out_pre.map_values(
                        |ev: Event| ev@,
                    ).push(e@));
                }
            },
            None => {},
        }
        if end < n {
            proof {
                assert(split_lines(t) == seq![t.take(end - start)] + split_lines(
                    t.skip(end - start + 1),
                ));
                assert(t.skip(end - start + 1) =~= content@.skip(end + 1));
                let ls = seq![line@] + split_lines(content@.skip(end + 1));
                assert(split_lines(t) == ls);
                assert(ls[0] == line@);
                assert(ls.drop_first() =~= split_lines(content@.skip(end + 1)));
                assert(parse_lines(ls) == spec_parse_log(t));
                match spec_parse_event(line@) {
                    Some(ev) => {
                        assert(parse_lines(ls) == seq![ev] + parse_lines(ls.drop_first()));
                    },
                    None => {
                        assert(parse_lines(ls) == parse_lines(ls.drop_first()));
                    },
                }
                assert(out@.map_values(|ev: Event| ev@) + spec_parse_log(content@.skip(end + 1))
                    =~= spec_parse_log(content@));
            }
            start = end + 1;
        } else {
            proof {
                assert(line_len(t) == t.len());
                assert(split_lines(t) == seq![t]);
                assert(t =~= line@);
                let ls = seq![line@];
                assert(ls[0] == line@);
                assert(ls.drop_first() =~= Seq::<Seq<char>>::empty());
                assert(parse_lines(ls.drop_first()) == Seq::<EventModel>::empty());
                match spec_parse_event(line@) {
                    Some(ev) => {
                        assert(parse_lines(ls) =~= seq![ev]);
                    },
                    None => {
                        assert(parse_lines(ls) =~= Seq::<EventModel>::empty());
                    },
                }
                assert(content@.skip(n as int) =~= Seq::<char>::empty());
                assert(out@.map_values(|ev: Event| ev@) + spec_parse_log(content@.skip(n as int))
                    =~= spec_parse_log(content@));
            }
            start = n;
        }
    }
    proof {
        assert(content@.skip(n as int) =~= Seq::<char>::empty());
        assert(split_lines(Seq::<char>::empty()) == Seq::<Seq<char>>::empty());
        assert(spec_parse_log(content@.skip(n as int)) == Seq::<EventModel>::empty());
        assert(out@.map_values(|e: Event| e@) =~= spec_parse_log(content@));
    }
    out
}

/// The largest id recovered from the given file content: the maximum
/// id among the lines that parse (0 when none do).
pub fn recover_last_id(content: &str) -> (m: i32)
    ensures
        m as int == spec_max_id(spec_parse_log(content@)),
{
    let events = load_events(content);
    let ghost es = spec_parse_log(content@);
    let mut m: i32 = 0;
    let mut i: usize = 0;
    proof {
        assert(es.take(0) =~= Seq::<EventModel>::empty());
    }
    while i < events.len()
        invariant
            i <= events@.len(),
            events@.map_values(|e: Event| e@) == es,
            m as int == spec_max_id(es.take(i as int)),
        decreases events@.len() - i,
    {
        proof {
            assert(es.take(i + 1).drop_last() =~= es.take(i as int));
            assert(es.take(i + 1).last() == es[i as int]);
            assert(events@.map_values(|e: Event| e@)[i as int] == events@[i as int]@);
        }
        if events[i].id > m {
            m = events[i].id;
        }
        i = i + 1;
    }
    proof {
        assert(es.take(events@.len() as int) =~= es);
    }
    m
}

} // verus!

verus! {

// ------------------------------------------------------------------
// Laws of the log.
// ------------------------------------------------------------------

use crate::codec::has_no_newline;

/// The file content that a sequence of records makes: each line
/// followed by the line terminator.
pub open spec fn join_lines(ls: Seq<Seq<char>>) -> Seq<char>
    decreases ls.len(),
{
    if ls.len() == 0 {
        Seq::empty()
    } else {
        ls[0] + seq!['\n'] + join_lines(ls.drop_first())
    }
}

proof fn lemma_line_len_no_nl(a: Seq<char>, b: Seq<char>)
    requires
        has_no_newline(a),
    ensures
        line_len(a + seq!['\n'] + b) == a.len(),
    decreases a.len(),
{
    let s = a + seq!['\n'] + b;
    if a.len() == 0 {
        assert(s[0] == '\n');
    } else {
        assert(s[0] == a[0]);
        assert(a[0] != '\n');
        assert(s.drop_first() =~= a.drop_first() + seq!['\n'] + b);
        assert(has_no_newline(a.drop_first())) by {
            assert(forall|k: int|
                0 <= k < a.drop_first().len() ==> #[trigger] a.drop_first()[k] == a[k + 1]);
        }
        lemma_line_len_no_nl(a.drop_first(), b);
    }
}

proof fn lemma_line_len_prefix(a: Seq<char>, b: Seq<char>)
    requires
        line_len(a) < a.len(),
    ensures
        line_len(a + b) == line_len(a),
    decreases a.len(),
{
    lemma_line_len_bound(a);
    let s = a + b;
    assert(s[0] == a[0]);
    if a[0] == '\n' {
    } else {
        assert(s.drop_first() =~= a.drop_first() + b);
        lemma_line_len_prefix(a.drop_first(), b);
    }
}

/// Splitting distributes over concatenation at a line boundary.
pub(crate) proof fn lemma_split_concat(a: Seq<char>, b: Seq<char>)
    requires
        a.len() == 0 || a.last() == '\n',
    ensures
        split_lines(a + b) == split_lines(a) + split_lines(b),
    decreases a.len(),
{
    if a.len() == 0 {
        assert(a + b =~= b);
        assert(split_lines(a) + split_lines(b) =~= split_lines(b));
    } else {
        let n = line_len(a);
        lemma_line_len_bound(a);
        assert(a[a.len() - 1] == '\n');
        assert(n < a.len());
        lemma_line_len_prefix(a, b);
        let s = a + b;
        assert(line_len(s) == n);
        assert(s.len() == a.len() + b.len());
        assert(s.take(n) =~= a.take(n));
        assert(s.skip(n + 1) =~= a.skip(n + 1) + b);
        let a2 = a.skip(n + 1);
        assert(a2.len() == 0 || a2.last() == '\n') by {
            if a2.len() > 0 {
                assert(a2.last() == a.last());
            }
        }
        lemma_split_concat(a2, b);
        assert(split_lines(a) == seq![a.take(n)] + split_lines(a2));
        assert(split_lines(a + b) =~= split_lines(a) + split_lines(b));
    }
}

/// Parsing distributes over concatenation of line sequences.
pub(crate) proof fn lemma_parse_lines_concat(l1: Seq<Seq<char>>, l2: Seq<Seq<char>>)
    ensures
        parse_lines(l1 + l2) == parse_lines(l1) + parse_lines(l2),
    decreases l1.len(),
{
    if l1.len() == 0 {
        assert(l1 + l2 =~= l2);
        assert(parse_lines(l1) + parse_lines(l2) =~= parse_lines(l2));
    } else {
        assert((l1 + l2)[0] == l1[0]);
        assert((l1 + l2).drop_first() =~= l1.drop_first() + l2);
        lemma_parse_lines_concat(l1.drop_first(), l2);
        match spec_parse_event(l1[0]) {
            Some(e) => {
                assert(parse_lines(l1 + l2) =~= parse_lines(l1) + parse_lines(l2));
            },
            None => {
                assert(parse_lines(l1 + l2) =~= parse_lines(l1) + parse_lines(l2));
            },
        }
    }
}

/// Joining lines, none of which holds a line break, splits back into
/// exactly those lines.
pub(crate) proof fn lemma_split_join(ls: Seq<Seq<char>>)
    requires
        forall|k: int| 0 <= k < ls.len() ==> has_no_newline(#[trigger] ls[k]),
    ensures
        split_lines(join_lines(ls)) == ls,
    decreases ls.len(),
{
    if ls.len() == 0 {
        assert(split_lines(join_lines(ls)) =~= ls);
    } else {
        let s = ls[0] + seq!['\n'] + join_lines(ls.drop_first());
        assert(join_lines(ls) == s);
        lemma_line_len_no_nl(ls[0], join_lines(ls.drop_first()));
        let n = ls[0].len() as int;
        assert(line_len(s) == n);
        assert(s.len() == n + 1 + join_lines(ls.drop_first()).len());
        assert(s.take(n) =~= ls[0]);
        assert(s.skip(n + 1) =~= join_lines(ls.drop_first()));
        assert(forall|k: int|
            0 <= k < ls.drop_first().len() ==> #[trigger] ls.drop_first()[k] == ls[k + 1]);
        lemma_split_join(ls.drop_first());
        assert(split_lines(s) =~= ls);
    }
}

/// Lines that all parse yield exactly their events, in order.
pub(crate) proof fn lemma_parse_lines_all_valid(ls: Seq<Seq<char>>, evs: Seq<EventModel>)
    requires
        ls.len() == evs.len(),
        forall|k: int|
            0 <= k < ls.len() ==> spec_parse_event(#[trigger] ls[k]) == Some(evs[k]),
    ensures
        parse_lines(ls) == evs,
    decreases ls.len(),
{
    if ls.len() == 0 {
        assert(parse_lines(ls) =~= evs);
    } else {
        assert(spec_parse_event(ls[0]) == Some(evs[0]));
        assert(forall|k: int|
            0 <= k < ls.drop_first().len() ==> #[trigger] ls.drop_first()[k] == ls[k + 1]);
        lemma_parse_lines_all_valid(ls.drop_first(), evs.drop_first());
        assert(parse_lines(ls) =~= seq![evs[0]] + evs.drop_first());
        assert(seq![evs[0]] + evs.drop_first() =~= evs);
    }
}

/// A line that is not a valid record, inserted at any line boundary,
/// is skipped: the history read back, and therefore also the
/// recovered maximum id, are exactly those of the log without it.
pub proof fn lemma_junk_line_ignored(a: Seq<char>, junk: Seq<char>, b: Seq<char>)
    requires
        a.len() == 0 || a.last() == '\n',
        has_no_newline(junk),
        spec_parse_event(junk) is None,
    ensures
        spec_parse_log(a + (junk + seq!['\n']) + b) == spec_parse_log(a + b),
        spec_max_id(spec_parse_log(a + (junk + seq!['\n']) + b)) == spec_max_id(
            spec_parse_log(a + b),
        ),
{
    let jb = junk + seq!['\n'] + b;
    assert(a + (junk + seq!['\n']) + b =~= a + jb);
    lemma_split_concat(a, jb);
    lemma_line_len_no_nl(junk, b);
    assert(line_len(jb) == junk.len());
    assert(jb.len() == junk.len() + 1 + b.len());
    assert(jb.take(junk.len() as int) =~= junk);
    assert(jb.skip(junk.len() as int + 1) =~= b);
    assert(split_lines(jb) == seq![junk] + split_lines(b));
    lemma_parse_lines_concat(split_lines(a), seq![junk] + split_lines(b));
    assert((seq![junk] + split_lines(b))[0] == junk);
    assert((seq![junk] + split_lines(b)).drop_first() =~= split_lines(b));
    assert(parse_lines(seq![junk] + split_lines(b)) == parse_lines(split_lines(b)));
    lemma_split_concat(a, b);
    lemma_parse_lines_concat(split_lines(a), split_lines(b));
}

/// No history has a negative maximum id: it is 0 for an empty
/// history and otherwise the largest (positive) persisted id.
pub proof fn lemma_max_id_nonneg(es: Seq<EventModel>)
    ensures
        spec_max_id(es) >= 0,
    decreases es.len(),
{
    if es.len() > 0 {
        lemma_max_id_nonneg(es.drop_last());
    }
}

/// The maximum id of a concatenated history is the larger of the
/// two maxima.
pub proof fn lemma_max_id_concat(es: Seq<EventModel>, fs: Seq<EventModel>)
    ensures
        spec_max_id(es + fs) == if spec_max_id(fs) > spec_max_id(es) {
            spec_max_id(fs)
        } else {
            spec_max_id(es)
        },
    decreases fs.len(),
{
    if fs.len() == 0 {
        assert(es + fs =~= es);
        assert(spec_max_id(fs) == 0);
        lemma_max_id_nonneg(es);
    } else {
        assert((es + fs).drop_last() =~= es + fs.drop_last());
        assert((es + fs).last() == fs.last());
        lemma_max_id_concat(es, fs.drop_last());
    }
}

/// A run of contiguous ids starting above a non-negative base has its
/// last id as maximum.
pub proof fn lemma_max_id_contiguous(evs: Seq<EventModel>, m: int)
    requires
        0 <= m,
        evs.len() >= 1,
        forall|k: int| 0 <= k < evs.len() ==> #[trigger] evs[k].id == m + 1 + k,
    ensures
        spec_max_id(evs) == m + evs.len(),
    decreases evs.len(),
{
    if evs.len() == 1 {
        assert(evs.drop_last() =~= Seq::<EventModel>::empty());
        assert(spec_max_id(evs.drop_last()) == 0);
        assert(evs.last().id == m + 1);
    } else {
        assert(forall|k: int|
            0 <= k < evs.drop_last().len() ==> #[trigger] evs.drop_last()[k] == evs[k]);
        lemma_max_id_contiguous(evs.drop_last(), m);
        assert(evs.last().id == m + evs.len());
    }
}

/// Reading is idempotent: the history is a function of the file
/// content alone, so repeated reads of the same content are equal.
pub proof fn lemma_load_events_idempotent(c1: Seq<char>, c2: Seq<char>)
    requires
        c1 == c2,
    ensures
        spec_parse_log(c1) == spec_parse_log(c2),
{
}

} // verus!
