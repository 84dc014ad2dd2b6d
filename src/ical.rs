//! A line-oriented parser of iCalendar-style text. Each line is
//! `NAME[;K=V...]:VALUE`; `BEGIN:X` opens a block and `END:X` files it under `X`
//! in the enclosing mapping, as a sequence from its second occurrence on.
//! The parse is total: malformed lines and unbalanced blocks are absorbed.

use vstd::prelude::*;
use vstd::string::*;
use crate::value::{Tree, Value, entries_tree, items_tree, lemma_mapping_tree, lemma_sequence_tree};

verus! {

/// The entries of one mapping under construction.
pub type Frame = Seq<(Seq<char>, Tree)>;

/// The parser's state between two lines: the enclosing frames, innermost last,
/// and the frame being filled.
pub struct ParseState {
    pub stack: Seq<Frame>,
    pub cur: Frame,
}

/// Unicode white space, as `char::is_whitespace` classifies it.
pub open spec fn is_ws(c: char) -> bool {
    let u = c as u32;
    (9 <= u <= 13) || u == 32 || u == 0x85 || u == 0xa0 || u == 0x1680 || (0x2000 <= u
        <= 0x200a) || u == 0x2028 || u == 0x2029 || u == 0x202f || u == 0x205f || u == 0x3000
}

/// The first position in `[i, end)` that holds `c`, or `end` if none does.
pub open spec fn find_in(s: Seq<char>, c: char, i: int, end: int) -> int
    decreases end - i,
{
    if i >= end {
        end
    } else if s[i] == c {
        i
    } else {
        find_in(s, c, i + 1, end)
    }
}

/// The first position in `[i, end)` that is not white space, or `end`.
pub open spec fn skip_ws(s: Seq<char>, i: int, end: int) -> int
    decreases end - i,
{
    if i >= end {
        end
    } else if is_ws(s[i]) {
        skip_ws(s, i + 1, end)
    } else {
        i
    }
}

/// The first position at or after `j` whose key is `k`, or -1.
pub open spec fn key_pos(f: Frame, k: Seq<char>, j: int) -> int
    decreases f.len() - j,
{
    if j < 0 || j >= f.len() {
        -1
    } else if f[j].0 == k {
        j
    } else {
        key_pos(f, k, j + 1)
    }
}

/// Stores `v` under `k`: in place if `k` is present, at the end otherwise.
pub open spec fn put(f: Frame, k: Seq<char>, v: Tree) -> Frame {
    let p = key_pos(f, k, 0);
    if p >= 0 {
        f.update(p, (k, v))
    } else {
        f.push((k, v))
    }
}

/// Files a finished block under `k`: directly the first time, then as a sequence
/// that grows by one for each further block of that name.
pub open spec fn file_block(f: Frame, k: Seq<char>, e: Tree) -> Frame {
    let p = key_pos(f, k, 0);
    if p < 0 {
        f.push((k, e))
    } else {
        match f[p].1 {
            Tree::Sequence(items) => f.update(p, (k, Tree::Sequence(items.push(e)))),
            other => f.update(p, (k, Tree::Sequence(seq![other, e]))),
        }
    }
}

pub proof fn lemma_find_in_bounds(s: Seq<char>, c: char, i: int, end: int)
    requires
        i <= end,
    ensures
        i <= find_in(s, c, i, end) <= end,
        find_in(s, c, i, end) < end ==> s[find_in(s, c, i, end)] == c,
        forall|j: int| i <= j < find_in(s, c, i, end) ==> s[j] != c,
    decreases end - i,
{
    if i < end && s[i] != c {
        lemma_find_in_bounds(s, c, i + 1, end);
    }
}

pub proof fn lemma_skip_ws_bounds(s: Seq<char>, i: int, end: int)
    requires
        i <= end,
    ensures
        i <= skip_ws(s, i, end) <= end,
    decreases end - i,
{
    if i < end && is_ws(s[i]) {
        lemma_skip_ws_bounds(s, i + 1, end);
    }
}

/// The parameters of a property line, from the pieces between `;` in `[i, end)`:
/// each piece `K=V` stores `V` under `K`, a later one overriding an earlier one.
pub open spec fn params_from(t: Seq<char>, i: int, end: int, acc: Frame) -> Frame
    decreases end + 1 - i
    via params_from_decreases
{
    if i > end {
        acc
    } else {
        let e = find_in(t, ';', i, end);
        let q = find_in(t, '=', i, e);
        let acc2 = if q < e {
            put(acc, t.subrange(i, q), Tree::Scalar(t.subrange(q + 1, e)))
        } else {
            acc
        };
        params_from(t, e + 1, end, acc2)
    }
}

#[via_fn]
proof fn params_from_decreases(t: Seq<char>, i: int, end: int, acc: Frame) {
    if i <= end {
        lemma_find_in_bounds(t, ';', i, end);
    }
}

/// `value`, the key of a property's own text beside its parameters.
pub open spec fn value_key() -> Seq<char> {
    seq!['v', 'a', 'l', 'u', 'e']
}

/// `BEGIN`, which opens a block.
pub open spec fn begin_word() -> Seq<char> {
    seq!['B', 'E', 'G', 'I', 'N']
}

/// `END`, which closes a block.
pub open spec fn end_word() -> Seq<char> {
    seq!['E', 'N', 'D']
}

/// What a property line stores: its text alone when it has no parameter, else a
/// mapping of its parameters followed by its text under `value`.
pub open spec fn prop_tree(params: Frame, value: Seq<char>) -> Tree {
    let m = put(params, value_key(), Tree::Scalar(value));
    if m.len() == 1 {
        Tree::Scalar(value)
    } else {
        Tree::Mapping(m)
    }
}

/// The effect of the line `t[ls..le)` on the state.
pub open spec fn step(t: Seq<char>, st: ParseState, ls: int, le: int) -> ParseState {
    let k = skip_ws(t, ls, le);
    let c = find_in(t, ':', k, le);
    if k >= le || c >= le {
        st
    } else {
        let semi = find_in(t, ';', k, c);
        let name = t.subrange(k, semi);
        let value = t.subrange(c + 1, le);
        if name == begin_word() {
            ParseState { stack: st.stack.push(st.cur), cur: Seq::empty() }
        } else if name == end_word() {
            let parent = if st.stack.len() == 0 {
                Seq::empty()
            } else {
                st.stack.last()
            };
            ParseState {
                stack: if st.stack.len() == 0 {
                    st.stack
                } else {
                    st.stack.drop_last()
                },
                cur: file_block(parent, value, Tree::Mapping(st.cur)),
            }
        } else {
            ParseState {
                stack: st.stack,
                cur: put(st.cur, name, prop_tree(params_from(t, semi + 1, c, Seq::empty()), value)),
            }
        }
    }
}

/// Where the line that starts at `i` ends: its `\n`, or the end of the text.
pub open spec fn line_stop(t: Seq<char>, i: int) -> int {
    find_in(t, '\n', i, t.len() as int)
}

/// The end of the line's content: before a `\r` that precedes its `\n`.
pub open spec fn content_end(t: Seq<char>, i: int) -> int {
    let e = line_stop(t, i);
    if e < t.len() && e > i && t[e - 1] == '\r' {
        e - 1
    } else {
        e
    }
}

/// The state after the lines from position `i` on.
pub open spec fn run(t: Seq<char>, i: int, st: ParseState) -> ParseState
    decreases t.len() + 1 - i
    via run_decreases
{
    if i >= t.len() {
        st
    } else {
        run(t, line_stop(t, i) + 1, step(t, st, i, content_end(t, i)))
    }
}

#[via_fn]
proof fn run_decreases(t: Seq<char>, i: int, st: ParseState) {
    if i < t.len() {
        lemma_find_in_bounds(t, '\n', i, t.len() as int);
    }
}

pub open spec fn initial_state() -> ParseState {
    ParseState { stack: Seq::empty(), cur: Seq::empty() }
}

/// The tree that a text parses to.
pub open spec fn parse_tree(t: Seq<char>) -> Tree {
    Tree::Mapping(run(t, 0, initial_state()).cur)
}

/// The frames of a stack of mappings under construction, innermost last.
pub open spec fn frames_view(stack: Seq<Vec<(String, Value)>>) -> Seq<Frame> {
    Seq::new(stack.len(), |i: int| entries_tree(stack[i]@))
}

pub open spec fn state_view(stack: Seq<Vec<(String, Value)>>, cur: Seq<(String, Value)>) -> ParseState {
    ParseState { stack: frames_view(stack), cur: entries_tree(cur) }
}

fn is_space(c: char) -> (r: bool)
    ensures
        r == is_ws(c),
{
    let u = c as u32;
    (9 <= u && u <= 13) || u == 32 || u == 0x85 || u == 0xa0 || u == 0x1680 || (0x2000 <= u && u
        <= 0x200a) || u == 0x2028 || u == 0x2029 || u == 0x202f || u == 0x205f || u == 0x3000
}

fn text_chars(s: &str) -> (r: Vec<char>)
    ensures
        r@ == s@,
{
    let n = s.unicode_len();
    let mut r: Vec<char> = Vec::new();
    let mut i: usize = 0;
    while i < n
        invariant
            n == s@.len(),
            i <= n,
            r@ == s@.subrange(0, i as int),
        decreases n - i,
    {
        r.push(s.get_char(i));
        i = i + 1;
        assert(r@ =~= s@.subrange(0, i as int));
    }
    assert(r@ =~= s@);
    r
}

fn find_char(t: &Vec<char>, c: char, start: usize, end: usize) -> (r: usize)
    requires
        start <= end <= t@.len(),
    ensures
        r == find_in(t@, c, start as int, end as int),
        start <= r <= end,
{
    let mut i = start;
    while i < end && t[i] != c
        invariant
            start <= i <= end,
            end <= t@.len(),
            find_in(t@, c, i as int, end as int) == find_in(t@, c, start as int, end as int),
        decreases end - i,
    {
        i = i + 1;
    }
    i
}

fn skip_space(t: &Vec<char>, start: usize, end: usize) -> (r: usize)
    requires
        start <= end <= t@.len(),
    ensures
        r == skip_ws(t@, start as int, end as int),
        start <= r <= end,
{
    let mut i = start;
    while i < end && is_space(t[i])
        invariant
            start <= i <= end,
            end <= t@.len(),
            skip_ws(t@, i as int, end as int) == skip_ws(t@, start as int, end as int),
        decreases end - i,
    {
        i = i + 1;
    }
    i
}

fn slice_text(src: &str, a: usize, b: usize) -> (r: String)
    requires
        a <= b <= src@.len(),
    ensures
        r@ == src@.subrange(a as int, b as int),
{
    String::from_str(src.substring_char(a, b))
}

fn range_is(t: &Vec<char>, a: usize, b: usize, w: &Vec<char>) -> (r: bool)
    requires
        a <= b <= t@.len(),
    ensures
        r == (t@.subrange(a as int, b as int) == w@),
{
    if b - a != w.len() {
        assert(t@.subrange(a as int, b as int).len() != w@.len());
        return false;
    }
    let mut i: usize = 0;
    while i < w.len()
        invariant
            a <= b <= t@.len(),
            b - a == w@.len(),
            i <= w@.len(),
            forall|j: int| 0 <= j < i ==> t@[a + j] == w@[j],
        decreases w@.len() - i,
    {
        if t[a + i] != w[i] {
            assert(t@.subrange(a as int, b as int)[i as int] != w@[i as int]);
            return false;
        }
        i = i + 1;
    }
    assert(t@.subrange(a as int, b as int) =~= w@);
    true
}

fn find_key(f: &Vec<(String, Value)>, k: &String) -> (r: usize)
    ensures
        r <= f@.len(),
        key_pos(entries_tree(f@), k@, 0) == (if r < f@.len() { r as int } else { -1 }),
{
    let ghost e = entries_tree(f@);
    let mut j: usize = 0;
    while j < f.len() && !(f[j].0 == *k)
        invariant
            j <= f@.len(),
            e == entries_tree(f@),
            key_pos(e, k@, j as int) == key_pos(e, k@, 0),
        decreases f@.len() - j,
    {
        j = j + 1;
    }
    j
}

fn put_entry(f: &mut Vec<(String, Value)>, k: String, v: Value)
    ensures
        entries_tree(final(f)@) == put(entries_tree(old(f)@), k@, v.tree()),
{
    let ghost e = entries_tree(f@);
    let ghost kv = k@;
    let ghost vt = v.tree();
    let j = find_key(f, &k);
    if j < f.len() {
        f.set(j, (k, v));
        assert(entries_tree(f@) =~= e.update(j as int, (kv, vt)));
    } else {
        f.push((k, v));
        assert(entries_tree(f@) =~= e.push((kv, vt)));
    }
}

fn file_entry(f: &mut Vec<(String, Value)>, k: String, v: Value)
    ensures
        entries_tree(final(f)@) == file_block(entries_tree(old(f)@), k@, v.tree()),
{
    let ghost e = entries_tree(f@);
    let ghost kv = k@;
    let ghost vt = v.tree();
    let j = find_key(f, &k);
    if j == f.len() {
        f.push((k, v));
        assert(entries_tree(f@) =~= e.push((kv, vt)));
    } else {
        let (_, prior) = f.remove(j);
        let ghost pt = prior.tree();
        let joined = match prior {
            Value::Sequence(mut items) => {
                let ghost before = items@;
                proof {
                    lemma_sequence_tree(items);
                }
                items.push(v);
                proof {
                    lemma_sequence_tree(items);
                    assert(items_tree(items@) =~= items_tree(before).push(vt));
                }
                Value::Sequence(items)
            },
            other => {
                let pair = vec![other, v];
                proof {
                    lemma_sequence_tree(pair);
                    assert(items_tree(pair@) =~= seq![pt, vt]);
                }
                Value::Sequence(pair)
            },
        };
        let ghost jt = joined.tree();
        f.insert(j, (k, joined));
        assert(entries_tree(f@) =~= e.update(j as int, (kv, jt)));
    }
}

fn word(w: &str) -> (r: Vec<char>)
    ensures
        r@ == w@,
{
    text_chars(w)
}

fn collect_params(t: &Vec<char>, src: &str, start: usize, end: usize) -> (r: Vec<(String, Value)>)
    requires
        t@ == src@,
        end < t@.len(),
        start <= end + 1,
    ensures
        entries_tree(r@) == params_from(t@, start as int, end as int, Seq::empty()),
{
    let mut acc: Vec<(String, Value)> = Vec::new();
    assert(entries_tree(acc@) =~= Seq::<(Seq<char>, Tree)>::empty());
    let tl = t.len();
    let mut i = start;
    while i <= end
        invariant
            t@ == src@,
            end < t@.len(),
            tl == t@.len(),
            i <= end + 1,
            params_from(t@, i as int, end as int, entries_tree(acc@)) == params_from(
                t@,
                start as int,
                end as int,
                Seq::empty(),
            ),
        decreases end + 1 - i,
    {
        let e = find_char(t, ';', i, end);
        let q = find_char(t, '=', i, e);
        if q < e {
            let k = slice_text(src, i, q);
            let v = slice_text(src, q + 1, e);
            put_entry(&mut acc, k, Value::Scalar(v));
        }
        i = e + 1;
    }
    acc
}

fn prop_value(params: Vec<(String, Value)>, value: String) -> (r: Value)
    ensures
        r.tree() == prop_tree(entries_tree(params@), value@),
{
    let mut m = params;
    let key = String::from_str("value");
    proof {
        reveal_strlit("value");
        assert(key@ =~= value_key());
    }
    put_entry(&mut m, key, Value::Scalar(value.clone()));
    if m.len() == 1 {
        Value::Scalar(value)
    } else {
        proof {
            lemma_mapping_tree(m);
        }
        Value::Mapping(m)
    }
}

fn apply_line(
    t: &Vec<char>,
    src: &str,
    stack: &mut Vec<Vec<(String, Value)>>,
    cur: Vec<(String, Value)>,
    ls: usize,
    le: usize,
) -> (nc: Vec<(String, Value)>)
    requires
        t@ == src@,
        ls <= le <= t@.len(),
    ensures
        state_view(final(stack)@, nc@) == step(t@, state_view(old(stack)@, cur@), ls as int, le as int),
{
    let ghost st = state_view(stack@, cur@);
    let k = skip_space(t, ls, le);
    if k >= le {
        return cur;
    }
    let c = find_char(t, ':', k, le);
    if c >= le {
        return cur;
    }
    let semi = find_char(t, ';', k, c);
    let begin = word("BEGIN");
    let end = word("END");
    proof {
        reveal_strlit("BEGIN");
        reveal_strlit("END");
        assert(begin@ =~= begin_word());
        assert(end@ =~= end_word());
    }
    if range_is(t, k, semi, &begin) {
        stack.push(cur);
        assert(frames_view(stack@) =~= st.stack.push(st.cur));
        let fresh: Vec<(String, Value)> = Vec::new();
        assert(entries_tree(fresh@) =~= Seq::<(Seq<char>, Tree)>::empty());
        fresh
    } else if range_is(t, k, semi, &end) {
        let mut parent = match stack.pop() {
            Some(p) => p,
            None => Vec::new(),
        };
        proof {
            if st.stack.len() == 0 {
                assert(entries_tree(parent@) =~= Seq::<(Seq<char>, Tree)>::empty());
                assert(frames_view(stack@) =~= st.stack);
            } else {
                assert(frames_view(stack@) =~= st.stack.drop_last());
            }
        }
        let key = slice_text(src, c + 1, le);
        proof {
            lemma_mapping_tree(cur);
        }
        file_entry(&mut parent, key, Value::Mapping(cur));
        parent
    } else {
        let name = slice_text(src, k, semi);
        let params = collect_params(t, src, semi + 1, c);
        let value = slice_text(src, c + 1, le);
        let pv = prop_value(params, value);
        let mut nc = cur;
        put_entry(&mut nc, name, pv);
        nc
    }
}

/// A parser of iCalendar-style text into a generic tree.
pub struct ICalendarParser;

impl ICalendarParser {
    pub fn new() -> (r: Self)
        ensures
            r == ICalendarParser,
    {
        ICalendarParser
    }

    /// Parses `ical_data` line by line into a root mapping. It never fails:
    /// lines without `:` are skipped, and unbalanced blocks are absorbed.
    pub fn parse(&self, ical_data: &str) -> (r: Value)
        ensures
            r.tree() == parse_tree(ical_data@),
    {
        let t = text_chars(ical_data);
        let n = t.len();
        let mut stack: Vec<Vec<(String, Value)>> = Vec::new();
        let mut cur: Vec<(String, Value)> = Vec::new();
        assert(frames_view(stack@) =~= Seq::<Frame>::empty());
        assert(entries_tree(cur@) =~= Seq::<(Seq<char>, Tree)>::empty());
        let mut i: usize = 0;
        while i < n
            invariant
                t@ == ical_data@,
                n == t@.len(),
                i <= n,
                run(t@, i as int, state_view(stack@, cur@)) == run(t@, 0, initial_state()),
            decreases n - i,
        {
            let e = find_char(&t, '\n', i, n);
            let le = if e < n && e > i && t[e - 1] == '\r' {
                e - 1
            } else {
                e
            };
            let ghost before = state_view(stack@, cur@);
            assert(run(t@, i as int, before) == run(
                t@,
                e + 1,
                step(t@, before, i as int, le as int),
            ));
            cur = apply_line(&t, ical_data, &mut stack, cur, i, le);
            if e < n {
                i = e + 1;
            } else {
                assert(run(t@, e + 1, state_view(stack@, cur@)) == state_view(stack@, cur@));
                i = n;
            }
        }
        proof {
            lemma_mapping_tree(cur);
        }
        Value::Mapping(cur)
    }
}

/// The empty text parses to an empty root mapping.
pub proof fn lemma_parse_empty()
    ensures
        parse_tree(Seq::empty()) == Tree::Mapping(Seq::empty()),
{
}

proof fn lemma_find_absent(s: Seq<char>, c: char, i: int, end: int)
    requires
        i <= end,
        forall|j: int| i <= j < end ==> s[j] != c,
    ensures
        find_in(s, c, i, end) == end,
    decreases end - i,
{
    if i < end {
        lemma_find_absent(s, c, i + 1, end);
    }
}

/// A line without `:` leaves the whole state, current frame included, as it was.
pub proof fn lemma_line_without_colon_ignored(t: Seq<char>, st: ParseState, ls: int, le: int)
    requires
        0 <= ls <= le <= t.len(),
        forall|j: int| ls <= j < le ==> t[j] != ':',
    ensures
        step(t, st, ls, le) == st,
{
    let k = skip_ws(t, ls, le);
    lemma_skip_ws_bounds(t, ls, le);
    lemma_find_absent(t, ':', k, le);
}

proof fn lemma_key_pos_found(f: Frame, k: Seq<char>, j: int, r: int)
    requires
        0 <= j <= r < f.len(),
        f[r].0 == k,
        forall|m: int| j <= m < r ==> f[m].0 != k,
    ensures
        key_pos(f, k, j) == r,
    decreases r - j,
{
    if j < r {
        lemma_key_pos_found(f, k, j + 1, r);
    }
}

proof fn lemma_key_pos_facts(f: Frame, k: Seq<char>, j: int)
    requires
        0 <= j,
    ensures
        key_pos(f, k, j) == -1 || (j <= key_pos(f, k, j) < f.len() && f[key_pos(f, k, j)].0 == k),
        forall|m: int|
            j <= m < (if key_pos(f, k, j) == -1 {
                f.len() as int
            } else {
                key_pos(f, k, j)
            }) ==> f[m].0 != k,
    decreases f.len() - j,
{
    if j < f.len() && f[j].0 != k {
        lemma_key_pos_facts(f, k, j + 1);
    }
}

/// A property stored twice under one name keeps the second value alone, where
/// storing that value once would have put it.
pub proof fn lemma_put_overwrites(f: Frame, k: Seq<char>, v1: Tree, v2: Tree)
    ensures
        put(put(f, k, v1), k, v2) == put(f, k, v2),
{
    lemma_key_pos_facts(f, k, 0);
    let p = key_pos(f, k, 0);
    let g = put(f, k, v1);
    if p >= 0 {
        lemma_key_pos_found(g, k, 0, p);
        assert(put(g, k, v2) =~= put(f, k, v2));
    } else {
        lemma_key_pos_found(g, k, 0, f.len() as int);
        assert(put(g, k, v2) =~= put(f, k, v2));
    }
}

/// Parsing depends on the text alone: two parses of one text give equal trees.
pub proof fn lemma_parse_deterministic(t: Seq<char>, a: Value, b: Value)
    requires
        a.tree() == parse_tree(t),
        b.tree() == parse_tree(t),
    ensures
        a.tree() == b.tree(),
{
}

/// The line `t[a..b)` is `name:value` with a plain property name: not empty,
/// not starting with white space, free of `:` and `;`, and neither `BEGIN` nor `END`.
pub open spec fn plain_property_line(t: Seq<char>, a: int, b: int, name: Seq<char>) -> bool {
    &&& 0 <= a
    &&& a + name.len() < b <= t.len()
    &&& name.len() > 0
    &&& !is_ws(name[0])
    &&& name != begin_word()
    &&& name != end_word()
    &&& forall|j: int| 0 <= j < name.len() ==> name[j] != ':' && name[j] != ';'
    &&& t.subrange(a, a + name.len()) == name
    &&& t[a + name.len()] == ':'
}

proof fn lemma_find_at(s: Seq<char>, c: char, i: int, r: int, end: int)
    requires
        i <= r < end,
        s[r] == c,
        forall|j: int| i <= j < r ==> s[j] != c,
    ensures
        find_in(s, c, i, end) == r,
    decreases r - i,
{
    if i < r {
        lemma_find_at(s, c, i + 1, r, end);
    }
}

/// A plain property line without parameters stores its text under its name.
pub proof fn lemma_plain_property_line(t: Seq<char>, st: ParseState, a: int, b: int, name: Seq<char>)
    requires
        plain_property_line(t, a, b, name),
    ensures
        step(t, st, a, b) == (ParseState {
            stack: st.stack,
            cur: put(st.cur, name, Tree::Scalar(t.subrange(a + name.len() + 1, b))),
        }),
{
    let c = a + name.len();
    assert(t[a] == name[0]);
    assert(skip_ws(t, a, b) == a);
    assert forall|j: int| a <= j < c implies t[j] != ':' && t[j] != ';' by {
        assert(t[j] == t.subrange(a, c)[j - a]);
    }
    lemma_find_at(t, ':', a, c, b);
    lemma_find_absent(t, ';', a, c);
    assert(t.subrange(a, c) == name);
    let v = t.subrange(c + 1, b);
    let m = put(Seq::empty(), value_key(), Tree::Scalar(v));
    assert(m.len() == 1);
    assert(prop_tree(params_from(t, c + 1, c, Seq::empty()), v) == Tree::Scalar(v));
}

/// Two plain property lines with one name in the same frame leave only the
/// second value under it: no sequence is made.
pub proof fn lemma_repeated_plain_property(
    t: Seq<char>,
    st: ParseState,
    a1: int,
    b1: int,
    a2: int,
    b2: int,
    name: Seq<char>,
)
    requires
        plain_property_line(t, a1, b1, name),
        plain_property_line(t, a2, b2, name),
    ensures
        step(t, step(t, st, a1, b1), a2, b2) == (ParseState {
            stack: st.stack,
            cur: put(st.cur, name, Tree::Scalar(t.subrange(a2 + name.len() + 1, b2))),
        }),
{
    lemma_plain_property_line(t, st, a1, b1, name);
    let st1 = step(t, st, a1, b1);
    lemma_plain_property_line(t, st1, a2, b2, name);
    lemma_put_overwrites(
        st.cur,
        name,
        Tree::Scalar(t.subrange(a1 + name.len() + 1, b1)),
        Tree::Scalar(t.subrange(a2 + name.len() + 1, b2)),
    );
}


/// `s[i..end)` and `u[i + d..end + d)` hold the same characters.
pub open spec fn agree(s: Seq<char>, u: Seq<char>, i: int, end: int, d: int) -> bool {
    forall|k: int| i <= k < end ==> s[k] == u[k + d]
}

proof fn lemma_find_shift(s: Seq<char>, u: Seq<char>, c: char, i: int, end: int, d: int)
    requires
        i <= end,
        agree(s, u, i, end, d),
    ensures
        find_in(u, c, i + d, end + d) == find_in(s, c, i, end) + d,
    decreases end - i,
{
    if i < end {
        assert(s[i] == u[i + d]);
        if s[i] != c {
            lemma_find_shift(s, u, c, i + 1, end, d);
        }
    }
}

proof fn lemma_skip_shift(s: Seq<char>, u: Seq<char>, i: int, end: int, d: int)
    requires
        i <= end,
        agree(s, u, i, end, d),
    ensures
        skip_ws(u, i + d, end + d) == skip_ws(s, i, end) + d,
    decreases end - i,
{
    if i < end {
        assert(s[i] == u[i + d]);
        if is_ws(s[i]) {
            lemma_skip_shift(s, u, i + 1, end, d);
        }
    }
}

proof fn lemma_params_shift(t: Seq<char>, u: Seq<char>, i: int, end: int, d: int, acc: Frame)
    requires
        0 <= i <= end + 1,
        end <= t.len(),
        0 <= i + d,
        end + d <= u.len(),
        agree(t, u, i, end, d),
    ensures
        params_from(u, i + d, end + d, acc) == params_from(t, i, end, acc),
    decreases end + 1 - i,
{
    if i <= end {
        let e = find_in(t, ';', i, end);
        lemma_find_in_bounds(t, ';', i, end);
        lemma_find_shift(t, u, ';', i, end, d);
        let q = find_in(t, '=', i, e);
        lemma_find_in_bounds(t, '=', i, e);
        lemma_find_shift(t, u, '=', i, e, d);
        if q < e {
            assert(u.subrange(i + d, q + d) =~= t.subrange(i, q));
            assert(u.subrange(q + 1 + d, e + d) =~= t.subrange(q + 1, e));
        }
        let acc2 = if q < e {
            put(acc, t.subrange(i, q), Tree::Scalar(t.subrange(q + 1, e)))
        } else {
            acc
        };
        lemma_params_shift(t, u, e + 1, end, d, acc2);
    }
}

proof fn lemma_step_shift(t: Seq<char>, u: Seq<char>, st: ParseState, ls: int, le: int, d: int)
    requires
        0 <= ls <= le <= t.len(),
        0 <= ls + d,
        le + d <= u.len(),
        agree(t, u, ls, le, d),
    ensures
        step(u, st, ls + d, le + d) == step(t, st, ls, le),
{
    lemma_skip_shift(t, u, ls, le, d);
    lemma_skip_ws_bounds(t, ls, le);
    let k = skip_ws(t, ls, le);
    lemma_find_shift(t, u, ':', k, le, d);
    lemma_find_in_bounds(t, ':', k, le);
    let c = find_in(t, ':', k, le);
    if k < le && c < le {
        lemma_find_shift(t, u, ';', k, c, d);
        lemma_find_in_bounds(t, ';', k, c);
        let semi = find_in(t, ';', k, c);
        assert(u.subrange(k + d, semi + d) =~= t.subrange(k, semi));
        assert(u.subrange(c + 1 + d, le + d) =~= t.subrange(c + 1, le));
        lemma_params_shift(t, u, semi + 1, c, d, Seq::empty());
    }
}

proof fn lemma_run_shift(t: Seq<char>, u: Seq<char>, i: int, d: int, st: ParseState)
    requires
        0 <= i <= t.len(),
        0 <= i + d,
        u.len() == t.len() + d,
        agree(t, u, i, t.len() as int, d),
    ensures
        run(u, i + d, st) == run(t, i, st),
    decreases t.len() - i,
{
    if i < t.len() {
        lemma_find_shift(t, u, '\n', i, t.len() as int, d);
        lemma_find_in_bounds(t, '\n', i, t.len() as int);
        let e = line_stop(t, i);
        let le = content_end(t, i);
        if e < t.len() && e > i {
            assert(t[e - 1] == u[e - 1 + d]);
        }
        assert(content_end(u, i + d) == le + d);
        lemma_step_shift(t, u, st, i, le, d);
        let st2 = step(t, st, i, le);
        assert(line_stop(u, i + d) == e + d);
        assert(run(u, i + d, st) == run(u, e + d + 1, st2));
        assert(run(t, i, st) == run(t, e + 1, st2));
        if e < t.len() {
            lemma_run_shift(t, u, e + 1, d, st2);
        } else {
            assert(run(t, e + 1, st2) == st2);
            assert(run(u, e + d + 1, st2) == st2);
        }
    }
}

proof fn lemma_run_insert(a: Seq<char>, l: Seq<char>, b: Seq<char>, i: int, st: ParseState)
    requires
        0 <= i <= a.len(),
        i == 0 || a[i - 1] == '\n',
        a.len() == 0 || a[a.len() - 1] == '\n',
        forall|k: int| 0 <= k < l.len() ==> l[k] != ':' && l[k] != '\n',
    ensures
        run(a + l + seq!['\n'] + b, i, st) == run(a + b, i, st),
    decreases a.len() - i,
{
    let t1 = a + b;
    let t2 = a + l + seq!['\n'] + b;
    let d: int = l.len() as int + 1;
    if i == a.len() {
        let e: int = i + l.len() as int;
        assert(t2[e] == '\n');
        assert forall|k: int| i <= k < e implies t2[k] != '\n' && t2[k] != ':' by {
            assert(t2[k] == l[k - i]);
        }
        lemma_find_at(t2, '\n', i, e, t2.len() as int);
        let le = content_end(t2, i);
        lemma_line_without_colon_ignored(t2, st, i, le);
        assert forall|k: int| i <= k < t1.len() implies t1[k] == t2[k + d] by {
            assert(t1[k] == b[k - i]);
            assert(t2[k + d] == b[k - i]);
        }
        lemma_run_shift(t1, t2, i, d, st);
    } else {
        assert forall|k: int| 0 <= k < a.len() implies t1[k] == t2[k] && t1[k] == a[k] by {}
        lemma_find_in_bounds(t1, '\n', i, t1.len() as int);
        let p = find_in(t1, '\n', i, t1.len() as int);
        assert(p < a.len()) by {
            if p >= a.len() {
                assert(t1[a.len() - 1] == '\n');
            }
        }
        lemma_find_at(t2, '\n', i, p, t2.len() as int);
        let le = content_end(t1, i);
        assert(content_end(t2, i) == le);
        lemma_step_shift(t1, t2, st, i, le, 0);
        let st2 = step(t1, st, i, le);
        lemma_run_insert(a, l, b, p + 1, st2);
    }
}

/// A line without `:` inserted at a line boundary leaves the parse as it was.
pub proof fn lemma_colon_free_line_leaves_parse(a: Seq<char>, l: Seq<char>, b: Seq<char>)
    requires
        a.len() == 0 || a[a.len() - 1] == '\n',
        forall|k: int| 0 <= k < l.len() ==> l[k] != ':' && l[k] != '\n',
    ensures
        parse_tree(a + l + seq!['\n'] + b) == parse_tree(a + b),
{
    lemma_run_insert(a, l, b, 0, initial_state());
}

} // verus!
