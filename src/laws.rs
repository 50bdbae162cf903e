//! Properties that relate the parser, the folder and the serialiser.
use vstd::prelude::*;
use crate::email::{
    blank_at, blank_from, block_end, break_from, build_headers, crlf, header_text, insert_header,
    is_line_break, key_index, key_index_from, keys_unique, kept, lemma_blank_from,
    lemma_break_from_bounds, lemma_key_index, line_end, logical_lines, lookup, next_header,
    parse_line, parse_message, render, render_headers, unfold, unfold_upto, EmailView,
};
use crate::header_value_parser::{
    classify, content_type_of, name_content_type, name_cte, name_date, name_from,
    name_message_id, name_subject, name_to, same_key, HeaderView, ParseError,
};
use crate::text::{find_from, strip_wsp};
use crate::text::{is_wsp, lower};

verus! {

/// `e` is the first logical line break at or after `i`.
proof fn lemma_break_at(s: Seq<char>, i: int, e: int)
    requires
        0 <= i <= e < s.len(),
        is_line_break(s, e),
        forall|j: int| i <= j < e ==> !is_line_break(s, j),
    ensures
        break_from(s, i) == e,
    decreases e - i,
{
    if i < e {
        lemma_break_at(s, i + 1, e);
    }
}

/// Text that follows a line ending in `\n` does not move the breaks before it.
proof fn lemma_break_from_append(a: Seq<char>, b: Seq<char>, i: int)
    requires
        0 <= i < a.len(),
        a.last() == '\n',
        b.len() == 0 || !is_wsp(b[0]),
    ensures
        break_from(a + b, i) == break_from(a, i),
        break_from(a, i) < a.len(),
    decreases a.len() - i,
{
    let s = a + b;
    assert(s[i] == a[i]);
    if i + 1 < a.len() {
        assert(s[i + 1] == a[i + 1]);
        assert(is_line_break(s, i) == is_line_break(a, i));
        if !is_line_break(a, i) {
            lemma_break_from_append(a, b, i + 1);
        }
    } else {
        assert(is_line_break(a, i));
        if b.len() > 0 {
            assert(s[i + 1] == b[0]);
        }
        assert(is_line_break(s, i));
    }
}

/// The logical lines of a block made of two blocks, the first ending in a
/// line terminator and the second not starting with a continuation.
pub proof fn lemma_lines_append(a: Seq<char>, b: Seq<char>)
    requires
        a.len() > 0,
        a.last() == '\n',
        b.len() == 0 || !is_wsp(b[0]),
    ensures
        logical_lines(a + b) == logical_lines(a) + logical_lines(b),
    decreases a.len(),
{
    let s = a + b;
    lemma_break_from_append(a, b, 0);
    lemma_break_from_bounds(a, 0);
    let end = line_end(a);
    assert(line_end(s) == end);
    assert(s.subrange(0, end) =~= a.subrange(0, end));
    if b.len() == 0 {
        assert(s =~= a);
        assert(logical_lines(a) + logical_lines(b) =~= logical_lines(a));
    } else if end < a.len() {
        let a2 = a.subrange(end, a.len() as int);
        assert(s.subrange(end, s.len() as int) =~= a2 + b);
        lemma_lines_append(a2, b);
        assert(logical_lines(s) =~= logical_lines(a) + logical_lines(b));
    } else {
        assert(s.subrange(end, s.len() as int) =~= b);
        assert(logical_lines(s) =~= logical_lines(a) + logical_lines(b));
    }
}

proof fn lemma_unfold_plain(s: Seq<char>, n: int)
    requires
        0 <= n <= s.len(),
        forall|j: int| 0 <= j < n ==> kept(s, j),
    ensures
        unfold_upto(s, n) == s.subrange(0, n),
    decreases n,
{
    if n > 0 {
        lemma_unfold_plain(s, n - 1);
        assert(s.subrange(0, n) =~= s.subrange(0, n - 1).push(s[n - 1]));
    }
}

/// A line without `\n`, with its terminator, is one logical line.
pub proof fn lemma_single_line(l: Seq<char>, t: Seq<char>)
    requires
        forall|j: int| 0 <= j < l.len() ==> l[j] != '\n',
        t == crlf() || (t == seq!['\n'] && (l.len() == 0 || l.last() != '\r')),
    ensures
        logical_lines(l + t) == seq![l],
        break_from(l + t, 0) == (l + t).len() - 1,
        unfold(l + t) == l,
{
    let s = l + t;
    let e = s.len() - 1;
    assert forall|j: int| 0 <= j < e implies !is_line_break(s, j) by {
        if j < l.len() {
            assert(s[j] == l[j]);
        } else {
            assert(t == crlf() && s[j] == '\r');
        }
    }
    lemma_break_at(s, 0, e);
    assert(line_end(s) == s.len());
    assert(s.subrange(0, s.len() as int) =~= s);
    assert forall|j: int| 0 <= j < l.len() implies kept(s, j) by {
        assert(s[j] == l[j]);
        if j + 1 < l.len() {
            assert(s[j + 1] == l[j + 1]);
        } else {
            assert(s[j + 1] == t[0]);
        }
    }
    lemma_unfold_plain(s, l.len() as int);
    assert(s.subrange(0, l.len() as int) =~= l);
    if t == crlf() {
        assert(!kept(s, l.len() as int));
        assert(unfold_upto(s, l.len() + 1int) == l);
    }
    assert(!kept(s, e));
    assert(unfold(s) == l);
}

proof fn lemma_break_none(s: Seq<char>, i: int)
    requires
        0 <= i <= s.len(),
        forall|j: int| i <= j < s.len() ==> !is_line_break(s, j),
    ensures
        break_from(s, i) == s.len(),
    decreases s.len() - i,
{
    if i < s.len() {
        lemma_break_none(s, i + 1);
    }
}

/// A line without `\n` and without a terminator is one logical line.
proof fn lemma_unterminated_line(l: Seq<char>)
    requires
        l.len() > 0,
        forall|j: int| 0 <= j < l.len() ==> l[j] != '\n',
    ensures
        logical_lines(l) == seq![l],
{
    lemma_break_none(l, 0);
    assert(l.subrange(0, l.len() as int) =~= l);
    assert forall|j: int| 0 <= j < l.len() implies kept(l, j) by {
        if j + 1 < l.len() {
            assert(l[j + 1] != '\n');
        }
    }
    lemma_unfold_plain(l, l.len() as int);
}

/// The lines `ls`, each followed by `\n`.
pub open spec fn join_lines(ls: Seq<Seq<char>>) -> Seq<char>
    decreases ls.len(),
{
    if ls.len() == 0 {
        Seq::empty()
    } else {
        join_lines(ls.drop_last()) + ls.last() + seq!['\n']
    }
}

proof fn lemma_join_front(ls: Seq<Seq<char>>)
    requires
        ls.len() > 0,
    ensures
        join_lines(ls) == ls[0] + seq!['\n'] + join_lines(ls.drop_first()),
    decreases ls.len(),
{
    if ls.len() == 1 {
        assert(ls.drop_first() =~= Seq::<Seq<char>>::empty());
        assert(ls.drop_last() =~= Seq::<Seq<char>>::empty());
        assert(join_lines(ls) =~= ls[0] + seq!['\n'] + join_lines(ls.drop_first()));
    } else {
        let init = ls.drop_last();
        lemma_join_front(init);
        assert(init.drop_first() =~= ls.drop_first().drop_last());
        assert(ls.drop_first().last() == ls.last());
        assert(join_lines(ls) =~= ls[0] + seq!['\n'] + join_lines(ls.drop_first()));
    }
}

/// Reading a header block without continuation lines one logical line at a
/// time gives its first line unchanged and leaves exactly the other lines,
/// so that repeating the step yields each line in order.
pub proof fn lemma_fold_plain_step(ls: Seq<Seq<char>>)
    requires
        ls.len() > 0,
        forall|i: int, j: int| 0 <= i < ls.len() && 0 <= j < ls[i].len() ==> ls[i][j] != '\n',
        forall|i: int| 0 <= i < ls.len() && ls[i].len() > 0 ==> ls[i].last() != '\r',
        forall|i: int| 0 < i < ls.len() && ls[i].len() > 0 ==> !is_wsp(ls[i][0]),
    ensures
        next_header(join_lines(ls)) == (
            Some(ls[0]),
            if ls.len() > 1 {
                Some(join_lines(ls.drop_first()))
            } else {
                None
            },
        ),
{
    let l = ls[0];
    let a = l + seq!['\n'];
    let rest = ls.drop_first();
    let j = join_lines(rest);
    lemma_join_front(ls);
    assert(join_lines(ls) =~= a + j);
    lemma_single_line(l, seq!['\n']);
    if rest.len() > 0 {
        lemma_join_front(rest);
        assert(j[0] == if rest[0].len() > 0 { rest[0][0] } else { '\n' });
        assert(rest[0] == ls[1]);
    } else {
        assert(j.len() == 0);
    }
    lemma_break_from_append(a, j, 0);
    let s = a + j;
    assert(line_end(s) == a.len());
    assert(s.subrange(0, a.len() as int) =~= a);
    if rest.len() > 0 {
        assert(s.subrange(a.len() as int, s.len() as int) =~= j);
    }
}

/// A header block without continuation lines unfolds into its lines, one
/// logical line for each, in order.
pub proof fn lemma_fold_plain_lines(ls: Seq<Seq<char>>)
    requires
        forall|i: int, j: int| 0 <= i < ls.len() && 0 <= j < ls[i].len() ==> ls[i][j] != '\n',
        forall|i: int| 0 <= i < ls.len() && ls[i].len() > 0 ==> ls[i].last() != '\r',
        forall|i: int| 0 < i < ls.len() && ls[i].len() > 0 ==> !is_wsp(ls[i][0]),
    ensures
        logical_lines(join_lines(ls)) == ls,
    decreases ls.len(),
{
    if ls.len() == 0 {
        assert(logical_lines(join_lines(ls)) =~= ls);
    } else {
        let init = ls.drop_last();
        let l = ls.last();
        let t = seq!['\n'];
        lemma_fold_plain_lines(init);
        lemma_single_line(l, t);
        let j = join_lines(init);
        if j.len() == 0 {
            assert(j + l + t =~= l + t);
            if init.len() > 0 {
                assert(logical_lines(j) =~= Seq::<Seq<char>>::empty());
            }
            assert(init =~= Seq::<Seq<char>>::empty());
            assert(logical_lines(join_lines(ls)) =~= ls);
        } else {
            assert(init.len() > 0);
            assert(j.last() == '\n');
            assert((l + t)[0] == if l.len() > 0 { l[0] } else { '\n' });
            assert(j + l + t =~= j + (l + t));
            lemma_lines_append(j, l + t);
            assert(logical_lines(join_lines(ls)) =~= ls);
        }
    }
}

/// `p` followed by the continuation lines `cs`, each after a `\n`.
pub open spec fn fold_join(p: Seq<char>, cs: Seq<Seq<char>>) -> Seq<char>
    decreases cs.len(),
{
    if cs.len() == 0 {
        p
    } else {
        fold_join(p, cs.drop_last()) + seq!['\n'] + cs.last()
    }
}

/// `p` and the lines `cs` concatenated.
pub open spec fn flat(p: Seq<char>, cs: Seq<Seq<char>>) -> Seq<char>
    decreases cs.len(),
{
    if cs.len() == 0 {
        p
    } else {
        flat(p, cs.drop_last()) + cs.last()
    }
}

/// A line that neither holds `\n` nor ends in `\r`.
pub open spec fn plain_line(l: Seq<char>) -> bool {
    &&& forall|j: int| 0 <= j < l.len() ==> l[j] != '\n'
    &&& (l.len() == 0 || l.last() != '\r')
}

proof fn lemma_unfold_kept_run(s: Seq<char>, m: int, n: int)
    requires
        0 <= m <= n <= s.len(),
        forall|j: int| m <= j < n ==> kept(s, j),
    ensures
        unfold_upto(s, n) == unfold_upto(s, m) + s.subrange(m, n),
    decreases n - m,
{
    if n > m {
        lemma_unfold_kept_run(s, m, n - 1);
        assert(s.subrange(m, n) =~= s.subrange(m, n - 1).push(s[n - 1]));
    } else {
        assert(s.subrange(m, n) =~= Seq::<char>::empty());
    }
}

proof fn lemma_unfold_agree(a: Seq<char>, b: Seq<char>, n: int)
    requires
        0 <= n <= a.len(),
        n <= b.len(),
        forall|j: int| 0 <= j < n ==> a[j] == b[j] && kept(a, j) == kept(b, j),
    ensures
        unfold_upto(a, n) == unfold_upto(b, n),
    decreases n,
{
    if n > 0 {
        lemma_unfold_agree(a, b, n - 1);
    }
}

proof fn lemma_continuations(p: Seq<char>, cs: Seq<Seq<char>>)
    requires
        p.len() > 0,
        plain_line(p),
        forall|i: int| 0 <= i < cs.len() ==> plain_line(#[trigger] cs[i]) && cs[i].len() > 0
            && is_wsp(cs[i][0]),
    ensures
        ({
            let s = fold_join(p, cs);
            &&& s.len() > 0 && s.last() != '\n' && s.last() != '\r'
            &&& forall|j: int| 0 <= j < s.len() ==> !is_line_break(s, j)
            &&& unfold(s) == flat(p, cs)
        }),
    decreases cs.len(),
{
    let s = fold_join(p, cs);
    if cs.len() == 0 {
        assert forall|j: int| 0 <= j < p.len() implies kept(p, j) by {
            if j + 1 < p.len() {
                assert(p[j + 1] != '\n');
            }
        }
        lemma_unfold_kept_run(p, 0, p.len() as int);
        assert(p.subrange(0, p.len() as int) =~= p);
    } else {
        let init = cs.drop_last();
        let c = cs.last();
        assert(plain_line(cs[cs.len() - 1]));
        assert forall|i: int| 0 <= i < init.len() implies plain_line(#[trigger] init[i])
            && init[i].len() > 0 && is_wsp(init[i][0]) by {
            assert(init[i] == cs[i]);
        }
        lemma_continuations(p, init);
        let s0 = fold_join(p, init);
        let m = s0.len() as int;
        assert(s =~= s0 + seq!['\n'] + c);
        assert forall|j: int| 0 <= j < s.len() implies !is_line_break(s, j) by {
            if j < m {
                assert(s[j] == s0[j]);
                if s0[j] == '\n' {
                    assert(j + 1 < m);
                    assert(!is_line_break(s0, j));
                    assert(s[j + 1] == s0[j + 1]);
                }
            } else if j == m {
                assert(s[j + 1] == c[0]);
            } else {
                assert(s[j] == c[j - m - 1]);
            }
        }
        assert forall|j: int| 0 <= j < m implies s0[j] == s[j] && kept(s0, j) == kept(s, j) by {
            assert(s[j] == s0[j]);
            if j + 1 < m {
                assert(s[j + 1] == s0[j + 1]);
            }
        }
        lemma_unfold_agree(s0, s, m);
        assert(!kept(s, m));
        assert forall|j: int| m + 1 <= j < s.len() implies kept(s, j) by {
            assert(s[j] == c[j - m - 1]);
            if j + 1 < s.len() {
                assert(s[j + 1] == c[j - m]);
            }
        }
        lemma_unfold_kept_run(s, m + 1, s.len() as int);
        assert(s.subrange(m + 1, s.len() as int) =~= c);
        assert(s.last() == c.last());
    }
}

/// A header line followed by continuation lines (each after a `\n`, each
/// starting with whitespace) is one logical line: the terminators are
/// removed and the whitespace that starts each continuation is kept.
pub proof fn lemma_fold_continuations(p: Seq<char>, cs: Seq<Seq<char>>)
    requires
        p.len() > 0,
        plain_line(p),
        forall|i: int| 0 <= i < cs.len() ==> plain_line(#[trigger] cs[i]) && cs[i].len() > 0
            && is_wsp(cs[i][0]),
    ensures
        next_header(fold_join(p, cs)) == (Some(flat(p, cs)), None::<Seq<char>>),
{
    let s = fold_join(p, cs);
    lemma_continuations(p, cs);
    lemma_break_none(s, 0);
    assert(s.subrange(0, s.len() as int) =~= s);
}

/// A message whose text starts with two line terminators in a row has no
/// headers, and its body is everything after them.
pub proof fn lemma_no_headers(b: Seq<char>)
    ensures
        parse_message(seq!['\n', '\n'] + b) == Ok::<EmailView, ParseError>(
            EmailView { headers: Seq::empty(), body: b },
        ),
        parse_message(crlf() + crlf() + b) == Ok::<EmailView, ParseError>(
            EmailView { headers: Seq::empty(), body: b },
        ),
{
    let s1 = seq!['\n', '\n'] + b;
    let s2 = crlf() + crlf() + b;
    assert(!blank_at(s1, 0) && blank_at(s1, 1));
    lemma_blank_first(s1, 0, 1);
    assert(block_end(s1, 1) == 0);
    assert(!blank_at(s2, 0) && !blank_at(s2, 1) && blank_at(s2, 2));
    lemma_blank_first(s2, 0, 2);
    assert(block_end(s2, 2) == 0);
    assert(s1.subrange(0, 0) =~= Seq::<char>::empty());
    assert(s2.subrange(0, 0) =~= Seq::<char>::empty());
    assert(logical_lines(Seq::<char>::empty()) =~= Seq::<Seq<char>>::empty());
    assert(s1.subrange(2, s1.len() as int) =~= b);
    assert(s2.subrange(4, s2.len() as int) =~= b);
}

/// A text without two line terminators in a row is rejected as a malformed message.
pub proof fn lemma_missing_separator(s: Seq<char>)
    requires
        forall|i: int| !blank_at(s, i),
    ensures
        parse_message(s) == Err::<EmailView, ParseError>(ParseError::MalformedMessage),
{
    lemma_blank_from(s, 0);
}

proof fn lemma_key_index_same(hs: Seq<(Seq<char>, HeaderView)>, k1: Seq<char>, k2: Seq<char>, i: int)
    requires
        lower(k1) == lower(k2),
    ensures
        key_index_from(hs, k1, i) == key_index_from(hs, k2, i),
    decreases hs.len() - i,
{
    if 0 <= i < hs.len() {
        lemma_key_index_same(hs, k1, k2, i + 1);
    }
}

/// Keys that differ only in ASCII case find the same header.
pub proof fn lemma_lookup_ignores_case(hs: Seq<(Seq<char>, HeaderView)>, k1: Seq<char>, k2: Seq<char>)
    requires
        lower(k1) == lower(k2),
    ensures
        lookup(hs, k1) == lookup(hs, k2),
{
    lemma_key_index_same(hs, k1, k2, 0);
}

/// After a header is set, every key equal to its key up to case finds the
/// new value: the last write wins.
pub proof fn lemma_last_write_wins(
    hs: Seq<(Seq<char>, HeaderView)>,
    k: Seq<char>,
    h: HeaderView,
    k2: Seq<char>,
)
    requires
        lower(k) == lower(k2),
    ensures
        lookup(insert_header(hs, k, h), k2) == Some(h),
{
    lemma_key_index(hs, k, 0);
    let r = insert_header(hs, k, h);
    lemma_key_index(r, k2, 0);
    lemma_key_index_same(r, k, k2, 0);
    if key_index(hs, k) < 0 {
        assert(same_key(r[hs.len() as int].0, k2));
        assert forall|j: int| 0 <= j < hs.len() implies !same_key(#[trigger] r[j].0, k2) by {
            assert(r[j] == hs[j]);
        }
    } else {
        let i = key_index(hs, k);
        assert(same_key(r[i].0, k2));
        assert forall|j: int| 0 <= j < i implies !same_key(#[trigger] r[j].0, k2) by {
            assert(r[j] == hs[j]);
        }
    }
}

/// The name a recognised header is written under.
pub open spec fn canonical_name(h: HeaderView) -> Seq<char> {
    match h {
        HeaderView::To(_) => name_to(),
        HeaderView::From(_) => name_from(),
        HeaderView::Date(_) => name_date(),
        HeaderView::Subject(_) => name_subject(),
        HeaderView::MessageID(_) => name_message_id(),
        HeaderView::ContentType { .. } => name_content_type(),
        HeaderView::ContentTransferEncoding(_) => name_cte(),
        HeaderView::Generic(_) => Seq::empty(),
    }
}

/// The text written after `Key: ` for a header.
pub open spec fn payload(h: HeaderView) -> Seq<char> {
    match h {
        HeaderView::ContentType { maintype, subtype, value } => maintype + seq!['/'] + subtype
            + seq![';', ' '] + value,
        HeaderView::To(v) => v,
        HeaderView::From(v) => v,
        HeaderView::Date(v) => v,
        HeaderView::Subject(v) => v,
        HeaderView::MessageID(v) => v,
        HeaderView::ContentTransferEncoding(v) => v,
        HeaderView::Generic(v) => v,
    }
}

/// No line terminator characters.
pub open spec fn single_line(v: Seq<char>) -> bool {
    forall|j: int| 0 <= j < v.len() ==> v[j] != '\n' && v[j] != '\r'
}

pub open spec fn lacks(v: Seq<char>, c: char) -> bool {
    forall|j: int| 0 <= j < v.len() ==> v[j] != c
}

pub open spec fn no_leading_wsp(v: Seq<char>) -> bool {
    v.len() == 0 || !is_wsp(v[0])
}

/// A recognised header whose values survive being written and read back:
/// single-line values without leading whitespace, and a Content-Type whose
/// media type has one `/` and no `;`.
pub open spec fn round_trips(h: HeaderView) -> bool {
    match h {
        HeaderView::Generic(_) => false,
        HeaderView::ContentType { maintype, subtype, value } => {
            &&& single_line(maintype) && single_line(subtype) && single_line(value)
            &&& lacks(maintype, '/') && lacks(maintype, ';') && lacks(subtype, ';')
            &&& no_leading_wsp(maintype) && no_leading_wsp(value)
        },
        _ => single_line(payload(h)) && no_leading_wsp(payload(h)),
    }
}

proof fn lemma_find_at(s: Seq<char>, c: char, i: int, e: int)
    requires
        0 <= i <= e < s.len(),
        s[e] == c,
        forall|j: int| i <= j < e ==> s[j] != c,
    ensures
        find_from(s, c, i) == e,
    decreases e - i,
{
    if i < e {
        lemma_find_at(s, c, i + 1, e);
    }
}

proof fn lemma_names()
    ensures
        name_to() =~= seq!['T', 'o'],
        name_from() =~= seq!['F', 'r', 'o', 'm'],
        name_date() =~= seq!['D', 'a', 't', 'e'],
        name_subject() =~= seq!['S', 'u', 'b', 'j', 'e', 'c', 't'],
        name_message_id() =~= seq!['M', 'e', 's', 's', 'a', 'g', 'e', '-', 'I', 'D'],
        name_content_type() =~= seq!['C', 'o', 'n', 't', 'e', 'n', 't', '-', 'T', 'y', 'p', 'e'],
        name_cte().len() == 25,
        name_cte()[0] == 'C',
        forall|j: int| 0 <= j < 25 ==> name_cte()[j] != ':' && name_cte()[j] != '\n' && name_cte()[j] != '\r',
{
    reveal_strlit("To");
    reveal_strlit("From");
    reveal_strlit("Date");
    reveal_strlit("Subject");
    reveal_strlit("Message-ID");
    reveal_strlit("Content-Type");
    reveal_strlit("Content-Transfer-Encoding");
}

/// What the rendered line of a round-tripping header is made of.
proof fn lemma_text_facts(k: Seq<char>, h: HeaderView)
    requires
        round_trips(h),
    ensures
        ({
            let t = header_text(k, h);
            let n = canonical_name(h);
            &&& t == n + seq![':', ' '] + payload(h)
            &&& n.len() > 0 && lacks(n, ':')
            &&& single_line(t)
            &&& t[0] == n[0] && !is_wsp(t[0]) && t[0] != '\n' && t[0] != '\r'
        }),
{
    lemma_names();
    let t = header_text(k, h);
    let n = canonical_name(h);
    let p = payload(h);
    assert(t =~= n + seq![':', ' '] + p);
    if let HeaderView::ContentType { maintype, subtype, value } = h {
        assert(single_line(p)) by {
            assert forall|j: int| 0 <= j < p.len() implies p[j] != '\n' && p[j] != '\r' by {
                if j < maintype.len() {
                } else if j < maintype.len() + 1 {
                } else if j < maintype.len() + 1 + subtype.len() {
                    assert(p[j] == subtype[j - maintype.len() - 1]);
                } else if j < maintype.len() + 3 + subtype.len() {
                } else {
                    assert(p[j] == value[j - maintype.len() - 3 - subtype.len()]);
                }
            }
        }
    }
    assert(single_line(t)) by {
        assert forall|j: int| 0 <= j < t.len() implies t[j] != '\n' && t[j] != '\r' by {
            if j >= n.len() + 2 {
                assert(t[j] == p[j - n.len() - 2]);
            }
        }
    }
}

/// Reading back the rendered line of a round-tripping header gives its
/// canonical name and the header itself.
proof fn lemma_content_type_reads_back(maintype: Seq<char>, subtype: Seq<char>, value: Seq<char>)
    requires
        round_trips(HeaderView::ContentType { maintype, subtype, value }),
    ensures
        content_type_of(payload(HeaderView::ContentType { maintype, subtype, value })) == Ok::<
            HeaderView,
            ParseError,
        >(HeaderView::ContentType { maintype, subtype, value }),
{
    let p = payload(HeaderView::ContentType { maintype, subtype, value });
    let semi = maintype.len() + 1 + subtype.len() as int;
    assert forall|j: int| 0 <= j < semi implies p[j] != ';' by {
        if j > maintype.len() {
            assert(p[j] == subtype[j - maintype.len() - 1]);
        }
    }
    lemma_find_at(p, ';', 0, semi);
    let primary = p.subrange(0, semi);
    assert(primary =~= maintype + seq!['/'] + subtype);
    lemma_find_at(primary, '/', 0, maintype.len() as int);
    assert(primary.subrange(0, maintype.len() as int) =~= maintype);
    assert(primary.subrange(maintype.len() + 1int, primary.len() as int) =~= subtype);
    let rest = p.subrange(semi + 1, p.len() as int);
    assert(rest =~= seq![' '] + value);
    assert(rest.drop_first() =~= value);
    assert(rest[0] == ' ');
    assert(strip_wsp(value) == value);
    assert(strip_wsp(rest) == value);
}

/// No two canonical names are equal up to case.
proof fn lemma_names_distinct()
    ensures
        !same_key(name_from(), name_to()),
        !same_key(name_date(), name_to()),
        !same_key(name_date(), name_from()),
        !same_key(name_subject(), name_to()),
        !same_key(name_subject(), name_from()),
        !same_key(name_subject(), name_date()),
        !same_key(name_content_type(), name_to()),
        !same_key(name_content_type(), name_from()),
        !same_key(name_content_type(), name_date()),
        !same_key(name_content_type(), name_subject()),
        !same_key(name_cte(), name_to()),
        !same_key(name_cte(), name_from()),
        !same_key(name_cte(), name_date()),
        !same_key(name_cte(), name_subject()),
        !same_key(name_cte(), name_content_type()),
        !same_key(name_message_id(), name_to()),
        !same_key(name_message_id(), name_from()),
        !same_key(name_message_id(), name_date()),
        !same_key(name_message_id(), name_subject()),
        !same_key(name_message_id(), name_content_type()),
        !same_key(name_message_id(), name_cte()),
{
    lemma_names();
    assert(lower(name_to()).len() == 2);
    assert(lower(name_from()).len() == 4);
    assert(lower(name_date()).len() == 4);
    assert(lower(name_subject()).len() == 7);
    assert(lower(name_message_id()).len() == 10);
    assert(lower(name_content_type()).len() == 12);
    assert(lower(name_cte()).len() == 25);
    assert(lower(name_date())[0] != lower(name_from())[0]);
}

/// The rendered line of a round-tripping header reads back as that header:
/// split at its first `:`, the key is the header's canonical name, the value
/// (leading whitespace removed) is what was written after `Key: `, and
/// classifying the two gives the header again.
pub proof fn lemma_line_reads_back(k: Seq<char>, h: HeaderView)
    requires
        round_trips(h),
    ensures
        parse_line(header_text(k, h)) == Some((canonical_name(h), payload(h))),
        classify(canonical_name(h), payload(h)) == Ok::<HeaderView, ParseError>(h),
{
    lemma_text_facts(k, h);
    let t = header_text(k, h);
    let n = canonical_name(h);
    let p = payload(h);
    lemma_find_at(t, ':', 0, n.len() as int);
    assert(t.subrange(0, n.len() as int) =~= n);
    let after = t.subrange(n.len() + 1int, t.len() as int);
    assert(after =~= seq![' '] + p);
    assert(after.drop_first() =~= p);
    assert(strip_wsp(after) == strip_wsp(p));
    assert(strip_wsp(p) == p);
    lemma_names_distinct();
    if let HeaderView::ContentType { maintype, subtype, value } = h {
        lemma_content_type_reads_back(maintype, subtype, value);
    }
}

/// Every header of `hs` round-trips under a key equal to its canonical name
/// up to case.
pub open spec fn all_round_trip(hs: Seq<(Seq<char>, HeaderView)>) -> bool {
    forall|i: int|
        0 <= i < hs.len() ==> round_trips(#[trigger] hs[i].1) && same_key(
            hs[i].0,
            canonical_name(hs[i].1),
        )
}

pub open spec fn texts(hs: Seq<(Seq<char>, HeaderView)>) -> Seq<Seq<char>> {
    hs.map_values(|p: (Seq<char>, HeaderView)| header_text(p.0, p.1))
}

pub open spec fn canonical_entries(hs: Seq<(Seq<char>, HeaderView)>) -> Seq<(Seq<char>, HeaderView)> {
    hs.map_values(|p: (Seq<char>, HeaderView)| (canonical_name(p.1), p.1))
}

/// No line of `r` starts with a line terminator.
pub open spec fn no_empty_lines(r: Seq<char>) -> bool {
    forall|i: int|
        0 <= i < r.len() && (i == 0 || r[i - 1] == '\n') ==> #[trigger] r[i] != '\n' && r[i]
            != '\r'
}

proof fn lemma_rendered_lines(hs: Seq<(Seq<char>, HeaderView)>)
    requires
        all_round_trip(hs),
    ensures
        logical_lines(render_headers(hs)) == texts(hs),
        no_empty_lines(render_headers(hs)),
        hs.len() == 0 <==> render_headers(hs).len() == 0,
        render_headers(hs).len() > 0 ==> render_headers(hs).last() == '\n',
    decreases hs.len(),
{
    if hs.len() == 0 {
        assert(logical_lines(Seq::<char>::empty()) =~= texts(hs));
    } else {
        let init = hs.drop_last();
        let (k, h) = hs.last();
        assert(round_trips(hs[hs.len() - 1].1));
        lemma_rendered_lines(init);
        lemma_text_facts(k, h);
        let r0 = render_headers(init);
        let t = header_text(k, h);
        let r = render_headers(hs);
        lemma_single_line(t, crlf());
        assert(texts(hs) =~= texts(init).push(t));
        if r0.len() == 0 {
            assert(r =~= t + crlf());
            assert(texts(init) =~= Seq::<Seq<char>>::empty());
        } else {
            assert(r =~= r0 + (t + crlf()));
            lemma_lines_append(r0, t + crlf());
        }
        assert(logical_lines(r) =~= texts(hs));
        assert forall|i: int| 0 <= i < r.len() && (i == 0 || r[i - 1] == '\n') implies #[trigger] r[i] != '\n'
            && r[i] != '\r' by {
            if i < r0.len() {
                assert(r[i] == r0[i]);
                if i > 0 {
                    assert(r[i - 1] == r0[i - 1]);
                }
            } else if i == r0.len() {
                assert(r[i] == t[0]);
            } else {
                assert(r[i - 1] != '\n') by {
                    if i - 1 < r0.len() + t.len() {
                        assert(r[i - 1] == t[i - 1 - r0.len()]);
                    }
                }
            }
        }
    }
}

/// The header block of a rendered message: the rendered headers without the
/// terminator of the last one.
proof fn lemma_rendered_block(hs: Seq<(Seq<char>, HeaderView)>)
    requires
        all_round_trip(hs),
        hs.len() > 0,
    ensures
        ({
            let r = render_headers(hs);
            &&& r.len() >= 2 && r[r.len() - 2] == '\r'
            &&& logical_lines(r.subrange(0, r.len() - 2)) == texts(hs)
        }),
{
    let init = hs.drop_last();
    let (k, h) = hs.last();
    assert(round_trips(hs[hs.len() - 1].1));
    assert forall|i: int| 0 <= i < init.len() implies round_trips(#[trigger] init[i].1)
        && same_key(init[i].0, canonical_name(init[i].1)) by {
        assert(init[i] == hs[i]);
    }
    lemma_rendered_lines(init);
    lemma_text_facts(k, h);
    let r0 = render_headers(init);
    let t = header_text(k, h);
    let r = render_headers(hs);
    assert(r.subrange(0, r.len() - 2) =~= r0 + t);
    lemma_unterminated_line(t);
    assert(texts(hs) =~= texts(init).push(t));
    if r0.len() == 0 {
        assert(r0 + t =~= t);
        assert(texts(init) =~= Seq::<Seq<char>>::empty());
    } else {
        lemma_lines_append(r0, t);
    }
    assert(logical_lines(r0 + t) =~= texts(hs));
}

proof fn lemma_rendered_build(hs: Seq<(Seq<char>, HeaderView)>)
    requires
        all_round_trip(hs),
        keys_unique(hs),
    ensures
        build_headers(texts(hs)) == Ok::<Seq<(Seq<char>, HeaderView)>, ParseError>(
            canonical_entries(hs),
        ),
    decreases hs.len(),
{
    if hs.len() == 0 {
        assert(canonical_entries(hs) =~= Seq::<(Seq<char>, HeaderView)>::empty());
    } else {
        let init = hs.drop_last();
        let n = hs.len() - 1;
        let (k, h) = hs[n];
        assert(round_trips(hs[n].1));
        assert forall|i: int, j: int|
            0 <= i < init.len() && 0 <= j < init.len() && i != j implies !same_key(
            #[trigger] init[i].0,
            #[trigger] init[j].0,
        ) by {
            assert(init[i] == hs[i] && init[j] == hs[j]);
        }
        assert forall|i: int| 0 <= i < init.len() implies round_trips(#[trigger] init[i].1)
            && same_key(init[i].0, canonical_name(init[i].1)) by {
            assert(init[i] == hs[i]);
        }
        lemma_rendered_build(init);
        assert(texts(hs).drop_last() =~= texts(init));
        lemma_line_reads_back(k, h);
        let acc = canonical_entries(init);
        let name = canonical_name(h);
        lemma_key_index(acc, name, 0);
        assert forall|j: int| 0 <= j < acc.len() implies !same_key(#[trigger] acc[j].0, name) by {
            assert(acc[j].0 == canonical_name(hs[j].1));
            assert(same_key(hs[j].0, canonical_name(hs[j].1)));
            assert(!same_key(hs[j].0, hs[n].0));
        }
        assert(insert_header(acc, name, h) =~= canonical_entries(hs));
    }
}

proof fn lemma_blank_first(s: Seq<char>, i: int, e: int)
    requires
        0 <= i <= e < s.len(),
        blank_at(s, e),
        forall|j: int| i <= j < e ==> !blank_at(s, j),
    ensures
        blank_from(s, i) == e,
    decreases e - i,
{
    if i < e {
        lemma_blank_first(s, i + 1, e);
    }
}

/// Writing a message that has at least one header, all of them recognised
/// and round-tripping, and reading the text back, gives the same headers in
/// the same order, under their canonical names, and the same body.
pub proof fn lemma_round_trip(e: EmailView)
    requires
        e.headers.len() > 0,
        keys_unique(e.headers),
        all_round_trip(e.headers),
    ensures
        parse_message(render(e)) == Ok::<EmailView, ParseError>(
            EmailView { headers: canonical_entries(e.headers), body: e.body },
        ),
{
    let hs = e.headers;
    let r = render_headers(hs);
    let s = render(e);
    lemma_rendered_lines(hs);
    lemma_rendered_block(hs);
    lemma_rendered_build(hs);
    assert(s =~= r + crlf() + e.body);
    assert forall|j: int| 0 <= j < r.len() implies !blank_at(s, j) by {
        assert(s[j] == r[j]);
        if j > 0 {
            assert(s[j - 1] == r[j - 1]);
        }
        assert(no_empty_lines(r));
    }
    assert(s[r.len() as int] == '\r' && s[r.len() + 1int] == '\n');
    assert(s[r.len() - 1] == '\n' && s[r.len() - 2] == '\r');
    assert(blank_at(s, r.len() as int));
    lemma_blank_first(s, 0, r.len() as int);
    assert(block_end(s, r.len() as int) == r.len() - 2);
    assert(s.subrange(0, r.len() - 2) =~= r.subrange(0, r.len() - 2));
    assert(s.subrange(r.len() + 2int, s.len() as int) =~= e.body);
}

} // verus!
