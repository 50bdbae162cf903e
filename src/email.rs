//! The message model: splitting a message into header block and body,
//! unfolding the header block into logical lines, and serialisation.
//!
//! Line terminators on input are `\n` or `\r\n`. A terminator followed by a
//! space or a tab is folding: unfolding removes the terminator and keeps the
//! whitespace that starts the continuation line, so
//! `"Subject: a\n b"` becomes `"Subject: a b"`. Scanning is over characters.
//!
//! The header block ends at the first two line terminators in a row (each
//! `\n` or `\r\n`): the block is what precedes them, the body everything
//! after them, unchanged. A message without two terminators in a row is
//! malformed. Output always uses `\r\n`.
use vstd::prelude::*;
use vstd::utf8::{decode_utf8, encode_utf8_decode_utf8, valid_utf8};
use crate::header_value_parser::{
    classify, header_of, name_content_type, name_cte, name_date, name_from, name_message_id,
    name_subject, name_to, same_key, EmailHeader, HeaderView, ParseError,
};
use crate::text::{
    chars_of, find_char, find_from, is_wsp, push_char, skip_wsp, string_from, string_of,
    strip_wsp, sub_vec, utf8_string,
};

verus! {

/// Position `i` of `s` holds a line terminator that ends a logical line:
/// a `\n` that is the last character or is not followed by whitespace.
pub open spec fn is_line_break(s: Seq<char>, i: int) -> bool {
    0 <= i < s.len() && s[i] == '\n' && (i + 1 == s.len() || !is_wsp(s[i + 1]))
}

/// The first logical line break at or after `i`, or `s.len()` when none.
pub open spec fn break_from(s: Seq<char>, i: int) -> int
    decreases s.len() - i,
{
    if i < 0 || i >= s.len() {
        s.len() as int
    } else if is_line_break(s, i) {
        i
    } else {
        break_from(s, i + 1)
    }
}

/// Whether `s[i]` survives unfolding: `\n` does not, nor a `\r` right before one.
pub open spec fn kept(s: Seq<char>, i: int) -> bool {
    !(s[i] == '\n' || (s[i] == '\r' && i + 1 < s.len() && s[i + 1] == '\n'))
}

/// The first `n` characters of `s` unfolded.
pub open spec fn unfold_upto(s: Seq<char>, n: int) -> Seq<char>
    decreases n,
{
    if n <= 0 {
        Seq::empty()
    } else if kept(s, n - 1) {
        unfold_upto(s, n - 1).push(s[n - 1])
    } else {
        unfold_upto(s, n - 1)
    }
}

/// `s` with its line terminators removed.
pub open spec fn unfold(s: Seq<char>) -> Seq<char> {
    unfold_upto(s, s.len() as int)
}

/// Where the first logical line of `s` ends, its terminator included.
pub open spec fn line_end(s: Seq<char>) -> int {
    let e = break_from(s, 0);
    if e < s.len() {
        e + 1
    } else {
        s.len() as int
    }
}

/// The first logical line of `s`, unfolded, and what follows it, if anything.
/// Empty input gives neither.
pub open spec fn next_header(s: Seq<char>) -> (Option<Seq<char>>, Option<Seq<char>>) {
    if s.len() == 0 {
        (None, None)
    } else {
        let end = line_end(s);
        let line = unfold(s.subrange(0, end));
        if end < s.len() {
            (Some(line), Some(s.subrange(end, s.len() as int)))
        } else {
            (Some(line), None)
        }
    }
}

pub proof fn lemma_break_from_bounds(s: Seq<char>, i: int)
    requires
        0 <= i <= s.len(),
    ensures
        i <= break_from(s, i) <= s.len(),
        break_from(s, i) < s.len() ==> is_line_break(s, break_from(s, i)),
    decreases s.len() - i,
{
    if i < s.len() && !is_line_break(s, i) {
        lemma_break_from_bounds(s, i + 1);
    }
}

/// All logical lines of a header block, in order.
pub open spec fn logical_lines(s: Seq<char>) -> Seq<Seq<char>>
    decreases s.len(),
{
    if s.len() == 0 {
        Seq::empty()
    } else {
        let end = line_end(s);
        let line = unfold(s.subrange(0, end));
        if 0 < end < s.len() {
            seq![line] + logical_lines(s.subrange(end, s.len() as int))
        } else {
            seq![line]
        }
    }
}

proof fn lemma_unfold_prefix(w: Seq<char>, m: int, n: int)
    requires
        0 <= n <= m <= w.len(),
        m == w.len() || w[m - 1] == '\n',
    ensures
        unfold_upto(w.subrange(0, m), n) == unfold_upto(w, n),
    decreases n,
{
    if n > 0 {
        lemma_unfold_prefix(w, m, n - 1);
        assert(kept(w.subrange(0, m), n - 1) == kept(w, n - 1));
    }
}

pub open spec fn opt_view(o: Option<String>) -> Option<Seq<char>> {
    match o {
        Some(v) => Some(v@),
        None => None,
    }
}

pub open spec fn opt_str_view(o: Option<&str>) -> Option<Seq<char>> {
    match o {
        Some(v) => Some(v@),
        None => None,
    }
}

/// Reads the logical line of `v[from..to]` that starts at `from`. Returns it
/// unfolded, and where the next one starts, if any does.
fn next_line(v: &Vec<char>, from: usize, to: usize) -> (r: (Vec<char>, Option<usize>))
    requires
        from < to <= v.len(),
    ensures
        ({
            let w = v@.subrange(from as int, to as int);
            let (line, rest) = next_header(w);
            &&& line == Some(r.0@)
            &&& match r.1 {
                Some(p) => from < p < to && rest == Some(v@.subrange(p as int, to as int)),
                None => rest is None,
            }
        }),
{
    let ghost w = v@.subrange(from as int, to as int);
    let mut out: Vec<char> = Vec::new();
    let mut i: usize = from;
    let mut brk = false;
    while i < to && !brk
        invariant
            from <= i <= to <= v.len(),
            brk ==> i < to,
            w == v@.subrange(from as int, to as int),
            break_from(w, 0) == if brk { (i - from) as int } else { break_from(
                w,
                (i - from) as int,
            ) },
            brk ==> is_line_break(w, (i - from) as int),
            out@ == unfold_upto(w, (i - from) as int),
        decreases to - i + if brk { 0int } else { 1int },
    {
        let c = v[i];
        if c == '\n' && !(i + 1 < to && (v[i + 1] == ' ' || v[i + 1] == '\t')) {
            brk = true;
        } else {
            if c != '\n' && !(c == '\r' && i + 1 < to && v[i + 1] == '\n') {
                out.push(c);
            }
            i = i + 1;
        }
    }
    proof {
        lemma_break_from_bounds(w, 0);
    }
    let k = i - from;
    if brk {
        assert(line_end(w) == k + 1);
        proof {
            lemma_unfold_prefix(w, k + 1, k + 1);
        }
        if i + 1 < to {
            assert(w.subrange(k + 1, w.len() as int) =~= v@.subrange(i + 1, to as int));
            (out, Some(i + 1))
        } else {
            (out, None)
        }
    } else {
        assert(line_end(w) == w.len());
        assert(w.subrange(0, w.len() as int) =~= w);
        (out, None)
    }
}


/// An empty line starts at position `i` of `s`: `i` follows a line
/// terminator, and the line there is `\n` or `\r\n`, so that two
/// terminators stand in a row.
pub open spec fn blank_at(s: Seq<char>, i: int) -> bool {
    &&& 1 <= i < s.len()
    &&& s[i - 1] == '\n'
    &&& (s[i] == '\n' || (s[i] == '\r' && i + 1 < s.len() && s[i + 1] == '\n'))
}

/// The first empty line at or after `i`, or -1 when none.
pub open spec fn blank_from(s: Seq<char>, i: int) -> int
    decreases s.len() - i,
{
    if i < 0 || i >= s.len() {
        -1
    } else if blank_at(s, i) {
        i
    } else {
        blank_from(s, i + 1)
    }
}

/// Where the header block ends when the empty line starts at `p`: before the
/// terminator (`\n` or `\r\n`) that ends the last header line.
pub open spec fn block_end(s: Seq<char>, p: int) -> int {
    if p >= 2 && s[p - 2] == '\r' {
        p - 2
    } else {
        p - 1
    }
}

/// The length of the terminator of the empty line at `i`.
pub open spec fn blank_len(s: Seq<char>, i: int) -> int {
    if s[i] == '\n' {
        1
    } else {
        2
    }
}

/// A logical header line split at its first `:` into key and value, the
/// value without its leading whitespace.
pub open spec fn parse_line(line: Seq<char>) -> Option<(Seq<char>, Seq<char>)> {
    let c = find_from(line, ':', 0);
    if c < 0 {
        None
    } else {
        Some((line.subrange(0, c), strip_wsp(line.subrange(c + 1, line.len() as int))))
    }
}

/// The index of the first entry at or after `i` whose key is `k` up to case,
/// or -1.
pub open spec fn key_index_from(hs: Seq<(Seq<char>, HeaderView)>, k: Seq<char>, i: int) -> int
    decreases hs.len() - i,
{
    if i < 0 || i >= hs.len() {
        -1
    } else if crate::header_value_parser::same_key(hs[i].0, k) {
        i
    } else {
        key_index_from(hs, k, i + 1)
    }
}

pub open spec fn key_index(hs: Seq<(Seq<char>, HeaderView)>, k: Seq<char>) -> int {
    key_index_from(hs, k, 0)
}

/// The header stored under `k`, compared without regard to case.
pub open spec fn lookup(hs: Seq<(Seq<char>, HeaderView)>, k: Seq<char>) -> Option<HeaderView> {
    let i = key_index(hs, k);
    if i < 0 {
        None
    } else {
        Some(hs[i].1)
    }
}

/// Setting the header `k` to `h`: an entry with the same key up to case is
/// replaced in place, otherwise the entry is appended.
pub open spec fn insert_header(hs: Seq<(Seq<char>, HeaderView)>, k: Seq<char>, h: HeaderView) -> Seq<
    (Seq<char>, HeaderView),
> {
    let i = key_index(hs, k);
    if i < 0 {
        hs.push((k, h))
    } else {
        hs.update(i, (k, h))
    }
}

/// The headers that a sequence of logical lines gives, read in order; the
/// first line that fails decides the error.
pub open spec fn build_headers(lines: Seq<Seq<char>>) -> Result<
    Seq<(Seq<char>, HeaderView)>,
    ParseError,
>
    decreases lines.len(),
{
    if lines.len() == 0 {
        Ok(Seq::empty())
    } else {
        let n = lines.len() - 1;
        match build_headers(lines.drop_last()) {
            Err(e) => Err(e),
            Ok(hs) => match parse_line(lines[n]) {
                None => Err(ParseError::MalformedHeaderLine { line: n as usize }),
                Some((k, v)) => match classify(k, v) {
                    Err(e) => Err(e),
                    Ok(h) => Ok(insert_header(hs, k, h)),
                },
            },
        }
    }
}

/// The mathematical value of an `Email`.
pub struct EmailView {
    pub headers: Seq<(Seq<char>, HeaderView)>,
    pub body: Seq<char>,
}

/// The message that the text `s` holds.
pub open spec fn parse_message(s: Seq<char>) -> Result<EmailView, ParseError> {
    let p = blank_from(s, 0);
    if p < 0 {
        Err(ParseError::MalformedMessage)
    } else {
        match build_headers(logical_lines(s.subrange(0, block_end(s, p)))) {
            Err(e) => Err(e),
            Ok(hs) => Ok(EmailView { headers: hs, body: s.subrange(p + blank_len(s, p), s.len() as int) }),
        }
    }
}

/// No two entries have the same key up to case.
pub open spec fn keys_unique(hs: Seq<(Seq<char>, HeaderView)>) -> bool {
    forall|i: int, j: int|
        0 <= i < hs.len() && 0 <= j < hs.len() && i != j ==> !crate::header_value_parser::same_key(
            #[trigger] hs[i].0,
            #[trigger] hs[j].0,
        )
}

pub proof fn lemma_key_index(hs: Seq<(Seq<char>, HeaderView)>, k: Seq<char>, i: int)
    requires
        0 <= i <= hs.len(),
    ensures
        ({
            let r = key_index_from(hs, k, i);
            ||| (r == -1 && forall|j: int| i <= j < hs.len() ==> !same_key(#[trigger] hs[j].0, k))
            ||| (i <= r < hs.len() && same_key(hs[r].0, k) && forall|j: int|
                i <= j < r ==> !same_key(#[trigger] hs[j].0, k))
        }),
    decreases hs.len() - i,
{
    if i < hs.len() && !same_key(hs[i].0, k) {
        lemma_key_index(hs, k, i + 1);
    }
}

/// Setting a header keeps keys unique.
proof fn lemma_insert_keeps_unique(hs: Seq<(Seq<char>, HeaderView)>, k: Seq<char>, h: HeaderView)
    requires
        keys_unique(hs),
    ensures
        keys_unique(insert_header(hs, k, h)),
{
    lemma_key_index(hs, k, 0);
    let r = insert_header(hs, k, h);
    assert forall|i: int, j: int|
        0 <= i < r.len() && 0 <= j < r.len() && i != j implies !same_key(
        #[trigger] r[i].0,
        #[trigger] r[j].0,
    ) by {
        if i < hs.len() && j < hs.len() {
            assert(!same_key(hs[i].0, hs[j].0));
        }
    }
}

/// Once a prefix of the lines fails, further lines do not change the error.
proof fn lemma_build_error_stays(a: Seq<Seq<char>>, b: Seq<Seq<char>>)
    requires
        build_headers(a) is Err,
    ensures
        build_headers(a + b) == build_headers(a),
    decreases b.len(),
{
    if b.len() == 0 {
        assert(a + b =~= a);
    } else {
        lemma_build_error_stays(a, b.drop_last());
        assert((a + b).drop_last() =~= a + b.drop_last());
    }
}

pub proof fn lemma_blank_from(s: Seq<char>, i: int)
    requires
        0 <= i <= s.len(),
    ensures
        blank_from(s, i) == -1 || (i <= blank_from(s, i) < s.len() && blank_at(s, blank_from(s, i))),
    decreases s.len() - i,
{
    if i < s.len() && !blank_at(s, i) {
        lemma_blank_from(s, i + 1);
    }
}

/// Finds the first empty line of `v`.
fn find_blank(v: &Vec<char>) -> (r: Option<usize>)
    ensures
        match r {
            Some(p) => p as int == blank_from(v@, 0) && p < v.len(),
            None => blank_from(v@, 0) == -1,
        },
{
    let n = v.len();
    let mut i: usize = 0;
    while i < n
        invariant
            0 <= i <= n == v.len(),
            blank_from(v@, 0) == blank_from(v@, i as int),
        decreases n - i,
    {
        if (i > 0 && v[i - 1] == '\n') && (v[i] == '\n' || (v[i] == '\r' && i + 1 < n && v[i + 1]
            == '\n')) {
            return Some(i);
        }
        i = i + 1;
    }
    None
}

pub open spec fn crlf() -> Seq<char> {
    seq!['\r', '\n']
}

/// One header in wire syntax, without its terminator. A recognised header is
/// written under its canonical name; a generic one under its stored key.
pub open spec fn header_text(k: Seq<char>, h: HeaderView) -> Seq<char> {
    let sep = seq![':', ' '];
    match h {
        HeaderView::To(v) => name_to() + sep + v,
        HeaderView::From(v) => name_from() + sep + v,
        HeaderView::Date(v) => name_date() + sep + v,
        HeaderView::Subject(v) => name_subject() + sep + v,
        HeaderView::MessageID(v) => name_message_id() + sep + v,
        HeaderView::ContentType { maintype, subtype, value } => name_content_type() + sep + maintype
            + seq!['/'] + subtype + seq![';', ' '] + value,
        HeaderView::ContentTransferEncoding(v) => name_cte() + sep + v,
        HeaderView::Generic(v) => k + sep + v,
    }
}

/// The headers in wire syntax, each followed by `\r\n`, in order.
pub open spec fn render_headers(hs: Seq<(Seq<char>, HeaderView)>) -> Seq<char>
    decreases hs.len(),
{
    if hs.len() == 0 {
        Seq::empty()
    } else {
        render_headers(hs.drop_last()) + header_text(hs.last().0, hs.last().1) + crlf()
    }
}

/// A whole message in wire syntax: the headers, an empty line, the body.
pub open spec fn render(e: EmailView) -> Seq<char> {
    render_headers(e.headers) + crlf() + e.body
}

fn write_header(out: &mut String, key: &String, h: &EmailHeader)
    ensures
        final(out)@ == old(out)@ + header_text(key@, h@),
{
    let ghost start = out@;
    let sep = ": ";
    proof {
        reveal_strlit(": ");
    }
    assert(sep@ =~= seq![':', ' ']);
    match h {
        EmailHeader::To(v) => {
            out.append("To");
            out.append(sep);
            out.append(v.as_str());
        },
        EmailHeader::From(v) => {
            out.append("From");
            out.append(sep);
            out.append(v.as_str());
        },
        EmailHeader::Date(v) => {
            out.append("Date");
            out.append(sep);
            out.append(v.as_str());
        },
        EmailHeader::Subject(v) => {
            out.append("Subject");
            out.append(sep);
            out.append(v.as_str());
        },
        EmailHeader::MessageID(v) => {
            out.append("Message-ID");
            out.append(sep);
            out.append(v.as_str());
        },
        EmailHeader::ContentType { maintype, subtype, value } => {
            out.append("Content-Type");
            out.append(sep);
            out.append(maintype.as_str());
            push_char(out, '/');
            out.append(subtype.as_str());
            push_char(out, ';');
            push_char(out, ' ');
            out.append(value.as_str());
        },
        EmailHeader::ContentTransferEncoding(v) => {
            out.append("Content-Transfer-Encoding");
            out.append(sep);
            out.append(v.as_str());
        },
        EmailHeader::Generic(v) => {
            out.append(key.as_str());
            out.append(sep);
            out.append(v.as_str());
        },
    }
    assert(out@ =~= start + header_text(key@, h@));
}

/// Email represents an email message: its headers, in order, and its body.
#[derive(Debug)]
pub struct Email {
    /// The headers, each with the key it was set or read under.
    pub headers: Vec<(String, EmailHeader)>,
    /// The body, kept as it is.
    pub body: String,
}

impl View for Email {
    type V = EmailView;

    open spec fn view(&self) -> EmailView {
        EmailView {
            headers: self.headers@.map_values(|e: (String, EmailHeader)| (e.0@, e.1@)),
            body: self.body@,
        }
    }
}

impl Email {
    /// Whether no two headers share a key up to case.
    pub open spec fn wf(&self) -> bool {
        keys_unique(self@.headers)
    }

    /// Create a new email without headers and with an empty body.
    pub fn new() -> (r: Email)
        ensures
            r@.headers == Seq::<(Seq<char>, HeaderView)>::empty(),
            r@.body == Seq::<char>::empty(),
            r.wf(),
    {
        let r = Email { body: String::new(), headers: Vec::new() };
        assert(r@.headers =~= Seq::<(Seq<char>, HeaderView)>::empty());
        r
    }

    /// Reads one logical header line from `s` and returns it unfolded with
    /// the rest of `s` after it.
    pub fn get_one_header(s: &str) -> (r: (Option<String>, Option<&str>))
        ensures
            (opt_view(r.0), opt_str_view(r.1)) == next_header(s@),
    {
        let v = chars_of(s);
        if v.len() == 0 {
            return (None, None);
        }
        assert(v@.subrange(0, v.len() as int) =~= v@);
        let (line, next) = next_line(&v, 0, v.len());
        let rest = match next {
            Some(p) => Some(s.substring_char(p, v.len())),
            None => None,
        };
        (Some(string_from(&line)), rest)
    }

    /// Parses a message: the header block, which ends before the first two
    /// line terminators in a row, is unfolded into logical lines, each split
    /// at its first `:` and typed; the body is everything after those two
    /// terminators, unchanged. A repeated
    /// key (up to case) replaces the earlier value in place.
    pub fn from_str(s: String) -> (r: Result<Email, ParseError>)
        ensures
            match r {
                Ok(e) => parse_message(s@) == Ok::<EmailView, ParseError>(e@) && e.wf(),
                Err(x) => parse_message(s@) == Err::<EmailView, ParseError>(x),
            },
    {
        let v = chars_of(s.as_str());
        let sep = match find_blank(&v) {
            Some(sep) => sep,
            None => {
                return Err(ParseError::MalformedMessage);
            },
        };
        proof {
            lemma_blank_from(v@, 0);
        }
        let body_start = if v[sep] == '\n' {
            sep + 1
        } else {
            sep + 2
        };
        let p = if sep >= 2 && v[sep - 2] == '\r' {
            sep - 2
        } else {
            sep - 1
        };
        let ghost block = v@.subrange(0, p as int);
        let ghost mut done: Seq<Seq<char>> = Seq::empty();
        let mut email = Email::new();
        let mut pos: usize = 0;
        let mut count: usize = 0;
        assert(v@.subrange(0, p as int) == v@.subrange(pos as int, p as int));
        while pos < p
            invariant
                pos <= p < v.len(),
                v@ == s@,
                sep as int == blank_from(s@, 0),
                blank_at(s@, sep as int),
                p as int == block_end(s@, sep as int),
                body_start == sep + blank_len(s@, sep as int),
                body_start <= v.len(),
                block == v@.subrange(0, p as int),
                logical_lines(block) == done + logical_lines(v@.subrange(pos as int, p as int)),
                count == done.len(),
                count <= pos,
                build_headers(done) == Ok::<Seq<(Seq<char>, HeaderView)>, ParseError>(email@.headers),
                email@.body == Seq::<char>::empty(),
                email.wf(),
            decreases p - pos,
        {
            let ghost w = v@.subrange(pos as int, p as int);
            let (line, next) = next_line(&v, pos, p);
            proof {
                lemma_break_from_bounds(w, 0);
            }
            let ghost rest_lines = if next is Some {
                logical_lines(v@.subrange(next->0 as int, p as int))
            } else {
                Seq::empty()
            };
            assert(logical_lines(w) == seq![line@] + rest_lines);
            let ghost all = done.push(line@) + rest_lines;
            assert(logical_lines(block) =~= all);
            let n = line.len();
            assert(line@.subrange(0, n as int) =~= line@);
            let colon = match find_char(&line, ':', 0, n) {
                Some(c) => c,
                None => {
                    proof {
                        assert(done.push(line@).drop_last() =~= done);
                        lemma_build_error_stays(done.push(line@), rest_lines);
                    }
                    return Err(ParseError::MalformedHeaderLine { line: count });
                },
            };
            let key = sub_vec(&line, 0, colon);
            let vstart = skip_wsp(&line, colon + 1);
            let value = sub_vec(&line, vstart, n);
            let h = match header_of(&key, &value) {
                Ok(h) => h,
                Err(e) => {
                    proof {
                        assert(done.push(line@).drop_last() =~= done);
                        lemma_build_error_stays(done.push(line@), rest_lines);
                    }
                    return Err(e);
                },
            };
            email.set_header(string_from(&key), h);
            proof {
                assert(done.push(line@).drop_last() =~= done);
                done = done.push(line@);
            }
            count = count + 1;
            pos = match next {
                Some(q) => q,
                None => p,
            };
            assert(pos == p ==> logical_lines(v@.subrange(pos as int, p as int)) =~= Seq::<
                Seq<char>,
            >::empty());
        }
        assert(logical_lines(v@.subrange(pos as int, p as int)) =~= Seq::<Seq<char>>::empty());
        assert(done + Seq::<Seq<char>>::empty() =~= done);
        email.body = string_of(&v, body_start, v.len());
        Ok(email)
    }

    /// The message in wire syntax: each header as `Key: value` followed by
    /// `\r\n`, in order, then an empty line, then the body unchanged.
    pub fn to_string(&self) -> (r: String)
        ensures
            r@ == render(self@),
    {
        let ghost hs = self@.headers;
        let mut out = String::new();
        let mut i: usize = 0;
        while i < self.headers.len()
            invariant
                0 <= i <= self.headers.len(),
                hs == self@.headers,
                out@ == render_headers(hs.subrange(0, i as int)),
            decreases self.headers.len() - i,
        {
            write_header(&mut out, &self.headers[i].0, &self.headers[i].1);
            push_char(&mut out, '\r');
            push_char(&mut out, '\n');
            assert(hs.subrange(0, i + 1).drop_last() =~= hs.subrange(0, i as int));
            assert(out@ =~= render_headers(hs.subrange(0, i + 1)));
            i = i + 1;
        }
        assert(hs.subrange(0, i as int) =~= hs);
        push_char(&mut out, '\r');
        push_char(&mut out, '\n');
        out.append(self.body.as_str());
        assert(out@ =~= render(self@));
        out
    }

    /// Parses a message given as bytes, which must be valid UTF-8.
    pub fn from_bytes(bytes: Vec<u8>) -> (r: Result<Email, ParseError>)
        ensures
            !valid_utf8(bytes@) ==> r == Err::<Email, ParseError>(ParseError::InvalidUtf8),
            valid_utf8(bytes@) ==> match r {
                Ok(e) => parse_message(decode_utf8(bytes@)) == Ok::<EmailView, ParseError>(e@),
                Err(x) => parse_message(decode_utf8(bytes@)) == Err::<EmailView, ParseError>(x),
            },
    {
        let ghost b = bytes@;
        match utf8_string(bytes) {
            Some(s) => {
                proof {
                    encode_utf8_decode_utf8(s@);
                }
                Email::from_str(s)
            },
            None => Err(ParseError::InvalidUtf8),
        }
    }

    /// The position of the header whose key is `key` up to case.
    fn key_position(&self, key: &Vec<char>) -> (r: Option<usize>)
        ensures
            match r {
                Some(i) => i as int == key_index(self@.headers, key@) && i < self.headers.len(),
                None => key_index(self@.headers, key@) == -1,
            },
    {
        let ghost hs = self@.headers;
        let mut i: usize = 0;
        while i < self.headers.len()
            invariant
                0 <= i <= self.headers.len(),
                hs == self@.headers,
                key_index(hs, key@) == key_index_from(hs, key@, i as int),
            decreases self.headers.len() - i,
        {
            let stored = chars_of(self.headers[i].0.as_str());
            if crate::text::same_lower(&stored, key) {
                assert(hs[i as int].0 == stored@);
                return Some(i);
            }
            assert(hs[i as int].0 == stored@);
            i = i + 1;
        }
        None
    }

    /// Sets the header `key` to `value`, replacing one with the same key up
    /// to case in place.
    fn set_header(&mut self, key: String, value: EmailHeader)
        ensures
            final(self)@ == (EmailView {
                headers: insert_header(old(self)@.headers, key@, value@),
                body: old(self)@.body,
            }),
            old(self).wf() ==> final(self).wf(),
    {
        let ghost hs = self@.headers;
        let ghost k = key@;
        let ghost h = value@;
        proof {
            if self.wf() {
                lemma_insert_keeps_unique(hs, k, h);
            }
        }
        let kc = chars_of(key.as_str());
        match self.key_position(&kc) {
            Some(i) => {
                self.headers.set(i, (key, value));
                assert(self@.headers =~= hs.update(i as int, (k, h)));
            },
            None => {
                self.headers.push((key, value));
                assert(self@.headers =~= hs.push((k, h)));
            },
        }
    }

    /// Add a new header, or replace the one with the same key up to case.
    pub fn add_header(&mut self, key: String, value: EmailHeader) -> (r: &mut Self)
        ensures
            r@ == (EmailView {
                headers: insert_header(old(self)@.headers, key@, value@),
                body: old(self)@.body,
            }),
            old(self).wf() ==> r.wf(),
            *final(self) == *final(r),
    {
        self.set_header(key, value);
        self
    }

    /// Set the To: header.
    pub fn to(&mut self, value: String) -> (r: &mut Self)
        ensures
            r@ == (EmailView {
                headers: insert_header(old(self)@.headers, name_to(), HeaderView::To(value@)),
                body: old(self)@.body,
            }),
            old(self).wf() ==> r.wf(),
            *final(self) == *final(r),
    {
        self.add_header(String::from_str("To"), EmailHeader::To(value))
    }

    /// Set the From: header.
    pub fn from(&mut self, value: String) -> (r: &mut Self)
        ensures
            r@ == (EmailView {
                headers: insert_header(old(self)@.headers, name_from(), HeaderView::From(value@)),
                body: old(self)@.body,
            }),
            old(self).wf() ==> r.wf(),
            *final(self) == *final(r),
    {
        self.add_header(String::from_str("From"), EmailHeader::From(value))
    }

    /// Set the Content-Type header; `value` holds the parameters that follow
    /// the media type.
    pub fn content_type(&mut self, maintype: String, subtype: String, value: String) -> (r:
        &mut Self)
        ensures
            r@ == (EmailView {
                headers: insert_header(
                    old(self)@.headers,
                    name_content_type(),
                    HeaderView::ContentType {
                        maintype: maintype@,
                        subtype: subtype@,
                        value: value@,
                    },
                ),
                body: old(self)@.body,
            }),
            old(self).wf() ==> r.wf(),
            *final(self) == *final(r),
    {
        self.add_header(
            String::from_str("Content-Type"),
            EmailHeader::ContentType { maintype, subtype, value },
        )
    }

    /// Set the Subject: header.
    pub fn subject(&mut self, value: String) -> (r: &mut Self)
        ensures
            r@ == (EmailView {
                headers: insert_header(
                    old(self)@.headers,
                    name_subject(),
                    HeaderView::Subject(value@),
                ),
                body: old(self)@.body,
            }),
            old(self).wf() ==> r.wf(),
            *final(self) == *final(r),
    {
        self.add_header(String::from_str("Subject"), EmailHeader::Subject(value))
    }

    /// Set the body of the email.
    pub fn content(&mut self, value: String) -> (r: &mut Self)
        ensures
            r@ == (EmailView { headers: old(self)@.headers, body: value@ }),
            old(self).wf() ==> r.wf(),
            *final(self) == *final(r),
    {
        self.body = value;
        self
    }

    /// The header stored under `key`, compared without regard to case.
    pub fn get_header(&self, key: &str) -> (r: Option<&EmailHeader>)
        ensures
            match r {
                Some(h) => lookup(self@.headers, key@) == Some(h@),
                None => lookup(self@.headers, key@) is None,
            },
    {
        let kc = chars_of(key);
        match self.key_position(&kc) {
            Some(i) => Some(&self.headers[i].1),
            None => None,
        }
    }
}

} // verus!
