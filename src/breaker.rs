use crate::error::ParseError;
use crate::header::MailHeader;
use crate::utils::{find_from, lemma_find_from, position_from};
use vstd::prelude::*;
use vstd::slice::slice_subrange;

verus! {

/// Carriage return.
pub const CR: u8 = 13;

/// Line feed.
pub const LF: u8 = 10;

/// The field-name delimiter `:`.
pub const COLON: u8 = 58;

/// Space, tab, carriage return and line feed.
pub open spec fn is_ws(b: u8) -> bool {
    b == 32 || b == 9 || b == CR || b == LF
}

/// Space and tab: the bytes that begin a folded line.
pub open spec fn is_blank(b: u8) -> bool {
    b == 32 || b == 9
}

/// Index of the first byte at or after `i` that is not whitespace, or the
/// length of `s` when there is none.
pub open spec fn skip_ws(s: Seq<u8>, i: int) -> int
    decreases s.len() - i,
{
    if 0 <= i < s.len() && is_ws(s[i]) {
        skip_ws(s, i + 1)
    } else {
        i
    }
}

/// Scans a (possibly folded) value from position `p`. On success yields the
/// end of the value and the position after its terminator.
///
/// A line ending in CR LF ends the field. A line ending in a bare LF ends it
/// too, unless the next line begins with a space or tab: then that line is folded
/// into the value and the scan goes on at its start.
pub open spec fn scan_value(strict_crlf: bool, s: Seq<u8>, p: int) -> Result<(int, int), ParseError>
    decreases s.len() - p,
{
    if 0 <= p < s.len() {
        if s[p] == CR {
            if p + 1 >= s.len() {
                Err(ParseError::NeedMoreInput)
            } else if s[p + 1] != LF {
                Err(ParseError::UnterminatedCrlf)
            } else {
                Ok((p, p + 2))
            }
        } else if s[p] == LF {
            if strict_crlf {
                Err(ParseError::BareLineFeedRejected)
            } else if p + 1 < s.len() && is_blank(s[p + 1]) {
                scan_value(strict_crlf, s, p + 1)
            } else {
                Ok((p, p + 1))
            }
        } else {
            scan_value(strict_crlf, s, p + 1)
        }
    } else {
        Err(ParseError::NeedMoreInput)
    }
}

/// Where the parts of one header field lie in the buffer.
pub struct HeaderSpan {
    pub key_start: int,
    pub key_end: int,
    pub value_start: int,
    pub value_end: int,
    /// The position right after the field's terminator.
    pub next: int,
}

/// The outcome of parsing one header field at the start of `s`.
pub open spec fn header_spec(strict_header: bool, strict_crlf: bool, s: Seq<u8>) -> Result<
    HeaderSpan,
    ParseError,
> {
    let ks = skip_ws(s, 0);
    if strict_header && ks > 0 {
        Err(ParseError::MalformedLeadingWhitespace)
    } else {
        match find_from(s, ks, COLON) {
            None => if find_from(s, ks, LF) is Some || find_from(s, ks, CR) is Some {
                Err(ParseError::MissingColon)
            } else {
                Err(ParseError::NeedMoreInput)
            },
            Some(c) => if c == ks {
                Err(ParseError::EmptyKey)
            } else {
                let vs = skip_ws(s, c + 1);
                match scan_value(strict_crlf, s, vs) {
                    Err(e) => Err(e),
                    Ok((ve, n)) => Ok(
                        HeaderSpan { key_start: ks, key_end: c, value_start: vs, value_end: ve, next: n },
                    ),
                }
            },
        }
    }
}

/// The key, value and remaining bytes that one header field parse yields.
pub open spec fn header_parts(strict_header: bool, strict_crlf: bool, s: Seq<u8>) -> Result<
    (Seq<u8>, Seq<u8>, Seq<u8>),
    ParseError,
> {
    match header_spec(strict_header, strict_crlf, s) {
        Err(e) => Err(e),
        Ok(h) => Ok(
            (
                s.subrange(h.key_start, h.key_end),
                s.subrange(h.value_start, h.value_end),
                s.subrange(h.next, s.len() as int),
            ),
        ),
    }
}

/// The header fields that one block parse yields: (key, value) pairs.
pub type FieldViews = Seq<(Seq<u8>, Seq<u8>)>;

/// Puts `acc` in front of the fields of a block outcome; errors pass unchanged.
pub open spec fn prepend_fields(acc: FieldViews, r: Result<(FieldViews, Seq<u8>), ParseError>) -> Result<
    (FieldViews, Seq<u8>),
    ParseError,
> {
    match r {
        Err(e) => Err(e),
        Ok((hs, rest)) => Ok((acc + hs, rest)),
    }
}

/// The outcome of parsing a header block at the start of `s`: the fields in
/// document order and the bytes after the blank line that ends the block (the
/// body). An empty buffer is an empty block.
pub open spec fn block_spec(strict_header: bool, strict_crlf: bool, s: Seq<u8>) -> Result<
    (FieldViews, Seq<u8>),
    ParseError,
>
    decreases s.len(),
{
    if s.len() == 0 {
        Ok((seq![], s))
    } else if s[0] == LF {
        Ok((seq![], s.subrange(1, s.len() as int)))
    } else if s[0] == CR {
        if s.len() == 1 {
            Err(ParseError::NeedMoreInput)
        } else if s[1] == LF {
            Ok((seq![], s.subrange(2, s.len() as int)))
        } else {
            Err(ParseError::UnterminatedCrlf)
        }
    } else {
        match header_spec(strict_header, strict_crlf, s) {
            Err(e) => Err(e),
            Ok(h) => if 0 < h.next <= s.len() {
                prepend_fields(
                    seq![(s.subrange(h.key_start, h.key_end), s.subrange(h.value_start, h.value_end))],
                    block_spec(strict_header, strict_crlf, s.subrange(h.next, s.len() as int)),
                )
            } else {
                Err(ParseError::NeedMoreInput)
            },
        }
    }
}

proof fn lemma_prepend_push(acc: FieldViews, f: (Seq<u8>, Seq<u8>), r: Result<(FieldViews, Seq<u8>), ParseError>)
    ensures
        prepend_fields(acc, prepend_fields(seq![f], r)) == prepend_fields(acc.push(f), r),
{
    if let Ok((hs, rest)) = r {
        assert(acc + (seq![f] + hs) =~= acc.push(f) + hs);
    }
}

/// In strict CR LF mode a value scan never accepts a bare line feed: a
/// successful scan ends at a CR LF with no line break inside the value, and a
/// scan whose first line break is a bare line feed fails with
/// `BareLineFeedRejected`.
pub proof fn lemma_scan_value_strict(s: Seq<u8>, p: int)
    requires
        0 <= p,
    ensures
        scan_value(true, s, p) matches Ok((ve, n)) ==> {
            &&& s[ve] == CR
            &&& s[ve + 1] == LF
            &&& n == ve + 2
            &&& forall|k: int| p <= k < ve ==> s[k] != CR && s[k] != LF
        },
        forall|q: int|
            p <= q < s.len() && s[q] == LF && (forall|k: int| p <= k < q ==> s[k] != CR && s[k] != LF)
                ==> scan_value(true, s, p) == Err::<(int, int), ParseError>(ParseError::BareLineFeedRejected),
    decreases s.len() - p,
{
    if 0 <= p < s.len() && s[p] != CR && s[p] != LF {
        lemma_scan_value_strict(s, p + 1);
        assert forall|q: int|
            p <= q < s.len() && s[q] == LF && (forall|k: int| p <= k < q ==> s[k] != CR && s[k] != LF)
                implies scan_value(true, s, p) == Err::<(int, int), ParseError>(ParseError::BareLineFeedRejected) by {
            assert(q != p);
        }
    }
}

/// In strict CR LF mode every field of a parsed header block ended in CR LF:
/// no value holds a line feed.
pub proof fn lemma_block_strict_crlf(strict_header: bool, s: Seq<u8>)
    ensures
        block_spec(strict_header, true, s) matches Ok((hs, rest)) ==> forall|i: int, k: int|
            0 <= i < hs.len() && 0 <= k < hs[i].1.len() ==> hs[i].1[k] != LF,
    decreases s.len(),
{
    if s.len() > 0 && s[0] != LF && s[0] != CR {
        lemma_header_spec_bounds(strict_header, true, s);
        if let Ok(h) = header_spec(strict_header, true, s) {
            lemma_scan_value_strict(s, h.value_start);
            let tail = s.subrange(h.next, s.len() as int);
            lemma_block_strict_crlf(strict_header, tail);
            if let Ok((hs, rest)) = block_spec(strict_header, true, tail) {
                let f = (s.subrange(h.key_start, h.key_end), s.subrange(h.value_start, h.value_end));
                assert forall|i: int, k: int| 0 <= i < hs.len() + 1 && 0 <= k < (seq![f] + hs)[i].1.len()
                    implies (seq![f] + hs)[i].1[k] != LF by {
                    if i > 0 {
                        assert((seq![f] + hs)[i] == hs[i - 1]);
                    }
                }
            }
        }
    }
}

/// In strict header mode a field that begins with whitespace is rejected with
/// `MalformedLeadingWhitespace`, whatever follows.
pub proof fn lemma_strict_header_rejects_leading_ws(strict_crlf: bool, s: Seq<u8>)
    requires
        s.len() > 0,
        is_ws(s[0]),
    ensures
        header_parts(true, strict_crlf, s) == Err::<(Seq<u8>, Seq<u8>, Seq<u8>), ParseError>(
            ParseError::MalformedLeadingWhitespace,
        ),
{
    lemma_skip_ws(s, 0);
    assert(skip_ws(s, 0) == skip_ws(s, 1));
    lemma_skip_ws(s, 1);
}

/// In strict CR LF mode a parsed field holds no line break in its value, and
/// the bytes it consumed end in CR LF.
pub proof fn lemma_header_strict_crlf(strict_header: bool, s: Seq<u8>)
    ensures
        header_parts(strict_header, true, s) matches Ok((key, value, rest)) ==> {
            &&& forall|k: int| 0 <= k < value.len() ==> value[k] != CR && value[k] != LF
            &&& rest.len() + 2 <= s.len()
            &&& s[s.len() - rest.len() - 2] == CR
            &&& s[s.len() - rest.len() - 1] == LF
        },
{
    lemma_header_spec_bounds(strict_header, true, s);
    if let Ok(h) = header_spec(strict_header, true, s) {
        lemma_scan_value_strict(s, h.value_start);
    }
}

/// A scanned value holds no carriage return, and each line feed inside it
/// starts a folded line: a space or tab follows it within the value. The
/// value ends right before its terminator, a CR LF or a bare LF.
pub proof fn lemma_scan_value_shape(strict_crlf: bool, s: Seq<u8>, p: int)
    requires
        0 <= p,
    ensures
        scan_value(strict_crlf, s, p) matches Ok((ve, n)) ==> {
            &&& forall|k: int| p <= k < ve ==> s[k] != CR
            &&& forall|k: int| p <= k < ve && #[trigger] s[k] == LF ==> k + 1 < ve && is_blank(s[k + 1])
            &&& (s[ve] == CR && s[ve + 1] == LF && n == ve + 2) || (s[ve] == LF && n == ve + 1)
        },
    decreases s.len() - p,
{
    lemma_scan_value_bounds(strict_crlf, s, p);
    if 0 <= p < s.len() && s[p] != CR && (s[p] != LF || (!strict_crlf && p + 1 < s.len() && is_blank(s[p + 1]))) {
        lemma_scan_value_shape(strict_crlf, s, p + 1);
        lemma_scan_value_bounds(strict_crlf, s, p + 1);
    }
}

/// A parsed field's value holds no carriage return and never ends in a line
/// feed: each line feed in it is followed, inside the value, by the space or
/// tab that folded the next line into it.
pub proof fn lemma_header_value_shape(strict_header: bool, strict_crlf: bool, s: Seq<u8>)
    ensures
        header_parts(strict_header, strict_crlf, s) matches Ok((key, value, rest)) ==> {
            &&& forall|k: int| 0 <= k < value.len() ==> value[k] != CR
            &&& forall|k: int| 0 <= k < value.len() && #[trigger] value[k] == LF ==> k + 1 < value.len() && is_blank(value[k + 1])
        },
{
    lemma_header_spec_bounds(strict_header, strict_crlf, s);
    if let Ok(h) = header_spec(strict_header, strict_crlf, s) {
        lemma_scan_value_shape(strict_crlf, s, h.value_start);
        let value = s.subrange(h.value_start, h.value_end);
        assert forall|k: int| 0 <= k < value.len() && #[trigger] value[k] == LF implies k + 1 < value.len() && is_blank(value[k + 1]) by {
            assert(s[h.value_start + k] == LF);
        }
    }
}

proof fn lemma_skip_ws(s: Seq<u8>, i: int)
    requires
        0 <= i <= s.len(),
    ensures
        i <= skip_ws(s, i) <= s.len(),
        forall|j: int| i <= j < skip_ws(s, i) ==> is_ws(s[j]),
    decreases s.len() - i,
{
    if i < s.len() && is_ws(s[i]) {
        lemma_skip_ws(s, i + 1);
    }
}

/// A successful value scan ends inside the buffer, after where it began.
pub proof fn lemma_scan_value_bounds(strict_crlf: bool, s: Seq<u8>, p: int)
    requires
        0 <= p,
    ensures
        scan_value(strict_crlf, s, p) matches Ok((ve, n)) ==> p <= ve < n <= s.len(),
    decreases s.len() - p,
{
    if 0 <= p < s.len() && s[p] != CR && (s[p] != LF || (!strict_crlf && p + 1 < s.len() && is_blank(s[p + 1]))) {
        lemma_scan_value_bounds(strict_crlf, s, p + 1);
    }
}

/// A successful header parse yields ordered positions inside the buffer,
/// with a non-empty key.
pub proof fn lemma_header_spec_bounds(strict_header: bool, strict_crlf: bool, s: Seq<u8>)
    ensures
        header_spec(strict_header, strict_crlf, s) matches Ok(h) ==> 0 <= h.key_start < h.key_end
            < h.value_start <= h.value_end < h.next <= s.len(),
{
    lemma_skip_ws(s, 0);
    let ks = skip_ws(s, 0);
    lemma_find_from(s, ks, COLON);
    if let Some(c) = find_from(s, ks, COLON) {
        lemma_skip_ws(s, c + 1);
        lemma_scan_value_bounds(strict_crlf, s, skip_ws(s, c + 1));
    }
}

fn skip_spaces(data: &[u8], start: usize) -> (r: usize)
    requires
        start <= data@.len(),
    ensures
        r as int == skip_ws(data@, start as int),
{
    let mut i: usize = start;
    while i < data.len() && (data[i] == 32 || data[i] == 9 || data[i] == CR || data[i] == LF)
        invariant
            start <= i <= data@.len(),
            skip_ws(data@, start as int) == skip_ws(data@, i as int),
        decreases data@.len() - i,
    {
        i = i + 1;
    }
    i
}

fn scan_value_exec(strict_crlf: bool, data: &[u8], start: usize) -> (r: Result<(usize, usize), ParseError>)
    requires
        start <= data@.len(),
    ensures
        match r {
            Ok((ve, n)) => scan_value(strict_crlf, data@, start as int) == Ok::<(int, int), ParseError>((ve as int, n as int)),
            Err(e) => scan_value(strict_crlf, data@, start as int) == Err::<(int, int), ParseError>(e),
        },
{
    let n = data.len();
    let mut p: usize = start;
    while p < n
        invariant
            n == data@.len(),
            start <= p <= n,
            scan_value(strict_crlf, data@, start as int) == scan_value(strict_crlf, data@, p as int),
        decreases n - p,
    {
        let b = data[p];
        if b == CR {
            if p + 1 >= n {
                return Err(ParseError::NeedMoreInput);
            } else if data[p + 1] != LF {
                return Err(ParseError::UnterminatedCrlf);
            } else {
                return Ok((p, p + 2));
            }
        } else if b == LF {
            if strict_crlf {
                return Err(ParseError::BareLineFeedRejected);
            }
            if p + 1 < n && (data[p + 1] == 32 || data[p + 1] == 9) {
                p = p + 1;
            } else {
                return Ok((p, p + 1));
            }
        } else {
            p = p + 1;
        }
    }
    Err(ParseError::NeedMoreInput)
}

} // verus!

verus! {

/// Parser configuration: two strictness switches, fixed once built.
#[derive(Clone, Copy, Debug)]
pub struct EmailBreaker {
    strict_header: bool,
    strict_crlf: bool,
}

impl Default for EmailBreaker {
    /// The lenient configuration: both switches off.
    fn default() -> (r: Self)
        ensures
            !r.rejects_leading_whitespace(),
            !r.rejects_bare_line_feed(),
    {
        EmailBreaker { strict_header: false, strict_crlf: false }
    }
}

impl EmailBreaker {
    /// A parser with the given switches.
    pub fn new(reject_leading_whitespace: bool, reject_bare_line_feed: bool) -> (r: Self)
        ensures
            r.rejects_leading_whitespace() == reject_leading_whitespace,
            r.rejects_bare_line_feed() == reject_bare_line_feed,
    {
        EmailBreaker { strict_header: reject_leading_whitespace, strict_crlf: reject_bare_line_feed }
    }

    /// Whether a header line that begins with whitespace before its key is
    /// rejected.
    pub closed spec fn rejects_leading_whitespace(&self) -> bool {
        self.strict_header
    }

    /// Whether a line that ends in a bare line feed instead of CR LF is
    /// rejected.
    pub closed spec fn rejects_bare_line_feed(&self) -> bool {
        self.strict_crlf
    }

    /// Whether a header line that begins with whitespace before its key is
    /// rejected.
    pub fn strict_header(&self) -> (r: bool)
        ensures
            r == self.rejects_leading_whitespace(),
    {
        self.strict_header
    }

    /// Whether a line that ends in a bare line feed instead of CR LF is
    /// rejected.
    pub fn strict_crlf(&self) -> (r: bool)
        ensures
            r == self.rejects_bare_line_feed(),
    {
        self.strict_crlf
    }

    /// What parsing one header field at the start of `s` yields under this
    /// configuration: key, value and remaining bytes.
    pub open spec fn header_outcome(&self, s: Seq<u8>) -> Result<(Seq<u8>, Seq<u8>, Seq<u8>), ParseError> {
        header_parts(self.rejects_leading_whitespace(), self.rejects_bare_line_feed(), s)
    }

    /// Parses one header field at the start of `data`. Returns the bytes after
    /// the field's terminator (after any folded lines) and the field, whose key
    /// and value are slices of `data`.
    pub fn parse_header<'a, 'b>(&'a self, data: &'b [u8]) -> (r: Result<(&'b [u8], MailHeader<'b>), ParseError>)
        ensures
            match r {
                Ok((rest, h)) => self.header_outcome(data@) == Ok::<(Seq<u8>, Seq<u8>, Seq<u8>), ParseError>(
                    (h.key@, h.value@, rest@),
                ),
                Err(e) => self.header_outcome(data@) == Err::<(Seq<u8>, Seq<u8>, Seq<u8>), ParseError>(e),
            },
    {
        let n = data.len();
        let ks = skip_spaces(data, 0);
        if self.strict_header && ks > 0 {
            return Err(ParseError::MalformedLeadingWhitespace);
        }
        proof {
            lemma_skip_ws(data@, 0);
        }
        let c = match position_from(data, ks, COLON) {
            None => {
                if position_from(data, ks, LF).is_some() || position_from(data, ks, CR).is_some() {
                    return Err(ParseError::MissingColon);
                } else {
                    return Err(ParseError::NeedMoreInput);
                }
            },
            Some(c) => c,
        };
        proof {
            lemma_find_from(data@, ks as int, COLON);
        }
        if c == ks {
            return Err(ParseError::EmptyKey);
        }
        let vs = skip_spaces(data, c + 1);
        proof {
            lemma_skip_ws(data@, c + 1);
        }
        match scan_value_exec(self.strict_crlf, data, vs) {
            Err(e) => Err(e),
            Ok((ve, next)) => {
                proof {
                    lemma_scan_value_bounds(self.strict_crlf, data@, vs as int);
                }
                let key = slice_subrange(data, ks, c);
                let value = slice_subrange(data, vs, ve);
                let rest = slice_subrange(data, next, n);
                Ok((rest, MailHeader { key, value }))
            },
        }
    }

    /// What parsing a header block at the start of `s` yields under this
    /// configuration.
    pub open spec fn block_outcome(&self, s: Seq<u8>) -> Result<(FieldViews, Seq<u8>), ParseError> {
        block_spec(self.rejects_leading_whitespace(), self.rejects_bare_line_feed(), s)
    }

    /// Parses header fields until the blank line that ends the block. Returns
    /// the bytes after that line (the body) and the fields in document order.
    /// The first field that fails to parse fails the whole block.
    pub fn parse_headers<'a, 'b>(&'a self, data: &'b [u8]) -> (r: Result<(&'b [u8], Vec<MailHeader<'b>>), ParseError>)
        ensures
            match r {
                Ok((rest, hs)) => self.block_outcome(data@) == Ok::<(FieldViews, Seq<u8>), ParseError>(
                    (hs@.map_values(|h: MailHeader<'b>| h@), rest@),
                ),
                Err(e) => self.block_outcome(data@) == Err::<(FieldViews, Seq<u8>), ParseError>(e),
            },
    {
        let mut headers: Vec<MailHeader<'b>> = Vec::new();
        let mut rest: &'b [u8] = data;
        proof {
            assert(prepend_fields(seq![], self.block_outcome(rest@)) == self.block_outcome(rest@)) by {
                if let Ok((hs, body)) = self.block_outcome(rest@) {
                    assert(Seq::<(Seq<u8>, Seq<u8>)>::empty() + hs =~= hs);
                }
            }
            assert(headers@.map_values(|h: MailHeader<'b>| h@) =~= Seq::<(Seq<u8>, Seq<u8>)>::empty());
        }
        loop
            invariant
                self.block_outcome(data@) == prepend_fields(
                    headers@.map_values(|h: MailHeader<'b>| h@),
                    self.block_outcome(rest@),
                ),
            decreases rest@.len(),
        {
            let n = rest.len();
            if n == 0 {
                return Ok((rest, headers));
            }
            if rest[0] == LF {
                let body = slice_subrange(rest, 1, n);
                return Ok((body, headers));
            }
            if rest[0] == CR {
                if n == 1 {
                    return Err(ParseError::NeedMoreInput);
                } else if rest[1] == LF {
                    let body = slice_subrange(rest, 2, n);
                    return Ok((body, headers));
                } else {
                    return Err(ParseError::UnterminatedCrlf);
                }
            }
            match self.parse_header(rest) {
                Err(e) => {
                    return Err(e);
                },
                Ok((next, h)) => {
                    proof {
                        lemma_header_spec_bounds(self.strict_header, self.strict_crlf, rest@);
                        lemma_prepend_push(
                            headers@.map_values(|h: MailHeader<'b>| h@),
                            h@,
                            self.block_outcome(next@),
                        );
                    }
                    let ghost before = headers@;
                    headers.push(h);
                    proof {
                        assert(headers@.map_values(|h: MailHeader<'b>| h@) =~= before.map_values(
                            |h: MailHeader<'b>| h@,
                        ).push(h@));
                    }
                    rest = next;
                },
            }
        }
    }
}

} // verus!
