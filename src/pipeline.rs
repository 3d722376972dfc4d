//! The response rewrite rules: which bodies are rewritten, and how the
//! `Location` and `Content-Length` headers follow.

use vstd::prelude::*;
use vstd::string::StringSliceAdditionalSpecFns;
use bytes::Bytes;
use crate::rewriter::{
    bytes_held, bytes_len, downgraded, feed, lemma_feed_concat, lemma_feed_downgrades, lemma_feed_keeps_output, secure_at, secure_prefix, plain_prefix, url_rewriter,
    RewriterModel, State, BYTE_H, BYTE_T, BYTE_P, BYTE_S, BYTE_COLON, BYTE_SLASH,
};

verus! {

pub const BYTE_SEMICOLON: u8 = 59;

/// One header of a response: its name and its raw value.
pub struct HeaderField {
    pub name: Vec<u8>,
    pub value: Vec<u8>,
}

/// `b` with an ASCII upper-case letter turned to lower case.
pub open spec fn ascii_lower(b: u8) -> u8 {
    if 65 <= b && b <= 90 {
        (b + 32) as u8
    } else {
        b
    }
}

/// Equal up to ASCII case.
pub open spec fn same_ignoring_case(a: Seq<u8>, b: Seq<u8>) -> bool {
    a.len() == b.len() && forall|i: int| 0 <= i < a.len() ==> ascii_lower(a[i]) == ascii_lower(b[i])
}

/// The header name `location`.
pub open spec fn location_name() -> Seq<u8> {
    seq![108u8, 111, 99, 97, 116, 105, 111, 110]
}

/// The header name `content-type`.
pub open spec fn content_type_name() -> Seq<u8> {
    seq![99u8, 111, 110, 116, 101, 110, 116, 45, 116, 121, 112, 101]
}

/// The header name `content-length`.
pub open spec fn content_length_name() -> Seq<u8> {
    seq![99u8, 111, 110, 116, 101, 110, 116, 45, 108, 101, 110, 103, 116, 104]
}

/// A content type with its parameters cut off: the bytes before the first `;`.
pub open spec fn media_type(ct: Seq<u8>) -> Seq<u8>
    decreases ct.len(),
{
    if ct.len() == 0 {
        ct
    } else if ct[0] == BYTE_SEMICOLON {
        Seq::empty()
    } else {
        seq![ct[0]] + media_type(ct.skip(1))
    }
}

/// The decimal digits of `n`, most significant first.
pub open spec fn decimal(n: nat) -> Seq<u8>
    decreases n,
{
    if n < 10 {
        seq![(48 + n) as u8]
    } else {
        decimal(n / 10).push((48 + n % 10) as u8)
    }
}

/// Header `i` is the first one named `content-type`.
pub open spec fn first_content_type_at(hs: Seq<HeaderField>, i: int) -> bool {
    &&& 0 <= i < hs.len()
    &&& same_ignoring_case(hs[i].name@, content_type_name())
    &&& forall|j: int| 0 <= j < i ==> !same_ignoring_case(hs[j].name@, content_type_name())
}

/// Some header is named `content-length`.
pub open spec fn has_content_length(hs: Seq<HeaderField>) -> bool {
    exists|j: int| 0 <= j < hs.len() && same_ignoring_case(#[trigger] hs[j].name@, content_length_name())
}

/// The value a header has after the response is adjusted: a `Location`
/// has `https://` replaced by `http://`; a `Content-Length` takes the new
/// body length where the body was rewritten.
pub open spec fn adjusted_value(h: HeaderField, new_len: Option<nat>) -> Seq<u8> {
    if same_ignoring_case(h.name@, location_name()) {
        downgraded(h.value@)
    } else if new_len is Some && same_ignoring_case(h.name@, content_length_name()) {
        decimal(new_len->0)
    } else {
        h.value@
    }
}

fn lower(b: u8) -> (r: u8)
    ensures
        r == ascii_lower(b),
{
    if 65 <= b && b <= 90 {
        b + 32
    } else {
        b
    }
}

/// Whether the first `len` bytes of `a` equal `b` up to ASCII case.
fn prefix_same_ignoring_case(a: &[u8], len: usize, b: &[u8]) -> (r: bool)
    requires
        len <= a@.len(),
    ensures
        r == same_ignoring_case(a@.take(len as int), b@),
{
    if len != b.len() {
        return false;
    }
    let mut i: usize = 0;
    while i < len
        invariant
            i <= len,
            len <= a@.len(),
            len == b@.len(),
            forall|j: int| 0 <= j < i ==> ascii_lower(a@[j]) == ascii_lower(b@[j]),
        decreases len - i,
    {
        if lower(a[i]) != lower(b[i]) {
            return false;
        }
        i += 1;
    }
    true
}

/// Whether `a` equals `b` up to ASCII case.
fn same_name(a: &Vec<u8>, b: &[u8]) -> (r: bool)
    ensures
        r == same_ignoring_case(a@, b@),
{
    proof {
        assert(a@.take(a@.len() as int) =~= a@);
    }
    prefix_same_ignoring_case(a.as_slice(), a.len(), b)
}

proof fn lemma_media_type(ct: Seq<u8>, j: int)
    requires
        0 <= j <= ct.len(),
        forall|i: int| 0 <= i < j ==> ct[i] != BYTE_SEMICOLON,
        j == ct.len() || ct[j] == BYTE_SEMICOLON,
    ensures
        media_type(ct) == ct.take(j),
    decreases j,
{
    if j > 0 {
        lemma_media_type(ct.skip(1), j - 1);
        assert(seq![ct[0]] + ct.skip(1).take(j - 1) =~= ct.take(j));
    } else if ct.len() > 0 {
        assert(ct.take(0) =~= Seq::<u8>::empty());
    }
}

/// Where the media type of a content type ends.
fn media_type_end(ct: &[u8]) -> (r: usize)
    ensures
        r <= ct@.len(),
        ct@.take(r as int) == media_type(ct@),
{
    let mut i: usize = 0;
    while i < ct.len()
        invariant
            i <= ct@.len(),
            forall|j: int| 0 <= j < i ==> ct@[j] != BYTE_SEMICOLON,
        decreases ct@.len() - i,
    {
        if ct[i] == BYTE_SEMICOLON {
            proof {
                lemma_media_type(ct@, i as int);
            }
            return i;
        }
        i += 1;
    }
    proof {
        lemma_media_type(ct@, i as int);
    }
    i
}

/// Whether `s` holds `https://` at position `i`.
fn secure_at_index(s: &[u8], i: usize) -> (r: bool)
    ensures
        r == secure_at(s@, i as int),
{
    if i > s.len() || s.len() - i < 8 {
        return false;
    }
    let r = s[i] == BYTE_H && s[i + 1] == BYTE_T && s[i + 2] == BYTE_T && s[i + 3] == BYTE_P
        && s[i + 4] == BYTE_S && s[i + 5] == BYTE_COLON && s[i + 6] == BYTE_SLASH && s[i + 7] == BYTE_SLASH;
    proof {
        let w = s@.subrange(i as int, i + 8);
        if r {
            assert(w =~= secure_prefix());
        } else if w == secure_prefix() {
            assert(w[0] == s@[i as int] && w[1] == s@[i + 1] && w[2] == s@[i + 2] && w[3] == s@[i + 3]);
            assert(w[4] == s@[i + 4] && w[5] == s@[i + 5] && w[6] == s@[i + 6] && w[7] == s@[i + 7]);
        }
    }
    r
}

/// Every `https://` in `s` replaced by `http://`, as one pass over a fully
/// known value.
pub fn replace_secure_scheme(s: &[u8]) -> (r: Vec<u8>)
    ensures
        r@ == downgraded(s@),
{
    let mut out: Vec<u8> = Vec::new();
    let mut i: usize = 0;
    proof {
        assert(s@.skip(0) =~= s@);
        assert(out@ + downgraded(s@) =~= downgraded(s@));
    }
    while i < s.len()
        invariant
            i <= s@.len(),
            out@ + downgraded(s@.skip(i as int)) == downgraded(s@),
        decreases s@.len() - i,
    {
        let rest = Ghost(s@.skip(i as int));
        if secure_at_index(s, i) {
            proof {
                assert(rest@.subrange(0, 8) =~= s@.subrange(i as int, i + 8));
                assert(rest@.skip(8) =~= s@.skip(i + 8));
            }
            out.push(BYTE_H);
            out.push(BYTE_T);
            out.push(BYTE_T);
            out.push(BYTE_P);
            out.push(BYTE_COLON);
            out.push(BYTE_SLASH);
            out.push(BYTE_SLASH);
            proof {
                let before = out@.subrange(0, out@.len() - 7);
                assert(out@ =~= before + plain_prefix());
                assert(before + (plain_prefix() + downgraded(s@.skip(i + 8)))
                    =~= before + plain_prefix() + downgraded(s@.skip(i + 8)));
            }
            i += 8;
        } else {
            proof {
                if secure_at(rest@, 0) {
                    assert(rest@.subrange(0, 8) =~= s@.subrange(i as int, i + 8));
                }
                assert(rest@.skip(1) =~= s@.skip(i + 1));
            }
            let ghost before = out@;
            out.push(s[i]);
            proof {
                assert(before + (seq![s@[i as int]] + downgraded(s@.skip(i + 1)))
                    =~= out@ + downgraded(s@.skip(i + 1)));
            }
            i += 1;
        }
    }
    proof {
        assert(s@.skip(i as int) =~= Seq::<u8>::empty());
        assert(out@ + Seq::<u8>::empty() =~= out@);
    }
    out
}

/// The decimal digits of `n`.
fn decimal_bytes(n: usize) -> (r: Vec<u8>)
    ensures
        r@ == decimal(n as nat),
    decreases n,
{
    if n < 10 {
        let d: u8 = 48 + n as u8;
        vec![d]
    } else {
        let mut v = decimal_bytes(n / 10);
        let d: u8 = 48 + (n % 10) as u8;
        v.push(d);
        v
    }
}

fn location_bytes() -> (r: Vec<u8>)
    ensures
        r@ == location_name(),
{
    let r = vec![108u8, 111, 99, 97, 116, 105, 111, 110];
    proof {
        assert(r@ =~= location_name());
    }
    r
}

fn content_type_bytes() -> (r: Vec<u8>)
    ensures
        r@ == content_type_name(),
{
    let r = vec![99u8, 111, 110, 116, 101, 110, 116, 45, 116, 121, 112, 101];
    proof {
        assert(r@ =~= content_type_name());
    }
    r
}

fn content_length_bytes() -> (r: Vec<u8>)
    ensures
        r@ == content_length_name(),
{
    let r = vec![99u8, 111, 110, 116, 101, 110, 116, 45, 108, 101, 110, 103, 116, 104];
    proof {
        assert(r@ =~= content_length_name());
    }
    r
}

/// The body with every `https://` replaced by `http://`. The whole body is
/// known, so bytes of an unfinished match at its end are kept as they are.
pub fn rewrite_body(body: Bytes) -> (r: Bytes)
    ensures
        bytes_held(r) == downgraded(bytes_held(body)),
{
    let ghost s = bytes_held(body);
    let mut body = body;
    let mut rewriter = url_rewriter();
    rewriter.consume_str(&mut body);
    rewriter.finish();
    proof {
        let fresh = RewriterModel { state: State::NotInScheme, pending: Seq::empty(), output: Seq::empty() };
        assert(secure_prefix().take(0) =~= fresh.pending);
        lemma_feed_downgrades(fresh, s);
        assert(fresh.pending + s =~= s);
        assert(fresh.output + downgraded(s) =~= downgraded(s));
    }
    rewriter.move_output()
}

/// The bytes held by each of `chunks`.
pub open spec fn chunk_bytes(chunks: Seq<Bytes>) -> Seq<Seq<u8>> {
    chunks.map_values(|b: Bytes| bytes_held(b))
}

/// A body delivered in chunks, rewritten chunk by chunk: after each input
/// chunk the output decided so far is handed out, and a last piece holds
/// the bytes of an unfinished match at the end. Taken together the pieces
/// are the whole body with every `https://` replaced by `http://`, however
/// the body was cut.
pub fn rewrite_chunks(chunks: Vec<Bytes>) -> (r: Vec<Bytes>)
    ensures
        r@.len() == chunks@.len() + 1,
        chunk_bytes(r@).flatten() == downgraded(chunk_bytes(chunks@).flatten()),
{
    let ghost input = chunk_bytes(chunks@);
    let ghost fresh = RewriterModel { state: State::NotInScheme, pending: Seq::empty(), output: Seq::empty() };
    let mut chunks = chunks;
    let mut rewriter = url_rewriter();
    let mut out: Vec<Bytes> = Vec::new();
    let n = chunks.len();
    let mut i: usize = 0;
    proof {
        assert(input.take(0) =~= Seq::<Seq<u8>>::empty());
        assert(chunk_bytes(out@) =~= Seq::<Seq<u8>>::empty());
    }
    while i < n
        invariant
            i <= n,
            n == chunks@.len(),
            n == input.len(),
            forall|j: int| i <= j < n ==> bytes_held(#[trigger] chunks@[j]) == input[j],
            out@.len() == i,
            rewriter@.output == Seq::<u8>::empty(),
            rewriter@.state == feed(fresh, input.take(i as int).flatten()).state,
            rewriter@.pending == feed(fresh, input.take(i as int).flatten()).pending,
            chunk_bytes(out@).flatten() == feed(fresh, input.take(i as int).flatten()).output,
        decreases n - i,
    {
        let ghost before = rewriter@;
        let ghost drained = chunk_bytes(out@).flatten();
        rewriter.consume_str(&mut chunks[i]);
        let piece = rewriter.move_output();
        proof {
            let x = input[i as int];
            assert(input.take(i + 1) =~= input.take(i as int).push(x));
            input.take(i as int).lemma_flatten_push(x);
            lemma_feed_concat(fresh, input.take(i as int).flatten(), x);
            let prefix_fed = feed(fresh, input.take(i as int).flatten());
            assert(prefix_fed == (RewriterModel {
                state: before.state,
                pending: before.pending,
                output: drained + before.output,
            })) by {
                assert(drained + before.output =~= drained);
            }
            lemma_feed_keeps_output(before, drained, x);
        }
        let ghost out_before = out@;
        out.push(piece);
        proof {
            assert(out@.drop_last() =~= out_before);
            assert(chunk_bytes(out@) =~= chunk_bytes(out_before).push(bytes_held(piece)));
            chunk_bytes(out_before).lemma_flatten_push(bytes_held(piece));
        }
        i += 1;
    }
    rewriter.finish();
    let last = rewriter.move_output();
    proof {
        assert(input.take(n as int) =~= input);
        assert(secure_prefix().take(0) =~= fresh.pending);
        lemma_feed_downgrades(fresh, input.flatten());
        assert(fresh.pending + input.flatten() =~= input.flatten());
        assert(fresh.output + downgraded(input.flatten()) =~= downgraded(input.flatten()));
    }
    let ghost drained = chunk_bytes(out@).flatten();
    let ghost out_before = out@;
    out.push(last);
    proof {
        assert(chunk_bytes(out@) =~= chunk_bytes(out_before).push(bytes_held(last)));
        chunk_bytes(out_before).lemma_flatten_push(bytes_held(last));
        assert(drained + (Seq::<u8>::empty() + feed(fresh, input.flatten()).pending)
            =~= feed(fresh, input.flatten()).output + feed(fresh, input.flatten()).pending);
    }
    out
}

/// The position of the first header named `content-type`, if any.
fn find_content_type(hs: &Vec<HeaderField>) -> (r: Option<usize>)
    ensures
        match r {
            Some(i) => first_content_type_at(hs@, i as int),
            None => forall|j: int| 0 <= j < hs@.len() ==> !same_ignoring_case(#[trigger] hs@[j].name@, content_type_name()),
        },
{
    let name = content_type_bytes();
    let mut i: usize = 0;
    while i < hs.len()
        invariant
            i <= hs@.len(),
            name@ == content_type_name(),
            forall|j: int| 0 <= j < i ==> !same_ignoring_case(#[trigger] hs@[j].name@, content_type_name()),
        decreases hs@.len() - i,
    {
        if same_name(&hs[i].name, name.as_slice()) {
            return Some(i);
        }
        i += 1;
    }
    None
}

/// Gives each header its adjusted value, and adds a `content-length`
/// where a new length is given and none was there.
fn adjust_headers(headers: &mut Vec<HeaderField>, new_len: Option<usize>)
    ensures
        ({
            let len_spec = match new_len { Some(n) => Some(n as nat), None => None };
            let appended = new_len is Some && !has_content_length(old(headers)@);
            &&& final(headers)@.len() == old(headers)@.len() + if appended { 1int } else { 0int }
            &&& forall|i: int| 0 <= i < old(headers)@.len() ==> {
                &&& (#[trigger] final(headers)@[i]).name@ == old(headers)@[i].name@
                &&& final(headers)@[i].value@ == adjusted_value(old(headers)@[i], len_spec)
            }
            &&& appended ==> final(headers)@[old(headers)@.len() as int].name@ == content_length_name()
                && final(headers)@[old(headers)@.len() as int].value@ == decimal(new_len->0 as nat)
        }),
{
    let ghost len_spec = match new_len { Some(n) => Some(n as nat), None => None::<nat> };
    let location = location_bytes();
    let content_length = content_length_bytes();
    let mut seen_length = false;
    let mut i: usize = 0;
    while i < headers.len()
        invariant
            i <= headers@.len(),
            headers@.len() == old(headers)@.len(),
            location@ == location_name(),
            content_length@ == content_length_name(),
            len_spec == match new_len { Some(n) => Some(n as nat), None => None::<nat> },
            seen_length == exists|j: int| 0 <= j < i && same_ignoring_case(#[trigger] old(headers)@[j].name@, content_length_name()),
            forall|j: int| i <= j < headers@.len() ==> #[trigger] headers@[j] == old(headers)@[j],
            forall|j: int| 0 <= j < i ==> {
                &&& (#[trigger] headers@[j]).name@ == old(headers)@[j].name@
                &&& headers@[j].value@ == adjusted_value(old(headers)@[j], len_spec)
            },
        decreases headers@.len() - i,
    {
        let mut field = HeaderField { name: Vec::new(), value: Vec::new() };
        headers.set_and_swap(i, &mut field);
        if same_name(&field.name, location.as_slice()) {
            field.value = replace_secure_scheme(field.value.as_slice());
        } else if same_name(&field.name, content_length.as_slice()) {
            seen_length = true;
            match new_len {
                Some(n) => {
                    field.value = decimal_bytes(n);
                },
                None => {},
            }
        }
        headers.set_and_swap(i, &mut field);
        i += 1;
    }
    match new_len {
        Some(n) => {
            if !seen_length {
                headers.push(HeaderField { name: content_length, value: decimal_bytes(n) });
            }
        },
        None => {},
    }
}

/// The media types whose bodies are rewritten, compared up to ASCII case.
pub struct MimePolicy {
    pub rewritten_mimes: Vec<&'static str>,
}

impl MimePolicy {
    /// Whether `media` is one of the listed media types, up to ASCII case.
    pub open spec fn allows(&self, media: Seq<u8>) -> bool {
        exists|k: int| 0 <= k < self.rewritten_mimes@.len()
            && same_ignoring_case(media, #[trigger] self.rewritten_mimes@[k].spec_bytes())
    }

    /// Whether a response with these headers has its body rewritten: its
    /// first `content-type` header names a listed media type.
    pub open spec fn eligible(&self, hs: Seq<HeaderField>) -> bool {
        exists|i: int| first_content_type_at(hs, i) && self.allows(media_type(#[trigger] hs[i].value@))
    }

    /// The media types of markup, scripts, styles and feeds.
    pub fn default_policy() -> (r: MimePolicy)
        ensures
            r.rewritten_mimes@ == seq![
                "text/html",
                "image/svg",
                "application/javascript",
                "application/rss+xml",
                "application/xhtml+xml",
                "text/css",
                "text/javascript",
            ],
    {
        let mut mimes: Vec<&'static str> = Vec::new();
        mimes.push("text/html");
        mimes.push("image/svg");
        mimes.push("application/javascript");
        mimes.push("application/rss+xml");
        mimes.push("application/xhtml+xml");
        mimes.push("text/css");
        mimes.push("text/javascript");
        proof {
            assert(mimes@ =~= seq![
                "text/html",
                "image/svg",
                "application/javascript",
                "application/rss+xml",
                "application/xhtml+xml",
                "text/css",
                "text/javascript",
            ]);
        }
        MimePolicy { rewritten_mimes: mimes }
    }

    /// Whether a body of this content type is rewritten: the part before
    /// the first `;` is a listed media type, up to ASCII case.
    pub fn should_rewrite(&self, content_type: &[u8]) -> (r: bool)
        ensures
            r == self.allows(media_type(content_type@)),
    {
        let end = media_type_end(content_type);
        let mut k: usize = 0;
        while k < self.rewritten_mimes.len()
            invariant
                k <= self.rewritten_mimes@.len(),
                end <= content_type@.len(),
                content_type@.take(end as int) == media_type(content_type@),
                forall|j: int| 0 <= j < k ==> !same_ignoring_case(
                    media_type(content_type@),
                    #[trigger] self.rewritten_mimes@[j].spec_bytes(),
                ),
            decreases self.rewritten_mimes@.len() - k,
        {
            let mime: &str = self.rewritten_mimes[k];
            if prefix_same_ignoring_case(content_type, end, mime.as_bytes()) {
                return true;
            }
            k += 1;
        }
        false
    }

    /// Adjusts a response: every `Location` header has `https://` replaced
    /// by `http://`; where the response is eligible, the body has every
    /// `https://` replaced and `Content-Length` gives its new length.
    /// Otherwise the body is returned as it came.
    pub fn rewrite_response(&self, headers: &mut Vec<HeaderField>, body: Bytes) -> (r: Bytes)
        ensures
            ({
                let eligible = self.eligible(old(headers)@);
                let new_len = if eligible { Some(bytes_held(r).len()) } else { None };
                let appended = eligible && !has_content_length(old(headers)@);
                &&& bytes_held(r) == if eligible { downgraded(bytes_held(body)) } else { bytes_held(body) }
                &&& final(headers)@.len() == old(headers)@.len() + if appended { 1int } else { 0int }
                &&& forall|i: int| 0 <= i < old(headers)@.len() ==> {
                    &&& (#[trigger] final(headers)@[i]).name@ == old(headers)@[i].name@
                    &&& final(headers)@[i].value@ == adjusted_value(old(headers)@[i], new_len)
                }
                &&& appended ==> final(headers)@[old(headers)@.len() as int].name@ == content_length_name()
                    && final(headers)@[old(headers)@.len() as int].value@ == decimal(bytes_held(r).len())
            }),
    {
        let eligible = match find_content_type(headers) {
            Some(i) => {
                let e = self.should_rewrite(headers[i].value.as_slice());
                proof {
                    assert forall|i2: int| first_content_type_at(headers@, i2) implies i2 == i by {
                        if i2 < i {
                            assert(!same_ignoring_case(headers@[i2].name@, content_type_name()));
                        } else if i2 > i {
                            assert(!same_ignoring_case(headers@[i as int].name@, content_type_name()));
                        }
                    }
                }
                e
            },
            None => false,
        };
        if eligible {
            let new_body = rewrite_body(body);
            let n = bytes_len(&new_body);
            adjust_headers(headers, Some(n));
            new_body
        } else {
            adjust_headers(headers, None);
            body
        }
    }
}

} // verus!
