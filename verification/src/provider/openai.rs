//! The OpenAI-compatible downstream protocol: request addresses, credentials,
//! classification of failed responses, and decoding of the server-sent event
//! stream of a streamed completion.

use crate::error::RouterError;
use crate::health::names_of;
use crate::text::{
    chars_of, contains_seq, contains_str, copy_str, equals_at, push_char, push_str,
    split_lines, starts_with_at, string_of, strip_prefix, trim, trim_bounds,
};
use vstd::prelude::*;
use vstd::utf8::{decode_utf8, valid_utf8};

verus! {

/// The address of the chat completions operation of a provider.
pub fn chat_completions_url(endpoint: &str) -> (url: String)
    ensures
        url@ == endpoint@ + "/chat/completions"@,
{
    let mut url = copy_str(endpoint);
    push_str(&mut url, "/chat/completions");
    url
}

/// The `Authorization` header value that carries `api_key`.
pub fn bearer_token(api_key: &str) -> (value: String)
    ensures
        value@ == "Bearer "@ + api_key@,
{
    let mut value = copy_str("Bearer ");
    push_str(&mut value, api_key);
    value
}

/// The error that a failed downstream response stands for.
pub open spec fn failure_error(status: u16, body: Seq<char>, e: RouterError) -> bool {
    if status == 429 {
        e is RateLimit
    } else if contains_seq(body, "context_length"@) || contains_seq(body, "max_tokens"@) {
        e is ContextLengthExceeded
    } else {
        e matches RouterError::HttpError { status: s, body: b } && s == status && b@ == body
    }
}

/// Classifies an unsuccessful downstream response by its status and body:
/// too many requests, an exceeded context, or a plain HTTP error.
pub fn classify_failure(status: u16, body: String) -> (e: RouterError)
    ensures
        failure_error(status, body@, e),
{
    if status == 429 {
        return RouterError::RateLimit;
    }
    if contains_str(body.as_str(), "context_length") || contains_str(body.as_str(), "max_tokens") {
        return RouterError::ContextLengthExceeded;
    }
    RouterError::HttpError { status, body }
}

/// How failed responses are told apart, for every status and body: only
/// status 429 stands for a rate limit; any other status whose body mentions
/// `context_length` or `max_tokens` is an exceeded context; every other
/// failure is an HTTP error that carries exactly the response's status and
/// body, and is answered with that status where it is a valid status code.
pub proof fn law_failure_classes(status: u16, body: Seq<char>, e: RouterError)
    requires
        failure_error(status, body, e),
    ensures
        (e is RateLimit) <==> status == 429,
        (e is ContextLengthExceeded) <==> (status != 429 && (contains_seq(body, "context_length"@) || contains_seq(
            body,
            "max_tokens"@,
        ))),
        status != 429 && !contains_seq(body, "context_length"@) && !contains_seq(body, "max_tokens"@) ==> {
            &&& e matches RouterError::HttpError { status: s, body: b } && s == status && b@ == body
            &&& 100 <= status < 1000 ==> e.status_of() == status
        },
{
}

/// The text that `String::from_utf8_lossy` makes of `bytes`.
pub uninterp spec fn utf8_lossy(bytes: Seq<u8>) -> Seq<char>;

/// `String::from_utf8_lossy`, made owned.  Claims: the result is
/// `utf8_lossy(bytes)`, and on valid UTF-8 it is the decoded text.
#[verifier::external_body]
fn decode_lossy(bytes: &[u8]) -> (s: String)
    ensures
        s@ == utf8_lossy(bytes@),
        valid_utf8(bytes@) ==> s@ == decode_utf8(bytes@),
{
    String::from_utf8_lossy(bytes).into_owned()
}

/// The payload of an SSE `data` line (`data: x` or `data:x`).
pub open spec fn data_payload(line: Seq<char>) -> Option<Seq<char>> {
    match strip_prefix(line, "data: "@) {
        Some(d) => Some(d),
        None => strip_prefix(line, "data:"@),
    }
}

/// Decoding of the pieces of the buffer, in order: each piece is trimmed;
/// empty lines are skipped; a `data` line yields its payload, except that
/// `[DONE]` ends the decoding of this batch; any other line is kept for the
/// next batch, followed by a line feed.  Gives the payloads and the text kept.
pub open spec fn decode_lines(pieces: Seq<Seq<char>>) -> (Seq<Seq<char>>, Seq<char>)
    decreases pieces.len(),
{
    if pieces.len() == 0 {
        (Seq::empty(), Seq::empty())
    } else {
        let line = trim(pieces[0]);
        let rest = decode_lines(pieces.subrange(1, pieces.len() as int));
        if line.len() == 0 {
            rest
        } else {
            match data_payload(line) {
                Some(d) => if d == "[DONE]"@ {
                    (Seq::empty(), Seq::empty())
                } else {
                    (seq![d] + rest.0, rest.1)
                },
                None => (rest.0, line + seq!['\n'] + rest.1),
            }
        }
    }
}

/// Decoder of a server-sent event stream that arrives in arbitrary pieces.
pub struct SseDecoder {
    buffer: String,
}

/// The pieces `v[a..b]` for the bounds in `bounds`.
pub open spec fn pieces_of(v: Seq<char>, bounds: Seq<(usize, usize)>) -> Seq<Seq<char>> {
    Seq::new(bounds.len(), |k: int| v.subrange(bounds[k].0 as int, bounds[k].1 as int))
}

/// Every pair of `bounds` is an ordered pair of positions up to `len`.
pub open spec fn bounds_within(len: nat, bounds: Seq<(usize, usize)>) -> bool {
    forall|k: int| 0 <= k < bounds.len() ==> #[trigger] bounds[k].0 <= bounds[k].1 && bounds[k].1 <= len
}

/// Bounds of the pieces of `v` between line feeds.
#[verifier::spinoff_prover]
fn line_bounds(v: &Vec<char>) -> (bounds: Vec<(usize, usize)>)
    ensures
        pieces_of(v@, bounds@) == split_lines(v@),
        bounds_within(v@.len(), bounds@),
{
    let mut bounds: Vec<(usize, usize)> = Vec::new();
    let mut line_start: usize = 0;
    let mut i: usize = 0;
    assert(v@.take(0) =~= Seq::<char>::empty());
    assert(pieces_of(v@, bounds@).push(v@.subrange(0, 0)) =~= split_lines(v@.take(0)));
    while i < v.len()
        invariant
            i <= v@.len(),
            line_start <= i,
            bounds_within(v@.len(), bounds@),
            split_lines(v@.take(i as int)) == pieces_of(v@, bounds@).push(v@.subrange(line_start as int, i as int)),
        decreases v@.len() - i,
    {
        let ghost prev = pieces_of(v@, bounds@);
        assert(v@.take(i + 1).drop_last() == v@.take(i as int));
        assert(v@.take(i + 1).last() == v@[i as int]);
        if v[i] == '\n' {
            bounds.push((line_start, i));
            assert(pieces_of(v@, bounds@) =~= prev.push(v@.subrange(line_start as int, i as int)));
            line_start = i + 1;
            assert(v@.subrange(line_start as int, i + 1) =~= Seq::<char>::empty());
            assert(split_lines(v@.take(i + 1)) == split_lines(v@.take(i as int)).push(Seq::<char>::empty()));
            assert(pieces_of(v@, bounds@).push(v@.subrange(line_start as int, i + 1)) =~= split_lines(v@.take(i + 1)));
        } else {
            assert(v@.subrange(line_start as int, i + 1) == v@.subrange(line_start as int, i as int).push(v@[i as int]));
            assert(pieces_of(v@, bounds@).push(v@.subrange(line_start as int, i + 1)) =~= split_lines(v@.take(i + 1)));
        }
        i += 1;
    }
    let ghost prev = pieces_of(v@, bounds@);
    let ghost before = bounds@;
    bounds.push((line_start, v.len()));
    assert(v@.take(v@.len() as int) == v@);
    assert(pieces_of(v@, bounds@) =~= prev.push(v@.subrange(line_start as int, v@.len() as int)));
    assert forall|k: int| 0 <= k < bounds@.len() implies #[trigger] bounds@[k].0 <= bounds@[k].1 && bounds@[k].1 <= v@.len() by {
        if k < bounds@.len() - 1 {
            assert(bounds@[k] == before[k]);
        }
    }
    assert(bounds_within(v@.len(), bounds@));
    bounds
}

impl SseDecoder {
    /// The text received but not yet decoded.
    pub closed spec fn pending(&self) -> Seq<char> {
        self.buffer@
    }

    pub fn new() -> (d: Self)
        ensures
            d.pending() == Seq::<char>::empty(),
    {
        SseDecoder { buffer: String::new() }
    }

    /// Decodes the lines of the pending text followed by `text`; gives the
    /// `data` payloads in order and keeps the other lines pending.
    pub fn feed_text(&mut self, text: &str) -> (payloads: Vec<String>)
        ensures
            (names_of(payloads@), final(self).pending()) == decode_lines(split_lines(old(self).pending() + text@)),
    {
        let mut all = chars_of(self.buffer.as_str());
        let extra = chars_of(text);
        let mut t: usize = 0;
        while t < extra.len()
            invariant
                t <= extra@.len(),
                all@ == old(self).buffer@ + extra@.subrange(0, t as int),
            decreases extra@.len() - t,
        {
            all.push(extra[t]);
            assert(extra@.subrange(0, t + 1) == extra@.subrange(0, t as int).push(extra@[t as int]));
            t += 1;
        }
        assert(extra@.subrange(0, extra@.len() as int) == extra@);
        assert(extra@ == text@);
        let bounds = line_bounds(&all);
        let ghost pieces = pieces_of(all@, bounds@);
        let data_sp = chars_of("data: ");
        let data_nsp = chars_of("data:");
        let done = chars_of("[DONE]");
        let mut payloads: Vec<String> = Vec::new();
        let mut kept = String::new();
        let mut k: usize = 0;
        assert(pieces.subrange(0, pieces.len() as int) == pieces);
        while k < bounds.len()
            invariant
                k <= bounds@.len(),
                pieces == pieces_of(all@, bounds@),
                pieces == split_lines(all@),
                all@ == old(self).buffer@ + text@,
                bounds_within(all@.len(), bounds@),
                data_sp@ == "data: "@,
                data_nsp@ == "data:"@,
                done@ == "[DONE]"@,
                decode_lines(pieces) == (
                    names_of(payloads@) + decode_lines(pieces.subrange(k as int, pieces.len() as int)).0,
                    kept@ + decode_lines(pieces.subrange(k as int, pieces.len() as int)).1,
                ),
            decreases bounds@.len() - k,
        {
            let ghost rest = pieces.subrange(k as int, pieces.len() as int);
            assert(rest[0] == all@.subrange(bounds@[k as int].0 as int, bounds@[k as int].1 as int));
            assert(rest.subrange(1, rest.len() as int) == pieces.subrange(k + 1, pieces.len() as int));
            let (s, e) = bounds[k];
            let (a, b) = trim_bounds(&all, s, e);
            let ghost line = all@.subrange(a as int, b as int);
            if a < b {
                let mut from: usize = b;
                let mut is_data = false;
                if starts_with_at(&all, a, b, &data_sp) {
                    from = a + data_sp.len();
                    is_data = true;
                    assert(line.subrange(data_sp@.len() as int, line.len() as int) == all@.subrange(from as int, b as int));
                } else if starts_with_at(&all, a, b, &data_nsp) {
                    from = a + data_nsp.len();
                    is_data = true;
                    assert(line.subrange(data_nsp@.len() as int, line.len() as int) == all@.subrange(from as int, b as int));
                }
                if is_data {
                    if equals_at(&all, from, b, &done) {
                        assert(data_payload(line) == Some(all@.subrange(from as int, b as int)));
                        assert(decode_lines(rest) == (Seq::<Seq<char>>::empty(), Seq::<char>::empty()));
                        assert(names_of(payloads@) + Seq::<Seq<char>>::empty() =~= names_of(payloads@));
                        assert(kept@ + Seq::<char>::empty() =~= kept@);
                        self.buffer = kept;
                        return payloads;
                    }
                    let payload = string_of(&all, from, b);
                    let ghost before = payloads@;
                    let ghost pv = payload@;
                    payloads.push(payload);
                    assert(names_of(payloads@) =~= names_of(before).push(pv));
                } else {
                    let mut q = a;
                    let ghost kept_before = kept@;
                    while q < b
                        invariant
                            a <= q <= b <= all@.len(),
                            kept@ == kept_before + all@.subrange(a as int, q as int),
                        decreases b - q,
                    {
                        push_char(&mut kept, all[q]);
                        assert(all@.subrange(a as int, q + 1) == all@.subrange(a as int, q as int).push(all@[q as int]));
                        q += 1;
                    }
                    push_char(&mut kept, '\n');
                    assert(kept@ == kept_before + (line + seq!['\n']));
                }
            }
            k += 1;
        }
        assert(pieces.subrange(k as int, pieces.len() as int) =~= Seq::<Seq<char>>::empty());
        self.buffer = kept;
        payloads
    }

    /// Decodes the next bytes of the stream, read as `String::from_utf8_lossy` reads them.
    pub fn feed(&mut self, bytes: &[u8]) -> (payloads: Vec<String>)
        ensures
            (names_of(payloads@), final(self).pending()) == decode_lines(split_lines(old(self).pending() + utf8_lossy(bytes@))),
    {
        let text = decode_lossy(bytes);
        self.feed_text(text.as_str())
    }
}

} // verus!
