//! The line format of the append-only tick log:
//!
//! ```text
//! tick room_count room0 room1 ... surprise0 surprise1 ...
//! ```
//!
//! Fields are separated by single spaces and each entry ends with `\n`. Room
//! and surprise values are `f64` decimal texts that the caller writes and
//! reads; reading refuses a value that `str::parse::<f64>` refuses. Opening,
//! appending to and reading the log file stay with the caller.
use vstd::prelude::*;
use vstd::slice::slice_to_vec;

use crate::persistence::csv::lemma_split_lines;
use crate::text::{
    first_of, first_of_from, lemma_first_of_concat, lemma_first_of_from_bounds, lemma_split_first,
    lemma_split_none, append_bytes, concat, decimal, is_ascii_ws, lemma_concat_append,
    lemma_concat_front, lemma_token_at, lemma_decimal_plain, lemma_parse_decimal,
    parse_unsigned, parse_unsigned_bounded, plain, plain_byte, push_decimal, slices_view,
    split_whitespace_bytes, split_at_byte, split_bytes, ws_tokens, ws_tokens_from,
};

use crate::float_text::{check_float_text, is_float_text, lemma_float_text_plain};

verus! {

/// A tick log entry as read from a line: the tick and the texts of the room
/// values and of the surprise values.
#[derive(Debug, Clone)]
pub struct TickEntryText {
    pub tick: u64,
    pub rooms: Vec<Vec<u8>>,
    pub surprises: Vec<Vec<u8>>,
}

pub open spec fn texts_v(v: Seq<Vec<u8>>) -> Seq<Seq<u8>> {
    v.map_values(|t: Vec<u8>| t@)
}

impl View for TickEntryText {
    type V = (u64, Seq<Seq<u8>>, Seq<Seq<u8>>);

    open spec fn view(&self) -> (u64, Seq<Seq<u8>>, Seq<Seq<u8>>) {
        (self.tick, texts_v(self.rooms@), texts_v(self.surprises@))
    }
}

/// Why a tick log line cannot be read.
#[derive(Debug, Clone, Copy, PartialEq, Eq, Structural)]
pub enum TickLogError {
    /// The first field is not a `u64`.
    BadTick,
    /// The second field is not a `usize`.
    BadCount,
    /// Twice the count, plus two, does not fit in a `usize`.
    CountOverflow,
    /// A room value is not a number.
    BadRoomValue,
    /// A surprise value is not a number.
    BadSurpriseValue,
}

/// Texts that `str::parse::<f64>` accepts.
pub open spec fn float_words(words: Seq<Seq<u8>>) -> bool {
    forall|k: int| 0 <= k < words.len() ==> is_float_text(#[trigger] words[k])
}

/// Each text preceded by a space.
pub open spec fn spaced(words: Seq<Seq<u8>>) -> Seq<u8> {
    concat(words.map_values(|w: Seq<u8>| seq![32u8] + w))
}

/// The text of an entry's line; the count written is the number of room values.
pub open spec fn tick_body(tick: u64, rooms: Seq<Seq<u8>>, surprises: Seq<Seq<u8>>) -> Seq<u8> {
    decimal(tick as nat) + seq![32u8] + decimal(rooms.len()) + spaced(rooms) + spaced(surprises)
}

/// The line of an entry, newline included.
pub open spec fn tick_line(tick: u64, rooms: Seq<Seq<u8>>, surprises: Seq<Seq<u8>>) -> Seq<u8> {
    tick_body(tick, rooms, surprises) + seq![10u8]
}

/// What a line reads as: `None` for a line that is skipped (fewer than two
/// fields, or fewer values than the count announces), else the tick and the
/// `count` room texts and `count` surprise texts that follow it, each of which
/// must be a number's text.
pub open spec fn tick_entry(line: Seq<u8>) -> Result<Option<(u64, Seq<Seq<u8>>, Seq<Seq<u8>>)>, TickLogError> {
    let parts = ws_tokens(line);
    if parts.len() < 2 {
        Ok(None)
    } else {
        match parse_unsigned(parts[0], u64::MAX as nat) {
            None => Err(TickLogError::BadTick),
            Some(tick) => match parse_unsigned(parts[1], usize::MAX as nat) {
                None => Err(TickLogError::BadCount),
                Some(count) => if 2 + 2 * count > usize::MAX {
                    Err(TickLogError::CountOverflow)
                } else if parts.len() < 2 + 2 * count {
                    Ok(None)
                } else if !float_words(parts.subrange(2, 2 + count as int)) {
                    Err(TickLogError::BadRoomValue)
                } else if !float_words(parts.subrange(2 + count as int, 2 + 2 * count as int)) {
                    Err(TickLogError::BadSurpriseValue)
                } else {
                    Ok(
                        Some(
                            (
                                tick as u64,
                                parts.subrange(2, 2 + count as int),
                                parts.subrange(2 + count as int, 2 + 2 * count as int),
                            ),
                        ),
                    )
                },
            },
        }
    }
}

fn push_spaced(out: &mut Vec<u8>, words: &[Vec<u8>])
    ensures
        final(out)@ == old(out)@ + spaced(texts_v(words@)),
{
    let ghost items = texts_v(words@).map_values(|w: Seq<u8>| seq![32u8] + w);
    let ghost start = old(out)@;
    let mut i: usize = 0;
    while i < words.len()
        invariant
            i <= words@.len(),
            items == texts_v(words@).map_values(|w: Seq<u8>| seq![32u8] + w),
            out@ == start + concat(items.take(i as int)),
        decreases words@.len() - i,
    {
        out.push(32);
        append_bytes(out, words[i].as_slice());
        i = i + 1;
        assert(items.take(i as int).drop_last() =~= items.take(i - 1));
        assert(out@ =~= start + concat(items.take(i as int)));
    }
    assert(items.take(i as int) =~= items);
}

/// Writes the line of an entry: the tick, the number of room values, the
/// room values and the surprise values, separated by spaces.
pub fn render_tick_line(tick: u64, rooms: &[Vec<u8>], surprises: &[Vec<u8>]) -> (out: Vec<u8>)
    ensures
        out@ == tick_line(tick, texts_v(rooms@), texts_v(surprises@)),
{
    let mut out: Vec<u8> = Vec::new();
    push_decimal(&mut out, tick);
    out.push(32);
    push_decimal(&mut out, rooms.len() as u64);
    push_spaced(&mut out, rooms);
    push_spaced(&mut out, surprises);
    out.push(10);
    assert(out@ =~= tick_line(tick, texts_v(rooms@), texts_v(surprises@)));
    out
}

fn copy_texts(parts: &Vec<&[u8]>, lo: usize, hi: usize) -> (r: Vec<Vec<u8>>)
    requires
        lo <= hi <= parts@.len(),
    ensures
        texts_v(r@) == slices_view(parts@).subrange(lo as int, hi as int),
{
    let mut r: Vec<Vec<u8>> = Vec::new();
    let mut k: usize = lo;
    while k < hi
        invariant
            lo <= k <= hi <= parts@.len(),
            texts_v(r@) == slices_view(parts@).subrange(lo as int, k as int),
        decreases hi - k,
    {
        let ghost before = r@;
        let v = slice_to_vec(parts[k]);
        assert(v@ == slices_view(parts@)[k as int]);
        r.push(v);
        assert(texts_v(r@) =~= texts_v(before).push(v@));
        k = k + 1;
        assert(texts_v(r@) =~= slices_view(parts@).subrange(lo as int, k as int));
    }
    r
}

fn float_words_exec(v: &Vec<Vec<u8>>) -> (r: bool)
    ensures
        r == float_words(texts_v(v@)),
{
    let mut k: usize = 0;
    while k < v.len()
        invariant
            k <= v@.len(),
            forall|j: int| 0 <= j < k ==> is_float_text(#[trigger] texts_v(v@)[j]),
        decreases v@.len() - k,
    {
        if !check_float_text(v[k].as_slice()) {
            assert(!is_float_text(texts_v(v@)[k as int]));
            return false;
        }
        k = k + 1;
    }
    true
}

/// Reads one line of the tick log.
pub fn parse_tick_line(line: &[u8]) -> (r: Result<Option<TickEntryText>, TickLogError>)
    ensures
        match (r, tick_entry(line@)) {
            (Ok(Some(e)), Ok(Some(v))) => e@ == v,
            (Ok(None), Ok(None)) => true,
            (Err(e), Err(f)) => e == f,
            _ => false,
        },
{
    let parts = split_whitespace_bytes(line);
    if parts.len() < 2 {
        return Ok(None);
    }
    let tick = match parse_unsigned_bounded(parts[0], u64::MAX) {
        None => return Err(TickLogError::BadTick),
        Some(t) => t,
    };
    let count = match parse_unsigned_bounded(parts[1], usize::MAX as u64) {
        None => return Err(TickLogError::BadCount),
        Some(c) => c as usize,
    };
    if count > (usize::MAX - 2) / 2 {
        return Err(TickLogError::CountOverflow);
    }
    let need = 2 + 2 * count;
    if parts.len() < need {
        return Ok(None);
    }
    let rooms = copy_texts(&parts, 2, 2 + count);
    if !float_words_exec(&rooms) {
        return Err(TickLogError::BadRoomValue);
    }
    let surprises = copy_texts(&parts, 2 + count, need);
    if !float_words_exec(&surprises) {
        return Err(TickLogError::BadSurpriseValue);
    }
    Ok(Some(TickEntryText { tick, rooms, surprises }))
}

/// What a whole log reads as: its lines are the pieces between newlines
/// (a `\r` before a newline is whitespace to the line reader, and an empty
/// last piece reads as a skipped line); skipped lines give no entry, and the
/// first line that cannot be read stops the reading.
pub open spec fn log_entries(lines: Seq<Seq<u8>>) -> Result<Seq<(u64, Seq<Seq<u8>>, Seq<Seq<u8>>)>, TickLogError>
    decreases lines.len(),
{
    if lines.len() == 0 {
        Ok(Seq::empty())
    } else {
        match log_entries(lines.drop_last()) {
            Err(e) => Err(e),
            Ok(v) => match tick_entry(lines.last()) {
                Err(e) => Err(e),
                Ok(None) => Ok(v),
                Ok(Some(x)) => Ok(v.push(x)),
            },
        }
    }
}

pub open spec fn entries_v(v: Seq<TickEntryText>) -> Seq<(u64, Seq<Seq<u8>>, Seq<Seq<u8>>)> {
    v.map_values(|e: TickEntryText| e@)
}

proof fn lemma_log_err_sticks(lines: Seq<Seq<u8>>, k: int)
    requires
        0 <= k <= lines.len(),
        log_entries(lines.take(k)) is Err,
    ensures
        log_entries(lines) == log_entries(lines.take(k)),
    decreases lines.len() - k,
{
    if k < lines.len() {
        assert(lines.take(k + 1).drop_last() =~= lines.take(k));
        lemma_log_err_sticks(lines, k + 1);
    } else {
        assert(lines.take(k) =~= lines);
    }
}

/// Reads every entry of a log's content, in order.
pub fn replay_log(content: &[u8]) -> (r: Result<Vec<TickEntryText>, TickLogError>)
    ensures
        match (r, log_entries(split_at_byte(content@, 10))) {
            (Ok(v), Ok(u)) => entries_v(v@) == u,
            (Err(e), Err(f)) => e == f,
            _ => false,
        },
{
    let lines = split_bytes(content, 10);
    let ghost all = slices_view(lines@);
    let mut out: Vec<TickEntryText> = Vec::new();
    let mut k: usize = 0;
    assert(all.take(0) =~= Seq::<Seq<u8>>::empty());
    assert(entries_v(out@) =~= Seq::<(u64, Seq<Seq<u8>>, Seq<Seq<u8>>)>::empty());
    while k < lines.len()
        invariant
            k <= lines@.len(),
            all == slices_view(lines@),
            all == split_at_byte(content@, 10),
            log_entries(all.take(k as int)) == Ok::<_, TickLogError>(entries_v(out@)),
        decreases lines@.len() - k,
    {
        let ghost t = all.take(k + 1);
        assert(t.drop_last() =~= all.take(k as int));
        assert(t.last() == lines@[k as int]@);
        match parse_tick_line(lines[k]) {
            Err(e) => {
                proof {
                    lemma_log_err_sticks(all, k + 1);
                }
                return Err(e);
            },
            Ok(None) => {},
            Ok(Some(entry)) => {
                let ghost before = out@;
                out.push(entry);
                assert(entries_v(out@) =~= entries_v(before).push(entry@));
            },
        }
        k = k + 1;
    }
    assert(all.take(k as int) =~= all);
    Ok(out)
}

// ───────────── laws ─────────────

/// Non-empty plain words.
pub open spec fn plain_words(words: Seq<Seq<u8>>) -> bool {
    forall|k: int| 0 <= k < words.len() ==> (#[trigger] words[k]).len() > 0 && plain(words[k])
}

#[verifier::spinoff_prover]
#[verifier::rlimit(40)]
proof fn lemma_spaced_tokens(s: Seq<u8>, i: int, words: Seq<Seq<u8>>)
    requires
        0 <= i,
        i + spaced(words).len() <= s.len(),
        s.subrange(i, i + spaced(words).len()) == spaced(words),
        plain_words(words),
        i + spaced(words).len() == s.len() || is_ascii_ws(s[i + spaced(words).len()]),
    ensures
        ws_tokens_from(s, i) == words + ws_tokens_from(s, i + spaced(words).len()),
    decreases words.len(),
{
    if words.len() == 0 {
        assert(words.map_values(|w: Seq<u8>| seq![32u8] + w) =~= Seq::<Seq<u8>>::empty());
        assert(spaced(words) =~= Seq::<u8>::empty());
        assert(words + ws_tokens_from(s, i) =~= ws_tokens_from(s, i));
    } else {
        let items = words.map_values(|w: Seq<u8>| seq![32u8] + w);
        lemma_concat_front(items);
        let w0 = words[0];
        let rest = words.drop_first();
        assert(items.drop_first() =~= rest.map_values(|w: Seq<u8>| seq![32u8] + w));
        let sp = spaced(words);
        let sr = spaced(rest);
        assert(sp == seq![32u8] + w0 + sr);
        assert(s[i] == sp[0]);
        assert(ws_tokens_from(s, i) == ws_tokens_from(s, i + 1));
        let sub = s.subrange(i, i + sp.len());
        assert forall|j: int| 0 <= j < w0.len() implies s[i + 1 + j] == w0[j] by {
            assert(sub[1 + j] == s[i + 1 + j]);
            assert(sp[1 + j] == w0[j]);
        }
        assert(s.subrange(i + 1, i + 1 + w0.len()) =~= w0);
        assert(w0.len() > 0 && plain(w0));
        if rest.len() > 0 {
            let items_r = rest.map_values(|w: Seq<u8>| seq![32u8] + w);
            lemma_concat_front(items_r);
            assert(sr[0] == 32);
            assert(s[i + 1 + w0.len()] == sp[1 + w0.len() as int]);
        }
        lemma_token_at(s, i + 1, w0);
        assert forall|k: int| 0 <= k < rest.len() implies (#[trigger] rest[k]).len() > 0 && plain(rest[k]) by {
            assert(rest[k] == words[k + 1]);
        }
        assert forall|j: int| 0 <= j < sr.len() implies s[i + 1 + w0.len() + j] == sr[j] by {
            assert(sub[1 + w0.len() + j] == s[i + 1 + w0.len() + j]);
            assert(sp[1 + w0.len() + j] == sr[j]);
        }
        assert(s.subrange(i + 1 + w0.len(), i + 1 + w0.len() + sr.len()) =~= sr);
        lemma_spaced_tokens(s, i + 1 + w0.len(), rest);
        assert(words =~= seq![w0] + rest);
    }
}

/// An entry the log reads back: as many surprise values as room values, every
/// value a number's text (as `f64`'s `Display` writes), and a field count
/// that fits in a `usize`.
pub open spec fn entry_ok(e: (u64, Seq<Seq<u8>>, Seq<Seq<u8>>)) -> bool {
    &&& e.1.len() == e.2.len()
    &&& 2 + 2 * e.1.len() <= usize::MAX
    &&& forall|k: int| 0 <= k < e.1.len() ==> is_float_text(#[trigger] e.1[k])
    &&& forall|k: int| 0 <= k < e.2.len() ==> is_float_text(#[trigger] e.2[k])
}

proof fn lemma_float_words_plain(words: Seq<Seq<u8>>)
    requires
        forall|k: int| 0 <= k < words.len() ==> is_float_text(#[trigger] words[k]),
    ensures
        plain_words(words),
{
    assert forall|k: int| 0 <= k < words.len() implies (#[trigger] words[k]).len() > 0 && plain(words[k]) by {
        lemma_float_text_plain(words[k]);
    }
}

/// Reading the line of an entry, with or without its newline, gives back its
/// tick, room texts and surprise texts.
pub proof fn lemma_tick_line_roundtrip(tick: u64, rooms: Seq<Seq<u8>>, surprises: Seq<Seq<u8>>)
    requires
        entry_ok((tick, rooms, surprises)),
    ensures
        tick_entry(tick_line(tick, rooms, surprises)) == Ok::<_, TickLogError>(
            Some((tick, rooms, surprises)),
        ),
        tick_entry(tick_body(tick, rooms, surprises)) == Ok::<_, TickLogError>(
            Some((tick, rooms, surprises)),
        ),
{
    lemma_tick_text_roundtrip(tick, rooms, surprises, seq![10u8]);
    lemma_tick_text_roundtrip(tick, rooms, surprises, Seq::empty());
    assert(tick_body(tick, rooms, surprises) + Seq::<u8>::empty() =~= tick_body(tick, rooms, surprises));
}

#[verifier::spinoff_prover]
#[verifier::rlimit(60)]
proof fn lemma_tick_text_roundtrip(tick: u64, rooms: Seq<Seq<u8>>, surprises: Seq<Seq<u8>>, tail: Seq<u8>)
    requires
        entry_ok((tick, rooms, surprises)),
        tail == seq![10u8] || tail == Seq::<u8>::empty(),
    ensures
        tick_entry(tick_body(tick, rooms, surprises) + tail) == Ok::<_, TickLogError>(
            Some((tick, rooms, surprises)),
        ),
{
    lemma_float_words_plain(rooms);
    lemma_float_words_plain(surprises);
    let dt = decimal(tick as nat);
    let dn = decimal(rooms.len());
    lemma_decimal_plain(tick as nat);
    lemma_decimal_plain(rooms.len());
    let rest = seq![dn] + rooms + surprises;
    assert forall|k: int| 0 <= k < rest.len() implies (#[trigger] rest[k]).len() > 0 && plain(rest[k]) by {
        if k >= 1 && k < 1 + rooms.len() {
            assert(rest[k] == rooms[k - 1]);
        } else if k >= 1 + rooms.len() {
            assert(rest[k] == surprises[k - 1 - rooms.len()]);
        }
    }
    let f = |w: Seq<u8>| seq![32u8] + w;
    assert(rest.map_values(f) =~= (seq![dn].map_values(f) + rooms.map_values(f)) + surprises.map_values(f));
    lemma_concat_append(seq![dn].map_values(f) + rooms.map_values(f), surprises.map_values(f));
    lemma_concat_append(seq![dn].map_values(f), rooms.map_values(f));
    assert(seq![dn].map_values(f) =~= seq![seq![32u8] + dn]);
    assert(seq![seq![32u8] + dn].drop_last() =~= Seq::<Seq<u8>>::empty());
    let one = seq![seq![32u8] + dn];
    assert(concat(one.drop_last()) =~= Seq::<u8>::empty());
    assert(one.last() == seq![32u8] + dn);
    assert(concat(one) =~= seq![32u8] + dn);
    let line = tick_body(tick, rooms, surprises) + tail;
    let sp = spaced(rest);
    assert(line =~= dt + sp + tail);
    assert(line.subrange(0, dt.len() as int) =~= dt);
    assert(line[dt.len() as int] == 32);
    lemma_token_at(line, 0, dt);
    assert(line.subrange(dt.len() as int, dt.len() + sp.len() as int) =~= sp);
    lemma_spaced_tokens(line, dt.len() as int, rest);
    let end = dt.len() + sp.len() as int;
    if tail.len() == 1 {
        assert(ws_tokens_from(line, end) == ws_tokens_from(line, end + 1));
        assert(ws_tokens_from(line, end + 1) == Seq::<Seq<u8>>::empty());
    } else {
        assert(ws_tokens_from(line, end) == Seq::<Seq<u8>>::empty());
    }
    let parts = ws_tokens(line);
    assert(parts =~= seq![dt] + rest);
    lemma_parse_decimal(tick as nat, u64::MAX as nat);
    lemma_parse_decimal(rooms.len(), usize::MAX as nat);
    assert(parts[0] == dt);
    assert(parts[1] == dn);
    assert(parts.subrange(2, 2 + rooms.len() as int) =~= rooms);
    assert(parts.subrange(2 + rooms.len() as int, 2 + 2 * rooms.len() as int) =~= surprises);
}

/// The log replays what it appends: the content made of the lines of these
/// entries, one after the other, reads back as the entries, in order.
pub proof fn lemma_replay_appended(entries: Seq<(u64, Seq<Seq<u8>>, Seq<Seq<u8>>)>)
    requires
        forall|k: int| 0 <= k < entries.len() ==> entry_ok(#[trigger] entries[k]),
    ensures
        log_entries(
            split_at_byte(
                concat(entries.map_values(|e: (u64, Seq<Seq<u8>>, Seq<Seq<u8>>)| tick_line(e.0, e.1, e.2))),
                10,
            ),
        ) == Ok::<_, TickLogError>(entries),
{
    let bodies = entries.map_values(|e: (u64, Seq<Seq<u8>>, Seq<Seq<u8>>)| tick_body(e.0, e.1, e.2));
    assert forall|k: int, i: int| 0 <= k < bodies.len() && 0 <= i < bodies[k].len() implies #[trigger] bodies[k][i] != 10 by {
        lemma_body_has_no_newline(entries[k]);
    }
    lemma_split_lines(bodies, Seq::empty());
    assert(bodies.map_values(|b: Seq<u8>| b + seq![10u8]) =~= entries.map_values(
        |e: (u64, Seq<Seq<u8>>, Seq<Seq<u8>>)| tick_line(e.0, e.1, e.2),
    ));
    assert(concat(entries.map_values(|e: (u64, Seq<Seq<u8>>, Seq<Seq<u8>>)| tick_line(e.0, e.1, e.2)))
        + Seq::<u8>::empty() =~= concat(
        entries.map_values(|e: (u64, Seq<Seq<u8>>, Seq<Seq<u8>>)| tick_line(e.0, e.1, e.2)),
    ));
    lemma_split_none(Seq::<u8>::empty(), 10);
    let all = bodies + seq![Seq::<u8>::empty()];
    assert(all.drop_last() =~= bodies);
    assert(ws_tokens(Seq::<u8>::empty()) == Seq::<Seq<u8>>::empty());
    lemma_bodies_read_back(entries);
}

proof fn lemma_first_of_prefix(x: Seq<u8>, y: Seq<u8>, c: u8, k: int)
    requires
        0 <= k <= x.len(),
        first_of_from(x, c, c, k) < x.len(),
    ensures
        first_of_from(x + y, c, c, k) == first_of_from(x, c, c, k),
    decreases x.len() - k,
{
    if k < x.len() && x[k] != c {
        assert((x + y)[k] == x[k]);
        lemma_first_of_prefix(x, y, c, k + 1);
    } else if k < x.len() {
        assert((x + y)[k] == x[k]);
    }
}

proof fn lemma_first_of_none(x: Seq<u8>, c: u8, k: int)
    requires
        0 <= k <= x.len(),
        first_of_from(x, c, c, k) >= x.len(),
    ensures
        forall|j: int| k <= j < x.len() ==> x[j] != c,
    decreases x.len() - k,
{
    if k < x.len() {
        lemma_first_of_none(x, c, k + 1);
    }
}

/// Splitting a text that is empty or ends with `c`, followed by more, gives
/// its pieces before the last (empty) one, then the pieces of what follows.
proof fn lemma_split_after_terminated(x: Seq<u8>, y: Seq<u8>, c: u8)
    requires
        x.len() == 0 || x.last() == c,
    ensures
        split_at_byte(x + y, c) == split_at_byte(x, c).drop_last() + split_at_byte(y, c),
    decreases x.len(),
{
    if x.len() == 0 {
        assert(x + y =~= y);
        lemma_first_of_concat(x, Seq::<u8>::empty(), c, c, 0);
        assert(split_at_byte(x, c) == seq![x]);
        assert(split_at_byte(x, c).drop_last() + split_at_byte(y, c) =~= split_at_byte(y, c));
    } else {
        let i = first_of(x, c, c);
        lemma_first_of_from_bounds(x, c, c, 0);
        if i >= x.len() {
            lemma_first_of_none(x, c, 0);
            assert(x[x.len() - 1] != c);
        }
        assert(i < x.len());
        lemma_first_of_prefix(x, y, c, 0);
        let rest = x.skip(i + 1);
        assert(rest.len() == 0 || rest.last() == c) by {
            if rest.len() > 0 {
                assert(rest.last() == x.last());
            }
        }
        lemma_split_after_terminated(rest, y, c);
        assert((x + y).take(i) =~= x.take(i));
        assert((x + y).skip(i + 1) =~= rest + y);
        let sx = split_at_byte(x, c);
        assert(sx == seq![x.take(i)] + split_at_byte(rest, c));
        assert(split_at_byte(rest, c).len() > 0);
        assert(sx.drop_last() =~= seq![x.take(i)] + split_at_byte(rest, c).drop_last());
        assert(split_at_byte(x + y, c) == seq![x.take(i)] + split_at_byte(rest + y, c));
        assert(seq![x.take(i)] + (split_at_byte(rest, c).drop_last() + split_at_byte(y, c))
            =~= sx.drop_last() + split_at_byte(y, c));
    }
}

/// Appending to the log keeps what it replays: the content of a log that
/// replays, empty or ending with a newline, followed by the line of an entry,
/// replays as the same entries and then that entry.
pub proof fn lemma_append_extends(content: Seq<u8>, e: (u64, Seq<Seq<u8>>, Seq<Seq<u8>>))
    requires
        content.len() == 0 || content.last() == 10,
        log_entries(split_at_byte(content, 10)) is Ok,
        entry_ok(e),
    ensures
        log_entries(split_at_byte(content + tick_line(e.0, e.1, e.2), 10)) == Ok::<_, TickLogError>(
            log_entries(split_at_byte(content, 10))->Ok_0.push(e),
        ),
{
    let body = tick_body(e.0, e.1, e.2);
    lemma_body_has_no_newline(e);
    lemma_split_first(body, Seq::<u8>::empty(), 10);
    lemma_split_none(Seq::<u8>::empty(), 10);
    assert(tick_line(e.0, e.1, e.2) =~= body + seq![10u8] + Seq::<u8>::empty());
    lemma_split_after_terminated(content, tick_line(e.0, e.1, e.2), 10);
    lemma_split_after_terminated(content, Seq::<u8>::empty(), 10);
    assert(content + Seq::<u8>::empty() =~= content);
    let pieces = split_at_byte(content, 10);
    let init = pieces.drop_last();
    let empty = Seq::<u8>::empty();
    assert(split_at_byte(empty, 10) == seq![empty]);
    assert(pieces == init + seq![empty]);
    assert(pieces.len() > 0);
    assert(pieces.last() == empty) by {
        assert((init + seq![empty]).last() == empty);
    }
    assert(ws_tokens(empty) == Seq::<Seq<u8>>::empty());
    assert(tick_entry(empty) == Ok::<_, TickLogError>(None::<(u64, Seq<Seq<u8>>, Seq<Seq<u8>>)>));
    assert(log_entries(pieces) == log_entries(init));
    lemma_tick_line_roundtrip(e.0, e.1, e.2);
    let line_pieces = split_at_byte(tick_line(e.0, e.1, e.2), 10);
    assert(line_pieces == seq![body] + seq![empty]);
    let all = init + line_pieces;
    assert(split_at_byte(content + tick_line(e.0, e.1, e.2), 10) == all);
    assert(all.last() == empty);
    assert(all.drop_last() =~= init.push(body));
    assert(log_entries(all) == log_entries(init.push(body)));
    assert(init.push(body).drop_last() =~= init);
    assert(init.push(body).last() == body);
}

proof fn lemma_bodies_read_back(entries: Seq<(u64, Seq<Seq<u8>>, Seq<Seq<u8>>)>)
    requires
        forall|k: int| 0 <= k < entries.len() ==> entry_ok(#[trigger] entries[k]),
    ensures
        log_entries(entries.map_values(|e: (u64, Seq<Seq<u8>>, Seq<Seq<u8>>)| tick_body(e.0, e.1, e.2)))
            == Ok::<_, TickLogError>(entries),
    decreases entries.len(),
{
    let bodies = entries.map_values(|e: (u64, Seq<Seq<u8>>, Seq<Seq<u8>>)| tick_body(e.0, e.1, e.2));
    if entries.len() == 0 {
        assert(entries =~= Seq::empty());
    } else {
        let init = entries.drop_last();
        assert forall|k: int| 0 <= k < init.len() implies entry_ok(#[trigger] init[k]) by {
            assert(init[k] == entries[k]);
        }
        lemma_bodies_read_back(init);
        assert(bodies.drop_last() =~= init.map_values(
            |e: (u64, Seq<Seq<u8>>, Seq<Seq<u8>>)| tick_body(e.0, e.1, e.2),
        ));
        let e = entries.last();
        assert(entry_ok(entries[entries.len() - 1]));
        lemma_tick_line_roundtrip(e.0, e.1, e.2);
        assert(init.push(e) =~= entries);
    }
}

proof fn lemma_body_has_no_newline(e: (u64, Seq<Seq<u8>>, Seq<Seq<u8>>))
    requires
        entry_ok(e),
    ensures
        forall|i: int| 0 <= i < tick_body(e.0, e.1, e.2).len() ==> #[trigger] tick_body(e.0, e.1, e.2)[i] != 10,
{
    lemma_float_words_plain(e.1);
    lemma_float_words_plain(e.2);
    lemma_spaced_lacks_newline(e.1);
    lemma_spaced_lacks_newline(e.2);
    lemma_decimal_plain(e.0 as nat);
    lemma_decimal_plain(e.1.len());
    let dt = decimal(e.0 as nat);
    let dn = decimal(e.1.len());
    let s1 = spaced(e.1);
    let s2 = spaced(e.2);
    let b = tick_body(e.0, e.1, e.2);
    assert forall|i: int| 0 <= i < b.len() implies #[trigger] b[i] != 10 by {
        if i < dt.len() {
            assert(plain_byte(dt[i]));
        } else if dt.len() < i < dt.len() + 1 + dn.len() {
            assert(plain_byte(dn[i - dt.len() - 1]));
        } else if dt.len() + 1 + dn.len() <= i < dt.len() + 1 + dn.len() + s1.len() {
            assert(b[i] == s1[i - dt.len() - 1 - dn.len()]);
        } else if i >= dt.len() + 1 + dn.len() + s1.len() {
            assert(b[i] == s2[i - dt.len() - 1 - dn.len() - s1.len()]);
        }
    }
}

proof fn lemma_spaced_lacks_newline(words: Seq<Seq<u8>>)
    requires
        plain_words(words),
    ensures
        forall|i: int| 0 <= i < spaced(words).len() ==> #[trigger] spaced(words)[i] != 10,
    decreases words.len(),
{
    if words.len() > 0 {
        let init = words.drop_last();
        assert forall|k: int| 0 <= k < init.len() implies (#[trigger] init[k]).len() > 0 && plain(init[k]) by {
            assert(init[k] == words[k]);
        }
        lemma_spaced_lacks_newline(init);
        assert(words.map_values(|w: Seq<u8>| seq![32u8] + w).drop_last() =~= init.map_values(
            |w: Seq<u8>| seq![32u8] + w,
        ));
        let w = words.last();
        assert(plain(words[words.len() - 1]));
        let s = spaced(words);
        let si = spaced(init);
        assert(s == si + (seq![32u8] + w));
        assert forall|i: int| 0 <= i < s.len() implies #[trigger] s[i] != 10 by {
            if i < si.len() {
                assert(s[i] == si[i]);
            } else if i > si.len() {
                assert(s[i] == w[i - si.len() - 1]);
                assert(plain_byte(w[i - si.len() - 1]));
            }
        }
    } else {
        assert(words.map_values(|w: Seq<u8>| seq![32u8] + w) =~= Seq::<Seq<u8>>::empty());
    }
}

} // verus!
