use vstd::prelude::*;
use vstd::slice::slice_subrange;
use crate::literals::{
    date_text, get_datetime, lemma_date_read_back, lemma_time_read_back, spec_checkbox, spec_datetime,
    time_after, time_text, todo_box,
};
use crate::text::{
    decode_text, decoded, find_delim, find_delim_from, has_delim, is_trimmed, lemma_digits_of,
    lemma_find_delim, lemma_skip_ws_bounds, lemma_trim_core, pow10, skip_ws, skip_ws_from, trim,
    trim_bytes,
};
use vstd::utf8::{decode_utf8, encode_utf8, encode_utf8_decode_utf8, encode_utf8_valid_utf8, valid_utf8};
use crate::types::{DateTime, EntryModel, Item, ParseError};

verus! {

/// The optional checkbox that opens an entry, after leading whitespace: its
/// value and where the title begins.
pub open spec fn spec_title_start(s: Seq<u8>) -> (Option<bool>, int) {
    let a = skip_ws(s, 0);
    match spec_checkbox(s.subrange(a, s.len() as int)) {
        Some((n, v)) => (Some(v), a + n),
        None => (None, a),
    }
}

/// The title: the bytes before the first `;;`, trimmed and decoded, and the
/// number of bytes taken with the `;;`.
pub open spec fn spec_head(s: Seq<u8>) -> Result<(int, Seq<char>), ParseError> {
    match find_delim(s, 0) {
        None => Err(ParseError::MissingTitleDelimiter),
        Some(j) => match decoded(trim(s.subrange(0, j))) {
            Some(t) => Ok((j + 2, t)),
            None => Err(ParseError::BlockParseFailure),
        },
    }
}

/// The body: all that is left, trimmed and decoded; absent when nothing but
/// whitespace is left or the bytes are not text.
pub open spec fn spec_body(s: Seq<u8>) -> Option<Seq<char>> {
    if trim(s).len() == 0 {
        None
    } else {
        decoded(trim(s))
    }
}

/// An optional `:date-time:` section after optional whitespace: the bytes
/// taken and the stamp.
pub open spec fn spec_stamp(s: Seq<u8>) -> Option<(int, DateTime)> {
    let a = skip_ws(s, 0);
    if a < s.len() && s[a] == 58 {
        match spec_datetime(s.subrange(a + 1, s.len() as int)) {
            Some((n, dt)) => if a + 1 + n < s.len() && s[a + 1 + n] == 58 {
                Some((a + 2 + n, dt))
            } else {
                None
            },
            None => None,
        }
    } else {
        None
    }
}

/// The entry that one block's text denotes.
pub open spec fn spec_parse_item(s: Seq<u8>) -> Result<EntryModel, ParseError> {
    let (todo, p) = spec_title_start(s);
    match spec_head(s.subrange(p, s.len() as int)) {
        Err(e) => Err(e),
        Ok((n, title)) => {
            let q = p + n;
            let rest = s.subrange(q, s.len() as int);
            let (time, r) = match spec_stamp(rest) {
                Some((m, dt)) => (Some(dt), q + m),
                None => (None, q),
            };
            Ok(EntryModel { todo, title, time, body: spec_body(s.subrange(r, s.len() as int)) })
        },
    }
}

/// The checkbox as written: `[x]`, `[ ]`, or nothing.
pub open spec fn checkbox_text(todo: Option<bool>) -> Seq<u8> {
    match todo {
        None => seq![],
        Some(true) => seq![91u8, 120u8, 93u8],
        Some(false) => seq![91u8, 32u8, 93u8],
    }
}

/// The stamp as written: `:YYYY-MM-DD:` or `:YYYY-MM-DDTHH:MM:`, or nothing.
pub open spec fn stamp_text(dt: Option<DateTime>) -> Seq<u8> {
    match dt {
        None => seq![],
        Some(x) => seq![58u8] + date_text(x.year as nat, x.month as nat, x.day as nat, 45, 45) + match x.time {
            None => seq![],
            Some(t) => seq![84u8] + time_text(t.hours as nat, t.minutes as nat, true),
        } + seq![58u8],
    }
}

/// Whether every field of a stamp fits the widths it is written with.
pub open spec fn stamp_fits(dt: Option<DateTime>) -> bool {
    dt matches Some(x) ==> x.year < 10000 && x.month < 100 && x.day < 100 && (x.time matches Some(
        t,
    ) ==> t.hours < 100 && t.minutes < 100)
}

/// An entry written out: checkbox, title, `;;`, stamp and body, each pair
/// apart by a space.
pub open spec fn entry_text(todo: Option<bool>, title: Seq<u8>, dt: Option<DateTime>, body: Seq<u8>) -> Seq<u8> {
    checkbox_text(todo) + seq![32u8] + title + seq![32u8, 59u8, 59u8] + (seq![32u8] + stamp_text(dt) + seq![32u8] + body)
}

proof fn lemma_head_part(todo: Option<bool>, tb: Seq<u8>, tail: Seq<u8>)
    requires
        is_trimmed(tb),
        !has_delim(tb),
        valid_utf8(tb),
        todo is None ==> spec_checkbox(tb) is None,
    ensures
        ({
            let s = checkbox_text(todo) + seq![32u8] + tb + seq![32u8, 59u8, 59u8] + tail;
            let dd = checkbox_text(todo).len() + tb.len() + 2;
            let p = spec_title_start(s).1;
            spec_title_start(s).0 == todo && 0 <= p <= dd && spec_head(s.subrange(p, s.len() as int))
                == Ok::<(int, Seq<char>), ParseError>((dd + 2 - p, decode_utf8(tb)))
        }),
{
    let cb = checkbox_text(todo);
    let s = cb + seq![32u8] + tb + seq![32u8, 59u8, 59u8] + tail;
    let c = cb.len() as int;
    let n = tb.len() as int;
    let dd = c + n + 2;
    assert(s.len() == dd + 2 + tail.len());
    assert(forall|i: int| 0 <= i < n ==> #[trigger] s[c + 1 + i] == tb[i]);
    assert(s[c] == 32 && s[c + n + 1] == 32 && s[dd] == 59 && s[dd + 1] == 59);
    let p: int;
    if todo is Some {
        assert(s[0] == 91 && s[1] == cb[1] && s[2] == 93);
        assert(s.subrange(0, s.len() as int) =~= s);
        assert(skip_ws(s, 0) == 0);
        p = 3;
    } else if n > 0 {
        assert(s[1] == tb[0]);
        let r = s.subrange(1, s.len() as int);
        assert(r[0] == tb[0]);
        if n >= 2 {
            assert(r[1] == tb[1]);
        } else {
            assert(r[1] == 32);
        }
        if n >= 3 {
            assert(r[2] == tb[2]);
        } else if n == 2 {
            assert(r[2] == 32);
        } else {
            assert(r[2] == 59);
        }
        if n >= 3 {
            assert(tb[0] == r[0] && tb[1] == r[1] && tb[2] == r[2]);
        }
        assert(spec_checkbox(r) is None);
        assert(skip_ws(s, 1) == 1);
        assert(skip_ws(s, 0) == 1);
        p = 1;
    } else {
        assert(s[1] == 32 && s[2] == 59);
        assert(s.subrange(2, s.len() as int)[0] == 59);
        assert(skip_ws(s, 2) == 2);
        assert(skip_ws(s, 1) == 2);
        assert(skip_ws(s, 0) == 2);
        p = 2;
    }
    assert(spec_title_start(s) == (todo, p));
    let h = s.subrange(p, s.len() as int);
    lemma_find_delim(h, 0);
    assert(h[dd - p] == 59 && h[dd - p + 1] == 59);
    assert forall|i: int| p <= i < dd implies !(#[trigger] s[i] == 59 && s[i + 1] == 59) by {
        if i >= c + 1 && i + 1 < c + 1 + n {
            assert(s[i] == tb[i - c - 1] && s[i + 1] == tb[i - c]);
        } else if i >= c + 1 && i < c + 1 + n {
            assert(s[i + 1] == 32);
        } else if i == c + n + 1 {
        } else {
            assert(i < c + 1);
            if i < c {
                assert(s[i] == cb[i]);
            }
        }
    }
    if find_delim(h, 0) is Some {
        let j = find_delim(h, 0)->Some_0;
        if j < dd - p {
            assert(s[p + j] == 59 && s[p + j + 1] == 59);
        }
        assert(j == dd - p);
    }
    assert(find_delim(h, 0) == Some(dd - p));
    let x = h.subrange(0, dd - p);
    assert(x =~= s.subrange(p, dd));
    if todo is Some {
        assert(x.subrange(1, 1 + n) =~= tb);
        lemma_trim_core(x, 1, 1 + n);
    } else if n > 0 {
        assert(x.subrange(0, n) =~= tb);
        lemma_trim_core(x, 0, n);
    } else {
        assert(x.subrange(0, 0) =~= tb);
        lemma_trim_core(x, 0, 0);
    }
}

/// The body that written bytes stand for: none when there are none.
pub open spec fn body_of(bb: Seq<u8>) -> Option<Seq<char>> {
    if bb.len() == 0 {
        None
    } else {
        Some(decode_utf8(bb))
    }
}

proof fn lemma_tail_without_stamp(bb: Seq<u8>)
    requires
        is_trimmed(bb),
        valid_utf8(bb),
        spec_stamp(bb) is None,
    ensures
        ({
            let tail = seq![32u8, 32u8] + bb;
            spec_stamp(tail) is None && spec_body(tail) == body_of(bb)
        }),
{
    let tail = seq![32u8, 32u8] + bb;
    let nb = bb.len() as int;
    assert(forall|i: int| 0 <= i < nb ==> #[trigger] tail[2 + i] == bb[i]);
    assert(tail.subrange(2, 2 + nb) =~= bb);
    lemma_trim_core(tail, 2, 2 + nb);
    assert(skip_ws(tail, 2) == 2);
    assert(skip_ws(tail, 1) == 2);
    assert(skip_ws(tail, 0) == 2);
    if nb > 0 {
        assert(skip_ws(bb, 0) == 0);
        assert(tail.subrange(3, tail.len() as int) =~= bb.subrange(1, nb));
        if tail[2] == 58 {
            let sd = spec_datetime(bb.subrange(1, nb));
            if sd is Some {
                let k = sd->Some_0.0;
                if 3 + k < tail.len() {
                    assert(tail[3 + k] == bb[1 + k]);
                }
            }
        }
    }
}

#[verifier::rlimit(40)]
proof fn lemma_tail_with_stamp(x: DateTime, bb: Seq<u8>)
    requires
        stamp_fits(Some(x)),
        is_trimmed(bb),
        valid_utf8(bb),
    ensures
        ({
            let tail = seq![32u8] + stamp_text(Some(x)) + seq![32u8] + bb;
            spec_stamp(tail) matches Some((m, y)) && y == x && 0 <= m <= tail.len() && spec_body(
                tail.subrange(m, tail.len() as int),
            ) == body_of(bb)
        }),
{
    let tail = seq![32u8] + stamp_text(Some(x)) + seq![32u8] + bb;
    let nb = bb.len() as int;
    let tp = match x.time {
        None => Seq::<u8>::empty(),
        Some(t) => seq![84u8] + time_text(t.hours as nat, t.minutes as nat, true),
    };
    let dtext = date_text(x.year as nat, x.month as nat, x.day as nat, 45, 45);
    let after = tp + seq![58u8, 32u8] + bb;
    assert(tail =~= seq![32u8, 58u8] + dtext + after);
    assert(skip_ws(tail, 1) == 1);
    assert(skip_ws(tail, 0) == 1);
    let u = tail.subrange(2, tail.len() as int);
    assert(u =~= dtext + after);
    lemma_date_read_back(x.year as nat, x.month as nat, x.day as nat, 45, 45, after);
    match x.time {
        None => {
            assert(after[0] == 58);
            assert(time_after(after) is None);
        },
        Some(t) => {
            assert(after.drop_first() =~= time_text(t.hours as nat, t.minutes as nat, true) + (
            seq![58u8, 32u8] + bb));
            lemma_time_read_back(t.hours as nat, t.minutes as nat, true, seq![58u8, 32u8] + bb);
            assert(time_after(after) == Some((5int, t)));
        },
    }
    reveal_with_fuel(pow10, 5);
    lemma_digits_of(x.year as nat, 4);
    lemma_digits_of(x.month as nat, 2);
    lemma_digits_of(x.day as nat, 2);
    if x.time is Some {
        lemma_digits_of(x.time->Some_0.hours as nat, 2);
        lemma_digits_of(x.time->Some_0.minutes as nat, 2);
    }
    assert(dtext.len() == 10);
    let n = spec_datetime(u)->Some_0.0;
    assert(n == 10 + tp.len());
    assert(after[tp.len() as int] == 58);
    assert(tail[2 + n] == after[tp.len() as int]);
    let m = 3 + n;
    let w = tail.subrange(m, tail.len() as int);
    assert(w =~= seq![32u8] + bb);
    assert(w.subrange(1, 1 + nb) =~= bb);
    lemma_trim_core(w, 1, 1 + nb);
}

/// An entry written out as checkbox, title, `;;`, stamp and body, single
/// spaces apart, is read back as that same entry. The title and body must
/// have no whitespace at their ends and the title no `;;`; a title without a
/// checkbox must not itself start with one, and a body without a stamp must
/// not itself start with one.
pub proof fn lemma_entry_round_trip(
    todo: Option<bool>,
    title: Seq<char>,
    dt: Option<DateTime>,
    body: Seq<char>,
)
    requires
        is_trimmed(encode_utf8(title)),
        !has_delim(encode_utf8(title)),
        is_trimmed(encode_utf8(body)),
        stamp_fits(dt),
        todo is None ==> spec_checkbox(encode_utf8(title)) is None,
        dt is None ==> spec_stamp(encode_utf8(body)) is None,
    ensures
        spec_parse_item(entry_text(todo, encode_utf8(title), dt, encode_utf8(body))) == Ok::<
            EntryModel,
            ParseError,
        >(
            EntryModel {
                todo,
                title,
                time: dt,
                body: if body.len() == 0 {
                    None
                } else {
                    Some(body)
                },
            },
        ),
{
    let tb = encode_utf8(title);
    let bb = encode_utf8(body);
    encode_utf8_valid_utf8(title);
    encode_utf8_valid_utf8(body);
    encode_utf8_decode_utf8(title);
    encode_utf8_decode_utf8(body);
    let tail = seq![32u8] + stamp_text(dt) + seq![32u8] + bb;
    lemma_head_part(todo, tb, tail);
    match dt {
        Some(x) => lemma_tail_with_stamp(x, bb),
        None => {
            lemma_tail_without_stamp(bb);
            assert(tail =~= seq![32u8, 32u8] + bb);
        },
    }
    let s = entry_text(todo, tb, dt, bb);
    let dd: int = checkbox_text(todo).len() + tb.len() + 2int;
    assert(s.subrange(dd + 2, s.len() as int) =~= tail);
    if body.len() == 0 {
        assert(bb.len() == 0);
    } else {
        assert(bb.len() != 0);
    }
    match spec_stamp(tail) {
        Some((m, x)) => {
            assert(s.subrange(dd + 2 + m, s.len() as int) =~= tail.subrange(m, tail.len() as int));
        },
        None => {},
    }
}

/// Reads the title up to and with the first `;;`; gives the bytes taken and the
/// trimmed text.
pub fn item_head(input: &[u8]) -> (r: Result<(usize, String), ParseError>)
    ensures
        match r {
            Ok((n, t)) => spec_head(input@) == Ok::<(int, Seq<char>), ParseError>((n as int, t@))
                && n <= input@.len(),
            Err(e) => spec_head(input@) == Err::<(int, Seq<char>), ParseError>(e),
        },
{
    let j = match find_delim_from(input, 0) {
        Some(j) => j,
        None => return Err(ParseError::MissingTitleDelimiter),
    };
    proof {
        lemma_find_delim(input@, 0);
        assert(j + 1 < input@.len());
    }
    let len = input.len();
    assert(j + 2 <= len);
    let t = trim_bytes(slice_subrange(input, 0, j));
    match decode_text(t) {
        Some(s) => Ok((j + 2, s)),
        None => Err(ParseError::BlockParseFailure),
    }
}

/// Reads the body: all of `input`, trimmed; `None` when that is empty or not
/// text.
pub fn item_body(input: &[u8]) -> (r: Option<String>)
    ensures
        match r {
            Some(b) => spec_body(input@) == Some(b@),
            None => spec_body(input@) is None,
        },
{
    let b = trim_bytes(input);
    if b.len() == 0 {
        None
    } else {
        decode_text(b)
    }
}

/// Reads an optional `:date-time:` section; gives the bytes taken and the stamp.
fn stamp(input: &[u8]) -> (r: Option<(usize, DateTime)>)
    ensures
        match r {
            Some((n, dt)) => spec_stamp(input@) == Some((n as int, dt)) && n <= input@.len(),
            None => spec_stamp(input@) is None,
        },
{
    let a = skip_ws_from(input, 0);
    proof {
        lemma_skip_ws_bounds(input@, 0);
    }
    if a < input.len() && input[a] == 58 {
        let tail = slice_subrange(input, a + 1, input.len());
        match get_datetime(tail) {
            Ok((n, dt)) => {
                if n < input.len() - a - 1 && input[a + 1 + n] == 58 {
                    Some((a + 2 + n, dt))
                } else {
                    None
                }
            },
            Err(_) => None,
        }
    } else {
        None
    }
}

/// Parses the text of one block into an entry: optional checkbox, title ended
/// by `;;`, optional `:date-time:` and optional body.
pub fn parse_item(input: &[u8]) -> (r: Result<Item, ParseError>)
    ensures
        match r {
            Ok(item) => spec_parse_item(input@) == Ok::<EntryModel, ParseError>(item.model())
                && item.children@.len() == 0,
            Err(e) => spec_parse_item(input@) == Err::<EntryModel, ParseError>(e),
        },
{
    let a = skip_ws_from(input, 0);
    proof {
        lemma_skip_ws_bounds(input@, 0);
    }
    let (todo, p) = match todo_box(slice_subrange(input, a, input.len())) {
        Ok((n, v)) => (Some(v), a + n),
        Err(_) => (None, a),
    };
    let (n, title) = match item_head(slice_subrange(input, p, input.len())) {
        Ok(h) => h,
        Err(e) => return Err(e),
    };
    let q = p + n;
    let (time, r) = match stamp(slice_subrange(input, q, input.len())) {
        Some((m, dt)) => (Some(dt), q + m),
        None => (None, q),
    };
    let description = item_body(slice_subrange(input, r, input.len()));
    Ok(Item { todo, text: title, time, description, children: Vec::new() })
}

} // verus!
